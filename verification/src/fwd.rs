//! Forwarders: shared, cloneable handles to a call that takes a message.
use vstd::prelude::*;
use std::rc::Rc;

verus! {

/// A call that takes a message, and may be made any number of times.
pub trait Forward<M> {
    /// Whether the call may be made with any message.
    spec fn ready(&self) -> bool;

    /// Whether making the call with `msg` may end as it did: what the
    /// call promises when made with that message.
    spec fn ran_with(&self, msg: M) -> bool;

    /// Make the call.
    fn forward(&self, msg: M)
        requires
            self.ready(),
        ensures
            self.ran_with(msg),
    ;
}

impl<M, G: Fn(M)> Forward<M> for G {
    open spec fn ready(&self) -> bool {
        forall|m: M| self.requires((m,))
    }

    open spec fn ran_with(&self, msg: M) -> bool {
        self.ensures((msg,), ())
    }

    fn forward(&self, msg: M) {
        (self)(msg)
    }
}

/// A value shared by reference counting, without a weak count.
#[verifier::reject_recursive_types(T)]
pub struct MinRc<T> {
    rc: Rc<T>,
}

impl<T> View for MinRc<T> {
    type V = T;

    /// The shared value.
    closed spec fn view(&self) -> T {
        *self.rc
    }
}

impl<T> MinRc<T> {
    /// Share `val`.
    pub fn new(val: T) -> (r: Self)
        ensures
            r@ == val,
    {
        MinRc { rc: Rc::new(val) }
    }

    /// The shared value.
    pub fn inner(&self) -> (r: &T)
        ensures
            *r == self@,
    {
        &*self.rc
    }
}

impl<T> Clone for MinRc<T> {
    /// Another handle to the same value.
    fn clone(&self) -> (r: Self)
        ensures
            r@ == self@,
    {
        MinRc { rc: Rc::clone(&self.rc) }
    }
}

/// A shared call that takes a message.
#[verifier::reject_recursive_types(M)]
pub struct FwdRc<M> {
    rc: Rc<Box<dyn Forward<M>>>,
}

impl<M> FwdRc<M> {
    /// Whether the call may be made with any message.
    pub closed spec fn ready(&self) -> bool {
        self.rc.ready()
    }

    /// Whether making the shared call with `msg` may end as it did.
    pub closed spec fn ran_with(&self, msg: M) -> bool {
        self.rc.ran_with(msg)
    }

    /// Share the call `val`.
    pub fn new<G: Fn(M) + 'static>(val: G) -> (r: Self)
        requires
            forall|m: M| val.requires((m,)),
        ensures
            r.ready(),
            forall|m: M| #[trigger] r.ran_with(m) == val.ensures((m,), ()),
    {
        let boxed: Box<dyn Forward<M>> = Box::new(val);
        FwdRc { rc: Rc::new(boxed) }
    }

    /// The shared call.
    pub fn inner(&self) -> (r: &Box<dyn Forward<M>>)
        ensures
            r.ready() == self.ready(),
            forall|m: M| #[trigger] r.ran_with(m) == self.ran_with(m),
    {
        &*self.rc
    }
}

impl<M> Clone for FwdRc<M> {
    /// Another handle to the same call.
    fn clone(&self) -> (r: Self)
        ensures
            r.ready() == self.ready(),
            forall|m: M| #[trigger] r.ran_with(m) == self.ran_with(m),
    {
        FwdRc { rc: Rc::clone(&self.rc) }
    }
}

/// Forwards messages of type `M` to a call, such as one on an actor.
/// Cloning it shares the call.
#[verifier::reject_recursive_types(M)]
pub struct Fwd<M: 'static>(FwdRc<M>);

impl<M> Fwd<M> {
    /// Whether a message may be forwarded.
    pub closed spec fn ready(&self) -> bool {
        self.0.ready()
    }

    /// Whether forwarding `msg` may end as it did: what the call promises
    /// when made with that message.
    pub closed spec fn ran_with(&self, msg: M) -> bool {
        self.0.ran_with(msg)
    }

    /// Forward a message: make the call with it.
    pub fn fwd(&self, msg: M)
        requires
            self.ready(),
        ensures
            self.ran_with(msg),
    {
        self.0.inner().forward(msg);
    }

    /// A forwarder that makes the call `f` with each message.
    pub fn new<G: Fn(M) + 'static>(f: G) -> (r: Self)
        requires
            forall|m: M| f.requires((m,)),
        ensures
            r.ready(),
            forall|m: M| #[trigger] r.ran_with(m) == f.ensures((m,), ()),
    {
        Fwd(FwdRc::new(f))
    }
}

impl<M> Clone for Fwd<M> {
    /// Another forwarder to the same call.
    fn clone(&self) -> (r: Self)
        ensures
            r.ready() == self.ready(),
            forall|m: M| #[trigger] r.ran_with(m) == self.ran_with(m),
    {
        Fwd(self.0.clone())
    }
}

} // verus!
