//! A reference count and an actor state packed into one word.
//!
//! The low two bits hold the state; the rest hold the count.  A count
//! that reaches the largest value the word holds stays there: it is
//! never increased or decreased again.  Only leaking references can take
//! a count that high, and leaking memory is safe.
use vstd::prelude::*;

verus! {

/// The life-cycle state of an actor.
#[derive(Debug, Copy, Clone, PartialEq, Eq, Structural)]
pub enum State {
    /// Calls made to the actor are queued until it is ready.
    Prep,
    /// The actor holds its state and receives calls.
    Ready,
    /// The actor's contents are gone; only the empty shell remains, until
    /// the last reference goes.
    Zombie,
}

/// The code of a state in the low bits of the word.
pub open spec fn state_code(s: State) -> usize {
    match s {
        State::Prep => 0,
        State::Ready => 1,
        State::Zombie => 2,
    }
}

/// The state that a code in the low bits stands for.
pub open spec fn code_state(c: usize) -> State {
    if c == 0 {
        State::Prep
    } else if c == 1 {
        State::Ready
    } else {
        State::Zombie
    }
}

impl State {
    /// The code of this state.
    pub fn code(self) -> (r: usize)
        ensures
            r == state_code(self),
    {
        match self {
            State::Prep => 0,
            State::Ready => 1,
            State::Zombie => 2,
        }
    }
}

/// Bits that the state takes at the bottom of the word.
pub const COUNT_SHIFT: u32 = 2;

/// What one reference adds to the word.
pub const COUNT_INC: usize = 4;

/// The largest count: where the count sticks.
pub open spec fn max_count() -> int {
    usize::MAX as int / 4
}

/// A reference count and a state, in one word.
#[derive(Copy, Clone)]
pub struct CountAndState(usize);

impl CountAndState {
    #[verifier::type_invariant]
    spec fn inv(self) -> bool {
        self.0 % 4 <= 2
    }

    /// The count of references.
    pub closed spec fn count(self) -> int {
        self.0 as int / 4
    }

    /// The state.
    pub closed spec fn state(self) -> State {
        code_state(self.0 % 4)
    }

    /// A count of zero, in the Prep state.
    pub fn new() -> (r: Self)
        ensures
            r.count() == 0,
            r.state() == State::Prep,
    {
        CountAndState(State::Prep.code())
    }

    /// One more reference, unless the count has stuck at its largest.
    pub fn inc(self) -> (r: Self)
        ensures
            r.state() == self.state(),
            r.count() == if self.count() == max_count() { self.count() } else { self.count() + 1 },
    {
        proof {
            use_type_invariant(&self);
        }
        if self.0 / COUNT_INC == usize::MAX / COUNT_INC {
            self
        } else {
            CountAndState(self.0 + COUNT_INC)
        }
    }

    /// One reference fewer, unless the count is zero or has stuck at its
    /// largest.  Also returns whether the count reached zero here.
    pub fn dec(self) -> (r: (Self, bool))
        ensures
            r.0.state() == self.state(),
            (self.count() == 0 || self.count() == max_count()) ==> r.0 == self && !r.1,
            !(self.count() == 0 || self.count() == max_count()) ==> r.0.count() == self.count() - 1
                && r.1 == (r.0.count() == 0),
    {
        proof {
            use_type_invariant(&self);
        }
        if self.0 < COUNT_INC || self.0 / COUNT_INC == usize::MAX / COUNT_INC {
            (self, false)
        } else {
            let val = self.0 - COUNT_INC;
            (CountAndState(val), val < COUNT_INC)
        }
    }

    /// The same count, with the state given.
    pub fn set_state(self, state: State) -> (r: Self)
        ensures
            r.count() == self.count(),
            r.state() == state,
    {
        let c = state.code();
        let w = (self.0 / COUNT_INC) * COUNT_INC + c;
        CountAndState(w)
    }

    /// Whether the state is Prep.
    pub fn is_prep(self) -> (r: bool)
        ensures
            r == (self.state() == State::Prep),
    {
        proof {
            use_type_invariant(&self);
        }
        self.0 % COUNT_INC == State::Prep.code()
    }

    /// Whether the state is Zombie.
    pub fn is_zombie(self) -> (r: bool)
        ensures
            r == (self.state() == State::Zombie),
    {
        proof {
            use_type_invariant(&self);
        }
        self.0 % COUNT_INC == State::Zombie.code()
    }
}

} // verus!
