//! Queue of one-shot calls waiting to run, in the order they were pushed.
//!
//! Storage is accounted in bytes as a flat arena would lay it out: each
//! item takes a machine word for its call table, padding up to the
//! item's own alignment, the item itself, then padding back up to a
//! word boundary.  Storage is a fixed-size chunk; when an item does not
//! fit, a new chunk of at least twice the size is taken, and the old
//! chunk is put first in it as one item, so that nothing is copied and
//! the order of execution is kept.
use vstd::prelude::*;
use vstd::layout::{size_of, align_of, layout_for_type_is_valid, valid_layout};
use vstd::arithmetic::power2::is_pow2;

verus! {

/// A call that can run once, given the context.
pub trait Call<S> {
    /// Whether the call may run on any context.
    spec fn ready(&self) -> bool;

    /// Whether the call, given the mutable reference `r` to the
    /// context, may end as it does: what running the call promises of the
    /// context before and after.
    spec fn ran_with(&self, r: &mut S) -> bool;

    /// Run the call, consuming it.  Some reference to a context that held
    /// what `s` held, and ends holding what `s` ends holding, is one that
    /// the call may end with.
    fn call(self: Box<Self>, s: &mut S)
        requires
            self.ready(),
        ensures
            exists|r: &mut S| #[trigger] self.ran_with(r) && mut_ref_current(r) == *old(s)
                && mut_ref_future(r) == *final(s),
    ;
}

impl<S, G: FnOnce(&mut S)> Call<S> for G {
    open spec fn ready(&self) -> bool {
        forall|t: &mut S| self.requires((t,))
    }

    open spec fn ran_with(&self, r: &mut S) -> bool {
        self.ensures((r,), ())
    }

    fn call(self: Box<Self>, s: &mut S) {
        let f = *self;
        f(s);
        proof {
            assert(exists|r: &mut S| #[trigger] call_ensures(f, (r,), ()) && mut_ref_current(r) == *old(s)
                && mut_ref_future(r) == *final(s));
            let r = choose|r: &mut S| #[trigger] call_ensures(f, (r,), ()) && mut_ref_current(r) == *old(s)
                && mut_ref_future(r) == *final(s);
            assert(f.ran_with(r));
        }
    }
}

/// A boxed one-shot call on a context of type `S`.
pub type BoxedFnOnce<S> = Box<dyn Call<S>>;

/// A boxed one-shot call, as held in queues.
#[verifier::reject_recursive_types(S)]
pub struct Callback<S>(pub BoxedFnOnce<S>);

impl<S> Callback<S> {
    /// Whether the call may run on any context.
    pub open spec fn ready(&self) -> bool {
        self.0.ready()
    }

    /// Box a closure that may run on any context.
    pub fn new<G: FnOnce(&mut S) + 'static>(g: G) -> (r: Callback<S>)
        requires
            forall|t: &mut S| g.requires((t,)),
        ensures
            r.ready(),
            forall|c: &mut S| #[trigger] r.ran_with(c) == g.ensures((c,), ()),
    {
        let b: BoxedFnOnce<S> = Box::new(g);
        Callback(b)
    }

    /// Whether the call, given the mutable reference `r` to the
    /// context, may end as it does.
    pub open spec fn ran_with(&self, r: &mut S) -> bool {
        self.0.ran_with(r)
    }

    /// Run the call on the context `s`: it ends as the call may leave it.
    pub fn run(self, s: &mut S)
        requires
            self.ready(),
        ensures
            exists|r: &mut S| #[trigger] self.ran_with(r) && mut_ref_current(r) == *old(s)
                && mut_ref_future(r) == *final(s),
    {
        let b = self.0;
        b.call(s);
        proof {
            assert(exists|r: &mut S| #[trigger] b.ran_with(r) && mut_ref_current(r) == *old(s)
                && mut_ref_future(r) == *final(s));
            let r = choose|r: &mut S| #[trigger] b.ran_with(r) && mut_ref_current(r) == *old(s)
                && mut_ref_future(r) == *final(s);
            assert(self.ran_with(r));
        }
    }
}

/// Size of the word that precedes each item.
pub open spec fn word() -> int {
    size_of::<usize>() as int
}

/// The word is four or eight bytes.
pub proof fn lemma_word()
    ensures
        is_pow2(word()),
        word() == 4 || word() == 8,
{
    broadcast use vstd::layout::layout_of_primitives;
    vstd::layout::usize_size_pow2();
    assert(usize::BITS == 32 || usize::BITS == 64);
}

/// `off` rounded up to a multiple of `align`.
pub open spec fn align_up(off: int, align: int) -> int {
    off + (align - off % align) % align
}

/// Offset just past an item of the given size and alignment that
/// starts at offset `len`, rounded up to the next word.
pub open spec fn item_end(len: int, size: int, align: int) -> int {
    align_up(align_up(len + word(), align) + size, word())
}

/// Worst-case space that an item of the given size and alignment takes,
/// whatever offset it starts at.
pub open spec fn item_req(size: int, align: int) -> int {
    align_up(align_up(word(), align) + size, word())
}

/// Largest number of bytes that a queue may hold.  Twice this is well
/// inside the address space.
pub open spec fn max_cap() -> int {
    (usize::MAX as int) / 8
}

/// Bytes that one push of a boxed call may add to the bytes used, with
/// the margin that a push needs.
pub open spec fn push_cost<S>() -> int {
    size_of::<Callback<S>>() + align_of::<Callback<S>>() + size_of::<FnOnceQueue<S>>()
        + align_of::<FnOnceQueue<S>>() + 4 * word() + INITIAL_ALLOCATION
}

/// The bytes that one push of a boxed call may add, with its margin, as
/// `push_cost` gives them: for testing a queue's room before pushes.
pub fn push_cost_exec<S: 'static>() -> (r: u128)
    ensures
        r == push_cost::<S>(),
{
    proof {
        lemma_word();
    }
    let a = core::mem::size_of::<Callback<S>>() as u128;
    let b = core::mem::align_of::<Callback<S>>() as u128;
    let c = core::mem::size_of::<FnOnceQueue<S>>() as u128;
    let d = core::mem::align_of::<FnOnceQueue<S>>() as u128;
    let w = core::mem::size_of::<usize>() as u128;
    a + b + c + d + 4 * w + INITIAL_ALLOCATION as u128
}

/// The largest number of bytes that a queue may hold, as `max_cap` gives it.
pub fn max_cap_exec() -> (r: usize)
    ensures
        r == max_cap(),
{
    usize::MAX / 8
}

/// Whether a queue with `len` bytes used has room, within `max_cap`,
/// for an item of type `T`, an old chunk held as an item, and a first
/// chunk.
pub open spec fn room_for<S, T>(len: int) -> bool {
    len + size_of::<T>() + align_of::<T>() + size_of::<FnOnceQueue<S>>()
        + align_of::<FnOnceQueue<S>>() + 4 * word() + INITIAL_ALLOCATION <= max_cap()
}

/// Round `off` up to a multiple of `pow2`, a power of two.
pub fn align_off(off: usize, pow2: usize) -> (r: usize)
    requires
        pow2 > 0,
        off + pow2 <= usize::MAX,
    ensures
        r == align_up(off as int, pow2 as int),
        r >= off,
        r < off + pow2,
        r % pow2 == 0,
{
    let rem: usize = off % pow2;
    let inc: usize = (pow2 - rem) % pow2;
    proof {
        if rem == 0 {
            vstd::arithmetic::div_mod::lemma_mod_self_0(pow2 as int);
            assert(inc == 0);
        } else {
            vstd::arithmetic::div_mod::lemma_small_mod((pow2 - rem) as nat, pow2 as nat);
            assert(inc == pow2 - rem);
            assert((off + inc) % (pow2 as int) == 0) by {
                vstd::arithmetic::div_mod::lemma_fundamental_div_mod(off as int, pow2 as int);
                vstd::arithmetic::div_mod::lemma_mod_multiples_basic(off as int / pow2 as int + 1, pow2 as int);
                assert(off + inc == (off as int / pow2 as int + 1) * pow2 as int) by (nonlinear_arith)
                    requires
                        off as int == (pow2 as int) * (off as int / pow2 as int) + rem as int,
                        inc as int == pow2 as int - rem as int;
            }
        }
    }
    off + inc
}

/// The first of `p`, `2p`, `4p`, ... that is not below `x`.
pub open spec fn pow2_at_least(p: int, x: int) -> int
    decreases (if p < x { x - p } else { 0 }),
{
    if p <= 0 || p >= x {
        p
    } else {
        pow2_at_least(2 * p, x)
    }
}

/// Smallest power of two that is not below `x`.
pub fn next_power_of_two(x: usize) -> (r: usize)
    requires
        x <= usize::MAX / 2 + 1,
    ensures
        r == pow2_at_least(1, x as int),
        is_pow2(r as int),
        r >= x,
        r == 1 || r / 2 < x,
        r == 1 || r < 2 * x,
{
    let mut p: usize = 1;
    proof {
        reveal(is_pow2);
    }
    while p < x
        invariant
            is_pow2(p as int),
            p >= 1,
            p == 1 || p / 2 < x,
            p == 1 || p % 2 == 0,
            x <= usize::MAX / 2 + 1,
            pow2_at_least(p as int, x as int) == pow2_at_least(1, x as int),
        decreases usize::MAX - p,
    {
        proof {
            assert(is_pow2(2 * p as int)) by {
                assert((2 * p as int) % 2 == 0);
                assert((2 * p as int) / 2 == p as int);
                reveal(is_pow2);
            }
        }
        p = p * 2;
    }
    p
}

/// Of two powers of two, the larger is a multiple of the smaller.
pub proof fn lemma_pow2_divides(x: int, y: int)
    requires
        is_pow2(x),
        is_pow2(y),
        x <= y,
    ensures
        y % x == 0,
    decreases y,
{
    reveal(is_pow2);
    if x == y {
        vstd::arithmetic::div_mod::lemma_mod_self_0(x);
    } else if x == 1 {
    } else {
        lemma_pow2_divides(x / 2, y / 2);
        let k = (y / 2) / (x / 2);
        vstd::arithmetic::div_mod::lemma_fundamental_div_mod(y / 2, x / 2);
        assert(y == k * x) by (nonlinear_arith)
            requires
                y / 2 == (x / 2) * k + 0,
                y % 2 == 0,
                x % 2 == 0,
                y == 2 * (y / 2),
                x == 2 * (x / 2);
        vstd::arithmetic::div_mod::lemma_mod_multiples_basic(k, x);
    }
}

/// `align_up` gives the least multiple of `align` not below `off`.
pub proof fn lemma_align_up(off: int, align: int)
    requires
        off >= 0,
        align > 0,
    ensures
        align_up(off, align) >= off,
        align_up(off, align) < off + align,
        align_up(off, align) % align == 0,
        off % align == 0 ==> align_up(off, align) == off,
{
    let rem = off % align;
    vstd::arithmetic::div_mod::lemma_fundamental_div_mod(off, align);
    if rem == 0 {
        vstd::arithmetic::div_mod::lemma_mod_self_0(align);
    } else {
        assert((align - rem) % align == align - rem) by {
            vstd::arithmetic::div_mod::lemma_small_mod((align - rem) as nat, align as nat);
        }
        let q = off / align;
        assert(off + (align - rem) == (q + 1) * align) by (nonlinear_arith)
            requires
                off == align * q + rem;
        vstd::arithmetic::div_mod::lemma_mod_multiples_basic(q + 1, align);
    }
}

/// Rounding up is monotonic.
pub proof fn lemma_align_up_monotonic(a: int, b: int, align: int)
    requires
        0 <= a <= b,
        align > 0,
    ensures
        align_up(a, align) <= align_up(b, align),
{
    lemma_align_up(a, align);
    lemma_align_up(b, align);
    let ra = align_up(a, align);
    let rb = align_up(b, align);
    if ra > rb {
        // rb is a multiple of align, at least a, and below ra: so ra is not least
        let qa = ra / align;
        let qb = rb / align;
        vstd::arithmetic::div_mod::lemma_fundamental_div_mod(ra, align);
        vstd::arithmetic::div_mod::lemma_fundamental_div_mod(rb, align);
        assert(qb < qa) by (nonlinear_arith)
            requires
                ra == align * qa,
                rb == align * qb,
                rb < ra,
                align > 0;
        assert(rb <= ra - align) by (nonlinear_arith)
            requires
                ra == align * qa,
                rb == align * qb,
                qb <= qa - 1,
                align > 0;
        assert(false);
    }
}

/// Adding a multiple of `align` commutes with rounding up.
pub proof fn lemma_align_up_shift(base: int, off: int, align: int)
    requires
        base >= 0,
        off >= 0,
        align > 0,
        base % align == 0,
    ensures
        align_up(base + off, align) == base + align_up(off, align),
{
    vstd::arithmetic::div_mod::lemma_fundamental_div_mod(base, align);
    let q = base / align;
    assert(base == q * align) by (nonlinear_arith)
        requires base == align * q + 0;
    assert((base + off) % align == off % align) by {
        vstd::arithmetic::div_mod::lemma_mod_multiples_vanish(q, off, align);
        assert(align * q + off == base + off) by (nonlinear_arith)
            requires base == q * align;
    }
}

/// From a word-aligned offset, an item never takes more than its
/// worst-case space.
pub proof fn lemma_item_within_req(len: int, size: int, align: int)
    requires
        len >= 0,
        size >= 0,
        is_pow2(align),
        is_pow2(word()),
        len % word() == 0,
    ensures
        item_end(len, size, align) <= len + item_req(size, align),
        item_end(len, size, align) % word() == 0,
        item_end(len, size, align) >= len + word() + size,
{
    let w = word();
    assert(w > 0 && align > 0) by { reveal(is_pow2); }
    lemma_align_up(len + w, align);
    lemma_align_up(w, align);
    let x = align_up(len + w, align);
    let g = align_up(w, align);
    // x <= len + g
    if align <= w {
        lemma_pow2_divides(align, w);
        assert(len % align == 0) by {
            vstd::arithmetic::div_mod::lemma_fundamental_div_mod(w, align);
            vstd::arithmetic::div_mod::lemma_fundamental_div_mod(len, w);
            let a = w / align;
            let b = len / w;
            assert(len == (b * a) * align) by (nonlinear_arith)
                requires w == align * a + 0, len == w * b + 0;
            vstd::arithmetic::div_mod::lemma_mod_multiples_basic(b * a, align);
        }
        assert((len + w) % align == 0) by {
            lemma_align_up_shift(len, w, align);
            lemma_align_up_shift(len + w, 0, align);
        }
        assert(g == w);
        assert(x == len + w);
    } else {
        lemma_pow2_divides(w, align);
        assert(g == align) by {
            vstd::arithmetic::div_mod::lemma_small_mod(w as nat, align as nat);
            vstd::arithmetic::div_mod::lemma_small_mod((align - w) as nat, align as nat);
        }
        let r = (len + w) % align;
        if r == 0 {
            assert(x == len + w);
        } else {
            // w divides r, so r >= w
            vstd::arithmetic::div_mod::lemma_fundamental_div_mod(align, w);
            let k = align / w;
            assert(align == w * k) by { }
            assert(r % w == 0) by {
                vstd::arithmetic::div_mod::lemma_mod_mod(len + w, w, k);
                lemma_align_up_shift(len, w, w);
                vstd::arithmetic::div_mod::lemma_mod_self_0(w);
                vstd::arithmetic::div_mod::lemma_fundamental_div_mod(len, w);
                vstd::arithmetic::div_mod::lemma_mod_multiples_vanish(len / w + 1, 0, w);
                assert(w * (len / w + 1) + 0 == len + w) by (nonlinear_arith)
                    requires len == w * (len / w) + 0;
            }
            assert(r >= w) by {
                if r < w {
                    vstd::arithmetic::div_mod::lemma_small_mod(r as nat, w as nat);
                }
            }
            vstd::arithmetic::div_mod::lemma_small_mod((align - r) as nat, align as nat);
        }
    }
    assert(x <= len + g);
    lemma_align_up_monotonic(x + size, len + g + size, w);
    lemma_align_up_shift(len, g + size, w);
    lemma_align_up(x + size, w);
}

/// Offset just past an item of the given size and alignment that
/// starts at offset `len`.
pub fn item_end_exec(len: usize, size: usize, align: usize) -> (r: usize)
    requires
        is_pow2(align as int),
        len + size + align + 4 * word() <= usize::MAX,
    ensures
        r == item_end(len as int, size as int, align as int),
{
    proof {
        lemma_word();
        reveal(is_pow2);
    }
    let word: usize = core::mem::size_of::<usize>();
    let start = align_off(len + word, align);
    align_off(start + size, word)
}

/// Worst-case space that an item of the given size and alignment takes.
pub fn item_req_exec(size: usize, align: usize) -> (r: usize)
    requires
        is_pow2(align as int),
        size + align + 4 * word() <= usize::MAX,
    ensures
        r == item_req(size as int, align as int),
        r <= size + align + 2 * word(),
{
    proof {
        lemma_word();
        reveal(is_pow2);
    }
    let word: usize = core::mem::size_of::<usize>();
    let start = align_off(word, align);
    align_off(start + size, word)
}

/// A chunk of storage: the calls pushed into it, an older chunk whose
/// calls run first, and the bytes used and held.
#[verifier::reject_recursive_types(S)]
pub struct HVec<S: 'static> {
    prev: Option<Box<HVec<S>>>,
    calls: Vec<Callback<S>>,
    len: usize,
    cap: usize,
}

impl<S> HVec<S> {
    /// The calls held, oldest first, the older chunk's calls before this
    /// chunk's own.
    pub closed spec fn calls(&self) -> Seq<Callback<S>>
        decreases self,
    {
        match self.prev {
            Some(p) => p.calls() + self.calls@,
            None => self.calls@,
        }
    }

    /// Bytes used.
    pub closed spec fn spec_len(&self) -> nat {
        self.len as nat
    }

    /// Bytes held.
    pub closed spec fn spec_cap(&self) -> nat {
        self.cap as nat
    }

    /// Every call held may run; the bytes used are within those held, a
    /// whole number of words, and none exactly when nothing is held; an
    /// older chunk is never empty.
    pub closed spec fn wf(&self) -> bool
        decreases self,
    {
        &&& self.len <= self.cap
        &&& self.cap <= 2 * max_cap()
        &&& self.len as int % word() == 0
        &&& (self.len == 0 ==> self.prev.is_none() && self.calls@.len() == 0)
        &&& (self.len > 0 ==> self.prev.is_some() || self.calls@.len() > 0)
        &&& forall|i: int| 0 <= i < self.calls@.len() ==> #[trigger] self.calls@[i].ready()
        &&& match self.prev {
            Some(p) => p.wf() && p.len > 0,
            None => true,
        }
    }

    /// Every call held may run.
    pub closed spec fn all_ready(&self) -> bool {
        forall|i: int| 0 <= i < self.calls().len() ==> #[trigger] self.calls()[i].ready()
    }

    /// A consistent chunk holds calls exactly when it uses bytes, and
    /// every call it holds may run.
    pub proof fn lemma_wf(&self)
        requires
            self.wf(),
        ensures
            (self.spec_len() == 0) == (self.calls().len() == 0),
            self.all_ready(),
        decreases self,
    {
        match self.prev {
            Some(p) => {
                p.lemma_wf();
                assert forall|i: int| 0 <= i < self.calls().len() implies #[trigger] self.calls()[i].ready() by {
                    if i < p.calls().len() {
                        assert(self.calls()[i] == p.calls()[i]);
                    } else {
                        assert(self.calls()[i] == self.calls@[i - p.calls().len()]);
                    }
                }
            },
            None => {},
        }
    }

    /// A chunk with no storage.
    pub fn new() -> (r: Self)
        ensures
            r.wf(),
            r.calls() == Seq::<Callback<S>>::empty(),
            r.spec_len() == 0,
            r.spec_cap() == 0,
    {
        HVec { prev: None, calls: Vec::new(), len: 0, cap: 0 }
    }

    /// An empty chunk of `size` bytes.
    pub fn with_size(size: usize) -> (r: Self)
        requires
            size <= 2 * max_cap(),
        ensures
            r.wf(),
            r.calls() == Seq::<Callback<S>>::empty(),
            r.spec_len() == 0,
            r.spec_cap() == size,
    {
        proof {
            lemma_word();
        }
        HVec { prev: None, calls: Vec::new(), len: 0, cap: size }
    }

    /// Bytes used.
    pub fn len(&self) -> (r: usize)
        ensures
            r == self.spec_len(),
    {
        self.len
    }

    /// Bytes held.
    pub fn cap(&self) -> (r: usize)
        ensures
            r == self.spec_cap(),
    {
        self.cap
    }

    /// Push a call that takes an item of the given size and alignment,
    /// where its worst-case space is free.
    pub fn push(&mut self, item: Callback<S>, size: usize, align: usize)
        requires
            old(self).wf(),
            item.ready(),
            is_pow2(align as int),
            size + align + 4 * word() <= max_cap(),
            item_req(size as int, align as int) <= old(self).spec_cap() - old(self).spec_len(),
        ensures
            final(self).wf(),
            final(self).calls() == old(self).calls().push(item),
            final(self).spec_len() == item_end(old(self).spec_len() as int, size as int, align as int),
            final(self).spec_cap() == old(self).spec_cap(),
    {
        proof {
            lemma_word();
            lemma_item_within_req(self.len as int, size as int, align as int);
        }
        let end = item_end_exec(self.len, size, align);
        let ghost old_calls = self.calls@;
        self.calls.push(item);
        self.len = end;
        proof {
            assert(self.calls@[self.calls@.len() - 1].ready());
            assert forall|i: int| 0 <= i < self.calls@.len() implies #[trigger] self.calls@[i].ready() by {
                if i < old_calls.len() {
                    assert(self.calls@[i] == old_calls[i]);
                }
            }
            if self.prev.is_some() {
                assert(self.calls() =~= old(self).calls().push(item));
            }
        }
    }


    /// Run every call held, oldest first.  Returns the calls run, in the
    /// order they ran.  The context goes through them in turn: there is a
    /// reference for each call, that the call may end with, the first
    /// starting from the context as it was, each ending where the next
    /// starts, and the last ending where the context ends.
    fn run(self, context: &mut S) -> (ran: Ghost<Seq<Callback<S>>>)
        requires
            self.wf(),
        ensures
            ran@ == self.calls(),
            exists|rs: Seq<&mut S>| #[trigger] rs.len() == self.calls().len()
                && (forall|i: int| 0 <= i < rs.len() ==> #[trigger] self.calls()[i].ran_with(rs[i]))
                && (forall|i: int| 0 <= i < rs.len() - 1 ==> mut_ref_future(#[trigger] rs[i]) == mut_ref_current(rs[i + 1]))
                && (rs.len() == 0 ==> *final(context) == *old(context))
                && (rs.len() > 0 ==> mut_ref_current(rs[0]) == *old(context)
                    && mut_ref_future(rs[rs.len() - 1]) == *final(context)),
        decreases self,
    {
        let ghost all = self.calls();
        let ghost own = self.calls@;
        let ghost c0 = *context;
        let HVec { prev, calls, len: _, cap: _ } = self;
        let ghost mut ran: Seq<Callback<S>> = Seq::empty();
        if let Some(p) = prev {
            let r = (*p).run(context);
            proof {
                ran = r@;
            }
        }
        assert(exists|rs: Seq<&mut S>| #[trigger] rs.len() == ran.len()
            && (forall|i: int| 0 <= i < rs.len() ==> #[trigger] ran[i].ran_with(rs[i]))
            && (forall|i: int| 0 <= i < rs.len() - 1 ==> mut_ref_future(#[trigger] rs[i]) == mut_ref_current(rs[i + 1]))
            && (rs.len() == 0 ==> *context == c0)
            && (rs.len() > 0 ==> mut_ref_current(rs[0]) == c0 && mut_ref_future(rs[rs.len() - 1]) == *context)) by {
            if ran.len() == 0 {
                let e = Seq::<&mut S>::empty();
                assert(e.len() == ran.len());
            }
        }
        assert(ran + own =~= all);
        // Reverse, so that the oldest call can be taken from the end.
        let mut calls = calls;
        let mut rev: Vec<Callback<S>> = Vec::new();
        while calls.len() > 0
            invariant
                forall|i: int| 0 <= i < calls@.len() ==> #[trigger] calls@[i].ready(),
                forall|i: int| 0 <= i < rev@.len() ==> #[trigger] rev@[i].ready(),
                calls@ + rev@.reverse() == own,
            decreases calls.len(),
        {
            proof {
                let last = calls@.len() - 1;
                assert(calls@[last].ready());
            }
            let ghost before_calls = calls@;
            let ghost before_rev = rev@;
            let c = calls.pop().unwrap();
            rev.push(c);
            proof {
                assert(rev@.reverse() =~= seq![c] + before_rev.reverse());
                assert(calls@ + rev@.reverse() =~= before_calls + before_rev.reverse());
            }
        }
        assert(calls@ =~= Seq::<Callback<S>>::empty());
        assert(rev@.reverse() =~= own);
        while rev.len() > 0
            invariant
                forall|i: int| 0 <= i < rev@.len() ==> #[trigger] rev@[i].ready(),
                ran + rev@.reverse() == all,
                exists|rs: Seq<&mut S>| #[trigger] rs.len() == ran.len()
                    && (forall|i: int| 0 <= i < rs.len() ==> #[trigger] ran[i].ran_with(rs[i]))
                    && (forall|i: int| 0 <= i < rs.len() - 1 ==> mut_ref_future(#[trigger] rs[i]) == mut_ref_current(rs[i + 1]))
                    && (rs.len() == 0 ==> *context == c0)
                    && (rs.len() > 0 ==> mut_ref_current(rs[0]) == c0 && mut_ref_future(rs[rs.len() - 1]) == *context),
            decreases rev.len(),
        {
            proof {
                let last = rev@.len() - 1;
                assert(rev@[last].ready());
            }
            let ghost before_rev = rev@;
            let c = rev.pop().unwrap();
            let ghost before = *context;
            c.run(context);
            proof {
                assert(before_rev.reverse() =~= seq![c] + rev@.reverse());
                let r = choose|r: &mut S| #[trigger] c.ran_with(r) && mut_ref_current(r) == before
                    && mut_ref_future(r) == *context;
                let old_ran = ran;
                let old_rs = choose|rs: Seq<&mut S>| #[trigger] rs.len() == old_ran.len()
                    && (forall|i: int| 0 <= i < rs.len() ==> #[trigger] old_ran[i].ran_with(rs[i]))
                    && (forall|i: int| 0 <= i < rs.len() - 1 ==> mut_ref_future(#[trigger] rs[i]) == mut_ref_current(rs[i + 1]))
                    && (rs.len() == 0 ==> before == c0)
                    && (rs.len() > 0 ==> mut_ref_current(rs[0]) == c0 && mut_ref_future(rs[rs.len() - 1]) == before);
                ran = ran.push(c);
                let rs = old_rs.push(r);
                assert(ran + rev@.reverse() =~= all);
                assert forall|i: int| 0 <= i < rs.len() implies #[trigger] ran[i].ran_with(rs[i]) by {
                    if i < old_rs.len() {
                        assert(ran[i] == old_ran[i] && rs[i] == old_rs[i]);
                    }
                }
                assert forall|i: int| 0 <= i < rs.len() - 1 implies mut_ref_future(#[trigger] rs[i]) == mut_ref_current(rs[i + 1]) by {
                    assert(rs[i] == old_rs[i]);
                    if i + 1 < old_rs.len() {
                        assert(rs[i + 1] == old_rs[i + 1]);
                        assert(mut_ref_future(old_rs[i]) == mut_ref_current(old_rs[i + 1]));
                    }
                }
                assert(rs.len() == ran.len());
            }
        }
        assert(rev@.reverse() =~= Seq::<Callback<S>>::empty());
        assert(ran =~= all);
        Ghost(ran)
    }
}

/// Queue of one-shot calls on a context of type `S`, run in the order
/// they were pushed.
#[verifier::reject_recursive_types(S)]
pub struct FnOnceQueue<S: 'static> {
    storage: HVec<S>,
}

/// Size and alignment of an old chunk held as an item of a new one.
pub open spec fn chain_size<S>() -> int {
    size_of::<FnOnceQueue<S>>() as int
}

/// Alignment of an old chunk held as an item of a new one.
pub open spec fn chain_align<S>() -> int {
    align_of::<FnOnceQueue<S>>() as int
}

/// Bytes of storage used and held after pushing an item of the given
/// size and alignment into storage with `len` bytes used of `cap`.
pub open spec fn after_push<S>(len: int, cap: int, size: int, align: int) -> (int, int) {
    let req = item_req(size, align);
    if req <= cap - len {
        (item_end(len, size, align), cap)
    } else {
        let chained = len != 0;
        let req2 = if chained { req + item_req(chain_size::<S>(), chain_align::<S>()) } else { req };
        let grown = pow2_at_least(1, vstd::math::max(vstd::math::max(cap, req2) + 1, INITIAL_ALLOCATION as int));
        let base = if chained { item_end(0, chain_size::<S>(), chain_align::<S>()) } else { 0 };
        (item_end(base, size, align), grown)
    }
}

/// Size of the first chunk taken.
pub const INITIAL_ALLOCATION: usize = 1024;


impl<S> FnOnceQueue<S> {
    /// The calls waiting, in the order they will run.
    pub closed spec fn calls(&self) -> Seq<Callback<S>> {
        self.storage.calls()
    }

    /// Bytes of storage used.
    pub closed spec fn spec_len(&self) -> nat {
        self.storage.spec_len()
    }

    /// Bytes of storage held.
    pub closed spec fn spec_cap(&self) -> nat {
        self.storage.spec_cap()
    }

    /// The storage is consistent.
    pub closed spec fn wf(&self) -> bool {
        self.storage.wf()
    }

    /// A queue holds calls exactly when it uses bytes of its storage, so
    /// that it is empty just when nothing has been pushed since it was made
    /// or last run.
    pub proof fn lemma_empty_iff_unused(&self)
        requires
            self.wf(),
        ensures
            (self.calls().len() == 0) == (self.spec_len() == 0),
    {
        self.storage.lemma_wf();
    }

    /// An empty queue, with no storage taken.
    pub fn new() -> (r: Self)
        ensures
            r.wf(),
            r.calls() == Seq::<Callback<S>>::empty(),
            r.spec_len() == 0,
            r.spec_cap() == 0,
    {
        FnOnceQueue { storage: HVec::new() }
    }

    /// Push a call onto the queue.
    pub fn push<G: FnOnce(&mut S) + 'static>(&mut self, value: G)
        requires
            old(self).wf(),
            forall|t: &mut S| value.requires((t,)),
            room_for::<S, G>(old(self).spec_len() as int),
        ensures
            final(self).wf(),
            final(self).calls().len() == old(self).calls().len() + 1,
            final(self).calls().take(old(self).calls().len() as int) == old(self).calls(),
            final(self).calls().last().ready(),
            forall|r: &mut S| #[trigger] final(self).calls().last().ran_with(r) == value.ensures((r,), ()),
            (final(self).spec_len() as int, final(self).spec_cap() as int) == after_push::<S>(
                old(self).spec_len() as int,
                old(self).spec_cap() as int,
                size_of::<G>() as int,
                align_of::<G>() as int,
            ),
    {
        layout_for_type_is_valid::<G>();
        proof {
            broadcast use vstd::layout::align_properties;
            assert(is_pow2(align_of::<G>() as int));
        }
        let size = core::mem::size_of::<G>();
        let align = core::mem::align_of::<G>();
        let boxed: BoxedFnOnce<S> = Box::new(value);
        let item = Callback(boxed);
        assert(item.ready());
        assert(forall|r: &mut S| #[trigger] item.ran_with(r) == value.ensures((r,), ()));
        let ghost before = self.storage.calls();
        Self::push_aux(&mut self.storage, item, size, align);
        proof {
            assert(self.storage.calls() == before.push(item));
            assert(self.calls() == before.push(item));
            vstd::seq::axiom_seq_push_len(before, item);
            assert(before.push(item).len() == before.len() + 1);
            assert forall|i: int| 0 <= i < before.len() implies
                #[trigger] self.calls().take(before.len() as int)[i] == before[i] by {
                vstd::seq::axiom_seq_push_index_different(before, item, i);
            }
            assert(self.calls().take(before.len() as int) =~= before);
            vstd::seq::axiom_seq_push_index_same(before, item, before.len() as int);
            assert(self.calls().last() == item);
        }
    }

    /// Push a boxed call onto the queue.
    pub fn push_box(&mut self, value: BoxedFnOnce<S>)
        requires
            old(self).wf(),
            value.ready(),
            room_for::<S, Callback<S>>(old(self).spec_len() as int),
        ensures
            final(self).wf(),
            final(self).calls() == old(self).calls().push(Callback(value)),
            (final(self).spec_len() as int, final(self).spec_cap() as int) == after_push::<S>(
                old(self).spec_len() as int,
                old(self).spec_cap() as int,
                size_of::<Callback<S>>() as int,
                align_of::<Callback<S>>() as int,
            ),
    {
        self.push_callback(Callback(value));
    }

    /// Push a call, already wrapped, onto the queue.
    pub fn push_callback(&mut self, value: Callback<S>)
        requires
            old(self).wf(),
            value.ready(),
            room_for::<S, Callback<S>>(old(self).spec_len() as int),
        ensures
            final(self).wf(),
            final(self).calls() == old(self).calls().push(value),
            final(self).spec_len() <= old(self).spec_len() + push_cost::<S>(),
            (final(self).spec_len() as int, final(self).spec_cap() as int) == after_push::<S>(
                old(self).spec_len() as int,
                old(self).spec_cap() as int,
                size_of::<Callback<S>>() as int,
                align_of::<Callback<S>>() as int,
            ),
    {
        layout_for_type_is_valid::<Callback<S>>();
        proof {
            broadcast use vstd::layout::align_properties;
            assert(is_pow2(align_of::<Callback<S>>() as int));
        }
        let size = core::mem::size_of::<Callback<S>>();
        let align = core::mem::align_of::<Callback<S>>();
        Self::push_aux(&mut self.storage, value, size, align);
    }

    /// Push an item of the given size and alignment, taking a bigger
    /// chunk first if its worst-case space is not free.
    fn push_aux(hv: &mut HVec<S>, item: Callback<S>, size: usize, align: usize)
        requires
            old(hv).wf(),
            item.ready(),
            is_pow2(align as int),
            old(hv).spec_len() + size + align + size_of::<FnOnceQueue<S>>()
                + align_of::<FnOnceQueue<S>>() + 4 * word() + INITIAL_ALLOCATION <= max_cap(),
        ensures
            final(hv).wf(),
            final(hv).calls() == old(hv).calls().push(item),
            (final(hv).spec_len() as int, final(hv).spec_cap() as int) == after_push::<S>(
                old(hv).spec_len() as int,
                old(hv).spec_cap() as int,
                size as int,
                align as int,
            ),
            final(hv).spec_len() <= old(hv).spec_len() + size + align + size_of::<FnOnceQueue<S>>()
                + align_of::<FnOnceQueue<S>>() + 4 * word(),
    {
        proof {
            lemma_word();
        }
        let req = item_req_exec(size, align);
        if req > hv.cap() - hv.len() {
            Self::expand_storage(hv, req);
            proof {
                broadcast use vstd::layout::align_properties;
                lemma_item_within_req(0, chain_size::<S>(), chain_align::<S>());
                lemma_align_up(word(), chain_align::<S>());
                lemma_align_up(align_up(word(), chain_align::<S>()) + chain_size::<S>(), word());
            }
        }
        proof {
            lemma_word();
            lemma_item_within_req(hv.spec_len() as int, size as int, align as int);
            assert(align > 0) by { reveal(is_pow2); }
            lemma_align_up(word(), align as int);
            lemma_align_up(align_up(word(), align as int) + size, word());
        }
        hv.push(item, size, align);
    }

    /// Take a new chunk, big enough for `req` more bytes, with the old
    /// chunk held as its first item if the old chunk is not empty.
    fn expand_storage(hv: &mut HVec<S>, req: usize)
        requires
            old(hv).wf(),
            old(hv).spec_cap() < old(hv).spec_len() + req,
            old(hv).spec_len() + req + size_of::<FnOnceQueue<S>>() + align_of::<FnOnceQueue<S>>()
                + 2 * word() + INITIAL_ALLOCATION <= max_cap(),
        ensures
            final(hv).wf(),
            final(hv).calls() == old(hv).calls(),
            final(hv).spec_cap() - final(hv).spec_len() >= req,
            final(hv).spec_cap() == pow2_at_least(1, vstd::math::max(vstd::math::max(
                old(hv).spec_cap() as int,
                if old(hv).spec_len() != 0 {
                    req + item_req(chain_size::<S>(), chain_align::<S>())
                } else {
                    req as int
                },
            ) + 1, INITIAL_ALLOCATION as int)),
            final(hv).spec_len() == if old(hv).spec_len() != 0 {
                item_end(0, chain_size::<S>(), chain_align::<S>())
            } else {
                0
            },
    {
        layout_for_type_is_valid::<FnOnceQueue<S>>();
        proof {
            lemma_word();
            broadcast use vstd::layout::align_properties;
            assert(is_pow2(align_of::<FnOnceQueue<S>>() as int));
        }
        let push_old = hv.len() != 0;
        let chain_size = core::mem::size_of::<FnOnceQueue<S>>();
        let chain_align = core::mem::align_of::<FnOnceQueue<S>>();
        let chain_req = item_req_exec(chain_size, chain_align);
        let mut req2 = req;
        if push_old {
            req2 = req2 + chain_req;
        }
        let wanted = if hv.cap() > req2 { hv.cap() } else { req2 };
        let wanted = if wanted + 1 > INITIAL_ALLOCATION { wanted + 1 } else { INITIAL_ALLOCATION };
        let size = next_power_of_two(wanted);
        let mut chunk = HVec::with_size(size);
        core::mem::swap(hv, &mut chunk);
        if push_old {
            proof {
                lemma_item_within_req(0, chain_size as int, chain_align as int);
                chunk.lemma_wf();
            }
            let end = item_end_exec(0, chain_size, chain_align);
            hv.prev = Some(Box::new(chunk));
            hv.len = end;
            proof {
                assert(hv.calls() =~= old(hv).calls());
            }
        }
    }

    /// Whether no call is waiting.
    pub fn is_empty(&self) -> (r: bool)
        requires
            self.wf(),
        ensures
            r == (self.calls().len() == 0),
    {
        proof {
            self.storage.lemma_wf();
        }
        self.storage.len() == 0
    }

    /// Bytes of storage used.
    pub fn len(&self) -> (r: usize)
        ensures
            r == self.spec_len(),
    {
        self.storage.len()
    }

    /// Bytes of storage held.
    pub fn cap(&self) -> (r: usize)
        ensures
            r == self.spec_cap(),
    {
        self.storage.cap()
    }

    /// Run every call waiting, in the order pushed, passing each the
    /// context.  Leaves the queue empty, with its storage still held.
    /// Returns the calls run, in the order they ran.  The context goes
    /// through the calls in turn: there is a reference for each call, that
    /// the call may end with, the first starting from the context as it
    /// was, each ending where the next starts, and the last ending where
    /// the context ends.
    pub fn execute(&mut self, context: &mut S) -> (ran: Ghost<Seq<Callback<S>>>)
        requires
            old(self).wf(),
        ensures
            ran@ == old(self).calls(),
            exists|rs: Seq<&mut S>| #[trigger] rs.len() == old(self).calls().len()
                && (forall|i: int| 0 <= i < rs.len() ==> #[trigger] old(self).calls()[i].ran_with(rs[i]))
                && (forall|i: int| 0 <= i < rs.len() - 1 ==> mut_ref_future(#[trigger] rs[i]) == mut_ref_current(rs[i + 1]))
                && (rs.len() == 0 ==> *final(context) == *old(context))
                && (rs.len() > 0 ==> mut_ref_current(rs[0]) == *old(context)
                    && mut_ref_future(rs[rs.len() - 1]) == *final(context)),
            final(self).wf(),
            final(self).calls() == Seq::<Callback<S>>::empty(),
            final(self).spec_len() == 0,
            final(self).spec_cap() == old(self).spec_cap(),
    {
        let mut old_storage = HVec::with_size(self.storage.cap());
        core::mem::swap(&mut self.storage, &mut old_storage);
        old_storage.run(context)
    }
}

impl<S> Default for FnOnceQueue<S> {
    /// An empty queue, with no storage taken.
    fn default() -> (r: Self)
        ensures
            r.wf(),
            r.calls() == Seq::<Callback<S>>::empty(),
            r.spec_len() == 0,
            r.spec_cap() == 0,
    {
        FnOnceQueue::new()
    }
}

} // verus!
