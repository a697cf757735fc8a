//! The slots of the wake handlers: which wake bit a new handler gets.
//!
//! Handlers are kept in a slab, whose key is the handler's wake bit.  The
//! first bit of each bitmap is kept for the handler that deals with
//! dropped wakers, so when a new handler's key lands on such a bit, that
//! slot takes the drop handler and the new handler takes another slot.
//! Each slot holds a plain value that stands for its handler: the number
//! by which the caller finds the handler itself, or a mark for the drop
//! handler.
use vstd::prelude::*;
use slab::Slab;
use crate::waker::{bitmap_size, bitmap_size_exec, is_drop_bit};

verus! {

#[verifier::external_type_specification]
#[verifier::external_body]
#[verifier::reject_recursive_types(T)]
pub struct ExSlab<T>(Slab<T>);

/// What a slot of the handler slab stands for.
#[derive(Copy, Clone, Debug, PartialEq, Eq, Structural)]
pub enum WakeSlot {
    /// A wake handler, by the number its owner finds it by.
    Handler(u64),
    /// The handler of dropped wakers, at the first bit of a bitmap.
    DropHandler,
}

/// The values held in a slab, by key.
pub uninterp spec fn wake_slots(s: Slab<WakeSlot>) -> Map<usize, WakeSlot>;

/// The number of entries of a slab, held or vacant: every key that has
/// been given out is below it.
pub uninterp spec fn slab_extent(s: Slab<WakeSlot>) -> nat;

/// `Slab::new`: a slab with no entries, so holding nothing.
#[verifier::external_body]
fn slab_new() -> (r: Slab<WakeSlot>)
    ensures
        forall|k: usize| !(#[trigger] wake_slots(r).contains_key(k)),
        slab_extent(r) == 0,
{
    Slab::new()
}

/// `Slab::insert`: stores `v` at the slab's next vacant key, which is a
/// vacant entry below the extent, or the extent itself, which then grows
/// by one.  What it does when the entries' storage would pass `isize::MAX`
/// bytes (it panics) is left unsaid, as for a `Vec` that grows.
#[verifier::external_body]
fn slot_insert(s: &mut Slab<WakeSlot>, v: WakeSlot) -> (k: usize)
    ensures
        !wake_slots(*old(s)).contains_key(k),
        wake_slots(*final(s)) == wake_slots(*old(s)).insert(k, v),
        k <= slab_extent(*old(s)),
        k < slab_extent(*old(s)) ==> slab_extent(*final(s)) == slab_extent(*old(s)),
        k == slab_extent(*old(s)) ==> slab_extent(*final(s)) == slab_extent(*old(s)) + 1,
{
    s.insert(v)
}

/// `Slab::get_mut` on a held key, and `mem::replace` of its value:
/// stores `v` there and returns what was there.
#[verifier::external_body]
fn slot_replace(s: &mut Slab<WakeSlot>, k: usize, v: WakeSlot) -> (was: WakeSlot)
    requires
        wake_slots(*old(s)).contains_key(k),
    ensures
        was == wake_slots(*old(s))[k],
        wake_slots(*final(s)) == wake_slots(*old(s)).insert(k, v),
        slab_extent(*final(s)) == slab_extent(*old(s)),
{
    core::mem::replace(s.get_mut(k).unwrap(), v)
}

/// `Slab::try_remove`: takes the value out of a held key, leaving the
/// entry vacant; `None` and no change for a key not held.
#[verifier::external_body]
fn slot_remove(s: &mut Slab<WakeSlot>, k: usize) -> (r: Option<WakeSlot>)
    ensures
        r == (if wake_slots(*old(s)).contains_key(k) { Some(wake_slots(*old(s))[k]) } else { None }),
        wake_slots(*final(s)) == wake_slots(*old(s)).remove(k),
        slab_extent(*final(s)) == slab_extent(*old(s)),
{
    s.try_remove(k)
}

/// The slots agree with the bitmaps: every key given out is below the
/// extent; the first bit of every bitmap below it holds the drop
/// handler, and every other key held holds a wake handler.
pub open spec fn slots_ok(m: Map<usize, WakeSlot>, extent: nat) -> bool {
    &&& forall|j: usize| #![trigger m.contains_key(j)] m.contains_key(j) ==> j < extent
    &&& forall|j: usize| #![trigger m.contains_key(j)] (j < extent && (j as int) % bitmap_size() == 0) ==>
        (m.contains_key(j) && m[j] == WakeSlot::DropHandler)
    &&& forall|j: usize| #![trigger m.contains_key(j)] (m.contains_key(j) && (j as int) % bitmap_size() != 0) ==>
        m[j] is Handler
}

/// The slots of a slab agree with the bitmaps.
pub open spec fn slab_ok(s: Slab<WakeSlot>) -> bool {
    slots_ok(wake_slots(s), slab_extent(s))
}

/// A slab of handler slots holding nothing.
pub fn new_handler_slots() -> (s: Slab<WakeSlot>)
    ensures
        slab_ok(s),
        wake_slots(s) == Map::<usize, WakeSlot>::empty(),
{
    slab_new()
}

/// The first bit of the bitmap that `b` is in.
pub open spec fn bitmap_base(b: int) -> int {
    b - b % bitmap_size()
}

/// Take a slot for the wake handler numbered `h`, returning its wake bit.
/// When the slab's next key is the first bit of a bitmap, that slot takes
/// the drop handler and the handler takes the following key.  `None` when
/// the key passes `u32::MAX`, which does not happen while the slab's
/// extent is below it; the handler is then held at that key.
pub fn add_handler_slot(s: &mut Slab<WakeSlot>, h: u64) -> (bit: Option<u32>)
    requires
        slab_ok(*old(s)),
    ensures
        slab_ok(*final(s)),
        slab_extent(*old(s)) < u32::MAX ==> bit is Some,
        forall|j: usize| #[trigger] wake_slots(*old(s)).contains_key(j) ==>
            wake_slots(*final(s)).contains_key(j) && wake_slots(*final(s))[j] == wake_slots(*old(s))[j],
        bit matches Some(b) ==> {
            &&& !is_drop_bit_at(b as int)
            &&& !wake_slots(*old(s)).contains_key(b as usize)
            &&& wake_slots(*final(s))[b as usize] == WakeSlot::Handler(h)
            &&& wake_slots(*final(s))[bitmap_base(b as int) as usize] == WakeSlot::DropHandler
            &&& forall|j: usize| #[trigger] wake_slots(*final(s)).contains_key(j) ==>
                wake_slots(*old(s)).contains_key(j) || j == b || wake_slots(*final(s))[j] == WakeSlot::DropHandler
        },
        bit is None ==> exists|k: usize| k > u32::MAX && #[trigger] wake_slots(*final(s)).contains_key(k)
            && wake_slots(*final(s))[k] == WakeSlot::Handler(h),
{
    let size = bitmap_size_exec() as usize;
    let ghost m0 = wake_slots(*s);
    let ghost e0 = slab_extent(*s);
    let k = slot_insert(s, WakeSlot::Handler(h));
    let ghost m1 = wake_slots(*s);
    let ghost e1 = slab_extent(*s);
    proof {
        lemma_base(k as int);
    }
    if k % size != 0 {
        proof {
            // The first bit of `k`'s bitmap is below it, so below the old
            // extent, where the drop handler holds it.
            assert(size as int == bitmap_size());
            assert((k as int) % bitmap_size() != 0);
            assert(bitmap_base(k as int) < k);
            assert(k <= e0);
            let base = bitmap_base(k as int) as usize;
            assert(base as int == bitmap_base(k as int));
            assert(base < e0);
            assert((base as int) % bitmap_size() == 0);
            lemma_drop_held(m0, e0, base);
            lemma_take_key(m0, e0, k, WakeSlot::Handler(h), e1);
        }
        if k > u32::MAX as usize {
            assert(wake_slots(*s).contains_key(k));
            return None;
        }
        return Some(k as u32);
    }
    proof {
        // No first bit of a bitmap is vacant below the extent.
        if k < e0 {
            assert(m0.contains_key(k));
        }
        assert(k == e0);
    }
    // The slot takes the drop handler, and the handler the next key.
    let was = slot_replace(s, k, WakeSlot::DropHandler);
    let ghost m2 = wake_slots(*s);
    let k2 = slot_insert(s, was);
    let ghost m3 = wake_slots(*s);
    let ghost e3 = slab_extent(*s);
    proof {
        lemma_base(k2 as int);
        lemma_take_key(m0, e0, k, WakeSlot::DropHandler, e1);
        assert(m2 =~= m0.insert(k, WakeSlot::DropHandler));
        if k2 < e1 {
            assert(k2 as int % bitmap_size() != 0) by {
                if k2 as int % bitmap_size() == 0 {
                    assert(m2.contains_key(k2));
                }
            }
        } else {
            assert(k2 == k + 1);
            assert((k + 1) as int % bitmap_size() == 1) by {
                vstd::arithmetic::div_mod::lemma_fundamental_div_mod(k as int, bitmap_size());
                vstd::arithmetic::div_mod::lemma_fundamental_div_mod_converse(
                    k as int + 1, bitmap_size(), k as int / bitmap_size(), 1);
            }
        }
        let base = bitmap_base(k2 as int) as usize;
        assert(base < e1);
        assert((base as int) % bitmap_size() == 0);
        lemma_drop_held(m2, e1, base);
        lemma_take_key(m2, e1, k2, was, e3);
    }
    if k2 > u32::MAX as usize {
        assert(wake_slots(*s).contains_key(k2));
        return None;
    }
    Some(k2 as u32)
}

/// Taking a vacant key for a value that suits it keeps the slots
/// agreeing with the bitmaps.
proof fn lemma_take_key(m: Map<usize, WakeSlot>, e: nat, k: usize, v: WakeSlot, e2: nat)
    requires
        slots_ok(m, e),
        !m.contains_key(k),
        k <= e,
        e2 == (if k == e { e + 1 } else { e }),
        (k as int) % bitmap_size() == 0 ==> v == WakeSlot::DropHandler,
        (k as int) % bitmap_size() != 0 ==> v is Handler,
    ensures
        slots_ok(m.insert(k, v), e2),
{
    let m2 = m.insert(k, v);
    assert forall|j: usize| #![trigger m2.contains_key(j)] m2.contains_key(j) implies j < e2 by {
        if j != k {
            assert(m.contains_key(j));
        }
    }
    assert forall|j: usize| #![trigger m2.contains_key(j)] (j < e2 && (j as int) % bitmap_size() == 0) implies
        (m2.contains_key(j) && m2[j] == WakeSlot::DropHandler) by {
        if j != k {
            lemma_drop_held(m, e, j);
        }
    }
    assert forall|j: usize| #![trigger m2.contains_key(j)] (m2.contains_key(j) && (j as int) % bitmap_size() != 0) implies
        m2[j] is Handler by {
        if j != k {
            assert(m.contains_key(j));
        }
    }
}

/// Below the extent, the first bit of every bitmap holds the drop handler.
proof fn lemma_drop_held(m: Map<usize, WakeSlot>, e: nat, j: usize)
    requires
        slots_ok(m, e),
        j < e,
        (j as int) % bitmap_size() == 0,
    ensures
        m.contains_key(j),
        m[j] == WakeSlot::DropHandler,
{
    assert((j < e && (j as int) % bitmap_size() == 0) ==> (m.contains_key(j) && m[j] == WakeSlot::DropHandler));
}

/// The first bit of a key's bitmap is a whole number of bitmaps, at or
/// below the key and less than a bitmap below it.
proof fn lemma_base(k: int)
    requires
        k >= 0,
    ensures
        bitmap_base(k) % bitmap_size() == 0,
        0 <= bitmap_base(k) <= k,
        0 <= k - bitmap_base(k) < bitmap_size(),
        k % bitmap_size() != 0 ==> bitmap_base(k) < k,
{
    crate::waker::lemma_bitmap_size();
    vstd::arithmetic::div_mod::lemma_fundamental_div_mod(k, bitmap_size());
    vstd::arithmetic::div_mod::lemma_mod_multiples_basic(k / bitmap_size(), bitmap_size());
    assert(bitmap_base(k) == (k / bitmap_size()) * bitmap_size());
    assert((k / bitmap_size()) * bitmap_size() >= 0) by (nonlinear_arith)
        requires
            k / bitmap_size() >= 0,
            bitmap_size() > 0;
}

/// Whether a bit is the first of its bitmap.
pub open spec fn is_drop_bit_at(b: int) -> bool {
    b % bitmap_size() == 0
}

/// Free the slot of the wake handler at `bit`, returning its number; the
/// first bit of a bitmap is never freed, and gives `None`.
pub fn del_handler_slot(s: &mut Slab<WakeSlot>, bit: u32) -> (r: Option<u64>)
    requires
        slab_ok(*old(s)),
    ensures
        slab_ok(*final(s)),
        r is Some <==> !is_drop_bit_at(bit as int) && wake_slots(*old(s)).contains_key(bit as usize),
        r matches Some(h) ==> wake_slots(*old(s))[bit as usize] == WakeSlot::Handler(h)
            && wake_slots(*final(s)) == wake_slots(*old(s)).remove(bit as usize),
        r is None ==> wake_slots(*final(s)) == wake_slots(*old(s)),
{
    if is_drop_bit(bit) {
        return None;
    }
    match slot_remove(s, bit as usize) {
        Some(WakeSlot::Handler(h)) => Some(h),
        Some(WakeSlot::DropHandler) => {
            proof {
                assert(false);
            }
            None
        },
        None => {
            proof {
                assert(wake_slots(*final(s)) =~= wake_slots(*old(s)));
            }
            None
        },
    }
}

} // verus!
