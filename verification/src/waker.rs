//! Index arithmetic of the hierarchical wake bitmaps.
//!
//! A bitmap has two layers of machine words: a summary word whose bit
//! `a` says that child word `a` has a bit set, and the child words.  So
//! one bitmap holds `W * W` wake bits, `W` being the bits of a word (64,
//! or 32 on 32-bit machines), and starts at a base bit number.  The
//! first bit of each bitmap is kept for signalling that some waker was
//! dropped.  Above the bitmaps, one word of `W` wake slots tells which
//! group of bitmaps has bits set; each slot holds a list of bitmaps.
use vstd::prelude::*;

verus! {

/// Bits in a machine word.
pub open spec fn word_bits() -> int {
    usize::BITS as int
}

/// Wake bits in one bitmap: a word of words.
pub open spec fn bitmap_size() -> int {
    word_bits() * word_bits()
}

/// Whether bit `i` of `w` is set.
pub open spec fn has_bit(w: u64, i: int) -> bool {
    0 <= i < 64 && (w >> (i as u64)) & 1u64 == 1u64
}

/// Bits in a machine word.
pub fn word_bits_exec() -> (r: u32)
    ensures
        r == word_bits(),
        r == 32 || r == 64,
{
    usize::BITS
}

/// A bitmap holds 1024 or 4096 wake bits.
pub proof fn lemma_bitmap_size()
    ensures
        bitmap_size() == 1024 || bitmap_size() == 4096,
{
    assert(usize::BITS == 32 || usize::BITS == 64);
}

/// Wake bits in one bitmap.
pub fn bitmap_size_exec() -> (r: u32)
    ensures
        r == bitmap_size(),
        r == 1024 || r == 4096,
{
    let w = word_bits_exec();
    w * w
}

/// The bits set in a word, lowest first: the order in which draining a
/// word calls its handlers.
pub fn bits_of_word(bits: u64) -> (r: Vec<u32>)
    ensures
        forall|k: int| 0 <= k < r@.len() ==> has_bit(bits, #[trigger] r@[k] as int),
        forall|i: int| has_bit(bits, i) ==> r@.contains(i as u32),
        forall|k1: int, k2: int| 0 <= k1 < k2 < r@.len() ==> r@[k1] < r@[k2],
{
    broadcast use vstd::std_specs::bits::axiom_u64_trailing_zeros;
    let mut r: Vec<u32> = Vec::new();
    let mut b = bits;
    let ghost mut p: int = 0;
    while b != 0
        invariant
            0 <= p <= 64,
            forall|i: int| #[trigger] has_bit(b, i) <==> (has_bit(bits, i) && i >= p),
            forall|k: int| 0 <= k < r@.len() ==> has_bit(bits, #[trigger] r@[k] as int) && r@[k] < p,
            forall|i: int| has_bit(bits, i) && i < p ==> r@.contains(i as u32),
            forall|k1: int, k2: int| 0 <= k1 < k2 < r@.len() ==> r@[k1] < r@[k2],
        decreases b,
    {
        let bit = b.trailing_zeros();
        proof {
            assert(bit < 64);
            assert(has_bit(b, bit as int));
            assert forall|j: int| p <= j < bit implies !has_bit(bits, j) by {
                assert((b >> (j as u64)) & 1u64 == 0u64);
                assert(!has_bit(b, j));
            }
            assert(bit >= p);
        }
        let next = b & !(1u64 << bit);
        proof {
            let t = bit as u64;
            assert(next < b) by (bit_vector)
                requires next == b & !(1u64 << t), (b >> t) & 1u64 == 1u64, t < 64;
            assert forall|i: int| #[trigger] has_bit(next, i) <==> (has_bit(bits, i) && i >= bit + 1) by {
                if 0 <= i < 64 {
                    let j = i as u64;
                    assert((((b & !(1u64 << t)) >> j) & 1u64 == 1u64) <==> (((b >> j) & 1u64 == 1u64) && j != t))
                        by (bit_vector)
                        requires j < 64, t < 64;
                    assert(has_bit(b, i) <==> (has_bit(bits, i) && i >= p));
                }
            }
        }
        let ghost before = r@;
        r.push(bit);
        proof {
            assert forall|i: int| has_bit(bits, i) && i < bit + 1 implies r@.contains(i as u32) by {
                if i < p {
                    assert(before.contains(i as u32));
                    let k = choose|k: int| 0 <= k < before.len() && before[k] == i as u32;
                    assert(r@[k] == i as u32);
                } else {
                    assert(i == bit);
                    assert(r@[before.len() as int] == i as u32);
                }
            }
            p = bit + 1;
        }
        b = next;
    }
    proof {
        assert forall|i: int| has_bit(bits, i) implies r@.contains(i as u32) by {
            let j = i as u64;
            assert((0u64 >> j) & 1u64 == 0u64) by (bit_vector);
            assert(!has_bit(b, i));
        }
    }
    r
}

/// Where a wake bit sits within its bitmap: the child word `a` and the
/// bit `b` within it.
pub fn bitmap_place(bit: u32, base: u32) -> (r: (u32, u32))
    requires
        base <= bit,
        bit - base < bitmap_size(),
    ensures
        r.0 < word_bits(),
        r.1 < word_bits(),
        bit - base == r.0 * word_bits() + r.1,
{
    let w = word_bits_exec();
    let off = bit - base;
    proof {
        vstd::arithmetic::div_mod::lemma_fundamental_div_mod(off as int, w as int);
        assert(off / w < w) by (nonlinear_arith)
            requires off < w * w, w > 0;
    }
    (off / w, off % w)
}

/// The wake bit of child word `a`, bit `b`, of the bitmap starting at
/// `base`: the inverse of [`bitmap_place`].
pub fn bitmap_bit(a: u32, b: u32, base: u32) -> (r: u32)
    requires
        a < word_bits(),
        b < word_bits(),
        base + bitmap_size() <= u32::MAX + 1,
    ensures
        r == base + a * word_bits() + b,
{
    let w = word_bits_exec();
    proof {
        assert(a * w + b < w * w) by (nonlinear_arith)
            requires a < w, b < w, w > 0;
    }
    base + a * w + b
}

/// Where a wake bit's bitmap sits: the first bit of the bitmap, the wake
/// slot above it, and the bitmap's place in that slot's list.
pub fn waker_place(bit: u32) -> (r: (u32, u32, u32))
    ensures
        r.0 == bit - (bit as int) % bitmap_size(),
        r.1 < word_bits(),
        (bit as int) / bitmap_size() == r.2 * word_bits() + r.1,
{
    let size = bitmap_size_exec();
    let w = word_bits_exec();
    let base = bit - bit % size;
    let group = bit / size;
    proof {
        vstd::arithmetic::div_mod::lemma_fundamental_div_mod(group as int, w as int);
    }
    (base, group % w, group / w)
}

/// Whether a bit is the first of its bitmap, which is kept for the
/// signal that a waker was dropped.
pub fn is_drop_bit(bit: u32) -> (r: bool)
    ensures
        r == ((bit as int) % bitmap_size() == 0),
{
    bit % bitmap_size_exec() == 0
}

} // verus!
