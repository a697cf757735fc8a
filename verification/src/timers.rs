//! Timer queue: fixed timers, and Max and Min timers whose expiry time
//! may be changed after they are set.
//!
//! Times are held in a compact unit: `(secs << 16) + (nanos >> 14)`, so
//! that the low 16 bits count steps of 16384ns, from 0 up to 61036 in
//! each second.  Resolution is just under 17us.  No timer sits in the
//! queue more than 0x7FFF seconds (about 9 hours) ahead of the current
//! time; a timer set further ahead is set at that limit and set again
//! when it comes up, until its own time is reached.
use vstd::prelude::*;
use vstd::arithmetic::power2::pow2;
use crate::time::{Duration, Instant, NANOS_PER_SEC, total_nanos, max_total_nanos};
use crate::queue::{Callback, FnOnceQueue, push_cost, max_cap, room_for};

verus! {

/// Steps of the compact unit in one second.
pub const UNITS_PER_SEC: u64 = 0x10000;

/// Nanoseconds in one step of the compact unit.
pub const NANOS_PER_UNIT: u32 = 16384;

/// Highest fraction-of-second count that a time in the compact unit
/// holds: what rounding up 999_999_999 nanoseconds gives.
pub const MAX_FRAC: u64 = 61036;

/// Seconds ahead of the current time that a timer may sit in the queue.
pub const MAX_AHEAD_SECS: u32 = 0x7FFF;

/// Largest distance from the base instant that a time may have, in
/// seconds (over eight million years): the compact unit's range, short of
/// the room that the queue needs for times up to twice `MAX_AHEAD_SECS`
/// ahead of the current time.
pub const MAX_SECS: u64 = 0xFFFF_FFFE_FFFF;

/// Bound on the times, in the compact unit, of a Min timer: below it the
/// 75% point, `(t0 + 3 * t1) >> 2`, is computed without overflow.
pub const MIN_TIMER_LIMIT: u64 = 0x4000_0000_0000_0000;

/// Seconds that the compact unit can hold: its upper 48 bits.
pub const UNIT_SECS: u64 = 0x1_0000_0000_0000;

/// A time in the compact unit, measured from a base instant.
#[derive(Copy, Clone, Debug, PartialEq, Eq, Structural)]
pub struct Time(u64);

/// The low 32 bits of a [`Time`]: about 18 hours of wrapping time.
#[derive(Copy, Clone, Debug, PartialEq, Eq, Structural)]
pub struct WrapTime(pub u32);

/// Compact units for whole seconds and nanoseconds, rounding the
/// nanoseconds up to the next step.
pub open spec fn ceil_units(secs: int, nanos: int) -> int {
    secs * 65536 + (nanos + 16383) / 16384
}

/// Compact units for whole seconds and nanoseconds, rounding the
/// nanoseconds down.
pub open spec fn floor_units(secs: int, nanos: int) -> int {
    secs * 65536 + nanos / 16384
}

/// The span, in nanoseconds, that a value in the compact unit stands for.
pub open spec fn unit_nanos(v: int) -> int {
    (v / 65536) * 1_000_000_000 + (v % 65536) * 16384
}

/// A value in the compact unit whose fraction of a second is in range
/// and whose seconds are within `MAX_SECS` plus a margin.
pub open spec fn valid_units(v: int) -> bool {
    0 <= v && v % 65536 <= MAX_FRAC && v / 65536 <= 2 * MAX_SECS
}

/// `secs << 16 | frac` is `secs * 65536 + frac` while both fit.
proof fn lemma_shift_or(secs: u64, frac: u64)
    requires
        secs < 0x1_0000_0000_0000,
        frac < 0x10000,
    ensures
        (secs << 16) | frac == secs * 65536 + frac,
{
    assert((secs << 16) | frac == secs * 65536 + frac) by (bit_vector)
        requires
            secs < 0x1_0000_0000_0000,
            frac < 0x10000;
}

/// Splitting a value into seconds and fraction by shift and mask.
proof fn lemma_split(v: u64)
    ensures
        v >> 16 == v / 65536,
        v & 0xFFFF == v % 65536,
{
    assert(v >> 16 == v / 65536 && v & 0xFFFF == v % 65536) by (bit_vector);
}

impl Time {
    /// The value in the compact unit.
    pub closed spec fn val(&self) -> u64 {
        self.0
    }

    /// A time from its value in the compact unit.
    pub fn from_units(v: u64) -> (r: Time)
        ensures
            r.val() == v,
    {
        Time(v)
    }

    /// The value in the compact unit.
    pub fn units(&self) -> (r: u64)
        ensures
            r == self.val(),
    {
        self.0
    }

    /// Time of `inst` after `t0`, rounded up, so that a timer set for
    /// it never runs early.  Zero if `inst` is before `t0`.
    pub fn new_ceil(inst: Instant, t0: Instant) -> (r: Time)
        requires
            inst.wf(),
            t0.wf(),
            inst@ - t0@ < total_nanos(UNIT_SECS as int, 0),
        ensures
            ({
                let d = if inst@ > t0@ { inst@ - t0@ } else { 0 };
                r.val() == ceil_units(d / 1_000_000_000, d % 1_000_000_000)
            }),
            r.val() % 65536 <= MAX_FRAC,
            inst@ - t0@ < total_nanos(MAX_SECS as int + 1, 0) ==> valid_units(r.val() as int)
                && r.val() <= (MAX_SECS as int + 1) * 65536,
    {
        let dur = inst.saturating_duration_since(&t0);
        let secs = dur.as_secs();
        let nanos = dur.subsec_nanos();
        let frac: u32 = (nanos + (NANOS_PER_UNIT - 1)) >> 14;
        proof {
            assert(frac == (nanos + 16383) / 16384) by (bit_vector)
                requires
                    frac == ((nanos + 16383u32) as u32) >> 14,
                    nanos < 1_000_000_000u32;
            lemma_shift_or(secs, frac as u64);
            assert(dur@ / 1_000_000_000 == secs && dur@ % 1_000_000_000 == dur.spec_nanos()) by {
                vstd::arithmetic::div_mod::lemma_fundamental_div_mod_converse(
                    dur@, 1_000_000_000, secs as int, dur.spec_nanos() as int);
            }
        }
        Time((secs << 16) | frac as u64)
    }

    /// Time of `inst` after `t0`, rounded down, so that nothing is taken
    /// to have expired before its time.  Zero if `inst` is before `t0`.
    pub fn new_floor(inst: Instant, t0: Instant) -> (r: Time)
        requires
            inst.wf(),
            t0.wf(),
            inst@ - t0@ < total_nanos(UNIT_SECS as int, 0),
        ensures
            ({
                let d = if inst@ > t0@ { inst@ - t0@ } else { 0 };
                r.val() == floor_units(d / 1_000_000_000, d % 1_000_000_000)
            }),
            r.val() % 65536 <= MAX_FRAC,
            inst@ - t0@ < total_nanos(MAX_SECS as int + 1, 0) ==> valid_units(r.val() as int)
                && r.val() <= (MAX_SECS as int + 1) * 65536,
    {
        let dur = inst.saturating_duration_since(&t0);
        let secs = dur.as_secs();
        let nanos = dur.subsec_nanos();
        let frac: u32 = nanos >> 14;
        proof {
            assert(frac == nanos / 16384) by (bit_vector)
                requires
                    frac == nanos >> 14;
            lemma_shift_or(secs, frac as u64);
            assert(dur@ / 1_000_000_000 == secs && dur@ % 1_000_000_000 == dur.spec_nanos()) by {
                vstd::arithmetic::div_mod::lemma_fundamental_div_mod_converse(
                    dur@, 1_000_000_000, secs as int, dur.spec_nanos() as int);
            }
        }
        Time((secs << 16) | frac as u64)
    }

    /// This time plus whole seconds.
    pub fn add_secs(self, secs: u32) -> (r: Time)
        requires
            self.val() + secs * 65536 <= u64::MAX,
        ensures
            r.val() == self.val() + secs * 65536,
    {
        proof {
            lemma_shift_or(secs as u64, 0);
            assert((secs as u64) << 16 == ((secs as u64) << 16) | 0) by (bit_vector);
        }
        Time(self.0 + ((secs as u64) << 16))
    }

    /// The instant that this time stands for, given the base instant.
    pub fn instant(self, t0: Instant) -> (r: Instant)
        requires
            t0.wf(),
            t0@ + unit_nanos(self.val() as int) <= max_total_nanos(),
        ensures
            r.wf(),
            r@ == t0@ + unit_nanos(self.val() as int),
    {
        proof {
            lemma_split(self.0);
        }
        let secs = self.0 >> 16;
        let frac = (self.0 & 0xFFFF) as u32;
        let nanos: u32 = frac << 14;
        proof {
            assert(nanos == frac * 16384) by (bit_vector)
                requires
                    frac < 0x10000u32,
                    nanos == frac << 14;
        }
        let d = Duration::new(secs, nanos);
        t0.add(&d)
    }

    /// The low 32 bits, as a wrapping time.
    pub fn wt(self) -> (r: WrapTime)
        ensures
            r.0 == self.val() % 0x1_0000_0000,
    {
        let v = self.0;
        proof {
            assert(v as u32 == v % 0x1_0000_0000) by (bit_vector);
        }
        WrapTime(v as u32)
    }

    /// The later of two times.
    pub fn max(self, other: Time) -> (r: Time)
        ensures
            r.val() == vstd::math::max(self.val() as int, other.val() as int),
    {
        if self.0 >= other.0 { self } else { other }
    }

    /// The earlier of two times.
    pub fn min(self, other: Time) -> (r: Time)
        ensures
            r.val() == vstd::math::min(self.val() as int, other.val() as int),
    {
        if self.0 <= other.0 { self } else { other }
    }
}

/// The time whose low 32 bits are `w` and which is the first such at or
/// after `base`.
pub open spec fn unwrap_time(w: u32, base: u64) -> int {
    let val = base - base % 0x1_0000_0000 + w;
    if val < base { val + 0x1_0000_0000 } else { val }
}

impl WrapTime {
    /// Convert back to a [`Time`], given the current time: the first
    /// time at or after `base` with these low 32 bits.
    pub fn time(self, base: Time) -> (r: Time)
        requires
            base.val() <= 0xFFFF_FFFF_0000_0000,
        ensures
            r.val() == unwrap_time(self.0, base.val()),
    {
        let val = (base.0 & !0xFFFF_FFFFu64) | (self.0 as u64);
        proof {
            let b = base.0;
            let w = self.0 as u64;
            assert((b & !0xFFFF_FFFFu64) | w == b - b % 0x1_0000_0000 + w) by (bit_vector)
                requires
                    w < 0x1_0000_0000u64;
        }
        if val < base.0 {
            proof {
                let b = base.0;
                let w = self.0 as u64;
                assert(val + 0x1_0000_0000 <= 0xFFFF_FFFF_FFFF_FFFF) by (bit_vector)
                    requires
                        val == (b & !0xFFFF_FFFFu64) | w,
                        w < 0x1_0000_0000u64,
                        val < b,
                        b <= 0xFFFF_FFFF_0000_0000u64;
            }
            Time(val + 0x1_0000_0000)
        } else {
            Time(val)
        }
    }
}

/// A time is recovered from its low 32 bits, given any base that is not
/// later than it and not more than 2^32 units earlier.
pub proof fn lemma_unwrap_time(t: int, base: int)
    requires
        0 <= base <= t < base + 0x1_0000_0000,
        base <= 0xFFFF_FFFF_FFFF_FFFF,
    ensures
        unwrap_time((t % 0x1_0000_0000) as u32, base as u64) == t,
{
    let m = 0x1_0000_0000int;
    vstd::arithmetic::div_mod::lemma_fundamental_div_mod(t, m);
    vstd::arithmetic::div_mod::lemma_fundamental_div_mod(base, m);
    let hb = base / m;
    let ht = t / m;
    assert(ht == hb || ht == hb + 1) by (nonlinear_arith)
        requires
            base == m * hb + base % m,
            t == m * ht + t % m,
            0 <= base % m < m,
            0 <= t % m < m,
            base <= t < base + m,
            m > 0;
}

/// The rounding step for a gap of at least 0x8000 units: the power of
/// two `m` with `8 * m <= gap < 16 * m`, so an eighth to a sixteenth of
/// the gap.
pub open spec fn round_step(gap: int) -> int {
    pow2(choose|k: nat| step_fits(gap, k)) as int
}

/// `2^k` is an eighth to a sixteenth of `gap`.
pub open spec fn step_fits(gap: int, k: nat) -> bool {
    pow2(k + 3) <= gap < pow2(k + 4)
}

/// The smallest multiple of `m` that is `x` or more.
pub open spec fn round_up_to(x: int, m: int) -> int {
    ((x + m - 1) / m) * m
}

/// The point about 75% of the way from `t0` to `t1`: `t1` itself when the
/// gap is under 0x8000 units; else `(t0 + 3 * t1) / 4` rounded up to a
/// multiple of the gap's rounding step, moved on to the next whole second
/// when that lands on a fraction of a second past `MAX_FRAC - 1`.
pub open spec fn round75(t0: int, t1: int) -> int {
    if t1 - t0 < 0x8000 {
        t1
    } else {
        let rv = round_up_to((t0 + 3 * t1) / 4, round_step(t1 - t0));
        if rv % 65536 >= MAX_FRAC { rv - rv % 65536 + 65536 } else { rv }
    }
}

/// The step of a gap is the one power of two that fits it.
pub proof fn lemma_round_step_is(gap: int, k: nat)
    requires
        pow2(k + 3) <= gap < pow2(k + 4),
    ensures
        round_step(gap) == pow2(k),
{
    assert(step_fits(gap, k));
    let k2 = choose|k2: nat| step_fits(gap, k2);
    assert(pow2(k2 + 3) <= gap < pow2(k2 + 4));
    if k2 < k {
        lemma_pow2_increases((k2 + 4) as nat, (k + 3) as nat);
    } else if k2 > k {
        lemma_pow2_increases((k + 4) as nat, (k2 + 3) as nat);
    }
}

/// `pow2` does not decrease.
proof fn lemma_pow2_increases(a: nat, b: nat)
    requires
        a <= b,
    ensures
        pow2(a) <= pow2(b),
{
    if a < b {
        vstd::arithmetic::power2::lemma_pow2_strictly_increases(a, b);
    }
}

/// Setting the bits below the gap's rounding step and adding one rounds
/// up to the next multiple of that step.
proof fn lemma_round_exact(gap: u64, lz: u64, x: u64)
    requires
        gap >= 0x8000,
        gap < 0x4000_0000_0000_0000,
        lz as int == vstd::std_specs::bits::u64_leading_zeros(gap),
        x < 0x4000_0000_0000_0000,
    ensures
        lz <= 48,
        (x | ((0xFFFF_FFFF_FFFF_FFFFu64 >> lz) >> 4)) + 1 == round_up_to(x + 1, round_step(gap as int)),
{
    vstd::std_specs::bits::axiom_u64_leading_zeros(gap);
    assert(lz < 64);
    let j: u64 = (63 - lz) as u64;
    let top: u64 = (64 - lz) as u64;
    assert((gap >> j) & 1u64 != 0u64);
    assert(gap >> top == 0u64);
    let one: u64 = 1;
    assert(lz <= 48 && 2 <= lz) by (bit_vector)
        requires
            lz < 64,
            j + lz == 63,
            (gap >> j) & 1u64 != 0u64,
            top + lz == 64,
            gap >> top == 0u64,
            gap < 0x4000_0000_0000_0000u64,
            gap >= 0x8000u64;
    let s: u64 = (60 - lz) as u64;
    let m: u64 = one << s;
    let round = (0xFFFF_FFFF_FFFF_FFFFu64 >> lz) >> 4;
    assert(round == m - 1 && m >= 1 && m <= 0x0400_0000_0000_0000) by (bit_vector)
        requires
            2 <= lz <= 48,
            s + lz == 60,
            m == one << s,
            one == 1u64,
            round == (0xFFFF_FFFF_FFFF_FFFFu64 >> lz) >> 4;
    let s3: u64 = (s + 3) as u64;
    let s4: u64 = (s + 4) as u64;
    let lo: u64 = one << s3;
    let hi: u64 = one << s4;
    assert(lo <= gap && gap < hi) by (bit_vector)
        requires
            2 <= lz <= 48,
            s + lz == 60,
            j + lz == 63,
            one == 1u64,
            s3 == s + 3,
            s4 == s + 4,
            lo == one << s3,
            hi == one << s4,
            (gap >> j) & 1u64 != 0u64,
            top + lz == 64,
            gap >> top == 0u64;
    let q = x >> s;
    assert(q <= x) by (bit_vector)
        requires
            q == x >> s;
    let q1: u64 = (q + 1) as u64;
    assert((x | round) + 1 == q1 << s) by (bit_vector)
        requires
            2 <= lz <= 48,
            s + lz == 60,
            m == one << s,
            one == 1u64,
            round == m - 1,
            q == x >> s,
            q1 == q + 1,
            x < 0x4000_0000_0000_0000u64;
    let rv = (x | round) + 1;
    vstd::bits::lemma_u64_pow2_no_overflow(s as nat);
    vstd::bits::lemma_u64_pow2_no_overflow((s + 3) as nat);
    vstd::bits::lemma_u64_pow2_no_overflow((s + 4) as nat);
    vstd::bits::lemma_u64_shl_is_mul(one, s);
    vstd::bits::lemma_u64_shl_is_mul(one, s3);
    vstd::bits::lemma_u64_shl_is_mul(one, s4);
    vstd::bits::lemma_u64_shr_is_div(x, s);
    let p = pow2(s as nat) as int;
    assert(m == p);
    lemma_round_step_is(gap as int, s as nat);
    assert(round_step(gap as int) == p);
    assert(q == x as int / p);
    assert((q + 1) * p <= 0xFFFF_FFFF_FFFF_FFFF) by (nonlinear_arith)
        requires
            q == x as int / p,
            p >= 1,
            p <= 0x1000_0000_0000_0000,
            x < 0x4000_0000_0000_0000;
    vstd::bits::lemma_u64_shl_is_mul(q1, s);
    assert(rv == (q + 1) * p);
    assert((x as int + 1 + p - 1) / p == q + 1) by {
        assert(x as int + 1 + p - 1 == p + x as int);
        vstd::arithmetic::div_mod::lemma_div_plus_one(x as int, p);
    }
}

/// Take a point about 75% of the way from `t0` to `t1`, rounded up to a
/// coarse unit so that many Min timers tend to come due together.  Go
/// straight to `t1` when the gap is under about half a second.
pub fn rounded_75point(t0: Time, t1: Time) -> (r: Time)
    requires
        t0.val() <= t1.val(),
        t1.val() < 0x4000_0000_0000_0000,
        t1.val() % 65536 <= MAX_FRAC,
    ensures
        r.val() == round75(t0.val() as int, t1.val() as int),
        r.val() % 65536 <= MAX_FRAC,
        valid_units(t1.val() as int) ==> valid_units(r.val() as int),
        t1.val() - t0.val() >= 0x8000 ==> r.val() % 65536 < MAX_FRAC,
        t1.val() - t0.val() < 0x8000 ==> r == t1,
        t1.val() - t0.val() >= 0x8000 ==> t0.val() < r.val() <= t1.val(),
        t1.val() - t0.val() >= 0x8000 ==> r.val() >= (t0.val() + 3 * t1.val()) / 4,
        r.val() <= t1.val(),
{
    let a = t0.0;
    let b = t1.0;
    let p75 = (a + 3 * b) >> 2;
    let gap = b - a;
    if gap < 0x8000 {
        return t1;
    }
    let lz = gap.leading_zeros();
    let round = u64::MAX >> lz >> 4;
    proof {
        lemma_round_bound(gap, lz as u64);
        assert(p75 == (a + 3 * b) / 4) by (bit_vector)
            requires
                p75 == ((a + 3 * b) as u64) >> 2,
                a + 3 * b < 0x1_0000_0000_0000_0000;
        lemma_or_bounds((p75 - 1) as u64, round);
    }
    let mut rv = ((p75 - 1) | round) + 1;
    proof {
        lemma_round_exact(gap, lz as u64, (p75 - 1) as u64);
        assert(rv == round_up_to(p75 as int, round_step(gap as int)));
        assert(rv >= p75 && rv <= p75 + round);
        assert(b - rv >= 4096 && rv > a) by (nonlinear_arith)
            requires
                4 * p75 <= a + 3 * b,
                4 * p75 + 4 > a + 3 * b,
                gap == b - a,
                gap >= 0x8000,
                8 * round < gap,
                rv >= p75,
                rv <= p75 + round;
    }
    proof {
        assert(rv & 0xFFFF == rv % 65536 && rv & !0xFFFFu64 == rv - rv % 65536) by (bit_vector);
    }
    if (rv & 0xFFFF) >= MAX_FRAC {
        proof {
            vstd::arithmetic::div_mod::lemma_fundamental_div_mod(rv as int, 65536);
            vstd::arithmetic::div_mod::lemma_fundamental_div_mod(t1.0 as int, 65536);
            let q = rv as int / 65536;
            let qt = t1.0 as int / 65536;
            assert(qt > q) by (nonlinear_arith)
                requires
                    rv as int == 65536 * q + rv as int % 65536,
                    t1.0 as int == 65536 * qt + t1.0 as int % 65536,
                    rv as int % 65536 >= 61036,
                    t1.0 as int % 65536 <= 61036,
                    t1.0 as int >= rv as int + 4096;
            assert(rv as int - rv as int % 65536 + 65536 <= t1.0) by (nonlinear_arith)
                requires
                    rv as int == 65536 * q + rv as int % 65536,
                    t1.0 as int == 65536 * qt + t1.0 as int % 65536,
                    qt >= q + 1,
                    t1.0 as int % 65536 >= 0;
        }
        rv = (rv & !0xFFFF) + 0x10000;
        proof {
            vstd::arithmetic::div_mod::lemma_fundamental_div_mod(rv as int, 65536);
            assert(rv % 65536 == 0) by {
                vstd::arithmetic::div_mod::lemma_mod_multiples_basic(rv as int / 65536, 65536);
            }
        }
    }
    proof {
        vstd::arithmetic::div_mod::lemma_div_is_ordered(rv as int, t1.0 as int, 65536);
    }
    Time(rv)
}

/// The coarse rounding unit taken from the gap's highest bit is at most
/// an eighth of the gap.
proof fn lemma_round_bound(gap: u64, lz: u64)
    requires
        gap >= 0x8000,
        gap < 0x4000_0000_0000_0000,
        lz as int == vstd::std_specs::bits::u64_leading_zeros(gap),
    ensures
        lz < 64,
        (0xFFFF_FFFF_FFFF_FFFFu64 >> lz) >> 4 < 0x0800_0000_0000_0000,
        ((0xFFFF_FFFF_FFFF_FFFFu64 >> lz) >> 4) * 8 < gap,
{
    vstd::std_specs::bits::axiom_u64_leading_zeros(gap);
    let k: u64 = (63 - lz) as u64;
    assert(lz < 64);
    assert((gap >> k) & 1u64 != 0u64);
    let round = (0xFFFF_FFFF_FFFF_FFFFu64 >> lz) >> 4;
    let g8 = gap >> 3;
    assert(round < g8 && round < 0x0800_0000_0000_0000) by (bit_vector)
        requires
            lz < 64,
            k + lz == 63,
            (gap >> k) & 1u64 != 0u64,
            gap < 0x4000_0000_0000_0000u64,
            gap >= 0x8000u64,
            round == (0xFFFF_FFFF_FFFF_FFFFu64 >> lz) >> 4,
            g8 == gap >> 3;
    assert(g8 == gap / 8) by (bit_vector)
        requires g8 == gap >> 3;
}

/// Setting low bits only adds to a value, by no more than the mask.
proof fn lemma_or_bounds(x: u64, m: u64)
    requires
        x < 0x4000_0000_0000_0000,
        m < 0x0800_0000_0000_0000,
    ensures
        x <= x | m <= x + m,
{
    assert(x <= x | m && x | m <= x + m) by (bit_vector)
        requires
            x < 0x4000_0000_0000_0000u64,
            m < 0x0800_0000_0000_0000u64;
}


/// Key of a fixed timer, to delete it with.  Plain data; it should only
/// be used with the timer queue that gave it.
#[derive(Copy, Clone, Debug, PartialEq, Eq, Structural)]
pub struct FixedTimerKey {
    slot: u32,
    // Generation where the slot is below 0x8000_0000, else the wrapped time
    gen_or_time: u32,
}

/// Key of a Max timer, to change its expiry time or delete it with.
#[derive(Copy, Clone, Debug, PartialEq, Eq, Structural)]
pub struct MaxTimerKey {
    slot: u32,
    gen: u32,
}

/// Key of a Min timer, to change its expiry time or delete it with.
#[derive(Copy, Clone, Debug, PartialEq, Eq, Structural)]
pub struct MinTimerKey {
    slot: u32,
    gen: u32,
}

impl FixedTimerKey {
    /// Slot number.
    pub closed spec fn spec_slot(&self) -> u32 {
        self.slot
    }

    /// Generation, or the wrapped time for a slot of 0x8000_0000 or more.
    pub closed spec fn spec_gen_or_time(&self) -> u32 {
        self.gen_or_time
    }
}

impl MaxTimerKey {
    /// Slot number.
    pub closed spec fn spec_slot(&self) -> u32 {
        self.slot
    }

    /// Generation.
    pub closed spec fn spec_gen(&self) -> u32 {
        self.gen
    }
}

impl MinTimerKey {
    /// Slot number.
    pub closed spec fn spec_slot(&self) -> u32 {
        self.slot
    }

    /// Generation.
    pub closed spec fn spec_gen(&self) -> u32 {
        self.gen
    }
}

impl Default for FixedTimerKey {
    /// A key with slot and generation 0, which no timer is given.
    fn default() -> (r: Self)
        ensures
            r.spec_slot() == 0,
            r.spec_gen_or_time() == 0,
    {
        FixedTimerKey { slot: 0, gen_or_time: 0 }
    }
}

impl Default for MaxTimerKey {
    /// A key with slot and generation 0, which no timer is given.
    fn default() -> (r: Self)
        ensures
            r.spec_slot() == 0,
            r.spec_gen() == 0,
    {
        MaxTimerKey { slot: 0, gen: 0 }
    }
}

impl Default for MinTimerKey {
    /// A key with slot and generation 0, which no timer is given.
    fn default() -> (r: Self)
        ensures
            r.spec_slot() == 0,
            r.spec_gen() == 0,
    {
        MinTimerKey { slot: 0, gen: 0 }
    }
}

/// Slot numbers from here up belong to fixed timers, which need no
/// slot of their own; below are the slots of Max and Min timers.
pub const FIXED_SLOT_BASE: u32 = 0x8000_0000;

/// Units of the longest time that a timer sits in the queue.
pub open spec fn ahead_units() -> int {
    MAX_AHEAD_SECS as int * 65536
}

/// Largest current time, in units, that the queue supports.
pub open spec fn max_now() -> int {
    (MAX_SECS as int + 1) * 65536
}

/// Target and current expiry of a Max or Min timer.
#[derive(Copy, Clone)]
struct VarTimer {
    expiry: Time,
    curr: Time,
}

/// What a slot holds.
#[derive(Copy, Clone)]
enum VarItem {
    Max(VarTimer),
    Min(VarTimer),
    Free(Option<u32>),
}

/// A slot for a Max or Min timer, with a generation that changes each
/// time the slot is freed.
#[derive(Copy, Clone)]
struct VarSlot {
    gen: u32,
    item: VarItem,
}

/// A timer waiting in the queue, in order of its time then its slot.
#[verifier::reject_recursive_types(S)]
struct QEntry<S> {
    at: Time,
    slot: u32,
    bfn: Callback<S>,
}

/// Identity of a waiting timer: a fixed timer by its time and slot, a
/// Max or Min timer by its slot.
pub enum TimerId {
    Fixed(u64, u32),
    Var(u32),
}

/// Kind of a waiting timer.
pub enum TimerKind {
    Fixed,
    Max,
    Min,
}

/// What is known of a waiting timer: its kind, when the queue next looks
/// at it, when it is due, and the call it makes.
#[verifier::reject_recursive_types(S)]
pub struct TimerInfo<S> {
    pub kind: TimerKind,
    pub wake: u64,
    pub expiry: u64,
    pub due: u64,
    pub call: Callback<S>,
}

/// Queue of timers, each making a call on a context of type `S` when
/// it expires.
#[verifier::reject_recursive_types(S)]
pub struct Timers<S: 'static> {
    // Base instant that all times are measured from
    t0: Instant,
    // The last current time given, after t0
    now: Time,
    // Timers waiting, in order of (time, slot)
    queue: Vec<QEntry<S>>,
    // Slots of Max and Min timers
    var: Vec<VarSlot>,
    // First free slot in `var`
    var_free: Option<u32>,
    // Counter giving the slot numbers of fixed timers
    seq: u32,
    // The free slots, in the order they are chained
    free_list: Ghost<Seq<u32>>,
}

/// The wake time that a Max or Min timer with the given expiry is set
/// to when it comes up at `s` before its expiry: its expiry, but no more
/// than `MAX_AHEAD_SECS` after `s`; for a Min timer, the point about 75%
/// of the way there from `s`.
pub open spec fn rearm_wake(kind: TimerKind, expiry: int, s: int) -> int {
    let t1 = vstd::math::min(expiry, s + ahead_units());
    if kind is Min { round75(s, t1) } else { t1 }
}

/// The last of the steps of `MAX_AHEAD_SECS` from `n0` that comes before
/// `t`: `n0` itself when `t` is within one step of it.
pub open spec fn step_before(n0: int, t: int) -> int {
    n0 + ((t - n0 - 1) / ahead_units()) * ahead_units()
}

/// The wake time of a Max or Min timer waking at `wake` after the time
/// moves on from `n0` to `t` without the timer expiring: set again at the
/// step before `t` if it came up by then, and set again at `t` if it then
/// comes up by `t`.
pub open spec fn wake_after(kind: TimerKind, expiry: int, wake: int, n0: int, t: int) -> int {
    let p = step_before(n0, t);
    let w1 = if n0 < p && wake <= p { rearm_wake(kind, expiry, p) } else { wake };
    if w1 <= t { rearm_wake(kind, expiry, t) } else { w1 }
}

/// Whether a slot holds a Max or Min timer.
spec fn live_item(it: VarItem) -> bool {
    match it {
        VarItem::Free(_) => false,
        _ => true,
    }
}

/// The slot after position `k` in a chain of free slots.
spec fn chain_next(list: Seq<u32>, k: int) -> Option<u32> {
    if k + 1 < list.len() { Some(list[k + 1]) } else { None }
}

/// `list` is the chain of free slots of `var`, starting at `head`.
#[verifier::opaque]
spec fn chain_ok(var: Seq<VarSlot>, list: Seq<u32>, head: Option<u32>) -> bool {
    &&& list.no_duplicates()
    &&& forall|k: int| 0 <= k < list.len() ==> #[trigger] list[k] < var.len()
    &&& forall|k: int| 0 <= k < list.len() ==> var[#[trigger] list[k] as int].item == VarItem::Free(chain_next(list, k))
    &&& head == (if list.len() > 0 { Some(list[0]) } else { None::<u32> })
    &&& forall|i: int| 0 <= i < var.len() && !live_item(#[trigger] var[i].item) ==> list.contains(i as u32)
}

/// The chain starts at `head`, is no longer than the slots, and takes
/// in every free slot.
proof fn lemma_chain_basics(var: Seq<VarSlot>, list: Seq<u32>, head: Option<u32>)
    requires
        chain_ok(var, list, head),
        var.len() <= 0x1_0000_0000,
    ensures
        head is None <==> list.len() == 0,
        head matches Some(h) ==> h == list[0] && h < var.len()
            && var[h as int].item == VarItem::Free(chain_next(list, 0)),
        list.len() <= var.len(),
        forall|i: int| 0 <= i < var.len() && !live_item(#[trigger] var[i].item) ==> list.contains(i as u32),
        forall|k: int| 0 <= k < list.len() ==> #[trigger] list[k] < var.len(),
        forall|k: int| 0 <= k < list.len() ==> var[#[trigger] list[k] as int].item == VarItem::Free(chain_next(list, k)),
{
    reveal(chain_ok);
    if list.len() > 0 {
        assert(list[0] < var.len());
    }
    list.unique_seq_to_set();
    assert(list.to_set().subset_of(Set::new(|x: u32| x < var.len())));
    lemma_set_of_small(var.len() as nat);
    vstd::set_lib::lemma_len_subset(list.to_set(), Set::new(|x: u32| x < var.len()));
}

/// Taking the head of the chain for a timer leaves the rest of the chain.
proof fn lemma_chain_pop(var: Seq<VarSlot>, list: Seq<u32>, head: Option<u32>, slot: VarSlot)
    requires
        chain_ok(var, list, head),
        list.len() > 0,
        live_item(slot.item),
        var.len() <= 0x1_0000_0000,
    ensures
        chain_ok(var.update(list[0] as int, slot), list.drop_first(), chain_next(list, 0)),
        !live_item(var[list[0] as int].item),
        var[list[0] as int].item == VarItem::Free(chain_next(list, 0)),
        head == Some(list[0]),
        list[0] < var.len(),
{
    reveal(chain_ok);
    let i = list[0];
    let nv = var.update(i as int, slot);
    let nl = list.drop_first();
    lemma_drop_first_no_dup(list);
    lemma_chain_pop_items(var, list, slot);
    lemma_chain_pop_cover(var, list, slot);
    assert forall|k: int| 0 <= k < nl.len() implies #[trigger] nl[k] < nv.len() by {
        assert(nl[k] == list[k + 1]);
        assert(list[k + 1] < var.len());
    }
    assert(chain_next(list, 0) == (if nl.len() > 0 { Some(nl[0]) } else { None::<u32> }));
}

proof fn lemma_drop_first_no_dup(list: Seq<u32>)
    requires
        list.no_duplicates(),
        list.len() > 0,
    ensures
        list.drop_first().no_duplicates(),
        forall|k: int| 0 <= k < list.len() - 1 ==> #[trigger] list.drop_first()[k] != list[0],
{
    let nl = list.drop_first();
    assert forall|a: int, b: int| 0 <= a < b < nl.len() implies nl[a] != nl[b] by {
        assert(nl[a] == list[a + 1]);
        assert(nl[b] == list[b + 1]);
    }
    assert forall|k: int| 0 <= k < list.len() - 1 implies #[trigger] nl[k] != list[0] by {
        assert(nl[k] == list[k + 1]);
    }
}

proof fn lemma_chain_pop_items(var: Seq<VarSlot>, list: Seq<u32>, slot: VarSlot)
    requires
        list.no_duplicates(),
        list.len() > 0,
        forall|k: int| 0 <= k < list.len() ==> #[trigger] list[k] < var.len(),
        forall|k: int| 0 <= k < list.len() ==> var[#[trigger] list[k] as int].item == VarItem::Free(chain_next(list, k)),
    ensures
        forall|k: int| 0 <= k < list.drop_first().len() ==>
            var.update(list[0] as int, slot)[#[trigger] list.drop_first()[k] as int].item
                == VarItem::Free(chain_next(list.drop_first(), k)),
{
    let nl = list.drop_first();
    let nv = var.update(list[0] as int, slot);
    assert forall|k: int| 0 <= k < nl.len() implies nv[#[trigger] nl[k] as int].item == VarItem::Free(chain_next(nl, k)) by {
        assert(nl[k] == list[k + 1]);
        assert(list[k + 1] != list[0]);
        assert(var[list[k + 1] as int].item == VarItem::Free(chain_next(list, k + 1)));
        assert(chain_next(nl, k) == chain_next(list, k + 1));
    }
}

proof fn lemma_chain_pop_cover(var: Seq<VarSlot>, list: Seq<u32>, slot: VarSlot)
    requires
        list.len() > 0,
        list[0] < var.len(),
        var.len() <= 0x1_0000_0000,
        live_item(slot.item),
        forall|i: int| 0 <= i < var.len() && !live_item(#[trigger] var[i].item) ==> list.contains(i as u32),
    ensures
        forall|j: int| 0 <= j < var.len() && !live_item(#[trigger] var.update(list[0] as int, slot)[j].item)
            ==> list.drop_first().contains(j as u32),
{
    let nv = var.update(list[0] as int, slot);
    let nl = list.drop_first();
    assert forall|j: int| 0 <= j < var.len() && !live_item(#[trigger] nv[j].item) implies nl.contains(j as u32) by {
        assert(j != list[0]);
        assert(j as u32 as int == j);
        assert(var[j] == nv[j]);
        assert(list.contains(j as u32));
        let k = choose|k: int| 0 <= k < list.len() && list[k] == j as u32;
        assert(k != 0);
        assert(nl[k - 1] == j as u32);
    }
}

/// With no free slot, a new slot for a timer keeps the chain.
proof fn lemma_chain_push(var: Seq<VarSlot>, list: Seq<u32>, head: Option<u32>, slot: VarSlot)
    requires
        chain_ok(var, list, head),
        live_item(slot.item),
    ensures
        chain_ok(var.push(slot), list, head),
{
    reveal(chain_ok);
    let nv = var.push(slot);
    assert forall|k: int| 0 <= k < list.len() implies nv[#[trigger] list[k] as int].item == VarItem::Free(chain_next(list, k)) by {
        assert(list[k] < var.len());
        assert(nv[list[k] as int] == var[list[k] as int]);
    }
    assert forall|j: int| 0 <= j < nv.len() && !live_item(#[trigger] nv[j].item) implies list.contains(j as u32) by {
        assert(j < var.len());
        assert(var[j] == nv[j]);
    }
}

/// Freeing a slot puts it at the head of the chain.
proof fn lemma_chain_free(var: Seq<VarSlot>, list: Seq<u32>, head: Option<u32>, i: u32, gen: u32)
    requires
        chain_ok(var, list, head),
        i < var.len(),
        live_item(var[i as int].item),
    ensures
        chain_ok(var.update(i as int, VarSlot { gen, item: VarItem::Free(head) }), seq![i].add(list), Some(i)),
        !list.contains(i),
{
    reveal(chain_ok);
    let nv = var.update(i as int, VarSlot { gen, item: VarItem::Free(head) });
    let nl = seq![i].add(list);
    assert(!list.contains(i)) by {
        if list.contains(i) {
            let k = choose|k: int| 0 <= k < list.len() && list[k] == i;
            assert(var[list[k] as int].item == VarItem::Free(chain_next(list, k)));
        }
    }
    assert forall|a: int, b: int| 0 <= a < b < nl.len() implies nl[a] != nl[b] by {
        if a == 0 {
            assert(nl[b] == list[b - 1]);
            assert(list.contains(list[b - 1]));
        } else {
            assert(nl[a] == list[a - 1]);
            assert(nl[b] == list[b - 1]);
        }
    }
    assert(nl.no_duplicates());
    assert forall|k: int| 0 <= k < nl.len() implies nv[#[trigger] nl[k] as int].item == VarItem::Free(chain_next(nl, k)) by {
        if k == 0 {
            assert(chain_next(nl, 0) == head);
        } else {
            assert(nl[k] == list[k - 1]);
            assert(list[k - 1] != i) by { assert(list.contains(list[k - 1])); }
            assert(var[list[k - 1] as int].item == VarItem::Free(chain_next(list, k - 1)));
            assert(chain_next(nl, k) == chain_next(list, k - 1));
        }
    }
    assert forall|j: int| 0 <= j < nv.len() && !live_item(#[trigger] nv[j].item) implies nl.contains(j as u32) by {
        if j != i {
            assert(var[j] == nv[j]);
            assert(list.contains(j as u32));
            let k = choose|k: int| 0 <= k < list.len() && list[k] == j as u32;
            assert(nl[k + 1] == j as u32);
        } else {
            assert(nl[0] == i);
        }
    }
    assert forall|k: int| 0 <= k < nl.len() implies #[trigger] nl[k] < nv.len() by {
        if k > 0 {
            assert(nl[k] == list[k - 1]);
        }
    }
}

/// Order of queue keys: by time, then by slot.
pub open spec fn key_lt(a1: int, s1: int, a2: int, s2: int) -> bool {
    a1 < a2 || (a1 == a2 && s1 < s2)
}

impl<S> Timers<S> {
    spec fn qlen(&self) -> int {
        self.queue@.len() as int
    }

    spec fn id_of(e: QEntry<S>) -> TimerId {
        if e.slot >= FIXED_SLOT_BASE {
            TimerId::Fixed(e.at.val(), e.slot)
        } else {
            TimerId::Var(e.slot)
        }
    }

    spec fn info_of(&self, e: QEntry<S>) -> TimerInfo<S> {
        if e.slot >= FIXED_SLOT_BASE {
            TimerInfo { kind: TimerKind::Fixed, wake: e.at.val(), expiry: e.at.val(), due: e.at.val(), call: e.bfn }
        } else {
            match self.var@[e.slot as int].item {
                VarItem::Max(vt) => TimerInfo {
                    kind: TimerKind::Max,
                    wake: e.at.val(),
                    expiry: vt.expiry.val(),
                    due: vstd::math::max(vt.expiry.val() as int, e.at.val() as int) as u64,
                    call: e.bfn,
                },
                VarItem::Min(vt) => TimerInfo {
                    kind: TimerKind::Min,
                    wake: e.at.val(),
                    expiry: vt.expiry.val(),
                    due: vstd::math::max(vt.expiry.val() as int, e.at.val() as int) as u64,
                    call: e.bfn,
                },
                VarItem::Free(_) => TimerInfo { kind: TimerKind::Fixed, wake: e.at.val(), expiry: e.at.val(), due: e.at.val(), call: e.bfn },
            }
        }
    }

    spec fn has_id(&self, id: TimerId) -> bool {
        exists|k: int| 0 <= k < self.qlen() && #[trigger] Self::id_of(self.queue@[k]) == id
    }

    /// The timers waiting, by identity.
    pub closed spec fn timers(&self) -> Map<TimerId, TimerInfo<S>> {
        Map::new(
            |id: TimerId| self.has_id(id),
            |id: TimerId| self.info_of(self.queue@[choose|k: int| 0 <= k < self.qlen() && #[trigger] Self::id_of(self.queue@[k]) == id]),
        )
    }

    /// The current time, in units after the base instant.
    pub closed spec fn now_units(&self) -> u64 {
        self.now.val()
    }

    /// The base instant.
    pub closed spec fn base(&self) -> Instant {
        self.t0
    }

    /// Number of Max and Min slots, in use or free.
    pub closed spec fn slot_count(&self) -> nat {
        self.var@.len()
    }

    /// Generation of a Max or Min slot.
    pub closed spec fn slot_gen(&self, slot: int) -> u32 {
        self.var@[slot].gen
    }

    /// The slot that the next Max or Min timer takes: the free slot
    /// freed last, or a new slot when none is free.
    pub closed spec fn next_slot(&self) -> u32 {
        match self.var_free {
            Some(h) => h,
            None => self.var@.len() as u32,
        }
    }

    /// The counter from which fixed timers take their slot numbers.
    pub closed spec fn fixed_seq(&self) -> u32 {
        self.seq
    }

    /// Number of Max and Min slots in use.
    pub closed spec fn slots_in_use(&self) -> nat {
        (self.var@.len() - self.free_list@.len()) as nat
    }

    spec fn slot_live(&self, i: int) -> bool {
        live_item(self.var@[i].item)
    }

    spec fn free_list_ok(&self) -> bool {
        chain_ok(self.var@, self.free_list@, self.var_free)
    }

    spec fn entry_ok(&self, e: QEntry<S>) -> bool {
        &&& self.now.val() <= e.at.val() <= self.now.val() + 2 * ahead_units()
        &&& valid_units(e.at.val() as int)
        &&& e.bfn.ready()
        &&& (e.slot < FIXED_SLOT_BASE ==> {
            &&& e.slot < self.var@.len()
            &&& match self.var@[e.slot as int].item {
                VarItem::Max(vt) => vt.curr == e.at
                    && e.at.val() <= vstd::math::max(vt.expiry.val() as int, self.now.val() as int),
                VarItem::Min(vt) => vt.curr == e.at
                    && e.at.val() <= vstd::math::max(vt.expiry.val() as int, self.now.val() as int),
                VarItem::Free(_) => false,
            }
        })
    }

    spec fn slot_ok(&self, i: int) -> bool {
        &&& self.var@[i].gen >= 1
        &&& match self.var@[i].item {
            VarItem::Max(vt) => valid_units(vt.expiry.val() as int) && vt.expiry.val() <= max_now(),
            VarItem::Min(vt) => valid_units(vt.expiry.val() as int) && vt.expiry.val() < MIN_TIMER_LIMIT,
            VarItem::Free(_) => true,
        }
    }

    /// The slots and their free list agree.
    spec fn slots_ok(&self) -> bool {
        &&& self.var@.len() <= FIXED_SLOT_BASE
        &&& forall|i: int| 0 <= i < self.var@.len() ==> #[trigger] self.slot_ok(i)
        &&& self.free_list_ok()
    }

    /// Every slot in use has its entry in the queue.
    spec fn live_have_entries(&self) -> bool {
        forall|i: int| 0 <= i < self.var@.len() && #[trigger] self.slot_live(i) ==>
            self.has_id(TimerId::Var(i as u32))
    }

    /// The entries are in order and each is consistent.
    spec fn entries_ok(&self) -> bool {
        &&& Self::sorted(self.queue@)
        &&& forall|k: int| 0 <= k < self.qlen() ==> self.entry_ok(#[trigger] self.queue@[k])
    }

    /// The current time and base instant are in range.
    spec fn clock_ok(&self) -> bool {
        &&& self.t0.wf()
        &&& self.t0@ + total_nanos(4 * MAX_SECS as int + 4, 0) <= max_total_nanos()
        &&& valid_units(self.now.val() as int)
        &&& self.now.val() <= max_now()
    }

    /// The queue's parts agree.
    pub closed spec fn wf(&self) -> bool {
        &&& self.clock_ok()
        &&& self.entries_ok()
        &&& self.slots_ok()
        &&& self.live_have_entries()
    }
}


impl<S> Timers<S> {
    spec fn sorted(q: Seq<QEntry<S>>) -> bool {
        forall|i: int, j: int| 0 <= i < j < q.len() ==> key_lt(
            q[i].at.val() as int, q[i].slot as int, q[j].at.val() as int, q[j].slot as int)
    }

    spec fn var_entry_ok(&self, e: QEntry<S>) -> bool {
        e.slot < FIXED_SLOT_BASE ==> {
            &&& e.slot < self.var@.len()
            &&& match self.var@[e.slot as int].item {
                VarItem::Max(vt) => vt.curr == e.at,
                VarItem::Min(vt) => vt.curr == e.at,
                VarItem::Free(_) => false,
            }
        }
    }

    /// Entries are sorted and each Max or Min entry's time is its slot's.
    spec fn ids_ok(&self) -> bool {
        &&& Self::sorted(self.queue@)
        &&& forall|k: int| 0 <= k < self.qlen() ==> self.var_entry_ok(#[trigger] self.queue@[k])
    }

    proof fn lemma_ids_distinct(&self, i: int, j: int)
        requires
            self.ids_ok(),
            0 <= i < self.qlen(),
            0 <= j < self.qlen(),
            i != j,
        ensures
            Self::id_of(self.queue@[i]) != Self::id_of(self.queue@[j]),
    {
        let a = self.queue@[i];
        let b = self.queue@[j];
        assert(self.var_entry_ok(a));
        assert(self.var_entry_ok(b));
        if i < j {
            assert(key_lt(a.at.val() as int, a.slot as int, b.at.val() as int, b.slot as int));
        } else {
            assert(key_lt(b.at.val() as int, b.slot as int, a.at.val() as int, a.slot as int));
        }
    }

    proof fn lemma_timers_at(&self, k: int)
        requires
            self.ids_ok(),
            0 <= k < self.qlen(),
        ensures
            self.timers().contains_key(Self::id_of(self.queue@[k])),
            self.timers()[Self::id_of(self.queue@[k])] == self.info_of(self.queue@[k]),
    {
        let id = Self::id_of(self.queue@[k]);
        assert(self.has_id(id));
        let k2 = choose|k2: int| 0 <= k2 < self.qlen() && #[trigger] Self::id_of(self.queue@[k2]) == id;
        if k2 != k {
            self.lemma_ids_distinct(k, k2);
        }
    }

    /// Inserting an entry for a new timer adds exactly that timer.
    proof fn lemma_view_insert(old: &Self, new: &Self, p: int, e: QEntry<S>)
        requires
            old.ids_ok(),
            new.ids_ok(),
            new.var@ == old.var@,
            0 <= p <= old.qlen(),
            new.queue@ == old.queue@.insert(p, e),
        ensures
            new.timers() =~= old.timers().insert(Self::id_of(e), old.info_of(e)),
            !old.timers().contains_key(Self::id_of(e)),
    {
        assert(new.queue@[p] == e);
        new.lemma_timers_at(p);
        assert forall|id: TimerId| #[trigger] new.timers().contains_key(id) <==> (old.timers().contains_key(id) || id == Self::id_of(e)) by {
            if new.has_id(id) {
                let k = choose|k: int| 0 <= k < new.qlen() && #[trigger] Self::id_of(new.queue@[k]) == id;
                if k < p {
                    assert(new.queue@[k] == old.queue@[k]);
                    assert(old.has_id(id));
                } else if k > p {
                    assert(new.queue@[k] == old.queue@[k - 1]);
                    assert(old.has_id(id));
                }
            }
            if old.has_id(id) {
                let k = choose|k: int| 0 <= k < old.qlen() && #[trigger] Self::id_of(old.queue@[k]) == id;
                if k < p {
                    assert(new.queue@[k] == old.queue@[k]);
                    assert(new.has_id(id));
                } else {
                    assert(new.queue@[k + 1] == old.queue@[k]);
                    assert(new.has_id(id));
                }
            }
        }
        assert forall|id: TimerId| #[trigger] new.timers().contains_key(id) implies
            new.timers()[id] == old.timers().insert(Self::id_of(e), old.info_of(e))[id] by {
            let k = choose|k: int| 0 <= k < new.qlen() && #[trigger] Self::id_of(new.queue@[k]) == id;
            new.lemma_timers_at(k);
            if k < p {
                assert(new.queue@[k] == old.queue@[k]);
                old.lemma_timers_at(k);
                new.lemma_ids_distinct(k, p);
            } else if k > p {
                assert(new.queue@[k] == old.queue@[k - 1]);
                old.lemma_timers_at(k - 1);
                new.lemma_ids_distinct(k, p);
            }
        }
        if old.has_id(Self::id_of(e)) {
            let k = choose|k: int| 0 <= k < old.qlen() && #[trigger] Self::id_of(old.queue@[k]) == Self::id_of(e);
            if k < p {
                assert(new.queue@[k] == old.queue@[k]);
                new.lemma_ids_distinct(k, p);
            } else {
                assert(new.queue@[k + 1] == old.queue@[k]);
                new.lemma_ids_distinct(k + 1, p);
            }
        }
    }

    /// Removing an entry removes exactly its timer.
    proof fn lemma_view_remove(old: &Self, new: &Self, p: int)
        requires
            old.ids_ok(),
            new.ids_ok(),
            new.var@ == old.var@,
            0 <= p < old.qlen(),
            new.queue@ == old.queue@.remove(p),
        ensures
            new.timers() =~= old.timers().remove(Self::id_of(old.queue@[p])),
    {
        let e = old.queue@[p];
        assert(old.queue@ == new.queue@.insert(p, e));
        Self::lemma_view_insert(new, old, p, e);
        assert(old.info_of(e) == new.info_of(e));
        assert(new.timers() =~= old.timers().remove(Self::id_of(e)));
    }
}

/// Units after `t0` of `inst`, rounded up; zero if before.
pub open spec fn ceil_of(inst: Instant, t0: Instant) -> int {
    let d = if inst@ > t0@ { inst@ - t0@ } else { 0 };
    ceil_units(d / 1_000_000_000, d % 1_000_000_000)
}

/// Units after `t0` of `inst`, rounded down; zero if before.
pub open spec fn floor_of(inst: Instant, t0: Instant) -> int {
    let d = if inst@ > t0@ { inst@ - t0@ } else { 0 };
    floor_units(d / 1_000_000_000, d % 1_000_000_000)
}

/// An instant that the queue can take: not before the epoch's range and
/// not too far after the base instant.
pub open spec fn in_range(inst: Instant, t0: Instant) -> bool {
    inst.wf() && inst@ - t0@ < total_nanos(MAX_SECS as int + 1, 0)
}

impl<S> Timers<S> {
    fn entry_lt(e: &QEntry<S>, at: u64, slot: u32) -> (r: bool)
        ensures
            r == key_lt(e.at.val() as int, e.slot as int, at as int, slot as int),
    {
        e.at.0 < at || (e.at.0 == at && e.slot < slot)
    }

    /// Position of the first entry whose key is not below (at, slot).
    fn find(&self, at: u64, slot: u32) -> (r: usize)
        requires
            Self::sorted(self.queue@),
        ensures
            r <= self.qlen(),
            forall|k: int| 0 <= k < r ==> key_lt(
                #[trigger] self.queue@[k].at.val() as int, self.queue@[k].slot as int, at as int, slot as int),
            forall|k: int| r <= k < self.qlen() ==> !key_lt(
                #[trigger] self.queue@[k].at.val() as int, self.queue@[k].slot as int, at as int, slot as int),
    {
        let mut lo: usize = 0;
        let mut hi: usize = self.queue.len();
        while lo < hi
            invariant
                Self::sorted(self.queue@),
                0 <= lo <= hi <= self.qlen(),
                forall|k: int| 0 <= k < lo ==> key_lt(
                    #[trigger] self.queue@[k].at.val() as int, self.queue@[k].slot as int, at as int, slot as int),
                forall|k: int| hi <= k < self.qlen() ==> !key_lt(
                    #[trigger] self.queue@[k].at.val() as int, self.queue@[k].slot as int, at as int, slot as int),
            decreases hi - lo,
        {
            let mid = lo + (hi - lo) / 2;
            if Self::entry_lt(&self.queue[mid], at, slot) {
                proof {
                    assert forall|k: int| 0 <= k < mid + 1 implies key_lt(
                        #[trigger] self.queue@[k].at.val() as int, self.queue@[k].slot as int, at as int, slot as int) by {
                        if k < mid {
                            assert(key_lt(self.queue@[k].at.val() as int, self.queue@[k].slot as int,
                                self.queue@[mid as int].at.val() as int, self.queue@[mid as int].slot as int));
                        }
                    }
                }
                lo = mid + 1;
            } else {
                proof {
                    assert forall|k: int| mid <= k < self.qlen() implies !key_lt(
                        #[trigger] self.queue@[k].at.val() as int, self.queue@[k].slot as int, at as int, slot as int) by {
                        if k > mid {
                            assert(key_lt(self.queue@[mid as int].at.val() as int, self.queue@[mid as int].slot as int,
                                self.queue@[k].at.val() as int, self.queue@[k].slot as int));
                        }
                    }
                }
                hi = mid;
            }
        }
        lo
    }

    /// An empty queue, with `now` as both the base instant and the
    /// current time.
    pub fn new(now: Instant) -> (r: Self)
        requires
            now.wf(),
            now@ + total_nanos(4 * MAX_SECS as int + 4, 0) <= max_total_nanos(),
        ensures
            r.wf(),
            r.timers() == Map::<TimerId, TimerInfo<S>>::empty(),
            r.now_units() == 0,
            r.base() == now,
            r.slot_count() == 0,
            r.slots_in_use() == 0,
    {
        let r = Timers {
            t0: now,
            now: Time(0),
            queue: Vec::new(),
            var: Vec::new(),
            var_free: None,
            seq: 0,
            free_list: Ghost(Seq::empty()),
        };
        assert(r.timers() =~= Map::<TimerId, TimerInfo<S>>::empty());
        proof {
            reveal(chain_ok);
        }
        r
    }

    /// When the next timer needs attention: the earliest wake time of
    /// the timers waiting, or `None` if there are none.
    #[verifier::spinoff_prover]
    #[verifier::rlimit(40)]
    pub fn next_expiry(&self) -> (r: Option<Instant>)
        requires
            self.wf(),
        ensures
            r is None <==> self.timers().is_empty(),
            r matches Some(i) ==> i.wf(),
            r matches Some(i) ==> exists|id: TimerId| {
                &&& #[trigger] self.timers().contains_key(id)
                &&& i@ == self.base()@ + unit_nanos(self.timers()[id].wake as int)
                &&& forall|id2: TimerId| #[trigger] self.timers().contains_key(id2) ==>
                    self.timers()[id2].wake >= self.timers()[id].wake
            },
    {
        if self.queue.len() == 0 {
            assert(self.timers() =~= Map::<TimerId, TimerInfo<S>>::empty());
            None
        } else {
            let e = &self.queue[0];
            proof {
                assert(self.entry_ok(self.queue@[0]));
                self.lemma_timers_at(0);
                let id = Self::id_of(self.queue@[0]);
                assert(self.timers().contains_key(id));
                assert(!self.timers().is_empty()) by {
                    assert(self.timers().dom().contains(id));
                }
                assert forall|id2: TimerId| #[trigger] self.timers().contains_key(id2) implies
                    self.timers()[id2].wake >= self.timers()[id].wake by {
                    let k = choose|k: int| 0 <= k < self.qlen() && #[trigger] Self::id_of(self.queue@[k]) == id2;
                    self.lemma_timers_at(k);
                    if k > 0 {
                        assert(key_lt(self.queue@[0].at.val() as int, self.queue@[0].slot as int,
                            self.queue@[k].at.val() as int, self.queue@[k].slot as int));
                    }
                }
                lemma_unit_nanos_bound(e.at.val() as int);
            }
            Some(e.at.instant(self.t0))
        }
    }
}

/// The span that a value in the compact unit stands for is below two
/// seconds per second counted.
pub proof fn lemma_unit_nanos_bound(v: int)
    requires
        valid_units(v),
    ensures
        0 <= unit_nanos(v) < (v / 65536 + 2) * 1_000_000_000,
        unit_nanos(v) <= total_nanos(2 * MAX_SECS as int + 2, 0),
{
    vstd::arithmetic::div_mod::lemma_fundamental_div_mod(v, 65536);
    assert(0 <= v / 65536);
}

impl<S> Timers<S> {
    /// Number of timers waiting.
    pub fn len(&self) -> (r: usize)
        requires
            self.wf(),
        ensures
            r == self.timers().len(),
    {
        proof {
            self.lemma_count();
        }
        self.queue.len()
    }

    /// Number of Max and Min slots in use, counted by walking the chain
    /// of free slots.
    pub fn slots_used(&self) -> (r: usize)
        requires
            self.wf(),
        ensures
            r == self.slots_in_use(),
    {
        let mut rv = self.var.len();
        let mut free = self.var_free;
        let ghost mut k: int = 0;
        proof {
            lemma_chain_basics(self.var@, self.free_list@, self.var_free);
        }
        while free.is_some()
            invariant
                self.wf(),
                0 <= k <= self.free_list@.len(),
                free == (if k < self.free_list@.len() { Some(self.free_list@[k]) } else { None::<u32> }),
                rv == self.var@.len() - k,
                self.free_list@.len() <= self.var@.len(),
            decreases self.free_list@.len() - k,
        {
            let curr = free.unwrap();
            proof {
                lemma_chain_basics(self.var@, self.free_list@, self.var_free);
                assert(self.var@[self.free_list@[k] as int].item == VarItem::Free(chain_next(self.free_list@, k)));
            }
            rv = rv - 1;
            match self.var[curr as usize].item {
                VarItem::Free(next) => {
                    free = next;
                },
                _ => {
                    proof {
                        assert(false);
                    }
                },
            }
            proof {
                k = k + 1;
            }
        }
        rv
    }

    /// Take a slot for a Max or Min timer, reusing a free one if there is
    /// one.  Returns the slot and its generation.
    fn alloc_slot(&mut self, item: VarItem) -> (r: (u32, u32))
        requires
            old(self).slots_ok(),
            old(self).slots_in_use() < FIXED_SLOT_BASE,
            match item {
                VarItem::Max(vt) => valid_units(vt.expiry.val() as int) && vt.expiry.val() <= max_now(),
                VarItem::Min(vt) => valid_units(vt.expiry.val() as int) && vt.expiry.val() < MIN_TIMER_LIMIT,
                VarItem::Free(_) => false,
            },
        ensures
            final(self).slots_ok(),
            r.0 < final(self).var@.len(),
            r.0 < old(self).var@.len() ==> !old(self).slot_live(r.0 as int),
            final(self).var@ == (if r.0 < old(self).var@.len() {
                old(self).var@.update(r.0 as int, VarSlot { gen: old(self).var@[r.0 as int].gen, item })
            } else {
                old(self).var@.push(VarSlot { gen: 1, item })
            }),
            r.0 >= old(self).var@.len() ==> r.0 == old(self).var@.len(),
            old(self).var_free matches Some(h) ==> r.0 == h && (old(self).var@[h as int].item matches VarItem::Free(next)
                && final(self).var_free == next),
            old(self).var_free is None ==> r.0 == old(self).var@.len() && r.1 == 1,
            r.1 == final(self).var@[r.0 as int].gen,
            r.1 >= 1,
            final(self).slots_in_use() == old(self).slots_in_use() + 1,
            final(self).t0 == old(self).t0,
            final(self).now == old(self).now,
            final(self).queue@ == old(self).queue@,
            final(self).seq == old(self).seq,
    {
        proof {
            lemma_chain_basics(self.var@, self.free_list@, self.var_free);
        }
        match self.var_free {
            Some(i) => {
                proof {
                    assert(self.free_list@[0] == i);
                    assert(self.var@[i as int].item == VarItem::Free(chain_next(self.free_list@, 0)));
                }
                let gen = self.var[i as usize].gen;
                proof {
                    assert(self.slot_ok(i as int));
                }
                match self.var[i as usize].item {
                    VarItem::Free(next) => {
                        self.var_free = next;
                    },
                    _ => {
                        proof {
                            assert(false);
                        }
                    },
                }
                let ghost old_list = self.free_list@;
                proof {
                    lemma_chain_pop(old(self).var@, old_list, old(self).var_free, VarSlot { gen, item });
                }
                self.var.set(i as usize, VarSlot { gen, item });
                proof {
                    self.free_list@ = old_list.drop_first();
                    assert forall|j: int| 0 <= j < self.var@.len() implies #[trigger] self.slot_ok(j) by {
                        assert(old(self).slot_ok(j));
                    }
                    lemma_chain_basics(self.var@, self.free_list@, self.var_free);
                }
                (i, gen)
            },
            None => {
                let i = self.var.len();
                proof {
                    lemma_chain_push(old(self).var@, self.free_list@, self.var_free, VarSlot { gen: 1, item });
                }
                self.var.push(VarSlot { gen: 1, item });
                proof {
                    assert forall|j: int| 0 <= j < self.var@.len() implies #[trigger] self.slot_ok(j) by {
                        if j < i {
                            assert(old(self).slot_ok(j));
                        }
                    }
                }
                proof {
                    lemma_chain_basics(self.var@, self.free_list@, self.var_free);
                }
                (i as u32, 1)
            },
        }
    }

    /// Free a slot in use, changing its generation so that old keys no
    /// longer match it.
    #[verifier::spinoff_prover]
    #[verifier::rlimit(40)]
    fn free_slot(&mut self, i: u32)
        requires
            old(self).slots_ok(),
            i < old(self).var@.len(),
            old(self).slot_live(i as int),
        ensures
            final(self).slots_ok(),
            final(self).var@.len() == old(self).var@.len(),
            !final(self).slot_live(i as int),
            final(self).var@[i as int].gen != old(self).var@[i as int].gen,
            forall|j: int| 0 <= j < old(self).var@.len() && j != i ==> final(self).var@[j] == old(self).var@[j],
            final(self).slots_in_use() + 1 == old(self).slots_in_use(),
            final(self).var_free == Some(i),
            final(self).t0 == old(self).t0,
            final(self).now == old(self).now,
            final(self).queue@ == old(self).queue@,
            final(self).seq == old(self).seq,
    {
        let old_gen = self.var[i as usize].gen;
        let gen = if old_gen == u32::MAX { 1 } else { old_gen + 1 };
        let ghost old_list = self.free_list@;
        proof {
            lemma_chain_free(self.var@, old_list, self.var_free, i, gen);
        }
        self.var.set(i as usize, VarSlot { gen, item: VarItem::Free(self.var_free) });
        self.var_free = Some(i);
        proof {
            self.free_list@ = seq![i].add(old_list);
            assert forall|j: int| 0 <= j < self.var@.len() implies #[trigger] self.slot_ok(j) by {
                assert(old(self).slot_ok(j));
            }
            lemma_chain_basics(self.var@, self.free_list@, self.var_free);
            lemma_chain_basics(old(self).var@, old_list, old(self).var_free);
        }
    }
}

/// The set of numbers below `n` has `n` members.
proof fn lemma_set_of_small(n: nat)
    requires
        n <= u32::MAX + 1,
    ensures
        Set::new(|x: u32| x < n).finite(),
        Set::new(|x: u32| x < n).len() == n,
    decreases n,
{
    if n == 0 {
        assert(Set::new(|x: u32| x < n) =~= Set::<u32>::empty());
    } else {
        lemma_set_of_small((n - 1) as nat);
        assert(Set::new(|x: u32| x < n) =~= Set::new(|x: u32| x < (n - 1) as nat).insert((n - 1) as u32));
    }
}

impl<S> Timers<S> {
    /// Two states with the same entries, each described the same way,
    /// have the same timers.
    proof fn lemma_view_same(a: &Self, b: &Self)
        requires
            a.queue@ == b.queue@,
            forall|k: int| 0 <= k < a.qlen() ==> a.info_of(#[trigger] a.queue@[k]) == b.info_of(a.queue@[k]),
        ensures
            a.timers() =~= b.timers(),
    {
        assert forall|id: TimerId| a.timers().contains_key(id) implies a.timers()[id] == b.timers()[id] by {
            let k = choose|k: int| 0 <= k < a.qlen() && #[trigger] Self::id_of(a.queue@[k]) == id;
            assert(a.info_of(a.queue@[k]) == b.info_of(a.queue@[k]));
        }
        assert forall|id: TimerId| #[trigger] a.timers().contains_key(id) <==> b.timers().contains_key(id) by {
            assert(a.has_id(id) == b.has_id(id));
        }
    }

    /// A slot is in use exactly when its timer waits; what is known of
    /// that timer comes from the slot and the slot's entry.
    proof fn lemma_var_timer(&self, slot: u32)
        requires
            self.wf(),
        ensures
            self.timers().contains_key(TimerId::Var(slot)) <==> (slot < self.var@.len() && slot < FIXED_SLOT_BASE && self.slot_live(slot as int)),
            self.timers().contains_key(TimerId::Var(slot)) ==> exists|k: int| 0 <= k < self.qlen()
                && #[trigger] self.queue@[k].slot == slot
                && self.timers()[TimerId::Var(slot)] == self.info_of(self.queue@[k]),
    {
        if self.timers().contains_key(TimerId::Var(slot)) {
            let k = choose|k: int| 0 <= k < self.qlen() && #[trigger] Self::id_of(self.queue@[k]) == TimerId::Var(slot);
            assert(self.entry_ok(self.queue@[k]));
            self.lemma_timers_at(k);
        }
        if slot < self.var@.len() && slot < FIXED_SLOT_BASE && self.slot_live(slot as int) {
            assert(self.has_id(TimerId::Var(slot as int as u32)));
        }
    }

    /// Whether a slot holds a timer of the given kind, with the given
    /// generation.
    pub open spec fn holds(&self, slot: u32, gen: u32, kind: TimerKind) -> bool {
        &&& self.timers().contains_key(TimerId::Var(slot))
        &&& self.slot_gen(slot as int) == gen
        &&& self.timers()[TimerId::Var(slot)].kind == kind
    }

    /// A Max or Min timer waits only in a slot that exists.
    pub proof fn lemma_var_slot_exists(&self, slot: u32)
        requires
            self.wf(),
        ensures
            self.timers().contains_key(TimerId::Var(slot)) ==> slot < self.slot_count(),
    {
        self.lemma_var_timer(slot);
    }

    /// A key of slot and generation 0, such as the default key, names no
    /// waiting timer of any kind.
    pub proof fn lemma_default_key_holds_nothing(&self, kind: TimerKind)
        requires
            self.wf(),
        ensures
            !self.holds(0, 0, kind),
    {
        self.lemma_var_slot_exists(0);
        self.lemma_gen_positive();
        if self.timers().contains_key(TimerId::Var(0)) {
            assert(self.slot_gen(0) >= 1);
        }
    }

    /// Every slot's generation is at least 1, so that a key of generation
    /// 0, such as the default key, matches no slot.
    pub proof fn lemma_gen_positive(&self)
        requires
            self.wf(),
        ensures
            forall|j: int| 0 <= j < self.slot_count() ==> #[trigger] self.slot_gen(j) >= 1,
    {
        assert forall|j: int| 0 <= j < self.slot_count() implies #[trigger] self.slot_gen(j) >= 1 by {
            assert(self.slot_ok(j));
        }
    }

    /// Check whether a Max timer is still active: its slot exists and
    /// still has the key's generation.
    pub fn max_is_active(&self, mk: MaxTimerKey) -> (r: bool)
        requires
            self.wf(),
        ensures
            r == (mk.spec_slot() < self.slot_count() && self.slot_gen(mk.spec_slot() as int) == mk.spec_gen()),
    {
        if (mk.slot as usize) < self.var.len() {
            self.var[mk.slot as usize].gen == mk.gen
        } else {
            false
        }
    }

    /// Check whether a Min timer is still active: its slot exists and
    /// still has the key's generation.
    pub fn min_is_active(&self, mk: MinTimerKey) -> (r: bool)
        requires
            self.wf(),
        ensures
            r == (mk.spec_slot() < self.slot_count() && self.slot_gen(mk.spec_slot() as int) == mk.spec_gen()),
    {
        if (mk.slot as usize) < self.var.len() {
            self.var[mk.slot as usize].gen == mk.gen
        } else {
            false
        }
    }
}

/// What is known of a Max or Min timer just set or reset.
pub open spec fn var_info<S>(kind: TimerKind, wake: int, expiry: int, call: Callback<S>) -> TimerInfo<S> {
    TimerInfo {
        kind,
        wake: wake as u64,
        expiry: expiry as u64,
        due: vstd::math::max(expiry, wake) as u64,
        call,
    }
}

/// Where a new Max timer first wakes: its expiry, but not before now and
/// not more than the queue's limit ahead.
pub open spec fn max_wake(expiry: int, now: int) -> int {
    vstd::math::min(vstd::math::max(expiry, now), now + ahead_units())
}

impl<S> Timers<S> {
    /// Insert an entry for a timer whose key is not in the queue.
    fn insert_entry(&mut self, e: QEntry<S>) -> (p: usize)
        requires
            old(self).entries_ok(),
            old(self).entry_ok(e),
            forall|k: int| 0 <= k < old(self).qlen() ==>
                !(#[trigger] old(self).queue@[k].at == e.at && old(self).queue@[k].slot == e.slot),
        ensures
            final(self).entries_ok(),
            p <= old(self).qlen(),
            final(self).queue@ == old(self).queue@.insert(p as int, e),
            final(self).var@ == old(self).var@,
            final(self).t0 == old(self).t0,
            final(self).now == old(self).now,
            final(self).var_free == old(self).var_free,
            final(self).seq == old(self).seq,
            final(self).free_list@ == old(self).free_list@,
    {
        let p = self.find(e.at.0, e.slot);
        let ghost q = self.queue@;
        proof {
            if p < q.len() {
                assert(!(q[p as int].at == e.at && q[p as int].slot == e.slot));
                assert(!key_lt(q[p as int].at.val() as int, q[p as int].slot as int, e.at.val() as int, e.slot as int));
            }
        }
        self.queue.insert(p, e);
        proof {
            let nq = self.queue@;
            assert forall|i: int, j: int| 0 <= i < j < nq.len() implies key_lt(
                nq[i].at.val() as int, nq[i].slot as int, nq[j].at.val() as int, nq[j].slot as int) by {
                if j < p {
                } else if j == p {
                    assert(nq[i] == q[i]);
                } else if i < p {
                    assert(nq[j] == q[j - 1]);
                } else if i == p {
                    assert(nq[j] == q[j - 1]);
                } else {
                    assert(nq[i] == q[i - 1]);
                    assert(nq[j] == q[j - 1]);
                }
            }
            assert forall|k: int| 0 <= k < nq.len() implies self.entry_ok(#[trigger] nq[k]) by {
                if k < p {
                    assert(nq[k] == q[k]);
                    assert(old(self).entry_ok(q[k]));
                } else if k > p {
                    assert(nq[k] == q[k - 1]);
                    assert(old(self).entry_ok(q[k - 1]));
                }
            }
        }
        p
    }

    /// Add a Max timer, which expires at the latest expiry time it has
    /// been given.  Changing the expiry time later is quick, as the timer
    /// stays where it is in the queue until it comes up.
    #[verifier::spinoff_prover]
    #[verifier::rlimit(80)]
    pub fn add_max(&mut self, expiry_time: Instant, bfn: Callback<S>) -> (r: MaxTimerKey)
        requires
            old(self).wf(),
            bfn.ready(),
            in_range(expiry_time, old(self).base()),
            old(self).slots_in_use() < FIXED_SLOT_BASE,
        ensures
            final(self).wf(),
            r.spec_slot() < FIXED_SLOT_BASE,
            !old(self).timers().contains_key(TimerId::Var(r.spec_slot())),
            final(self).timers() == old(self).timers().insert(TimerId::Var(r.spec_slot()), var_info(
                TimerKind::Max,
                max_wake(ceil_of(expiry_time, old(self).base()), old(self).now_units() as int),
                ceil_of(expiry_time, old(self).base()),
                bfn,
            )),
            final(self).slot_gen(r.spec_slot() as int) == r.spec_gen(),
            r.spec_gen() >= 1,
            r.spec_slot() == old(self).next_slot(),
            r.spec_slot() < old(self).slot_count() ==> r.spec_gen() == old(self).slot_gen(r.spec_slot() as int),
            r.spec_slot() >= old(self).slot_count() ==> r.spec_gen() == 1,
            final(self).fixed_seq() == old(self).fixed_seq(),
            final(self).slot_count() >= old(self).slot_count(),
            forall|j: int| 0 <= j < old(self).slot_count() && j != r.spec_slot() ==>
                final(self).slot_gen(j) == old(self).slot_gen(j),
            final(self).slots_in_use() == old(self).slots_in_use() + 1,
            final(self).now_units() == old(self).now_units(),
            final(self).base() == old(self).base(),
    {
        let expiry = Time::new_ceil(expiry_time, self.t0);
        let curr = expiry.max(self.now).min(self.now.add_secs(MAX_AHEAD_SECS));
        let (slot, gen) = self.add_var(VarItem::Max(VarTimer { expiry, curr }), curr, bfn);
        proof {
            assert(vstd::math::max(expiry.val() as int, curr.val() as int) == vstd::math::max(expiry.val() as int, old(self).now.val() as int));
        }
        MaxTimerKey { slot, gen }
    }

    /// Take a slot for a Max or Min timer and put its entry in the queue.
    fn add_var(&mut self, item: VarItem, curr: Time, bfn: Callback<S>) -> (r: (u32, u32))
        requires
            old(self).wf(),
            bfn.ready(),
            old(self).slots_in_use() < FIXED_SLOT_BASE,
            old(self).now.val() <= curr.val() <= old(self).now.val() + 2 * ahead_units(),
            valid_units(curr.val() as int),
            match item {
                VarItem::Max(vt) => vt.curr == curr && valid_units(vt.expiry.val() as int) && vt.expiry.val() <= max_now()
                    && curr.val() <= vstd::math::max(vt.expiry.val() as int, old(self).now.val() as int),
                VarItem::Min(vt) => vt.curr == curr && valid_units(vt.expiry.val() as int) && vt.expiry.val() < MIN_TIMER_LIMIT
                    && curr.val() <= vstd::math::max(vt.expiry.val() as int, old(self).now.val() as int),
                VarItem::Free(_) => false,
            },
        ensures
            final(self).wf(),
            r.0 < FIXED_SLOT_BASE,
            !old(self).timers().contains_key(TimerId::Var(r.0)),
            final(self).timers() == old(self).timers().insert(TimerId::Var(r.0), match item {
                VarItem::Max(vt) => var_info(TimerKind::Max, curr.val() as int, vt.expiry.val() as int, bfn),
                VarItem::Min(vt) => var_info(TimerKind::Min, curr.val() as int, vt.expiry.val() as int, bfn),
                VarItem::Free(_) => var_info(TimerKind::Fixed, 0, 0, bfn),
            }),
            final(self).slot_gen(r.0 as int) == r.1,
            r.1 >= 1,
            r.0 == old(self).next_slot(),
            r.0 < old(self).slot_count() ==> r.1 == old(self).slot_gen(r.0 as int),
            r.0 >= old(self).slot_count() ==> r.1 == 1,
            final(self).slot_count() >= old(self).slot_count(),
            forall|j: int| 0 <= j < old(self).slot_count() && j != r.0 ==>
                final(self).slot_gen(j) == old(self).slot_gen(j),
            final(self).slots_in_use() == old(self).slots_in_use() + 1,
            final(self).now == old(self).now,
            final(self).t0 == old(self).t0,
            final(self).seq == old(self).seq,
    {
        let ghost s0 = *self;
        proof {
            lemma_chain_basics(self.var@, self.free_list@, self.var_free);
        }
        let (slot, gen) = self.alloc_slot(item);
        let ghost s1 = *self;
        proof {
            // The slot was free, so no entry refers to it and nothing else changed.
            assert forall|k: int| 0 <= k < s1.qlen() implies s0.info_of(#[trigger] s1.queue@[k]) == s1.info_of(s1.queue@[k])
                && s1.entry_ok(s1.queue@[k]) by {
                assert(s0.entry_ok(s0.queue@[k]));
                let e = s0.queue@[k];
                if e.slot < FIXED_SLOT_BASE {
                    assert(e.slot != slot);
                    assert(s1.var@[e.slot as int] == s0.var@[e.slot as int]);
                }
            }
            Self::lemma_view_same(&s0, &s1);
            assert forall|k: int| 0 <= k < s1.qlen() implies
                !(#[trigger] s1.queue@[k].at == curr && s1.queue@[k].slot == slot) by {
                assert(s0.entry_ok(s0.queue@[k]));
            }
        }
        let e = QEntry { at: curr, slot, bfn };
        let p = self.insert_entry(e);
        proof {
            Self::lemma_view_insert(&s1, self, p as int, e);
            assert(Self::id_of(e) == TimerId::Var(slot));
            assert(!s0.timers().contains_key(TimerId::Var(slot)));
            assert forall|j: int| 0 <= j < self.var@.len() && #[trigger] self.slot_live(j) implies
                self.has_id(TimerId::Var(j as u32)) by {
                if j == slot {
                    assert(self.queue@[p as int] == e);
                    assert(Self::id_of(self.queue@[p as int]) == TimerId::Var(j as u32));
                } else {
                    assert(s0.slot_live(j));
                    assert(s0.has_id(TimerId::Var(j as u32)));
                    assert(s0.timers().contains_key(TimerId::Var(j as u32)));
                    assert(self.timers().contains_key(TimerId::Var(j as u32)));
                }
            }
            assert(self.info_of(e) == match item {
                VarItem::Max(vt) => var_info(TimerKind::Max, curr.val() as int, vt.expiry.val() as int, bfn),
                VarItem::Min(vt) => var_info(TimerKind::Min, curr.val() as int, vt.expiry.val() as int, bfn),
                VarItem::Free(_) => var_info(TimerKind::Fixed, 0, 0, bfn),
            });
            assert(s1.info_of(e) == self.info_of(e));
            assert(self.clock_ok());
            assert(self.entries_ok());
            assert forall|j: int| 0 <= j < self.var@.len() implies #[trigger] self.slot_ok(j) by {
                assert(s1.slot_ok(j));
            }
            assert(self.slots_ok());
            assert(self.live_have_entries());
        }
        (slot, gen)
    }
}

/// Where a new Min timer first wakes: about 75% of the way from now to
/// its expiry, not before now and not more than the queue's limit ahead.
pub open spec fn min_wake_ok(wake: int, expiry: int, now: int) -> bool {
    let target = max_wake(expiry, now);
    &&& now <= wake <= target
    &&& (target - now < 0x8000 ==> wake == target)
    &&& (target - now >= 0x8000 ==> now < wake && wake >= (now + 3 * target) / 4)
}

/// Where a Min timer with the given expiry, set at `now`, first wakes:
/// the point about 75% of the way from now to its expiry, or to the
/// queue's limit ahead when that comes first.
pub open spec fn min_first_wake(expiry: int, now: int) -> int {
    round75(now, max_wake(expiry, now))
}

impl<S> Timers<S> {
    /// Add a Min timer, which expires at the earliest expiry time it has
    /// been given.  It approaches its expiry time in steps of about 75%,
    /// so that an earlier expiry time can mostly be taken without moving
    /// the timer in the queue.
    pub fn add_min(&mut self, expiry_time: Instant, bfn: Callback<S>) -> (r: MinTimerKey)
        requires
            old(self).wf(),
            bfn.ready(),
            in_range(expiry_time, old(self).base()),
            vstd::math::max(ceil_of(expiry_time, old(self).base()), old(self).now_units() as int) < MIN_TIMER_LIMIT,
            old(self).slots_in_use() < FIXED_SLOT_BASE,
        ensures
            final(self).wf(),
            r.spec_slot() < FIXED_SLOT_BASE,
            !old(self).timers().contains_key(TimerId::Var(r.spec_slot())),
            ({
                let e = ceil_of(expiry_time, old(self).base());
                let wake = min_first_wake(e, old(self).now_units() as int);
                &&& min_wake_ok(wake, e, old(self).now_units() as int)
                &&& final(self).timers() == old(self).timers().insert(TimerId::Var(r.spec_slot()), var_info(
                    TimerKind::Min, wake, e, bfn))
            }),
            final(self).slot_gen(r.spec_slot() as int) == r.spec_gen(),
            r.spec_gen() >= 1,
            r.spec_slot() == old(self).next_slot(),
            r.spec_slot() < old(self).slot_count() ==> r.spec_gen() == old(self).slot_gen(r.spec_slot() as int),
            r.spec_slot() >= old(self).slot_count() ==> r.spec_gen() == 1,
            final(self).fixed_seq() == old(self).fixed_seq(),
            final(self).slot_count() >= old(self).slot_count(),
            forall|j: int| 0 <= j < old(self).slot_count() && j != r.spec_slot() ==>
                final(self).slot_gen(j) == old(self).slot_gen(j),
            final(self).slots_in_use() == old(self).slots_in_use() + 1,
            final(self).now_units() == old(self).now_units(),
            final(self).base() == old(self).base(),
    {
        let expiry = Time::new_ceil(expiry_time, self.t0);
        let target = expiry.max(self.now).min(self.now.add_secs(MAX_AHEAD_SECS));
        let curr = rounded_75point(self.now, target);
        let (slot, gen) = self.add_var(VarItem::Min(VarTimer { expiry, curr }), curr, bfn);
        proof {
            assert(expiry.val() == ceil_of(expiry_time, old(self).base()));
            assert(min_wake_ok(curr.val() as int, ceil_of(expiry_time, old(self).base()), old(self).now_units() as int));
            assert(self.timers() == old(self).timers().insert(TimerId::Var(slot), var_info(
                TimerKind::Min, curr.val() as int, ceil_of(expiry_time, old(self).base()), bfn)));
        }
        MinTimerKey { slot, gen }
    }

    /// Take a Max or Min timer out of the queue, freeing its slot.
    /// Returns its call.
    fn remove_var(&mut self, slot: u32) -> (r: Callback<S>)
        requires
            old(self).wf(),
            old(self).timers().contains_key(TimerId::Var(slot)),
        ensures
            final(self).wf(),
            final(self).timers() == old(self).timers().remove(TimerId::Var(slot)),
            r == old(self).timers()[TimerId::Var(slot)].call,
            final(self).slot_count() == old(self).slot_count(),
            final(self).slot_gen(slot as int) != old(self).slot_gen(slot as int),
            forall|j: int| 0 <= j < old(self).slot_count() && j != slot ==>
                final(self).slot_gen(j) == old(self).slot_gen(j),
            final(self).slots_in_use() + 1 == old(self).slots_in_use(),
            final(self).next_slot() == slot,
            final(self).now == old(self).now,
            final(self).t0 == old(self).t0,
            exists|k: int| 0 <= k < old(self).qlen() && #[trigger] old(self).queue@[k].slot == slot
                && final(self).queue@ == old(self).queue@.remove(k),
    {
        let ghost s0 = *self;
        proof {
            self.lemma_var_timer(slot);
        }
        let curr = match self.var[slot as usize].item {
            VarItem::Max(vt) => vt.curr,
            VarItem::Min(vt) => vt.curr,
            VarItem::Free(_) => {
                proof {
                    assert(false);
                }
                self.now
            },
        };
        let p = self.find(curr.0, slot);
        proof {
            let k = choose|k: int| 0 <= k < s0.qlen() && #[trigger] s0.queue@[k].slot == slot
                && s0.timers()[TimerId::Var(slot)] == s0.info_of(s0.queue@[k]);
            assert(s0.entry_ok(s0.queue@[k]));
            assert(s0.queue@[k].at == curr);
            if k < p {
                assert(key_lt(s0.queue@[k].at.val() as int, s0.queue@[k].slot as int, curr.val() as int, slot as int));
            }
            if k > p {
                assert(key_lt(s0.queue@[p as int].at.val() as int, s0.queue@[p as int].slot as int,
                    s0.queue@[k].at.val() as int, s0.queue@[k].slot as int));
            }
            assert(k == p);
            s0.lemma_timers_at(k);
        }
        let e = self.queue.remove(p);
        let ghost s1 = *self;
        proof {
            assert forall|i: int, j: int| 0 <= i < j < s1.qlen() implies key_lt(
                s1.queue@[i].at.val() as int, s1.queue@[i].slot as int,
                s1.queue@[j].at.val() as int, s1.queue@[j].slot as int) by {
                let ii = if i < p { i } else { i + 1 };
                let jj = if j < p { j } else { j + 1 };
                assert(s1.queue@[i] == s0.queue@[ii]);
                assert(s1.queue@[j] == s0.queue@[jj]);
            }
            assert forall|k: int| 0 <= k < s1.qlen() implies #[trigger] s1.entry_ok(s1.queue@[k])
                && s1.queue@[k].slot != slot by {
                let kk = if k < p { k } else { k + 1 };
                assert(s1.queue@[k] == s0.queue@[kk]);
                assert(s0.entry_ok(s0.queue@[kk]));
                if s0.queue@[kk].slot == slot {
                    s0.lemma_ids_distinct(kk, p as int);
                }
            }
            Self::lemma_view_remove(&s0, &s1, p as int);
            assert forall|j: int| 0 <= j < s1.var@.len() implies #[trigger] s1.slot_ok(j) by {
                assert(s0.slot_ok(j));
            }
            assert(s1.slots_ok());
        }
        self.free_slot(slot);
        proof {
            assert forall|k: int| 0 <= k < self.qlen() implies s1.info_of(#[trigger] self.queue@[k]) == self.info_of(self.queue@[k])
                && self.entry_ok(self.queue@[k]) by {
                assert(s1.entry_ok(s1.queue@[k]));
                assert(s1.queue@[k].slot != slot);
            }
            Self::lemma_view_same(&s1, self);
            assert forall|j: int| 0 <= j < self.var@.len() && #[trigger] self.slot_live(j) implies
                self.has_id(TimerId::Var(j as u32)) by {
                assert(j != slot);
                assert(s0.slot_live(j));
                assert(s0.has_id(TimerId::Var(j as u32)));
                assert(s0.timers().contains_key(TimerId::Var(j as u32)));
                assert(self.timers().contains_key(TimerId::Var(j as u32)));
            }
            assert(self.entries_ok());
            assert(s0.queue@[p as int].slot == slot);
        }
        e.bfn
    }

    /// Delete a Max timer.  Returns `true` if it was waiting, `false` if
    /// it had expired or been deleted.
    pub fn del_max(&mut self, mk: MaxTimerKey) -> (r: bool)
        requires
            old(self).wf(),
        ensures
            final(self).wf(),
            r == old(self).holds(mk.spec_slot(), mk.spec_gen(), TimerKind::Max),
            final(self).timers() == if r {
                old(self).timers().remove(TimerId::Var(mk.spec_slot()))
            } else {
                old(self).timers()
            },
            r ==> final(self).slot_gen(mk.spec_slot() as int) != mk.spec_gen(),
            forall|j: int| 0 <= j < old(self).slot_count() && (!r || j != mk.spec_slot()) ==>
                #[trigger] final(self).slot_gen(j) == old(self).slot_gen(j),
            final(self).slot_count() == old(self).slot_count(),
            final(self).slots_in_use() == old(self).slots_in_use() - (if r { 1int } else { 0int }),
            r ==> final(self).next_slot() == mk.spec_slot(),
            !r ==> *final(self) == *old(self),
            final(self).now_units() == old(self).now_units(),
            final(self).base() == old(self).base(),
    {
        proof {
            self.lemma_var_timer(mk.slot);
        }
        if (mk.slot as usize) < self.var.len() && self.var[mk.slot as usize].gen == mk.gen {
            if let VarItem::Max(_) = self.var[mk.slot as usize].item {
                proof {
                    let k = choose|k: int| 0 <= k < self.qlen() && #[trigger] self.queue@[k].slot == mk.slot
                        && self.timers()[TimerId::Var(mk.slot)] == self.info_of(self.queue@[k]);
                }
                self.remove_var(mk.slot);
                return true;
            }
        }
        proof {
            if self.timers().contains_key(TimerId::Var(mk.slot)) {
                let k = choose|k: int| 0 <= k < self.qlen() && #[trigger] self.queue@[k].slot == mk.slot
                    && self.timers()[TimerId::Var(mk.slot)] == self.info_of(self.queue@[k]);
            }
        }
        false
    }

    /// Delete a Min timer.  Returns `true` if it was waiting, `false` if
    /// it had expired or been deleted.
    pub fn del_min(&mut self, mk: MinTimerKey) -> (r: bool)
        requires
            old(self).wf(),
        ensures
            final(self).wf(),
            r == old(self).holds(mk.spec_slot(), mk.spec_gen(), TimerKind::Min),
            final(self).timers() == if r {
                old(self).timers().remove(TimerId::Var(mk.spec_slot()))
            } else {
                old(self).timers()
            },
            r ==> final(self).slot_gen(mk.spec_slot() as int) != mk.spec_gen(),
            forall|j: int| 0 <= j < old(self).slot_count() && (!r || j != mk.spec_slot()) ==>
                #[trigger] final(self).slot_gen(j) == old(self).slot_gen(j),
            final(self).slot_count() == old(self).slot_count(),
            final(self).slots_in_use() == old(self).slots_in_use() - (if r { 1int } else { 0int }),
            r ==> final(self).next_slot() == mk.spec_slot(),
            !r ==> *final(self) == *old(self),
            final(self).now_units() == old(self).now_units(),
            final(self).base() == old(self).base(),
    {
        proof {
            self.lemma_var_timer(mk.slot);
        }
        if (mk.slot as usize) < self.var.len() && self.var[mk.slot as usize].gen == mk.gen {
            if let VarItem::Min(_) = self.var[mk.slot as usize].item {
                proof {
                    let k = choose|k: int| 0 <= k < self.qlen() && #[trigger] self.queue@[k].slot == mk.slot
                        && self.timers()[TimerId::Var(mk.slot)] == self.info_of(self.queue@[k]);
                }
                self.remove_var(mk.slot);
                return true;
            }
        }
        proof {
            if self.timers().contains_key(TimerId::Var(mk.slot)) {
                let k = choose|k: int| 0 <= k < self.qlen() && #[trigger] self.queue@[k].slot == mk.slot
                    && self.timers()[TimerId::Var(mk.slot)] == self.info_of(self.queue@[k]);
            }
        }
        false
    }
}

/// A fixed slot number is the counter's low 31 bits with the top bit set.
proof fn lemma_fixed_slot(seq: u32)
    ensures
        seq | 0x8000_0000u32 == 0x8000_0000u32 + seq % 0x8000_0000,
{
    assert(seq | 0x8000_0000u32 == 0x8000_0000u32 + seq % 0x8000_0000) by (bit_vector);
}

impl<S> Timers<S> {
    /// Number of timers waiting.
    pub closed spec fn count(&self) -> nat {
        self.queue@.len()
    }

    /// Two states with the same entries, described the same way but for
    /// one, differ in that one timer.
    proof fn lemma_view_update(a: &Self, b: &Self, p: int)
        requires
            a.ids_ok(),
            b.ids_ok(),
            a.queue@ == b.queue@,
            0 <= p < a.qlen(),
            forall|k: int| 0 <= k < a.qlen() && k != p ==> a.info_of(#[trigger] a.queue@[k]) == b.info_of(a.queue@[k]),
        ensures
            b.timers() =~= a.timers().insert(Self::id_of(a.queue@[p]), b.info_of(a.queue@[p])),
    {
        b.lemma_timers_at(p);
        assert forall|id: TimerId| #[trigger] a.timers().contains_key(id) <==> b.timers().contains_key(id) by {
            assert(a.has_id(id) == b.has_id(id));
        }
        assert forall|id: TimerId| a.timers().contains_key(id) && id != Self::id_of(a.queue@[p]) implies
            a.timers()[id] == b.timers()[id] by {
            let k = choose|k: int| 0 <= k < a.qlen() && #[trigger] Self::id_of(a.queue@[k]) == id;
            a.lemma_timers_at(k);
            b.lemma_timers_at(k);
        }
        a.lemma_timers_at(p);
    }

    /// Remove a fixed timer's entry, returning its call.
    fn remove_fixed(&mut self, p: usize) -> (r: Callback<S>)
        requires
            old(self).wf(),
            p < old(self).qlen(),
            old(self).queue@[p as int].slot >= FIXED_SLOT_BASE,
        ensures
            final(self).wf(),
            final(self).timers() == old(self).timers().remove(Self::id_of(old(self).queue@[p as int])),
            old(self).timers().contains_key(Self::id_of(old(self).queue@[p as int])),
            r == old(self).timers()[Self::id_of(old(self).queue@[p as int])].call,
            final(self).qlen() + 1 == old(self).qlen(),
            final(self).queue@ == old(self).queue@.remove(p as int),
            final(self).var@ == old(self).var@,
            final(self).free_list@ == old(self).free_list@,
            final(self).now == old(self).now,
            final(self).t0 == old(self).t0,
    {
        let ghost s0 = *self;
        proof {
            s0.lemma_timers_at(p as int);
        }
        let removed = self.queue.remove(p);
        proof {
            assert forall|i: int, j: int| 0 <= i < j < self.qlen() implies key_lt(
                self.queue@[i].at.val() as int, self.queue@[i].slot as int,
                self.queue@[j].at.val() as int, self.queue@[j].slot as int) by {
                let ii = if i < p { i } else { i + 1 };
                let jj = if j < p { j } else { j + 1 };
                assert(self.queue@[i] == s0.queue@[ii]);
                assert(self.queue@[j] == s0.queue@[jj]);
            }
            assert forall|k: int| 0 <= k < self.qlen() implies #[trigger] self.entry_ok(self.queue@[k]) by {
                let kk = if k < p { k } else { k + 1 };
                assert(self.queue@[k] == s0.queue@[kk]);
                assert(s0.entry_ok(s0.queue@[kk]));
            }
            Self::lemma_view_remove(&s0, self, p as int);
            assert forall|j: int| 0 <= j < self.var@.len() && #[trigger] self.slot_live(j) implies
                self.has_id(TimerId::Var(j as u32)) by {
                assert(s0.slot_live(j));
                assert(s0.has_id(TimerId::Var(j as u32)));
                assert(s0.timers().contains_key(TimerId::Var(j as u32)));
                assert(self.timers().contains_key(TimerId::Var(j as u32)));
            }
            assert forall|j: int| 0 <= j < self.var@.len() implies #[trigger] self.slot_ok(j) by {
                assert(s0.slot_ok(j));
            }
        }
        removed.bfn
    }

    /// Add a fixed timer, which can only expire or be deleted.  One set
    /// further ahead than the queue's limit is kept as a Max timer, so that
    /// it is set again each time it comes up until its time is reached.
    pub fn add(&mut self, expiry_time: Instant, bfn: Callback<S>) -> (r: FixedTimerKey)
        requires
            old(self).wf(),
            bfn.ready(),
            in_range(expiry_time, old(self).base()),
            old(self).slots_in_use() < FIXED_SLOT_BASE,
            old(self).timers().len() < FIXED_SLOT_BASE,
        ensures
            final(self).wf(),
            final(self).now_units() == old(self).now_units(),
            final(self).base() == old(self).base(),
            ({
                let e = vstd::math::max(ceil_of(expiry_time, old(self).base()), old(self).now_units() as int);
                if e >= old(self).now_units() + ahead_units() {
                    &&& r.spec_slot() < FIXED_SLOT_BASE
                    &&& !old(self).timers().contains_key(TimerId::Var(r.spec_slot()))
                    &&& final(self).timers() == old(self).timers().insert(TimerId::Var(r.spec_slot()), var_info(
                        TimerKind::Max,
                        max_wake(ceil_of(expiry_time, old(self).base()), old(self).now_units() as int),
                        ceil_of(expiry_time, old(self).base()),
                        bfn,
                    ))
                    &&& final(self).slot_gen(r.spec_slot() as int) == r.spec_gen_or_time()
                    &&& r.spec_slot() == old(self).next_slot()
                    &&& final(self).fixed_seq() == old(self).fixed_seq()
                    &&& final(self).slots_in_use() == old(self).slots_in_use() + 1
                } else {
                    &&& r.spec_slot() >= FIXED_SLOT_BASE
                    &&& exists|j: int| 1 <= j && r.spec_slot() == #[trigger] fixed_slot_of(old(self).fixed_seq() as int, j)
                        && final(self).fixed_seq() == (old(self).fixed_seq() + j) % 0x1_0000_0000
                        && forall|i: int| 1 <= i < j ==> old(self).timers().contains_key(
                            TimerId::Fixed(e as u64, fixed_slot_of(old(self).fixed_seq() as int, i) as u32))
                    &&& r.spec_gen_or_time() == e % 0x1_0000_0000
                    &&& !old(self).timers().contains_key(TimerId::Fixed(e as u64, r.spec_slot()))
                    &&& final(self).timers() == old(self).timers().insert(TimerId::Fixed(e as u64, r.spec_slot()),
                        TimerInfo { kind: TimerKind::Fixed, wake: e as u64, expiry: e as u64, due: e as u64, call: bfn })
                    &&& final(self).slots_in_use() == old(self).slots_in_use()
                }
            }),
            forall|j: int| 0 <= j < old(self).slot_count() && j != r.spec_slot() ==>
                final(self).slot_gen(j) == old(self).slot_gen(j),
            final(self).slot_count() >= old(self).slot_count(),
    {
        let expiry = Time::new_ceil(expiry_time, self.t0).max(self.now);
        if expiry.0 >= self.now.add_secs(MAX_AHEAD_SECS).0 {
            // Add it as a Max timer, so that it is set again until it
            // reaches its time
            let mk = self.add_max(expiry_time, bfn);
            return FixedTimerKey { slot: mk.slot, gen_or_time: mk.gen };
        }
        let wt = expiry.wt();
        proof {
            self.lemma_count();
        }
        let ghost s0 = *self;
        let ghost seq0 = self.seq;
        let ghost mut tried: Set<u32> = Set::empty();
        let ghost mut n: int = 0;
        let ghost qslots = self.queue@.map_values(|e: QEntry<S>| e.slot).to_set();
        proof {
            self.queue@.map_values(|e: QEntry<S>| e.slot).lemma_cardinality_of_set();
        }
        loop
            invariant
                self.wf(),
                self.queue@ == s0.queue@,
                self.var@ == s0.var@,
                self.free_list@ == s0.free_list@,
                self.var_free == s0.var_free,
                self.now == s0.now,
                self.t0 == s0.t0,
                s0.wf(),
                s0 == *old(self),
                seq0 == s0.seq,
                expiry.val() == vstd::math::max(ceil_of(expiry_time, old(self).base()), old(self).now_units() as int),
                wt.0 == expiry.val() % 0x1_0000_0000,
                s0.count() < FIXED_SLOT_BASE,
                qslots == s0.queue@.map_values(|e: QEntry<S>| e.slot).to_set(),
                qslots.finite(),
                qslots.len() <= s0.qlen(),
                bfn.ready(),
                s0.now.val() <= expiry.val() < s0.now.val() + ahead_units(),
                valid_units(expiry.val() as int),
                0 <= n <= s0.qlen(),
                self.seq as int == (seq0 + n) % 0x1_0000_0000,
                tried.finite(),
                tried.len() == n,
                tried.subset_of(qslots),
                forall|s: u32| #[trigger] tried.contains(s) ==>
                    exists|j: int| 1 <= j <= n && s as int == #[trigger] fixed_slot_of(seq0 as int, j),
                forall|i: int| 1 <= i <= n ==> s0.timers().contains_key(
                    TimerId::Fixed(expiry.val(), #[trigger] fixed_slot_of(seq0 as int, i) as u32)),
            decreases s0.qlen() - n,
        {
            let ghost before_seq = *self;
            self.seq = self.seq.wrapping_add(1);
            proof {
                assert forall|j: int| 0 <= j < self.var@.len() implies #[trigger] self.slot_ok(j) by {
                    assert(before_seq.slot_ok(j));
                }
                assert forall|j: int| 0 <= j < self.var@.len() && #[trigger] self.slot_live(j) implies
                    self.has_id(TimerId::Var(j as u32)) by {
                    assert(before_seq.slot_live(j));
                    assert(before_seq.has_id(TimerId::Var(j as u32)));
                    let k = choose|k: int| 0 <= k < before_seq.qlen() && #[trigger] Self::id_of(before_seq.queue@[k]) == TimerId::Var(j as u32);
                    assert(Self::id_of(self.queue@[k]) == TimerId::Var(j as u32));
                }
                assert forall|k: int| 0 <= k < self.qlen() implies #[trigger] self.entry_ok(self.queue@[k]) by {
                    assert(before_seq.entry_ok(before_seq.queue@[k]));
                }
                assert(self.wf());
            }
            let slot = self.seq | 0x8000_0000;
            let ghost sn = (seq0 + n + 1) % 0x1_0000_0000;
            proof {
                lemma_fixed_slot(self.seq);
                assert(self.seq as int == sn);
                vstd::arithmetic::div_mod::lemma_mod_mod(seq0 + n + 1, 0x8000_0000, 2);
                assert(slot as int == 0x8000_0000 + (seq0 + n + 1) % 0x8000_0000);
                assert(!tried.contains(slot)) by {
                    if tried.contains(slot) {
                        let j = choose|j: int| 1 <= j <= n && slot as int == #[trigger] fixed_slot_of(seq0 as int, j);
                        lemma_mod_distinct(seq0 + j, n + 1 - j);
                    }
                }
            }
            let p = self.find(expiry.0, slot);
            if p < self.queue.len() && self.queue[p].at.0 == expiry.0 && self.queue[p].slot == slot {
                proof {
                    assert(s0.queue@.map_values(|e: QEntry<S>| e.slot)[p as int] == slot);
                    assert(qslots.contains(slot));
                    assert(slot as int == fixed_slot_of(seq0 as int, n + 1));
                    assert(Self::id_of(s0.queue@[p as int]) == TimerId::Fixed(expiry.val(), slot));
                    s0.lemma_timers_at(p as int);
                    tried = tried.insert(slot);
                    n = n + 1;
                    vstd::set_lib::lemma_len_subset(tried, qslots);
                }
            } else {
                let e = QEntry { at: expiry, slot, bfn };
                proof {
                    assert forall|k: int| 0 <= k < self.qlen() implies
                        !(#[trigger] self.queue@[k].at == e.at && self.queue@[k].slot == e.slot) by {
                        if k < p {
                            assert(key_lt(self.queue@[k].at.val() as int, self.queue@[k].slot as int, expiry.val() as int, slot as int));
                        } else if k > p {
                            assert(key_lt(self.queue@[p as int].at.val() as int, self.queue@[p as int].slot as int,
                                self.queue@[k].at.val() as int, self.queue@[k].slot as int));
                        }
                    }
                    assert(self.entry_ok(e));
                }
                let ghost s1 = *self;
                let pos = self.insert_entry(e);
                proof {
                    Self::lemma_view_insert(&s1, self, pos as int, e);
                    Self::lemma_view_same(&s0, &s1);
                    assert forall|j: int| 0 <= j < self.var@.len() && #[trigger] self.slot_live(j) implies
                        self.has_id(TimerId::Var(j as u32)) by {
                        assert(s1.slot_live(j));
                        assert(s1.has_id(TimerId::Var(j as u32)));
                        assert(s1.timers().contains_key(TimerId::Var(j as u32)));
                        assert(self.timers().contains_key(TimerId::Var(j as u32)));
                    }
                    assert forall|j: int| 0 <= j < self.var@.len() implies #[trigger] self.slot_ok(j) by {
                        assert(s1.slot_ok(j));
                    }
                    assert(expiry.val() == vstd::math::max(ceil_of(expiry_time, old(self).base()), old(self).now_units() as int));
                    assert(slot as int == fixed_slot_of(seq0 as int, n + 1));
                    assert(old(self).fixed_seq() == seq0);
                    assert(self.fixed_seq() == (seq0 + (n + 1)) % 0x1_0000_0000);
                    assert(forall|i: int| 1 <= i < n + 1 ==> old(self).timers().contains_key(
                        TimerId::Fixed(expiry.val(), #[trigger] fixed_slot_of(seq0 as int, i) as u32)));
                }
                return FixedTimerKey { slot, gen_or_time: wt.0 };
            }
        }
    }

}

/// Slot number that a fixed timer gets on the `j`th try, counting on
/// from `seq0`.
pub open spec fn fixed_slot_of(seq0: int, j: int) -> int {
    0x8000_0000 + (seq0 + j) % 0x8000_0000
}

/// Two counts that differ by less than 2^31 and more than nothing differ
/// in their low 31 bits.
proof fn lemma_mod_distinct(a: int, d: int)
    requires
        a >= 0,
        0 < d < 0x8000_0000,
    ensures
        (a + d) % 0x8000_0000 != a % 0x8000_0000,
{
    let m = 0x8000_0000int;
    vstd::arithmetic::div_mod::lemma_fundamental_div_mod(a, m);
    vstd::arithmetic::div_mod::lemma_fundamental_div_mod(a + d, m);
    let qa = a / m;
    let qb = (a + d) / m;
    if (a + d) % m == a % m {
        assert(m * (qb - qa) == d) by (nonlinear_arith)
            requires
                a == m * qa + a % m,
                a + d == m * qb + (a + d) % m,
                (a + d) % m == a % m;
        assert(false) by (nonlinear_arith)
            requires
                m * (qb - qa) == d,
                0 < d < m,
                m > 0;
    }
}

impl<S> Timers<S> {
    /// Delete a fixed timer.  Returns `true` if it was waiting, `false` if
    /// it had expired or been deleted.
    pub fn del(&mut self, fk: FixedTimerKey) -> (r: bool)
        requires
            old(self).wf(),
        ensures
            final(self).wf(),
            final(self).now_units() == old(self).now_units(),
            final(self).base() == old(self).base(),
            final(self).slot_count() == old(self).slot_count(),
            final(self).slots_in_use() == old(self).slots_in_use()
                - (if r && fk.spec_slot() < FIXED_SLOT_BASE { 1int } else { 0int }),
            !r ==> *final(self) == *old(self),
            forall|j: int| 0 <= j < old(self).slot_count() && j != fk.spec_slot() ==>
                #[trigger] final(self).slot_gen(j) == old(self).slot_gen(j),
            fk.spec_slot() < FIXED_SLOT_BASE ==> {
                &&& r == old(self).holds(fk.spec_slot(), fk.spec_gen_or_time(), TimerKind::Max)
                &&& final(self).timers() == if r {
                    old(self).timers().remove(TimerId::Var(fk.spec_slot()))
                } else {
                    old(self).timers()
                }
            },
            fk.spec_slot() >= FIXED_SLOT_BASE ==> {
                let id = TimerId::Fixed(unwrap_time(fk.spec_gen_or_time(), old(self).now_units()) as u64, fk.spec_slot());
                &&& r == old(self).timers().contains_key(id)
                &&& final(self).timers() == old(self).timers().remove(id)
            },
    {
        if fk.slot < FIXED_SLOT_BASE {
            self.del_max(MaxTimerKey { slot: fk.slot, gen: fk.gen_or_time })
        } else {
            let t = WrapTime(fk.gen_or_time).time(self.now);
            let ghost id = TimerId::Fixed(t.val(), fk.slot);
            let p = self.find(t.0, fk.slot);
            if p < self.queue.len() && self.queue[p].at.0 == t.0 && self.queue[p].slot == fk.slot {
                proof {
                    assert(Self::id_of(self.queue@[p as int]) == id);
                }
                self.remove_fixed(p);
                true
            } else {
                proof {
                    if self.timers().contains_key(id) {
                        let k = choose|k: int| 0 <= k < self.qlen() && #[trigger] Self::id_of(self.queue@[k]) == id;
                        if k < p {
                            assert(key_lt(self.queue@[k].at.val() as int, self.queue@[k].slot as int, t.val() as int, fk.slot as int));
                        } else if k > p {
                            assert(key_lt(self.queue@[p as int].at.val() as int, self.queue@[p as int].slot as int,
                                self.queue@[k].at.val() as int, self.queue@[k].slot as int));
                        }
                    }
                    assert(self.timers().remove(id) =~= self.timers());
                }
                false
            }
        }
    }

    /// Change a Max timer's expiry time to the given one if that is
    /// later.  A quick operation.  Returns `true` if the timer was
    /// waiting, `false` if it had expired or been deleted.
    pub fn mod_max(&mut self, mk: MaxTimerKey, expiry_time: Instant) -> (r: bool)
        requires
            old(self).wf(),
            in_range(expiry_time, old(self).base()),
        ensures
            final(self).wf(),
            r == old(self).holds(mk.spec_slot(), mk.spec_gen(), TimerKind::Max),
            final(self).timers() == if r {
                let old_info = old(self).timers()[TimerId::Var(mk.spec_slot())];
                old(self).timers().insert(TimerId::Var(mk.spec_slot()), var_info(
                    TimerKind::Max,
                    old_info.wake as int,
                    vstd::math::max(old_info.expiry as int, ceil_of(expiry_time, old(self).base())),
                    old_info.call,
                ))
            } else {
                old(self).timers()
            },
            !r ==> *final(self) == *old(self),
            forall|j: int| 0 <= j < old(self).slot_count() ==> final(self).slot_gen(j) == old(self).slot_gen(j),
            final(self).slot_count() == old(self).slot_count(),
            final(self).slots_in_use() == old(self).slots_in_use(),
            final(self).now_units() == old(self).now_units(),
            final(self).base() == old(self).base(),
    {
        proof {
            self.lemma_var_timer(mk.slot);
        }
        if (mk.slot as usize) < self.var.len() && self.var[mk.slot as usize].gen == mk.gen {
            if let VarItem::Max(vt) = self.var[mk.slot as usize].item {
                let ghost s0 = *self;
                let expiry = Time::new_ceil(expiry_time, self.t0);
                let new_expiry = vt.expiry.max(expiry);
                let gen = self.var[mk.slot as usize].gen;
                self.var.set(mk.slot as usize, VarSlot { gen, item: VarItem::Max(VarTimer { expiry: new_expiry, curr: vt.curr }) });
                proof {
                    let k = choose|k: int| 0 <= k < s0.qlen() && #[trigger] s0.queue@[k].slot == mk.slot
                        && s0.timers()[TimerId::Var(mk.slot)] == s0.info_of(s0.queue@[k]);
                    s0.lemma_timers_at(k);
                    assert forall|j: int| 0 <= j < s0.qlen() && j != k implies
                        s0.info_of(#[trigger] s0.queue@[j]) == self.info_of(s0.queue@[j]) by {
                        assert(s0.entry_ok(s0.queue@[j]));
                        if s0.queue@[j].slot == mk.slot {
                            s0.lemma_ids_distinct(j, k);
                        }
                    }
                    assert forall|j: int| 0 <= j < self.qlen() implies #[trigger] self.entry_ok(self.queue@[j]) by {
                        assert(s0.entry_ok(s0.queue@[j]));
                    }
                    Self::lemma_view_update(&s0, self, k);
                    assert(chain_ok(self.var@, self.free_list@, self.var_free)) by {
                        reveal(chain_ok);
                        assert forall|kk: int| 0 <= kk < self.free_list@.len() implies
                            self.var@[#[trigger] self.free_list@[kk] as int].item == VarItem::Free(chain_next(self.free_list@, kk)) by {
                            assert(s0.var@[s0.free_list@[kk] as int].item == VarItem::Free(chain_next(s0.free_list@, kk)));
                            assert(s0.free_list@[kk] != mk.slot);
                        }
                        assert forall|ii: int| 0 <= ii < self.var@.len() && !live_item(#[trigger] self.var@[ii].item) implies
                            self.free_list@.contains(ii as u32) by {
                            assert(s0.var@[ii] == self.var@[ii]);
                        }
                    }
                    assert forall|j: int| 0 <= j < self.var@.len() implies #[trigger] self.slot_ok(j) by {
                        assert(s0.slot_ok(j));
                    }
                    assert forall|j: int| 0 <= j < self.var@.len() && #[trigger] self.slot_live(j) implies
                        self.has_id(TimerId::Var(j as u32)) by {
                        assert(s0.slot_live(j));
                        assert(s0.has_id(TimerId::Var(j as u32)));
                        let kk = choose|kk: int| 0 <= kk < s0.qlen() && #[trigger] Self::id_of(s0.queue@[kk]) == TimerId::Var(j as u32);
                        assert(Self::id_of(self.queue@[kk]) == TimerId::Var(j as u32));
                    }
                }
                return true;
            }
        }
        proof {
            if self.timers().contains_key(TimerId::Var(mk.slot)) {
                let k = choose|k: int| 0 <= k < self.qlen() && #[trigger] self.queue@[k].slot == mk.slot
                    && self.timers()[TimerId::Var(mk.slot)] == self.info_of(self.queue@[k]);
            }
        }
        false
    }
}

impl<S> Timers<S> {
    /// Whether changing a Min timer to expiry `e` would move it earlier
    /// than its current wake time.
    pub open spec fn min_moves(&self, slot: u32, gen: u32, e: int) -> bool {
        &&& self.holds(slot, gen, TimerKind::Min)
        &&& e < self.timers()[TimerId::Var(slot)].expiry
        &&& e < self.timers()[TimerId::Var(slot)].wake
    }

    /// Keep the other slots, entries and free chain as they are while
    /// one slot's timer changes.
    proof fn lemma_slot_frame(a: &Self, b: &Self, slot: u32)
        requires
            a.slots_ok(),
            b.var@.len() == a.var@.len(),
            b.free_list@ == a.free_list@,
            b.var_free == a.var_free,
            slot < a.var@.len(),
            a.slot_live(slot as int),
            b.slot_live(slot as int),
            b.slot_ok(slot as int),
            forall|j: int| 0 <= j < a.var@.len() && j != slot ==> b.var@[j] == a.var@[j],
        ensures
            b.slots_ok(),
    {
        reveal(chain_ok);
        assert forall|kk: int| 0 <= kk < b.free_list@.len() implies
            b.var@[#[trigger] b.free_list@[kk] as int].item == VarItem::Free(chain_next(b.free_list@, kk)) by {
            assert(a.var@[a.free_list@[kk] as int].item == VarItem::Free(chain_next(a.free_list@, kk)));
            assert(a.free_list@[kk] != slot);
        }
        assert forall|ii: int| 0 <= ii < b.var@.len() && !live_item(#[trigger] b.var@[ii].item) implies
            b.free_list@.contains(ii as u32) by {
            assert(a.var@[ii] == b.var@[ii]);
        }
        assert forall|j: int| 0 <= j < b.var@.len() implies #[trigger] b.slot_ok(j) by {
            if j != slot {
                assert(a.slot_ok(j));
            }
        }
    }

    /// Change a Min timer's expiry time to the given one if that is
    /// earlier.  Quick unless the new time is before the timer's current
    /// wake time, when the timer is moved in the queue.  Returns `true` if
    /// the timer was waiting, `false` if it had expired or been deleted.
    #[verifier::spinoff_prover]
    #[verifier::rlimit(100)]
    pub fn mod_min(&mut self, mk: MinTimerKey, expiry_time: Instant) -> (r: bool)
        requires
            old(self).wf(),
            in_range(expiry_time, old(self).base()),
            old(self).min_moves(mk.spec_slot(), mk.spec_gen(), ceil_of(expiry_time, old(self).base()))
                ==> ceil_of(expiry_time, old(self).base()) >= old(self).now_units(),
        ensures
            final(self).wf(),
            r == old(self).holds(mk.spec_slot(), mk.spec_gen(), TimerKind::Min),
            ({
                let e = ceil_of(expiry_time, old(self).base());
                let id = TimerId::Var(mk.spec_slot());
                let info = old(self).timers()[id];
                if !r || e >= info.expiry {
                    final(self).timers() == old(self).timers()
                } else if e >= info.wake {
                    final(self).timers() == old(self).timers().insert(id, var_info(TimerKind::Min, info.wake as int, e, info.call))
                } else {
                    let wake = min_first_wake(e, old(self).now_units() as int);
                    &&& min_wake_ok(wake, e, old(self).now_units() as int)
                    &&& final(self).timers() == old(self).timers().insert(id, var_info(TimerKind::Min, wake, e, info.call))
                }
            }),
            !r ==> *final(self) == *old(self),
            forall|j: int| 0 <= j < old(self).slot_count() ==> final(self).slot_gen(j) == old(self).slot_gen(j),
            final(self).slot_count() == old(self).slot_count(),
            final(self).slots_in_use() == old(self).slots_in_use(),
            final(self).now_units() == old(self).now_units(),
            final(self).base() == old(self).base(),
    {
        let expiry = Time::new_ceil(expiry_time, self.t0);
        proof {
            self.lemma_var_timer(mk.slot);
        }
        if (mk.slot as usize) < self.var.len() && self.var[mk.slot as usize].gen == mk.gen {
            if let VarItem::Min(vt) = self.var[mk.slot as usize].item {
                let ghost s0 = *self;
                let ghost k = choose|k: int| 0 <= k < s0.qlen() && #[trigger] s0.queue@[k].slot == mk.slot
                    && s0.timers()[TimerId::Var(mk.slot)] == s0.info_of(s0.queue@[k]);
                proof {
                    s0.lemma_timers_at(k);
                    assert(s0.entry_ok(s0.queue@[k]));
                    assert(s0.slot_ok(mk.slot as int));
                }
                if expiry.0 < vt.expiry.0 {
                    let gen = self.var[mk.slot as usize].gen;
                    if expiry.0 < vt.curr.0 {
                        // Delete the old entry and set a new one
                        let p = self.find(vt.curr.0, mk.slot);
                        proof {
                            if k < p {
                                assert(key_lt(s0.queue@[k].at.val() as int, s0.queue@[k].slot as int, vt.curr.val() as int, mk.slot as int));
                            }
                            if k > p {
                                assert(key_lt(s0.queue@[p as int].at.val() as int, s0.queue@[p as int].slot as int,
                                    s0.queue@[k].at.val() as int, s0.queue@[k].slot as int));
                            }
                            assert(k == p);
                        }
                        let old_entry = self.queue.remove(p);
                        let ghost s1 = *self;
                        proof {
                            assert forall|i: int, j: int| 0 <= i < j < s1.qlen() implies key_lt(
                                s1.queue@[i].at.val() as int, s1.queue@[i].slot as int,
                                s1.queue@[j].at.val() as int, s1.queue@[j].slot as int) by {
                                let ii = if i < p { i } else { i + 1 };
                                let jj = if j < p { j } else { j + 1 };
                                assert(s1.queue@[i] == s0.queue@[ii]);
                                assert(s1.queue@[j] == s0.queue@[jj]);
                            }
                            assert forall|kk: int| 0 <= kk < s1.qlen() implies #[trigger] s1.entry_ok(s1.queue@[kk])
                                && s1.queue@[kk].slot != mk.slot by {
                                let k2 = if kk < p { kk } else { kk + 1 };
                                assert(s1.queue@[kk] == s0.queue@[k2]);
                                assert(s0.entry_ok(s0.queue@[k2]));
                                if s0.queue@[k2].slot == mk.slot {
                                    s0.lemma_ids_distinct(k2, p as int);
                                }
                            }
                            Self::lemma_view_remove(&s0, &s1, p as int);
                        }
                        let target = expiry.min(self.now.add_secs(MAX_AHEAD_SECS));
                        assert(target.val() <= expiry.val() < vt.expiry.val() < MIN_TIMER_LIMIT);
                        let curr = rounded_75point(self.now, target);
                        self.var.set(mk.slot as usize, VarSlot { gen, item: VarItem::Min(VarTimer { expiry, curr }) });
                        let ghost s2 = *self;
                        proof {
                            assert forall|kk: int| 0 <= kk < s2.qlen() implies s1.info_of(#[trigger] s2.queue@[kk]) == s2.info_of(s2.queue@[kk])
                                && s2.entry_ok(s2.queue@[kk]) by {
                                assert(s1.entry_ok(s1.queue@[kk]));
                                assert(s1.queue@[kk].slot != mk.slot);
                            }
                            Self::lemma_view_same(&s1, &s2);
                            assert forall|j: int| 0 <= j < s1.var@.len() implies #[trigger] s1.slot_ok(j) by {
                                assert(s0.slot_ok(j));
                            }
                            assert(s1.slots_ok());
                            assert(s0.slot_ok(mk.slot as int));
                            assert(s2.slot_ok(mk.slot as int));
                            Self::lemma_slot_frame(&s1, &s2, mk.slot);
                            assert forall|kk: int| 0 <= kk < s2.qlen() implies
                                !(#[trigger] s2.queue@[kk].at == curr && s2.queue@[kk].slot == mk.slot) by {
                                assert(s1.queue@[kk].slot != mk.slot);
                            }
                        }
                        let e = QEntry { at: curr, slot: mk.slot, bfn: old_entry.bfn };
                        let pos = self.insert_entry(e);
                        proof {
                            Self::lemma_view_insert(&s2, self, pos as int, e);
                            assert(Self::id_of(e) == TimerId::Var(mk.slot));
                            assert(self.timers() =~= s0.timers().insert(TimerId::Var(mk.slot),
                                var_info(TimerKind::Min, curr.val() as int, expiry.val() as int, old_entry.bfn)));
                            assert(min_wake_ok(curr.val() as int, ceil_of(expiry_time, old(self).base()), old(self).now_units() as int));
                            assert forall|j: int| 0 <= j < self.var@.len() implies #[trigger] self.slot_ok(j) by {
                                assert(s2.slot_ok(j));
                            }
                            assert forall|j: int| 0 <= j < self.var@.len() && #[trigger] self.slot_live(j) implies
                                self.has_id(TimerId::Var(j as u32)) by {
                                if j == mk.slot {
                                    assert(Self::id_of(self.queue@[pos as int]) == TimerId::Var(j as u32));
                                } else {
                                    assert(s0.slot_live(j));
                                    assert(s0.timers().contains_key(TimerId::Var(j as u32)));
                                    assert(self.timers().contains_key(TimerId::Var(j as u32)));
                                }
                            }
                        }
                    } else {
                        self.var.set(mk.slot as usize, VarSlot { gen, item: VarItem::Min(VarTimer { expiry, curr: vt.curr }) });
                        proof {
                            assert forall|j: int| 0 <= j < s0.qlen() && j != k implies
                                s0.info_of(#[trigger] s0.queue@[j]) == self.info_of(s0.queue@[j]) by {
                                assert(s0.entry_ok(s0.queue@[j]));
                                if s0.queue@[j].slot == mk.slot {
                                    s0.lemma_ids_distinct(j, k);
                                }
                            }
                            assert forall|j: int| 0 <= j < self.qlen() implies #[trigger] self.entry_ok(self.queue@[j]) by {
                                assert(s0.entry_ok(s0.queue@[j]));
                            }
                            Self::lemma_view_update(&s0, self, k);
                            assert(s0.slot_ok(mk.slot as int));
                            assert(self.slot_ok(mk.slot as int));
                            Self::lemma_slot_frame(&s0, self, mk.slot);
                            assert forall|j: int| 0 <= j < self.var@.len() && #[trigger] self.slot_live(j) implies
                                self.has_id(TimerId::Var(j as u32)) by {
                                assert(s0.slot_live(j));
                                assert(s0.has_id(TimerId::Var(j as u32)));
                                let kk = choose|kk: int| 0 <= kk < s0.qlen() && #[trigger] Self::id_of(s0.queue@[kk]) == TimerId::Var(j as u32);
                                assert(Self::id_of(self.queue@[kk]) == TimerId::Var(j as u32));
                            }
                        }
                    }
                }
                return true;
            }
        }
        proof {
            if self.timers().contains_key(TimerId::Var(mk.slot)) {
                let k = choose|k: int| 0 <= k < self.qlen() && #[trigger] self.queue@[k].slot == mk.slot
                    && self.timers()[TimerId::Var(mk.slot)] == self.info_of(self.queue@[k]);
            }
        }
        false
    }
}


/// Whether moving the current time on from `now0` to `target` fires a
/// timer: time moves on, and the timer is due by `target`.
pub open spec fn fires<S>(info: TimerInfo<S>, now0: int, target: int) -> bool {
    now0 < target && info.due <= target
}

/// A timer that waits on keeps its kind, expiry, due time and call.
pub open spec fn kept<S>(a: TimerInfo<S>, b: TimerInfo<S>) -> bool {
    &&& a.kind == b.kind
    &&& a.expiry == b.expiry
    &&& a.due == b.due
    &&& a.call == b.call
}

/// The calls of the timers `ids`, in that order.
pub open spec fn calls_of<S>(timers: Map<TimerId, TimerInfo<S>>, ids: Seq<TimerId>) -> Seq<Callback<S>> {
    ids.map_values(|id: TimerId| timers[id].call)
}

/// How many of `ids` are Max or Min timers.
pub open spec fn var_count(ids: Seq<TimerId>) -> nat {
    ids.filter(|id: TimerId| id is Var).len()
}

/// `fired` lists, once each, the timers of `timers` that moving the time
/// on from `now0` to `target` fires, and `after` is `before` with their
/// calls appended in that order.
pub open spec fn fired_calls<S>(
    timers: Map<TimerId, TimerInfo<S>>,
    now0: int,
    target: int,
    fired: Seq<TimerId>,
    before: Seq<Callback<S>>,
    after: Seq<Callback<S>>,
) -> bool {
    &&& fired.no_duplicates()
    &&& forall|id: TimerId| #[trigger] fired.contains(id) <==> (timers.contains_key(id) && fires(timers[id], now0, target))
    &&& after == before + calls_of(timers, fired)
}

/// The slot number in a timer's identity.
pub open spec fn timer_slot(id: TimerId) -> u32 {
    match id {
        TimerId::Fixed(_, s) => s,
        TimerId::Var(s) => s,
    }
}

/// The timers `fired` come in order of the time each was waking at, then
/// slot, as read in `timers`.
pub open spec fn fired_in_order<S>(timers: Map<TimerId, TimerInfo<S>>, fired: Seq<TimerId>) -> bool {
    forall|i: int, j: int| 0 <= i < j < fired.len() ==> key_lt(
        timers[#[trigger] fired[i]].wake as int, timer_slot(fired[i]) as int,
        timers[#[trigger] fired[j]].wake as int, timer_slot(fired[j]) as int)
}

proof fn lemma_calls_of_push<S>(timers: Map<TimerId, TimerInfo<S>>, ids: Seq<TimerId>, id: TimerId)
    ensures
        calls_of(timers, ids.push(id)) == calls_of(timers, ids).push(timers[id].call),
{
    ids.lemma_push_map_commute(|i: TimerId| timers[i].call, id);
}

proof fn lemma_var_count_push(ids: Seq<TimerId>, id: TimerId)
    ensures
        var_count(ids.push(id)) == var_count(ids) + if id is Var { 1nat } else { 0nat },
{
    ids.lemma_filter_push(id, |i: TimerId| i is Var);
}

impl<S> Timers<S> {
    /// Entries before position `p` wake at or before `step`; the others
    /// wake after it.
    spec fn split_at(&self, p: int, step: int) -> bool {
        &&& 0 <= p <= self.qlen()
        &&& forall|i: int| 0 <= i < p ==> (#[trigger] self.queue@[i]).at.val() <= step
        &&& forall|i: int| p <= i < self.qlen() ==> (#[trigger] self.queue@[i]).at.val() > step
    }

    /// The timers waiting are finitely many, one for each entry.
    pub proof fn lemma_count(&self)
        requires
            self.wf(),
        ensures
            self.timers().dom().finite(),
            self.timers().len() == self.count(),
    {
        let ids = self.queue@.map_values(|e: QEntry<S>| Self::id_of(e));
        assert forall|a: int, b: int| 0 <= a < b < ids.len() implies ids[a] != ids[b] by {
            self.lemma_ids_distinct(a, b);
        }
        assert(ids.no_duplicates());
        assert forall|id: TimerId| #[trigger] self.timers().dom().contains(id) <==> ids.to_set().contains(id) by {
            if self.has_id(id) {
                let k = choose|k: int| 0 <= k < self.qlen() && #[trigger] Self::id_of(self.queue@[k]) == id;
                assert(ids[k] == id);
            }
            if ids.contains(id) {
                let k = choose|k: int| 0 <= k < ids.len() && ids[k] == id;
                assert(Self::id_of(self.queue@[k]) == id);
            }
        }
        assert(self.timers().dom() =~= ids.to_set());
        ids.unique_seq_to_set();
        vstd::seq_lib::seq_to_set_is_finite(ids);
    }

    /// A timer never wakes after it is due.
    pub proof fn lemma_wake_le_due(&self)
        requires
            self.wf(),
        ensures
            forall|id: TimerId| #[trigger] self.timers().contains_key(id) ==>
                self.timers()[id].wake <= self.timers()[id].due,
    {
        assert forall|id: TimerId| #[trigger] self.timers().contains_key(id) implies
            self.timers()[id].wake <= self.timers()[id].due by {
            let k = choose|k: int| 0 <= k < self.qlen() && #[trigger] Self::id_of(self.queue@[k]) == id;
            self.lemma_timers_at(k);
        }
    }

    /// A timer never wakes later than its expiry time or the current
    /// time, whichever is later; so it is due by then too.
    pub proof fn lemma_wake_within(&self)
        requires
            self.wf(),
        ensures
            forall|id: TimerId| #[trigger] self.timers().contains_key(id) ==> {
                &&& self.timers()[id].wake <= vstd::math::max(self.timers()[id].expiry as int, self.now_units() as int)
                &&& self.timers()[id].due == vstd::math::max(self.timers()[id].expiry as int, self.timers()[id].wake as int)
            },
    {
        assert forall|id: TimerId| #[trigger] self.timers().contains_key(id) implies {
            &&& self.timers()[id].wake <= vstd::math::max(self.timers()[id].expiry as int, self.now_units() as int)
            &&& self.timers()[id].due == vstd::math::max(self.timers()[id].expiry as int, self.timers()[id].wake as int)
        } by {
            let k = choose|k: int| 0 <= k < self.qlen() && #[trigger] Self::id_of(self.queue@[k]) == id;
            self.lemma_timers_at(k);
            assert(self.entry_ok(self.queue@[k]));
        }
    }

    /// Moving the time on from now to `t` fires a waiting timer exactly
    /// when its expiry time is reached: when `t` is later than now and
    /// not before the expiry time.
    pub proof fn lemma_fires_at_expiry(&self, id: TimerId, t: int)
        requires
            self.wf(),
            self.timers().contains_key(id),
        ensures
            fires(self.timers()[id], self.now_units() as int, t)
                <==> (self.now_units() < t && self.timers()[id].expiry <= t),
    {
        self.lemma_wake_within();
    }

    /// Deal with the first entry, which wakes by `step`.  A fixed timer,
    /// or a Max or Min timer due by `target`, fires: its call is pushed to
    /// `queue`.  Any other timer is set again, after `step`.  Returns
    /// whether the timer fired.
    #[verifier::spinoff_prover]
    #[verifier::rlimit(80)]
    fn expire_head(&mut self, step: Time, target: Time, queue: &mut FnOnceQueue<S>, Ghost(p): Ghost<int>) -> (r: bool)
        requires
            old(self).wf(),
            old(self).split_at(p, step.val() as int),
            p >= 1,
            old(self).now.val() <= step.val() <= target.val(),
            step.val() <= old(self).now.val() + ahead_units(),
            valid_units(step.val() as int),
            target.val() <= max_now(),
            old(queue).wf(),
            room_for::<S, Callback<S>>(old(queue).spec_len() as int),
        ensures
            final(self).wf(),
            final(self).split_at(p - 1, step.val() as int),
            final(self).now == old(self).now,
            final(self).t0 == old(self).t0,
            final(self).slot_count() == old(self).slot_count(),
            final(queue).wf(),
            forall|id: TimerId| #[trigger] final(self).timers().contains_key(id) ==> key_lt(
                old(self).queue@[0].at.val() as int, old(self).queue@[0].slot as int,
                final(self).timers()[id].wake as int, timer_slot(id) as int),
            ({
                let id = Self::id_of(old(self).queue@[0]);
                let info = old(self).timers()[id];
                &&& old(self).timers().contains_key(id)
                &&& info.wake <= step.val()
                &&& if r {
                    &&& info.due <= target.val()
                    &&& final(self).timers() == old(self).timers().remove(id)
                    &&& final(self).count() + 1 == old(self).count()
                    &&& final(queue).calls() == old(queue).calls().push(info.call)
                    &&& final(queue).spec_len() <= old(queue).spec_len() + push_cost::<S>()
                    &&& (id matches TimerId::Var(s) ==> final(self).slot_gen(s as int) != old(self).slot_gen(s as int))
                    &&& final(self).slots_in_use() + (if id is Var { 1int } else { 0int }) == old(self).slots_in_use()
                    &&& forall|j: int| 0 <= j < old(self).slot_count() && id != TimerId::Var(j as u32) ==>
                        final(self).slot_gen(j) == old(self).slot_gen(j)
                } else {
                    &&& info.due > target.val()
                    &&& id is Var
                    &&& final(self).timers().contains_key(id)
                    &&& final(self).timers() == old(self).timers().insert(id, final(self).timers()[id])
                    &&& kept(info, final(self).timers()[id])
                    &&& final(self).timers()[id].wake > step.val()
                    &&& final(self).timers()[id].wake == rearm_wake(info.kind, info.expiry as int, step.val() as int)
                    &&& final(self).timers()[id].wake <= step.val() + ahead_units()
                    &&& final(self).count() == old(self).count()
                    &&& *final(queue) == *old(queue)
                    &&& final(self).slots_in_use() == old(self).slots_in_use()
                    &&& forall|j: int| 0 <= j < old(self).slot_count() ==> final(self).slot_gen(j) == old(self).slot_gen(j)
                }
            }),
    {
        let ghost s0 = *self;
        proof {
            s0.lemma_timers_at(0);
            assert(s0.entry_ok(s0.queue@[0]));
            assert(s0.queue@[0].at.val() <= step.val());
        }
        let slot = self.queue[0].slot;
        if slot >= FIXED_SLOT_BASE {
            let bfn = self.remove_fixed(0);
            proof {
                assert forall|i: int| 0 <= i < p - 1 implies (#[trigger] self.queue@[i]).at.val() <= step.val() by {
                    assert(self.queue@[i] == s0.queue@[i + 1]);
                }
                assert forall|i: int| p - 1 <= i < self.qlen() implies (#[trigger] self.queue@[i]).at.val() > step.val() by {
                    assert(self.queue@[i] == s0.queue@[i + 1]);
                }
            }
            queue.push_callback(bfn);
            true
        } else {
            let item = self.var[slot as usize].item;
            let (is_max, vt) = match item {
                VarItem::Max(vt) => (true, vt),
                VarItem::Min(vt) => (false, vt),
                VarItem::Free(_) => {
                    proof {
                        assert(false);
                    }
                    (true, VarTimer { expiry: self.now, curr: self.now })
                },
            };
            proof {
                assert(vt.curr == s0.queue@[0].at);
                assert(s0.slot_ok(slot as int));
            }
            if vt.expiry.0 <= target.0 {
                let bfn = self.remove_var(slot);
                proof {
                    let k = choose|k: int| 0 <= k < s0.qlen() && #[trigger] s0.queue@[k].slot == slot
                        && self.queue@ == s0.queue@.remove(k);
                    if k != 0 {
                        assert(s0.entry_ok(s0.queue@[k]));
                        s0.lemma_ids_distinct(0, k);
                    }
                    assert forall|i: int| 0 <= i < p - 1 implies (#[trigger] self.queue@[i]).at.val() <= step.val() by {
                        assert(self.queue@[i] == s0.queue@[i + 1]);
                    }
                    assert forall|i: int| p - 1 <= i < self.qlen() implies (#[trigger] self.queue@[i]).at.val() > step.val() by {
                        assert(self.queue@[i] == s0.queue@[i + 1]);
                    }
                }
                queue.push_callback(bfn);
                true
            } else {
                let gen = self.var[slot as usize].gen;
                let old_entry = self.queue.remove(0);
                let ghost s1 = *self;
                proof {
                    assert forall|i: int, j: int| 0 <= i < j < s1.qlen() implies key_lt(
                        s1.queue@[i].at.val() as int, s1.queue@[i].slot as int,
                        s1.queue@[j].at.val() as int, s1.queue@[j].slot as int) by {
                        assert(s1.queue@[i] == s0.queue@[i + 1]);
                        assert(s1.queue@[j] == s0.queue@[j + 1]);
                    }
                    assert forall|kk: int| 0 <= kk < s1.qlen() implies #[trigger] s1.entry_ok(s1.queue@[kk])
                        && s1.queue@[kk].slot != slot by {
                        assert(s1.queue@[kk] == s0.queue@[kk + 1]);
                        assert(s0.entry_ok(s0.queue@[kk + 1]));
                        if s0.queue@[kk + 1].slot == slot {
                            s0.lemma_ids_distinct(kk + 1, 0);
                        }
                    }
                    Self::lemma_view_remove(&s0, &s1, 0);
                    assert forall|j: int| 0 <= j < s1.var@.len() implies #[trigger] s1.slot_ok(j) by {
                        assert(s0.slot_ok(j));
                    }
                    assert(s1.slots_ok());
                }
                let t1 = vt.expiry.min(step.add_secs(MAX_AHEAD_SECS));
                let curr = if is_max { t1 } else { rounded_75point(step, t1) };
                let new_vt = VarTimer { expiry: vt.expiry, curr };
                let new_item = if is_max { VarItem::Max(new_vt) } else { VarItem::Min(new_vt) };
                self.var.set(slot as usize, VarSlot { gen, item: new_item });
                let ghost s2 = *self;
                proof {
                    assert forall|kk: int| 0 <= kk < s2.qlen() implies s1.info_of(#[trigger] s2.queue@[kk]) == s2.info_of(s2.queue@[kk])
                        && s2.entry_ok(s2.queue@[kk]) by {
                        assert(s1.entry_ok(s1.queue@[kk]));
                        assert(s1.queue@[kk].slot != slot);
                    }
                    Self::lemma_view_same(&s1, &s2);
                    assert(s2.slot_ok(slot as int));
                    Self::lemma_slot_frame(&s1, &s2, slot);
                    assert forall|kk: int| 0 <= kk < s2.qlen() implies
                        !(#[trigger] s2.queue@[kk].at == curr && s2.queue@[kk].slot == slot) by {
                        assert(s1.queue@[kk].slot != slot);
                    }
                }
                let e = QEntry { at: curr, slot, bfn: old_entry.bfn };
                let pos = self.insert_entry(e);
                proof {
                    Self::lemma_view_insert(&s2, self, pos as int, e);
                    assert(Self::id_of(e) == TimerId::Var(slot));
                    assert(self.timers() =~= s0.timers().insert(TimerId::Var(slot), s2.info_of(e)));
                    assert forall|j: int| 0 <= j < self.var@.len() implies #[trigger] self.slot_ok(j) by {
                        assert(s2.slot_ok(j));
                    }
                    assert forall|j: int| 0 <= j < self.var@.len() && #[trigger] self.slot_live(j) implies
                        self.has_id(TimerId::Var(j as u32)) by {
                        if j == slot {
                            assert(Self::id_of(self.queue@[pos as int]) == TimerId::Var(j as u32));
                        } else {
                            assert(s0.slot_live(j));
                            assert(s0.timers().contains_key(TimerId::Var(j as u32)));
                            assert(self.timers().contains_key(TimerId::Var(j as u32)));
                        }
                    }
                    // The new entry comes after every entry at or before `step`.
                    assert forall|i: int| 0 <= i < p - 1 implies (#[trigger] self.queue@[i]).at.val() <= step.val() by {
                        assert(s2.queue@[i] == s0.queue@[i + 1]);
                        if i >= pos {
                            assert(key_lt(self.queue@[pos as int].at.val() as int, self.queue@[pos as int].slot as int,
                                self.queue@[i + 1].at.val() as int, self.queue@[i + 1].slot as int));
                            assert(self.queue@[i + 1] == s2.queue@[i]);
                            assert(false);
                        }
                        assert(self.queue@[i] == s2.queue@[i]);
                    }
                    assert forall|i: int| p - 1 <= i < self.qlen() implies (#[trigger] self.queue@[i]).at.val() > step.val() by {
                        if i < pos {
                            assert(self.queue@[i] == s2.queue@[i]);
                            assert(s2.queue@[i] == s0.queue@[i + 1]);
                        } else if i > pos {
                            assert(self.queue@[i] == s2.queue@[i - 1]);
                            assert(s2.queue@[i - 1] == s0.queue@[i]);
                            if i - 1 < p - 1 {
                                assert(key_lt(self.queue@[pos as int].at.val() as int, self.queue@[pos as int].slot as int,
                                    self.queue@[i].at.val() as int, self.queue@[i].slot as int));
                            }
                        }
                    }
                    assert(self.info_of(e).due == s0.timers()[TimerId::Var(slot)].due);
                }
                false
            }
        }
    }
}


/// The wake time of the timer `a` once the time has moved on from `n0` to
/// `s` in steps of `MAX_AHEAD_SECS`, on the way to `t`, without the timer
/// expiring.
spec fn stage_wake<S>(a: TimerInfo<S>, n0: int, s: int, t: int) -> int {
    if s <= n0 {
        a.wake as int
    } else if s < t {
        if a.wake <= s { rearm_wake(a.kind, a.expiry as int, s) } else { a.wake as int }
    } else {
        wake_after(a.kind, a.expiry as int, a.wake as int, n0, t)
    }
}

/// The step before `t` is `s` when `t` is within one step after `s`, and
/// `s` is a whole number of steps from `n0`.
proof fn lemma_step_before(n0: int, s: int, t: int)
    requires
        n0 <= s < t <= s + ahead_units(),
        (s - n0) % ahead_units() == 0,
    ensures
        step_before(n0, t) == s,
{
    let a = ahead_units();
    let k = (s - n0) / a;
    vstd::arithmetic::div_mod::lemma_fundamental_div_mod(s - n0, a);
    assert(s - n0 == a * k);
    assert((t - n0 - 1) / a == k) by {
        vstd::arithmetic::div_mod::lemma_div_plus_one(0, a);
        let r = t - n0 - 1 - a * k;
        assert(0 <= r < a);
        vstd::arithmetic::div_mod::lemma_fundamental_div_mod_converse(t - n0 - 1, a, k, r);
    }
    assert(((t - n0 - 1) / a) * a == a * k) by (nonlinear_arith)
        requires
            (t - n0 - 1) / a == k;
}

impl<S> Timers<S> {
    /// Every timer still waiting wakes as the steps taken so far have set
    /// it; the current time is a whole number of steps on, until the last.
    spec fn staged(&self, s0: &Self, target: int) -> bool {
        let n0 = s0.now.val() as int;
        let s = self.now.val() as int;
        &&& s < target ==> (s - n0) % ahead_units() == 0
        &&& forall|id: TimerId| #[trigger] self.timers().contains_key(id) ==> {
            let a = s0.timers()[id];
            &&& self.timers()[id].wake == stage_wake(a, n0, s, target)
            &&& (n0 < s < target && a.wake <= s ==> self.timers()[id].wake <= s + ahead_units())
        }
    }

    /// While the timers up to `step` are dealt with, after the steps up to
    /// `prior`: each timer still waiting wakes as those steps set it, or
    /// has come up and been set again after `step`.
    spec fn staging(&self, s0: &Self, prior: int, step: int, target: int) -> bool {
        let n0 = s0.now.val() as int;
        forall|id: TimerId| #[trigger] self.timers().contains_key(id) ==> {
            let a = s0.timers()[id];
            let w = stage_wake(a, n0, prior, target);
            &&& (n0 < prior < target && a.wake <= prior ==> w <= prior + ahead_units())
            &&& (self.timers()[id].wake == w || (w <= step && step < self.timers()[id].wake
                && self.timers()[id].wake <= step + ahead_units()
                && self.timers()[id].wake == rearm_wake(a.kind, a.expiry as int, step)))
        }
    }

    /// At the start of a step, every timer wakes as the steps before set it.
    proof fn lemma_staging_start(&self, s0: &Self, step: int, target: int)
        requires
            self.staged(s0, target),
        ensures
            self.staging(s0, self.now.val() as int, step, target),
    {
    }

    /// Dealing with one timer at `step` keeps `staging`.
    proof fn lemma_staging_step(s0: &Self, sb: &Self, sa: &Self, prior: int, step: int, target: int, r: bool)
        requires
            sb.staging(s0, prior, step, target),
            sb.timers().contains_key(Self::id_of(sb.queue@[0])),
            sb.timers()[Self::id_of(sb.queue@[0])].wake <= step,
            kept(s0.timers()[Self::id_of(sb.queue@[0])], sb.timers()[Self::id_of(sb.queue@[0])]),
            ({
                let id = Self::id_of(sb.queue@[0]);
                let info = sb.timers()[id];
                if r {
                    sa.timers() == sb.timers().remove(id)
                } else {
                    &&& sa.timers().contains_key(id)
                    &&& sa.timers() == sb.timers().insert(id, sa.timers()[id])
                    &&& kept(info, sa.timers()[id])
                    &&& sa.timers()[id].wake > step
                    &&& sa.timers()[id].wake <= step + ahead_units()
                    &&& sa.timers()[id].wake == rearm_wake(info.kind, info.expiry as int, step)
                }
            }),
        ensures
            sa.staging(s0, prior, step, target),
    {
        let id = Self::id_of(sb.queue@[0]);
        assert forall|x: TimerId| #[trigger] sa.timers().contains_key(x) implies {
            let a = s0.timers()[x];
            let w = stage_wake(a, s0.now.val() as int, prior, target);
            &&& (s0.now.val() < prior < target && a.wake <= prior ==> w <= prior + ahead_units())
            &&& (sa.timers()[x].wake == w || (w <= step && step < sa.timers()[x].wake
                && sa.timers()[x].wake <= step + ahead_units()
                && sa.timers()[x].wake == rearm_wake(a.kind, a.expiry as int, step)))
        } by {
            assert(sb.timers().contains_key(x));
        }
    }

    /// Once every timer up to `step` is dealt with and the time has moved
    /// on to it, the timers are `staged` at `step`.
    proof fn lemma_staged_moves(s0: &Self, sl: &Self, sn: &Self, prior: int, target: int)
        requires
            sl.staging(s0, prior, sn.now.val() as int, target),
            sn.timers() == sl.timers(),
            forall|id: TimerId| #[trigger] sn.timers().contains_key(id) ==> sn.timers()[id].wake > sn.now.val(),
            s0.now.val() <= prior < sn.now.val() <= target,
            prior < target ==> (prior - s0.now.val()) % ahead_units() == 0,
            sn.now.val() == vstd::math::min(prior + ahead_units(), target),
        ensures
            sn.staged(s0, target),
    {
        let n0 = s0.now.val() as int;
        let step = sn.now.val() as int;
        let a_u = ahead_units();
        if step < target {
            assert(step == prior + a_u);
            assert((step - n0) % a_u == 0) by {
                vstd::arithmetic::div_mod::lemma_mod_add_multiples_vanish(prior - n0, a_u);
                assert(step - n0 == a_u + (prior - n0));
            }
        } else {
            lemma_step_before(n0, prior, target);
        }
        assert forall|id: TimerId| #[trigger] sn.timers().contains_key(id) implies {
            let a = s0.timers()[id];
            &&& sn.timers()[id].wake == stage_wake(a, n0, step, target)
            &&& (n0 < step < target && a.wake <= step ==> sn.timers()[id].wake <= step + a_u)
        } by {
            let a = s0.timers()[id];
            assert(sl.timers().contains_key(id));
            let w = stage_wake(a, n0, prior, target);
            let c = sn.timers()[id].wake as int;
            assert(c == w || (w <= step && c == rearm_wake(a.kind, a.expiry as int, step) && c <= step + a_u));
            assert(c > step);
            if n0 < prior && a.wake <= prior {
                assert(w == rearm_wake(a.kind, a.expiry as int, prior));
                assert(w <= prior + a_u);
                if step < target {
                    assert(c != w);
                }
            } else {
                assert(w == a.wake);
            }
            if step == target {
                assert(step_before(n0, target) == prior);
            }
        }
    }
}

impl<S> Timers<S> {
    /// What holds while the current time moves on from `s0`'s: `fired`
    /// lists the timers fired so far, whose calls follow `q0` in `q`, and
    /// every other timer of `s0` still waits, as it was or set again.
    spec fn advancing(&self, s0: &Self, target: int, fired: Seq<TimerId>, q0: Seq<Callback<S>>, q: Seq<Callback<S>>) -> bool {
        let t0 = s0.timers();
        let cur = self.timers();
        let now0 = s0.now.val() as int;
        &&& fired.no_duplicates()
        &&& forall|id: TimerId| #[trigger] fired.contains(id) ==> t0.contains_key(id) && fires(t0[id], now0, target)
        &&& q == q0 + calls_of(t0, fired)
        &&& forall|id: TimerId| #[trigger] cur.contains_key(id) <==> (t0.contains_key(id) && !fired.contains(id))
        &&& forall|id: TimerId| #[trigger] cur.contains_key(id) ==>
            kept(t0[id], cur[id]) && (cur[id] == t0[id] || (t0[id].wake <= target && target < t0[id].due))
        &&& self.slot_count() == s0.slot_count()
        &&& self.slots_in_use() + var_count(fired) == s0.slots_in_use()
        &&& forall|j: int| 0 <= j < s0.slot_count() ==>
            (#[trigger] self.slot_gen(j) == s0.slot_gen(j) <==> !fired.contains(TimerId::Var(j as u32)))
    }

    /// Each timer fired so far comes, by the time it was waking at when
    /// time started to move on, then slot, before every timer still
    /// waiting.
    spec fn fired_before_waiting(&self, s0: &Self, fired: Seq<TimerId>) -> bool {
        forall|i: int, id: TimerId| #![trigger fired[i], self.timers().contains_key(id)]
            0 <= i < fired.len() && self.timers().contains_key(id) ==> key_lt(
                s0.timers()[fired[i]].wake as int, timer_slot(fired[i]) as int,
                self.timers()[id].wake as int, timer_slot(id) as int)
    }

    /// One entry dealt with keeps the timers fired in order.
    proof fn lemma_order_step(s0: &Self, sb: &Self, sa: &Self, r: bool, fired: Seq<TimerId>)
        requires
            sb.wf(),
            fired_in_order(s0.timers(), fired),
            sb.fired_before_waiting(s0, fired),
            sb.qlen() > 0,
            sb.timers().contains_key(Self::id_of(sb.queue@[0])),
            r ==> s0.timers()[Self::id_of(sb.queue@[0])] == sb.timers()[Self::id_of(sb.queue@[0])],
            forall|id: TimerId| #[trigger] sa.timers().contains_key(id) ==> key_lt(
                sb.queue@[0].at.val() as int, sb.queue@[0].slot as int,
                sa.timers()[id].wake as int, timer_slot(id) as int),
            r ==> sa.timers() == sb.timers().remove(Self::id_of(sb.queue@[0])),
            !r ==> sa.timers() == sb.timers().insert(Self::id_of(sb.queue@[0]), sa.timers()[Self::id_of(sb.queue@[0])]),
        ensures
            fired_in_order(s0.timers(), if r { fired.push(Self::id_of(sb.queue@[0])) } else { fired }),
            sa.fired_before_waiting(s0, if r { fired.push(Self::id_of(sb.queue@[0])) } else { fired }),
    {
        let h = sb.queue@[0];
        let hid = Self::id_of(h);
        let t0 = s0.timers();
        sb.lemma_timers_at(0);
        // The head's key, as seen from the timers.
        assert(sb.timers()[hid].wake == h.at.val());
        assert(timer_slot(hid) == h.slot);
        let f2 = if r { fired.push(hid) } else { fired };
        assert forall|i: int, j: int| 0 <= i < j < f2.len() implies key_lt(
            t0[#[trigger] f2[i]].wake as int, timer_slot(f2[i]) as int,
            t0[#[trigger] f2[j]].wake as int, timer_slot(f2[j]) as int) by {
            if r && j == fired.len() {
                assert(f2[i] == fired[i]);
                assert(f2[j] == hid);
                assert(key_lt(t0[fired[i]].wake as int, timer_slot(fired[i]) as int,
                    sb.timers()[hid].wake as int, timer_slot(hid) as int));
            } else {
                assert(f2[i] == fired[i] && f2[j] == fired[j]);
            }
        }
        assert forall|i: int, id: TimerId| 0 <= i < f2.len() && #[trigger] sa.timers().contains_key(id) implies
            key_lt(t0[#[trigger] f2[i]].wake as int, timer_slot(f2[i]) as int,
                sa.timers()[id].wake as int, timer_slot(id) as int) by {
            if r && i == fired.len() {
                assert(f2[i] == hid);
            } else {
                assert(f2[i] == fired[i]);
                if id == hid {
                    assert(!r);
                    assert(key_lt(t0[fired[i]].wake as int, timer_slot(fired[i]) as int,
                        sb.timers()[hid].wake as int, timer_slot(hid) as int));
                } else {
                    assert(sb.timers().contains_key(id));
                    assert(sa.timers()[id] == sb.timers()[id]);
                    assert(key_lt(t0[fired[i]].wake as int, timer_slot(fired[i]) as int,
                        sb.timers()[id].wake as int, timer_slot(id) as int));
                }
            }
        }
    }

    /// One entry dealt with keeps `advancing`.
    proof fn lemma_advancing_step(
        s0: &Self, sb: &Self, sa: &Self, target: int, step: int, r: bool,
        fired: Seq<TimerId>, q0: Seq<Callback<S>>, qb: Seq<Callback<S>>, qa: Seq<Callback<S>>,
    ) -> (fired2: Seq<TimerId>)
        requires
            sb.advancing(s0, target, fired, q0, qb),
            s0.slot_count() <= FIXED_SLOT_BASE,
            s0.now.val() < target,
            step <= target,
            sb.timers().contains_key(Self::id_of(sb.queue@[0])),
            sb.timers()[Self::id_of(sb.queue@[0])].wake <= step,
            sa.slot_count() == sb.slot_count(),
            ({
                let id = Self::id_of(sb.queue@[0]);
                let info = sb.timers()[id];
                if r {
                    &&& info.due <= target
                    &&& sa.timers() == sb.timers().remove(id)
                    &&& qa == qb.push(info.call)
                    &&& (id matches TimerId::Var(s) ==> sa.slot_gen(s as int) != sb.slot_gen(s as int))
                    &&& sa.slots_in_use() + (if id is Var { 1int } else { 0int }) == sb.slots_in_use()
                    &&& forall|j: int| 0 <= j < sb.slot_count() && id != TimerId::Var(j as u32) ==>
                        sa.slot_gen(j) == sb.slot_gen(j)
                } else {
                    &&& sa.timers().contains_key(id)
                    &&& sa.timers() == sb.timers().insert(id, sa.timers()[id])
                    &&& kept(info, sa.timers()[id])
                    &&& info.due > target
                    &&& qa == qb
                    &&& sa.slots_in_use() == sb.slots_in_use()
                    &&& forall|j: int| 0 <= j < sb.slot_count() ==> sa.slot_gen(j) == sb.slot_gen(j)
                }
            }),
        ensures
            sa.advancing(s0, target, fired2, q0, qa),
            fired2 == if r { fired.push(Self::id_of(sb.queue@[0])) } else { fired },
    {
        let id = Self::id_of(sb.queue@[0]);
        let t0 = s0.timers();
        let info = sb.timers()[id];
        if r {
            let f2 = fired.push(id);
            assert(!fired.contains(id));
            assert forall|a: int, b: int| 0 <= a < b < f2.len() implies f2[a] != f2[b] by {
                if b == fired.len() {
                    assert(fired.contains(fired[a]));
                } else {
                    assert(f2[a] == fired[a] && f2[b] == fired[b]);
                }
            }
            assert forall|x: TimerId| #[trigger] f2.contains(x) <==> (fired.contains(x) || x == id) by {
                if f2.contains(x) {
                    let k = choose|k: int| 0 <= k < f2.len() && f2[k] == x;
                    if k < fired.len() {
                        assert(fired[k] == x);
                    }
                }
                if fired.contains(x) {
                    let k = choose|k: int| 0 <= k < fired.len() && fired[k] == x;
                    assert(f2[k] == x);
                }
                if x == id {
                    assert(f2[fired.len() as int] == x);
                }
            }
            lemma_calls_of_push(t0, fired, id);
            assert(qa =~= q0 + calls_of(t0, f2));
            lemma_var_count_push(fired, id);
            assert forall|j: int| 0 <= j < s0.slot_count() implies
                (#[trigger] sa.slot_gen(j) == s0.slot_gen(j) <==> !f2.contains(TimerId::Var(j as u32))) by {
                assert(sb.slot_gen(j) == s0.slot_gen(j) <==> !fired.contains(TimerId::Var(j as u32)));
                if id == TimerId::Var(j as u32) {
                    assert(!fired.contains(TimerId::Var(j as u32)));
                }
            }
            f2
        } else {
            assert forall|x: TimerId| #[trigger] sa.timers().contains_key(x) implies
                kept(t0[x], sa.timers()[x]) && (sa.timers()[x] == t0[x] || (t0[x].wake <= target && target < t0[x].due)) by {
                assert(sb.timers().contains_key(x));
            }
            assert forall|j: int| 0 <= j < s0.slot_count() implies
                (#[trigger] sa.slot_gen(j) == s0.slot_gen(j) <==> !fired.contains(TimerId::Var(j as u32))) by {
                assert(sb.slot_gen(j) == s0.slot_gen(j) <==> !fired.contains(TimerId::Var(j as u32)));
            }
            fired
        }
    }

    /// Moving the current time on to `step`, with no entry at or before
    /// it, keeps the queue consistent and changes no timer.
    proof fn lemma_now_moves(sl: &Self, sn: &Self, s0: &Self, target: int, fired: Seq<TimerId>,
        q0: Seq<Callback<S>>, q: Seq<Callback<S>>)
        requires
            sl.wf(),
            sl.split_at(0, sn.now.val() as int),
            sl.now.val() <= sn.now.val() <= sl.now.val() + ahead_units(),
            valid_units(sn.now.val() as int),
            sn.now.val() <= max_now(),
            sn.t0 == sl.t0,
            sn.queue@ == sl.queue@,
            sn.var@ == sl.var@,
            sn.var_free == sl.var_free,
            sn.free_list@ == sl.free_list@,
            sl.advancing(s0, target, fired, q0, q),
        ensures
            sn.wf(),
            sn.timers() == sl.timers(),
            sn.advancing(s0, target, fired, q0, q),
            forall|id: TimerId| #[trigger] sn.timers().contains_key(id) ==> sn.timers()[id].wake > sn.now.val(),
    {
        assert forall|k: int| 0 <= k < sn.qlen() implies #[trigger] sn.entry_ok(sn.queue@[k])
            && sl.info_of(sn.queue@[k]) == sn.info_of(sn.queue@[k]) by {
            assert(sl.entry_ok(sl.queue@[k]));
        }
        Self::lemma_view_same(sl, sn);
        assert forall|j: int| 0 <= j < sn.var@.len() implies #[trigger] sn.slot_ok(j) by {
            assert(sl.slot_ok(j));
        }
        assert forall|j: int| 0 <= j < sn.var@.len() && #[trigger] sn.slot_live(j) implies
            sn.has_id(TimerId::Var(j as u32)) by {
            assert(sl.slot_live(j));
            assert(sl.has_id(TimerId::Var(j as u32)));
            let k = choose|k: int| 0 <= k < sl.qlen() && #[trigger] Self::id_of(sl.queue@[k]) == TimerId::Var(j as u32);
            assert(Self::id_of(sn.queue@[k]) == TimerId::Var(j as u32));
        }
        assert(sn.wf());
        assert(sn.timers() == sl.timers());
        assert(sn.slot_count() == sl.slot_count());
        assert(sn.slots_in_use() == sl.slots_in_use());
        assert(forall|j: int| sn.slot_gen(j) == sl.slot_gen(j));
        let t0 = s0.timers();
        let cur = sn.timers();
        assert(forall|id: TimerId| #[trigger] cur.contains_key(id) <==> (t0.contains_key(id) && !fired.contains(id)));
        assert(forall|id: TimerId| #[trigger] cur.contains_key(id) ==>
            kept(t0[id], cur[id]) && (cur[id] == t0[id] || (t0[id].wake <= target && target < t0[id].due)));
        assert(forall|j: int| 0 <= j < s0.slot_count() ==>
            (#[trigger] sn.slot_gen(j) == s0.slot_gen(j) <==> !fired.contains(TimerId::Var(j as u32))));
        assert forall|id: TimerId| #[trigger] sn.timers().contains_key(id) implies
            sn.timers()[id].wake > sn.now.val() by {
            let k = choose|k: int| 0 <= k < sn.qlen() && #[trigger] Self::id_of(sn.queue@[k]) == id;
            sn.lemma_timers_at(k);
        }
    }

    /// Move the current time on to `now`, firing each timer that is due
    /// by then: its call is pushed to `queue`.  A Max or Min timer that
    /// comes up before its expiry time is set again, to its expiry but no
    /// more than `MAX_AHEAD_SECS` ahead, a Min timer to about 75% of the
    /// way there (see `rearm_wake`).  The time moves on
    /// in steps of at most `MAX_AHEAD_SECS`, so that no timer in the
    /// queue is passed over.  An earlier `now` changes nothing.
    #[verifier::spinoff_prover]
    #[verifier::rlimit(80)]
    pub fn advance(&mut self, now: Instant, queue: &mut FnOnceQueue<S>)
        requires
            old(self).wf(),
            in_range(now, old(self).base()),
            old(queue).wf(),
            old(queue).spec_len() + old(self).timers().len() * push_cost::<S>() <= max_cap(),
        ensures
            old(self).advanced_to(&*final(self), now, &*old(queue), &*final(queue)),
    {
        let target = Time::new_floor(now, self.t0);
        proof {
            self.lemma_wake_within();
        }
        let ghost s0 = *self;
        let ghost q0 = queue.calls();
        let ghost now0 = self.now.val() as int;
        let ghost mut fired: Seq<TimerId> = Seq::empty();
        proof {
            s0.lemma_count();
            s0.lemma_wake_le_due();
            assert(calls_of(s0.timers(), fired) =~= Seq::<Callback<S>>::empty());
            assert(q0 + calls_of(s0.timers(), fired) =~= q0);
            assert(var_count(fired) == 0) by {
                reveal(Seq::filter);
            }
            assert(fired_in_order(s0.timers(), fired));
            assert(self.fired_before_waiting(&s0, fired));
        }
        if self.now.0 < target.0 {
            proof {
                vstd::arithmetic::div_mod::lemma_small_mod(0, ahead_units() as nat);
                assert((now0 - now0) % ahead_units() == 0);
                assert(self.staged(&s0, target.val() as int));
            }
            while self.now.0 < target.0
                invariant
                    self.staged(&s0, target.val() as int),
                    self.wf(),
                    s0.wf(),
                    self.t0 == s0.t0,
                    now0 == s0.now.val(),
                    now0 < target.val(),
                    now0 <= self.now.val() <= target.val(),
                    valid_units(target.val() as int),
                    target.val() <= max_now(),
                    queue.wf(),
                    self.advancing(&s0, target.val() as int, fired, q0, queue.calls()),
                    fired_in_order(s0.timers(), fired),
                    self.fired_before_waiting(&s0, fired),
                    self.now.val() > now0 ==> forall|id: TimerId| #[trigger] self.timers().contains_key(id) ==>
                        self.timers()[id].wake > self.now.val(),
                    queue.spec_len() + self.count() * push_cost::<S>() <= max_cap(),
                decreases target.val() - self.now.val(),
            {
                let step = self.now.add_secs(MAX_AHEAD_SECS).min(target);
                let n = self.find(step.0 + 1, 0);
                let mut i: usize = 0;
                let ghost sn = *self;
                proof {
                    self.lemma_staging_start(&s0, step.val() as int, target.val() as int);
                }
                while i < n
                    invariant
                        self.staging(&s0, sn.now.val() as int, step.val() as int, target.val() as int),
                        self.wf(),
                        s0.wf(),
                        self.t0 == s0.t0,
                        self.now == sn.now,
                        now0 == s0.now.val(),
                        now0 < target.val(),
                        now0 <= self.now.val() <= step.val(),
                        step.val() <= target.val(),
                        step.val() <= self.now.val() + ahead_units(),
                        valid_units(step.val() as int),
                        target.val() <= max_now(),
                        i <= n,
                        self.split_at((n - i) as int, step.val() as int),
                        queue.wf(),
                        self.advancing(&s0, target.val() as int, fired, q0, queue.calls()),
                        fired_in_order(s0.timers(), fired),
                        self.fired_before_waiting(&s0, fired),
                        queue.spec_len() + self.count() * push_cost::<S>() <= max_cap(),
                    decreases n - i,
                {
                    let ghost sb = *self;
                    let ghost qb = queue.calls();
                    let ghost lb = queue.spec_len() as int;
                    let ghost cb = self.count() as int;
                    proof {
                        let pc = push_cost::<S>();
                        assert(cb >= 1);
                        assert(pc >= 0);
                        assert(lb + pc <= max_cap()) by (nonlinear_arith)
                            requires
                                lb + cb * pc <= max_cap(),
                                cb >= 1,
                                pc >= 0;
                    }
                    let r = self.expire_head(step, target, queue, Ghost((n - i) as int));
                    proof {
                        assert(sb.timers().contains_key(Self::id_of(sb.queue@[0])));
                        Self::lemma_staging_step(&s0, &sb, self, sn.now.val() as int, step.val() as int,
                            target.val() as int, r);
                        if r {
                            let hid = Self::id_of(sb.queue@[0]);
                            assert(kept(s0.timers()[hid], sb.timers()[hid]));
                            assert(s0.timers()[hid] == sb.timers()[hid]);
                        }
                        Self::lemma_order_step(&s0, &sb, self, r, fired);
                        fired = Self::lemma_advancing_step(&s0, &sb, self, target.val() as int, step.val() as int, r,
                            fired, q0, qb, queue.calls());
                        let pc = push_cost::<S>();
                        let la = queue.spec_len() as int;
                        let ca = self.count() as int;
                        if r {
                            assert(la + ca * pc <= max_cap()) by (nonlinear_arith)
                                requires
                                    lb + cb * pc <= max_cap(),
                                    la <= lb + pc,
                                    ca + 1 == cb;
                        }
                    }
                    i = i + 1;
                }
                let ghost sl = *self;
                self.now = step;
                proof {
                    Self::lemma_now_moves(&sl, self, &s0, target.val() as int, fired, q0, queue.calls());
                    assert(self.fired_before_waiting(&s0, fired));
                    Self::lemma_staged_moves(&s0, &sl, self, sn.now.val() as int, target.val() as int);
                }
            }
            proof {
                self.lemma_wake_le_due();
                let t = target.val() as int;
                let t0 = s0.timers();
                let cur = self.timers();
                assert forall|id: TimerId| #[trigger] fired.contains(id) <==> (t0.contains_key(id) && fires(t0[id], now0, t)) by {
                    if t0.contains_key(id) && fires(t0[id], now0, t) && !fired.contains(id) {
                        assert(cur.contains_key(id));
                    }
                }
                assert(fired_calls(t0, now0, t, fired, q0, queue.calls()));
                assert(self.slots_in_use() + var_count(fired) == s0.slots_in_use());
                assert(fired_calls(old(self).timers(), old(self).now_units() as int, floor_of(now, old(self).base()),
                    fired, old(queue).calls(), queue.calls())
                    && self.slots_in_use() + var_count(fired) == old(self).slots_in_use()
                    && fired_in_order(old(self).timers(), fired));
                assert forall|id: TimerId| #[trigger] cur.contains_key(id) <==> (t0.contains_key(id) && !fires(t0[id], now0, t)) by {
                    assert(fired.contains(id) <==> (t0.contains_key(id) && fires(t0[id], now0, t)));
                }
                assert forall|j: int| 0 <= j < s0.slot_count() implies (#[trigger] self.slot_gen(j) == s0.slot_gen(j)
                    <==> !(t0.contains_key(TimerId::Var(j as u32)) && fires(t0[TimerId::Var(j as u32)], now0, t))) by {
                    assert(fired.contains(TimerId::Var(j as u32)) <==> (t0.contains_key(TimerId::Var(j as u32))
                        && fires(t0[TimerId::Var(j as u32)], now0, t)));
                }
            }
        } else {
            proof {
                let t = target.val() as int;
                assert(fired_calls(s0.timers(), now0, t, fired, q0, queue.calls()));
                assert(self.slots_in_use() + var_count(fired) == s0.slots_in_use());
                assert(fired_calls(old(self).timers(), old(self).now_units() as int, floor_of(now, old(self).base()),
                    fired, old(queue).calls(), queue.calls())
                    && self.slots_in_use() + var_count(fired) == old(self).slots_in_use()
                    && fired_in_order(old(self).timers(), fired));
            }
        }
    }
}


impl<S> Timers<S> {
    /// What moving the current time on to `now` does, from `self` with
    /// `q0` to `after` with `q1`: the time becomes the later of the two;
    /// the calls of the timers due by the new time (those whose expiry
    /// time it reaches), each once, follow
    /// what `q0` held, in order of the time each was waking at, then
    /// slot; those timers stop waiting and their slots are freed; every
    /// other timer waits on as it was, or, when it came up on the way,
    /// set again to wake after the new time, as `wake_after` says.
    pub open spec fn advanced_to(&self, after: &Self, now: Instant, q0: &FnOnceQueue<S>, q1: &FnOnceQueue<S>) -> bool {
        let t = floor_of(now, self.base());
        let n0 = self.now_units() as int;
        &&& after.wf()
        &&& after.base() == self.base()
        &&& after.now_units() == vstd::math::max(n0, t)
        &&& q1.wf()
        &&& exists|fired: Seq<TimerId>| #[trigger] fired_calls(self.timers(), n0, t, fired, q0.calls(), q1.calls())
            && after.slots_in_use() + var_count(fired) == self.slots_in_use()
            && fired_in_order(self.timers(), fired)
        &&& forall|id: TimerId| #[trigger] after.timers().contains_key(id) <==> (self.timers().contains_key(id)
            && !fires(self.timers()[id], n0, t))
        &&& forall|id: TimerId| #[trigger] self.timers().contains_key(id) ==>
            (fires(self.timers()[id], n0, t) <==> (n0 < t && self.timers()[id].expiry <= t))
        &&& forall|id: TimerId| #[trigger] after.timers().contains_key(id) ==> {
            let a = self.timers()[id];
            let b = after.timers()[id];
            &&& kept(a, b)
            &&& b.wake <= b.due
            &&& if n0 < t && a.wake <= t {
                t < b.wake && b.wake == wake_after(a.kind, a.expiry as int, a.wake as int, n0, t)
            } else {
                b == a
            }
        }
        &&& after.slot_count() == self.slot_count()
        &&& forall|j: int| 0 <= j < self.slot_count() ==> (#[trigger] after.slot_gen(j) == self.slot_gen(j)
            <==> !(self.timers().contains_key(TimerId::Var(j as u32)) && fires(
                self.timers()[TimerId::Var(j as u32)], n0, t)))
    }
}

/// A timer never fires before an expiry instant whose rounded-up time it
/// is not due before.
pub proof fn lemma_timer_not_early<S>(info: TimerInfo<S>, e: Instant, n: Instant, base: Instant, now0: int)
    requires
        ceil_of(e, base) <= info.due,
        fires(info, now0, floor_of(n, base)),
        base@ <= n@,
    ensures
        e@ <= n@,
{
    lemma_never_early(e, n, base);
}

/// A value of `s` seconds and `f` steps splits back into them.
proof fn lemma_units_parts(s: int, f: int)
    requires
        s >= 0,
        0 <= f < 65536,
    ensures
        (s * 65536 + f) / 65536 == s,
        (s * 65536 + f) % 65536 == f,
        unit_nanos(s * 65536 + f) == s * 1_000_000_000 + f * 16384,
{
    vstd::arithmetic::div_mod::lemma_fundamental_div_mod_converse(s * 65536 + f, 65536, s, f);
}

/// A span of nanoseconds splits into seconds and the rest.
proof fn lemma_nanos_parts(d: int)
    requires
        d >= 0,
    ensures
        d == (d / 1_000_000_000) * 1_000_000_000 + d % 1_000_000_000,
        0 <= d % 1_000_000_000 < 1_000_000_000,
        d / 1_000_000_000 >= 0,
{
    vstd::arithmetic::div_mod::lemma_fundamental_div_mod(d, 1_000_000_000);
}

/// Rounding up an instant to the compact unit gives a time that is not
/// before it and less than one step after it.
pub proof fn lemma_ceil_within(e: Instant, base: Instant)
    requires
        base@ <= e@,
    ensures
        e@ <= base@ + unit_nanos(ceil_of(e, base)),
        base@ + unit_nanos(ceil_of(e, base)) < e@ + 16384,
{
    let d = e@ - base@;
    lemma_nanos_parts(d);
    let s = d / 1_000_000_000;
    let ns = d % 1_000_000_000;
    let f = (ns + 16383) / 16384;
    assert(f <= 61036);
    lemma_units_parts(s, f);
    vstd::arithmetic::div_mod::lemma_fundamental_div_mod(ns + 16383, 16384);
    assert(ceil_of(e, base) == s * 65536 + f);
}

/// Rounding down an instant to the compact unit gives a time that is not
/// after it and less than one step before it.
pub proof fn lemma_floor_within(n: Instant, base: Instant)
    requires
        base@ <= n@,
    ensures
        base@ + unit_nanos(floor_of(n, base)) <= n@,
        n@ < base@ + unit_nanos(floor_of(n, base)) + 16384,
{
    let d = n@ - base@;
    lemma_nanos_parts(d);
    let s = d / 1_000_000_000;
    let ns = d % 1_000_000_000;
    let f = ns / 16384;
    assert(f <= 61035);
    lemma_units_parts(s, f);
    vstd::arithmetic::div_mod::lemma_fundamental_div_mod(ns, 16384);
    assert(floor_of(n, base) == s * 65536 + f);
}

/// A timer never fires early: when the current time rounded down has
/// reached an expiry time rounded up, the current instant is at or after
/// the expiry instant.
pub proof fn lemma_never_early(e: Instant, n: Instant, base: Instant)
    requires
        base@ <= n@,
        ceil_of(e, base) <= floor_of(n, base),
    ensures
        e@ <= n@,
{
    if e@ >= base@ {
        let de = e@ - base@;
        lemma_nanos_parts(de);
        let se = de / 1_000_000_000;
        let fe = (de % 1_000_000_000 + 16383) / 16384;
        vstd::arithmetic::div_mod::lemma_fundamental_div_mod(de % 1_000_000_000 + 16383, 16384);
        lemma_units_parts(se, fe);
        assert(ceil_of(e, base) == se * 65536 + fe);
        let dn = n@ - base@;
        lemma_nanos_parts(dn);
        let sn = dn / 1_000_000_000;
        let fn_ = (dn % 1_000_000_000) / 16384;
        vstd::arithmetic::div_mod::lemma_fundamental_div_mod(dn % 1_000_000_000, 16384);
        lemma_units_parts(sn, fn_);
        assert(floor_of(n, base) == sn * 65536 + fn_);
        if sn == se {
            assert(fe <= fn_);
        } else {
            assert(se < sn);
            assert(se * 1_000_000_000 + 1_000_000_000 <= sn * 1_000_000_000) by (nonlinear_arith)
                requires se < sn;
        }
    }
}

/// The instant that a time stands for, rounded down or up again, gives
/// back that time, unless its fraction is the highest one, which stands
/// for a point just past the next whole second.
pub proof fn lemma_floor_of_instant(t: u64, n: Instant, base: Instant)
    requires
        valid_units(t as int),
        n@ == base@ + unit_nanos(t as int),
    ensures
        (t as int) % 65536 <= 61035 ==> floor_of(n, base) == t,
        (t as int) % 65536 <= 61035 ==> ceil_of(n, base) == t,
        t <= floor_of(n, base),
{
    let s = (t as int) / 65536;
    let f = (t as int) % 65536;
    vstd::arithmetic::div_mod::lemma_fundamental_div_mod(t as int, 65536);
    lemma_units_parts(s, f);
    let d = n@ - base@;
    assert(d == s * 1_000_000_000 + f * 16384);
    lemma_nanos_parts(d);
    if f <= 61035 {
        assert(f * 16384 < 1_000_000_000);
        vstd::arithmetic::div_mod::lemma_fundamental_div_mod_converse(d, 1_000_000_000, s, f * 16384);
        vstd::arithmetic::div_mod::lemma_fundamental_div_mod_converse(f * 16384, 16384, f, 0);
        vstd::arithmetic::div_mod::lemma_fundamental_div_mod_converse(f * 16384 + 16383, 16384, f, 16383);
    } else {
        assert(f == 61036);
        assert(d == (s + 1) * 1_000_000_000 + 13824);
        vstd::arithmetic::div_mod::lemma_fundamental_div_mod_converse(d, 1_000_000_000, s + 1, 13824);
        assert(floor_of(n, base) == (s + 1) * 65536);
    }
}


/// A fixed timer's key names that timer for as long as it waits: the
/// key holds the low 32 bits of the timer's time, and the current time
/// is never after a waiting timer's time nor more than the queue's limit
/// before it.
pub proof fn lemma_fixed_key_names_timer(fk: FixedTimerKey, e: int, now: u64)
    requires
        fk.spec_gen_or_time() == e % 0x1_0000_0000,
        now <= e < now + 2 * ahead_units(),
        now <= max_now(),
    ensures
        unwrap_time(fk.spec_gen_or_time(), now) == e,
{
    lemma_unwrap_time(e, now as int);
}


impl<S> Timers<S> {
    /// Every waiting timer wakes between the current time and twice the
    /// queue's limit after it; a fixed timer's identity holds its time.
    pub proof fn lemma_waiting_times(&self)
        requires
            self.wf(),
        ensures
            forall|id: TimerId| #[trigger] self.timers().contains_key(id) ==> {
                &&& self.now_units() <= self.timers()[id].wake <= self.now_units() + 2 * ahead_units()
                &&& (id matches TimerId::Fixed(e, _) ==> e == self.timers()[id].wake)
            },
            self.now_units() <= max_now(),
    {
        assert forall|id: TimerId| #[trigger] self.timers().contains_key(id) implies {
            &&& self.now_units() <= self.timers()[id].wake <= self.now_units() + 2 * ahead_units()
            &&& (id matches TimerId::Fixed(e, _) ==> e == self.timers()[id].wake)
        } by {
            let k = choose|k: int| 0 <= k < self.qlen() && #[trigger] Self::id_of(self.queue@[k]) == id;
            self.lemma_timers_at(k);
            assert(self.entry_ok(self.queue@[k]));
        }
    }
}


impl<S> Timers<S> {
    /// The slots in use are exactly the Max and Min timers waiting: one
    /// slot for each.
    pub proof fn lemma_slots_are_var_timers(&self)
        requires
            self.wf(),
        ensures
            self.timers().dom().filter(|id: TimerId| id is Var).finite(),
            self.slots_in_use() == self.timers().dom().filter(|id: TimerId| id is Var).len(),
    {
        let n = self.var@.len();
        let list = self.free_list@;
        lemma_chain_basics(self.var@, list, self.var_free);
        reveal(chain_ok);
        let all = Set::new(|x: u32| x < n);
        let live = Set::new(|x: u32| x < n && self.slot_live(x as int));
        let free = list.to_set();
        lemma_set_of_small(n);
        // The free chain holds exactly the slots not in use.
        assert forall|x: u32| #[trigger] free.contains(x) <==> (x < n && !self.slot_live(x as int)) by {
            if free.contains(x) {
                let k = choose|k: int| 0 <= k < list.len() && list[k] == x;
                assert(list[k] < n);
                assert(self.var@[list[k] as int].item == VarItem::Free(chain_next(list, k)));
            }
            if x < n && !self.slot_live(x as int) {
                assert(!live_item(self.var@[x as int].item));
                assert(list.contains((x as int) as u32));
            }
        }
        assert(all =~= live + free);
        vstd::set_lib::lemma_len_subset(live, all);
        vstd::set_lib::lemma_len_subset(free, all);
        assert(live.disjoint(free));
        vstd::set_lib::lemma_set_disjoint_lens(live, free);
        list.unique_seq_to_set();
        // Each slot in use is a Max or Min timer waiting, and back.
        let vars = self.timers().dom().filter(|id: TimerId| id is Var);
        let f = |x: u32| TimerId::Var(x);
        assert forall|id: TimerId| #[trigger] vars.contains(id) <==> live.map(f).contains(id) by {
            if vars.contains(id) {
                let x = id->Var_0;
                self.lemma_var_timer(x);
                assert(live.contains(x));
                assert(f(x) == id);
            }
            if live.map(f).contains(id) {
                let x = choose|x: u32| live.contains(x) && f(x) == id;
                self.lemma_var_timer(x);
            }
        }
        assert(vars =~= live.map(f));
        assert(vstd::relations::injective_on(f, live)) by {
            assert forall|a: u32, b: u32| live.contains(a) && live.contains(b) && #[trigger] f(a) == #[trigger] f(b)
                implies a == b by {}
        }
        vstd::set_lib::lemma_map_size(live, vars, f);
    }
}

} // verus!
