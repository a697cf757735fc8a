//! Points in time and spans of time, as plain values.
//!
//! An [`Instant`] is a point on a monotonic clock, measured from an
//! arbitrary epoch; a [`Duration`] is a non-negative span.  Both are
//! held as whole seconds plus a sub-second count of nanoseconds, which
//! is always below one second.  The timer queue reads nothing of a
//! point in time but its distance from another one, so this is all the
//! library needs of a clock.
use vstd::prelude::*;

verus! {

/// Nanoseconds in a second.
pub const NANOS_PER_SEC: u32 = 1_000_000_000;

/// A span of time: whole seconds plus nanoseconds below one second.
#[derive(Copy, Clone, Debug, PartialEq, Eq, Structural, PartialOrd, Ord, Hash, Default)]
pub struct Duration {
    secs: u64,
    nanos: u32,
}

/// A point in time, measured from the clock's epoch.
#[derive(Copy, Clone, Debug, PartialEq, Eq, Structural, PartialOrd, Ord, Hash, Default)]
pub struct Instant {
    secs: u64,
    nanos: u32,
}

/// Total nanoseconds of a seconds-and-nanoseconds pair.
pub open spec fn total_nanos(secs: int, nanos: int) -> int {
    secs * 1_000_000_000 + nanos
}

/// Largest number of nanoseconds that a seconds-and-nanoseconds pair can hold.
pub open spec fn max_total_nanos() -> int {
    total_nanos(u64::MAX as int, 999_999_999)
}

impl Duration {
    /// Seconds part, as a spec value.
    pub closed spec fn spec_secs(&self) -> u64 {
        self.secs
    }

    /// Sub-second nanoseconds, as a spec value.
    pub closed spec fn spec_nanos(&self) -> u32 {
        self.nanos
    }

    /// The span in nanoseconds.
    pub open spec fn view(&self) -> int {
        total_nanos(self.spec_secs() as int, self.spec_nanos() as int)
    }

    /// The sub-second part is below one second.
    pub open spec fn wf(&self) -> bool {
        self.spec_nanos() < NANOS_PER_SEC
    }

    /// A span of `secs` seconds plus `nanos` nanoseconds.  Nanoseconds
    /// of a second or more carry into the seconds.
    pub fn new(secs: u64, nanos: u32) -> (r: Duration)
        requires
            total_nanos(secs as int, nanos as int) <= max_total_nanos(),
        ensures
            r.wf(),
            r@ == total_nanos(secs as int, nanos as int),
    {
        let carry: u32 = nanos / NANOS_PER_SEC;
        let rest: u32 = nanos % NANOS_PER_SEC;
        assert(nanos as int == carry as int * 1_000_000_000 + rest as int);
        assert(carry <= 4);
        Duration { secs: secs + carry as u64, nanos: rest }
    }

    /// A span of whole seconds.
    pub fn from_secs(secs: u64) -> (r: Duration)
        ensures
            r.wf(),
            r@ == secs as int * 1_000_000_000,
    {
        Duration { secs, nanos: 0 }
    }

    /// The empty span.
    pub fn zero() -> (r: Duration)
        ensures
            r.wf(),
            r@ == 0,
    {
        Duration { secs: 0, nanos: 0 }
    }

    /// Whole seconds in the span.
    pub fn as_secs(&self) -> (r: u64)
        ensures
            r == self.spec_secs(),
    {
        self.secs
    }

    /// Nanoseconds beyond the whole seconds.
    pub fn subsec_nanos(&self) -> (r: u32)
        ensures
            r == self.spec_nanos(),
    {
        self.nanos
    }
}

impl Instant {
    /// Seconds part, as a spec value.
    pub closed spec fn spec_secs(&self) -> u64 {
        self.secs
    }

    /// Sub-second nanoseconds, as a spec value.
    pub closed spec fn spec_nanos(&self) -> u32 {
        self.nanos
    }

    /// Nanoseconds since the epoch.
    pub open spec fn view(&self) -> int {
        total_nanos(self.spec_secs() as int, self.spec_nanos() as int)
    }

    /// The sub-second part is below one second.
    pub open spec fn wf(&self) -> bool {
        self.spec_nanos() < NANOS_PER_SEC
    }

    /// The point `secs` seconds plus `nanos` nanoseconds after the epoch.
    pub fn new(secs: u64, nanos: u32) -> (r: Instant)
        requires
            total_nanos(secs as int, nanos as int) <= max_total_nanos(),
        ensures
            r.wf(),
            r@ == total_nanos(secs as int, nanos as int),
    {
        let d = Duration::new(secs, nanos);
        Instant { secs: d.secs, nanos: d.nanos }
    }

    /// Whole seconds since the epoch.
    pub fn secs(&self) -> (r: u64)
        ensures
            r == self.spec_secs(),
    {
        self.secs
    }

    /// Nanoseconds beyond the whole seconds since the epoch.
    pub fn subsec_nanos(&self) -> (r: u32)
        ensures
            r == self.spec_nanos(),
    {
        self.nanos
    }

    /// The span from `earlier` to `self`, or zero if `earlier` is the
    /// later of the two.
    pub fn saturating_duration_since(&self, earlier: &Instant) -> (r: Duration)
        requires
            self.wf(),
            earlier.wf(),
        ensures
            r.wf(),
            r@ == if self@ > earlier@ { self@ - earlier@ } else { 0 },
    {
        if self.secs > earlier.secs || (self.secs == earlier.secs && self.nanos > earlier.nanos) {
            if self.nanos >= earlier.nanos {
                Duration { secs: self.secs - earlier.secs, nanos: self.nanos - earlier.nanos }
            } else {
                Duration {
                    secs: self.secs - earlier.secs - 1,
                    nanos: NANOS_PER_SEC - earlier.nanos + self.nanos,
                }
            }
        } else {
            Duration { secs: 0, nanos: 0 }
        }
    }

    /// The point `dur` after `self`.
    pub fn add(&self, dur: &Duration) -> (r: Instant)
        requires
            self.wf(),
            dur.wf(),
            self@ + dur@ <= max_total_nanos(),
        ensures
            r.wf(),
            r@ == self@ + dur@,
    {
        let nanos: u32 = self.nanos + dur.nanos;
        if nanos >= NANOS_PER_SEC {
            Instant { secs: self.secs + dur.secs + 1, nanos: nanos - NANOS_PER_SEC }
        } else {
            Instant { secs: self.secs + dur.secs, nanos }
        }
    }

    /// Whether `self` is not later than `other`.
    pub fn le(&self, other: &Instant) -> (r: bool)
        requires
            self.wf(),
            other.wf(),
        ensures
            r == (self@ <= other@),
    {
        self.secs < other.secs || (self.secs == other.secs && self.nanos <= other.nanos)
    }
}

} // verus!
