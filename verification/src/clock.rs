//! The decisions of the run loop that are not user callbacks: moving
//! the clock on, expiring timers as it moves, and telling when the
//! queues are due to be taken afresh.
use vstd::prelude::*;
use crate::time::{Duration, Instant, max_total_nanos};
use crate::timers::{Timers, in_range};
use crate::queue::{FnOnceQueue, push_cost, max_cap};

verus! {

/// Seconds between the times that the queues are taken afresh, so that
/// storage grown in a burst of activity is given back.
pub const RECREATE_SECS: u64 = 60;

/// Move the clock on to `now` if that is later than it: the clock takes
/// `now`, and the timers are advanced to it, pushing the calls of those
/// that expire onto `queue`.  Returns whether the clock moved; when it
/// did not, nothing changes.
pub fn advance_clock<S>(clock: &mut Instant, timers: &mut Timers<S>, queue: &mut FnOnceQueue<S>, now: Instant) -> (moved: bool)
    requires
        old(clock).wf(),
        old(timers).wf(),
        in_range(now, old(timers).base()),
        old(queue).wf(),
        old(queue).spec_len() + old(timers).timers().len() * push_cost::<S>() <= max_cap(),
    ensures
        moved == (now@ > old(clock)@),
        moved ==> *final(clock) == now && old(timers).advanced_to(&*final(timers), now, &*old(queue), &*final(queue)),
        !moved ==> *final(clock) == *old(clock) && *final(timers) == *old(timers) && *final(queue) == *old(queue),
{
    if now.le(clock) {
        false
    } else {
        *clock = now;
        timers.advance(now, queue);
        true
    }
}

/// Whether the queues are due to be taken afresh at `now`, given the
/// time `at` set for it; and the time set for the next time, which is
/// `RECREATE_SECS` after `now` when they are due, else `at` unchanged.
pub fn recreate_due(now: Instant, at: Instant) -> (r: (bool, Instant))
    requires
        now.wf(),
        at.wf(),
        now@ + RECREATE_SECS * 1_000_000_000 <= max_total_nanos(),
    ensures
        r.0 == (now@ > at@),
        r.0 ==> r.1.wf() && r.1@ == now@ + RECREATE_SECS * 1_000_000_000,
        !r.0 ==> r.1 == at,
{
    if now.le(&at) {
        (false, at)
    } else {
        let d = Duration::from_secs(RECREATE_SECS);
        (true, now.add(&d))
    }
}

} // verus!
