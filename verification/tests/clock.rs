use stakker::clock::{advance_clock, recreate_due, RECREATE_SECS};
use stakker::queue::{Callback, FnOnceQueue};
use stakker::timers::Timers;
use stakker::{Duration, Instant};

fn at(t0: Instant, secs: u64) -> Instant {
    t0.add(&Duration::new(secs, 0))
}

#[test]
fn clock_moves_only_forward_and_expires_timers() {
    let t0 = Instant::new(1000, 0);
    let mut clock = t0;
    let mut timers: Timers<u32> = Timers::new(t0);
    let mut queue: FnOnceQueue<u32> = FnOnceQueue::new();
    timers.add(at(t0, 5), Callback(Box::new(|n: &mut u32| *n += 1)));

    assert!(advance_clock(&mut clock, &mut timers, &mut queue, at(t0, 10)));
    assert!(clock == at(t0, 10));
    assert!(!queue.is_empty());
    assert!(timers.next_expiry().is_none());

    // An earlier time leaves everything as it was
    timers.add(at(t0, 20), Callback(Box::new(|n: &mut u32| *n += 10)));
    assert!(!advance_clock(&mut clock, &mut timers, &mut queue, at(t0, 3)));
    assert!(clock == at(t0, 10));
    assert!(!advance_clock(&mut clock, &mut timers, &mut queue, at(t0, 10)));
    assert!(timers.next_expiry().is_some());

    let mut n = 0u32;
    queue.execute(&mut n);
    assert_eq!(n, 1);
    assert!(queue.is_empty());
}

#[test]
fn queues_are_recreated_after_a_minute() {
    let t0 = Instant::new(500, 250);
    let (due, next) = recreate_due(at(t0, 100), at(t0, 50));
    assert!(due);
    assert!(next == at(t0, 100 + RECREATE_SECS));
    assert_eq!(RECREATE_SECS, 60);

    let (due, next) = recreate_due(at(t0, 50), at(t0, 100));
    assert!(!due);
    assert!(next == at(t0, 100));

    let (due, next) = recreate_due(at(t0, 100), at(t0, 100));
    assert!(!due);
    assert!(next == at(t0, 100));
}
