use stakker::queue::{Callback, FnOnceQueue};
use stakker::timers::{rounded_75point, MaxTimerKey, MinTimerKey, Time, Timers};
use stakker::{Duration, Instant};

const N_COUNTS: usize = 256;

struct Aux {
    start: Instant,
    now: Instant,
    queue: FnOnceQueue<Aux>,
    seed: u16,
    index: usize,
    counts: [u8; N_COUNTS],
}

impl Aux {
    fn new() -> Self {
        let now = Instant::new(1000, 0);
        Self {
            start: now,
            now,
            queue: FnOnceQueue::new(),
            seed: 0x1234,
            index: 0,
            counts: [0; N_COUNTS],
        }
    }
    fn cb(&mut self) -> Callback<Aux> {
        let index = self.index;
        self.index = (index + 1) % N_COUNTS;
        Callback(Box::new(move |aux: &mut Aux| aux.counts[index] += 1))
    }
    fn cb_check(&mut self, check: Instant) -> Callback<Aux> {
        let index = self.index;
        self.index = (index + 1) % N_COUNTS;
        Callback(Box::new(move |aux: &mut Aux| {
            aux.counts[index] += 1;
            assert!(
                check <= aux.now,
                "Expected to run at {:?}, but now is {:?}",
                check,
                aux.now
            );
        }))
    }
    fn cb_check_exact(&mut self, check: Instant) -> Callback<Aux> {
        let index = self.index;
        self.index = (index + 1) % N_COUNTS;
        Callback(Box::new(move |aux: &mut Aux| {
            aux.counts[index] += 1;
            assert!(
                within_17us_after(check, Some(aux.now)),
                "Expected to run at {:?}, but now is {:?}",
                check,
                aux.now
            );
        }))
    }
    fn advance(&mut self, t: &mut Timers<Aux>, now: Instant) {
        self.now = now;
        t.advance(now, &mut self.queue);
        let mut queue = std::mem::replace(&mut self.queue, FnOnceQueue::new());
        queue.execute(self);
        self.queue = queue;
    }
    fn rand(&mut self) -> u32 {
        // ZX Spectrum random number generator!
        self.seed = (((self.seed as u32) + 1) * 75 % 65537 - 1) as u16;
        self.seed as u32
    }
}

fn dur(secs: u64, nanos: u32) -> Duration {
    Duration::new(secs, nanos)
}

fn after(t: Instant, d: Duration) -> Instant {
    t.add(&d)
}

fn from_std(d: std::time::Duration) -> Duration {
    Duration::new(d.as_secs(), d.subsec_nanos())
}

// We expect the expiry time to be within 17us after the time we
// requested, due to rounding up
fn within_17us_after(target: Instant, actual: Option<Instant>) -> bool {
    if let Some(actual) = actual {
        let e0 = target;
        let e1 = after(target, dur(0, 16384));
        if e0 <= actual && actual <= e1 {
            return true;
        }
        println!("Out of range:");
        println!("  17us before: {:?}", e0);
        println!("  Actual:      {:?}", actual);
        println!("  Target:      {:?}", target);
    } else {
        println!("Out of range: Expiry was None");
    }
    false
}

#[test]
fn fixed_short_expire() {
    let mut aux = Aux::new();
    let mut t = Timers::new(aux.start);
    assert_eq!(None, t.next_expiry());
    let expire = after(aux.start, dur(3, 123456789));
    let cb = aux.cb_check(expire);
    t.add(expire, cb);
    assert!(within_17us_after(expire, t.next_expiry()));
    assert_eq!(0, t.slots_used());
    assert_eq!(0, aux.counts[0]);
    aux.advance(&mut t, after(aux.start, dur(4, 0)));
    assert_eq!(1, aux.counts[0]);
    assert_eq!(None, t.next_expiry());
}

#[test]
fn fixed_short_delete() {
    let mut aux = Aux::new();
    let mut t = Timers::new(aux.start);
    assert_eq!(None, t.next_expiry());
    let expire = after(aux.start, dur(3, 123456789));
    let cb = aux.cb_check(expire);
    let key = t.add(expire, cb);
    assert!(within_17us_after(expire, t.next_expiry()));
    assert_eq!(0, t.slots_used());
    assert_eq!(0, aux.counts[0]);
    assert!(t.del(key));
    assert_eq!(None, t.next_expiry());
    aux.advance(&mut t, after(aux.start, dur(4, 0)));
    assert_eq!(0, aux.counts[0]);
}

#[test]
fn fixed_long_expire() {
    let mut aux = Aux::new();
    let mut t = Timers::new(aux.start);
    assert_eq!(None, t.next_expiry());
    let expire = after(aux.start, dur(36000, 567891234)); // 10+ hours
    let expire1 = after(aux.start, dur(32767, 0)); // ~9 hours
    let cb = aux.cb_check(expire);
    t.add(expire, cb);
    assert_eq!(1, t.slots_used());
    assert!(within_17us_after(expire1, t.next_expiry()));
    assert_eq!(0, aux.counts[0]);
    aux.advance(&mut t, after(aux.start, dur(32768, 0)));
    assert_eq!(1, t.slots_used());
    assert!(within_17us_after(expire, t.next_expiry()));
    assert_eq!(0, aux.counts[0]);
    aux.advance(&mut t, after(aux.start, dur(40000, 0)));
    assert_eq!(1, aux.counts[0]);
    assert_eq!(None, t.next_expiry());
    assert_eq!(0, t.slots_used());
}

#[test]
fn fixed_long_delete() {
    let mut aux = Aux::new();
    let mut t = Timers::new(aux.start);
    assert_eq!(None, t.next_expiry());
    let expire = after(aux.start, dur(36000, 987654321)); // 10+ hours
    let expire1 = after(aux.start, dur(32767, 0)); // ~9 hours
    let cb = aux.cb_check(expire);
    let key = t.add(expire, cb);
    assert_eq!(1, t.slots_used());
    assert!(within_17us_after(expire1, t.next_expiry()));
    assert_eq!(0, aux.counts[0]);
    assert!(t.del(key));
    assert_eq!(0, t.slots_used());
    assert_eq!(None, t.next_expiry());
    assert_eq!(0, aux.counts[0]);
    aux.advance(&mut t, after(aux.start, dur(40000, 0)));
    assert_eq!(0, aux.counts[0]);
}

#[test]
fn max_expire() {
    let mut aux = Aux::new();
    let mut t = Timers::new(aux.start);
    let expire1 = after(aux.start, dur(20000, 567891234));
    let expire2 = after(aux.start, dur(30000, 123456789));
    let key = MaxTimerKey::default();
    assert!(!t.mod_max(key, expire1));
    assert!(!t.max_is_active(key));
    let cb = aux.cb();
    let key = t.add_max(expire1, cb);
    assert!(t.max_is_active(key));
    assert_eq!(1, t.slots_used());
    assert!(within_17us_after(expire1, t.next_expiry()));
    assert_eq!(0, aux.counts[0]);
    assert!(t.mod_max(key, expire2));
    let cb = aux.cb();
    let key2 = t.add_max(expire2, cb);
    assert!(t.max_is_active(key2));
    assert_eq!(2, t.slots_used());
    aux.advance(&mut t, after(aux.start, dur(22000, 0)));
    assert!(t.max_is_active(key));
    assert_eq!(0, aux.counts[0]);
    assert_eq!(0, aux.counts[1]);
    assert!(within_17us_after(expire2, t.next_expiry()));
    assert!(t.del_max(key2));
    assert!(!t.max_is_active(key2));
    assert_eq!(1, t.slots_used());
    aux.advance(&mut t, after(aux.start, dur(32000, 0)));
    assert!(!t.max_is_active(key));
    assert_eq!(1, aux.counts[0]);
    assert_eq!(0, aux.counts[1]);
    assert_eq!(0, t.slots_used());
    assert_eq!(None, t.next_expiry());
}

#[test]
fn min_expire() {
    let mut aux = Aux::new();
    let mut t = Timers::new(aux.start);
    let expire1 = after(aux.start, dur(30000, 567891234));
    let expire2 = after(aux.start, dur(20000, 123456789));
    let key = MinTimerKey::default();
    assert!(!t.min_is_active(key));
    assert!(!t.mod_min(key, expire1));
    let cb = aux.cb();
    let key = t.add_min(expire1, cb);
    assert!(t.min_is_active(key));
    assert_eq!(1, t.slots_used());
    assert_eq!(0, aux.counts[0]);
    assert!(t.mod_min(key, expire2));
    let cb = aux.cb();
    let key2 = t.add_min(expire1, cb);
    assert!(t.min_is_active(key2));
    assert_eq!(2, t.slots_used());
    aux.advance(&mut t, after(aux.start, dur(22000, 0)));
    assert!(!t.min_is_active(key));
    assert!(t.min_is_active(key2));
    assert_eq!(1, aux.counts[0]);
    assert_eq!(0, aux.counts[1]);
    assert_eq!(1, t.slots_used());
    assert!(t.del_min(key2));
    assert_eq!(0, t.slots_used());
    assert!(!t.min_is_active(key2));
    assert_eq!(None, t.next_expiry());
    aux.advance(&mut t, after(aux.start, dur(32000, 0)));
    assert_eq!(1, aux.counts[0]);
    assert_eq!(0, aux.counts[1]);
}

#[test]
fn min_asymptote() {
    let mut aux = Aux::new();
    let mut t = Timers::new(aux.start);
    let expiry = after(aux.start, Duration::from_secs(60));
    let cb = aux.cb();
    t.add_min(expiry, cb);
    // Expect this to go roughly (T-15, T-4, T-1, T-0.125, T)
    for _ in 1..=5 {
        assert_eq!(0, aux.counts[0]);
        let exp = t.next_expiry().unwrap();
        aux.advance(&mut t, exp);
    }
    assert_eq!(None, t.next_expiry());
    assert_eq!(1, aux.counts[0]);
}

#[test]
fn min_rand() {
    // Set up a large number of min timers, and check that they
    // all expire correctly.
    let mut aux = Aux::new();
    let mut t = Timers::new(aux.start);
    let unit = std::time::Duration::from_secs_f64(60.0 / 65535.0);
    for _ in 0..N_COUNTS {
        let r = aux.rand();
        let expire = after(aux.now, from_std(r * unit));
        let cb = aux.cb_check_exact(expire);
        t.add_min(expire, cb);
    }
    while let Some(exp) = t.next_expiry() {
        aux.advance(&mut t, exp);
    }
    for i in 0..N_COUNTS {
        assert_eq!(aux.counts[i], 1);
    }
}

#[test]
fn rand_queue() {
    // Pseudo-random addition and expiry of min/max/fixed timers
    // to exercise internals.  Aims to keep timer queue level at
    // around 50.
    let level = 50.0;
    let mut aux = Aux::new();
    let mut t = Timers::new(aux.start);
    let unit = std::time::Duration::from_secs_f64(54321.987654321 / 65535.0);
    let unit_adv = std::time::Duration::from_secs_f64(unit.as_secs_f64() / level);
    for _ in 0..N_COUNTS {
        let r = aux.rand();
        let expire = after(aux.now, from_std(r * unit));
        // Mostly fixed, with some min/max mixed in
        match aux.rand() % 7 {
            0 => {
                let cb = aux.cb_check(expire);
                t.add_min(expire, cb);
            }
            1 => {
                let cb = aux.cb_check(expire);
                t.add_max(expire, cb);
            }
            _ => {
                let cb = aux.cb_check(expire);
                t.add(expire, cb);
            }
        }
        let adv = from_std(aux.rand() * unit_adv);
        aux.advance(&mut t, after(aux.now, adv));
    }
    while let Some(exp) = t.next_expiry() {
        aux.advance(&mut t, exp);
    }
    for i in 0..N_COUNTS {
        assert_eq!(aux.counts[i], 1);
    }
}

#[test]
fn rand_queue_exact() {
    // Pseudo-random addition and expiry of fixed timers, checking
    // exact end-time.
    let mut aux = Aux::new();
    let mut t = Timers::new(aux.start);
    let unit = std::time::Duration::from_secs_f64(54321.987654321 / 65535.0);
    for _ in 0..N_COUNTS {
        let rand = aux.rand();
        let expire = after(aux.now, from_std(rand * unit));
        let cb = aux.cb_check_exact(expire);
        t.add(expire, cb);
        if 0 != (rand & 1) {
            if let Some(exp) = t.next_expiry() {
                aux.advance(&mut t, exp);
            }
        }
    }
    while let Some(exp) = t.next_expiry() {
        aux.advance(&mut t, exp);
    }
    for i in 0..N_COUNTS {
        assert_eq!(aux.counts[i], 1);
    }
}

#[test]
fn fixed_timer_never_fires_early() {
    let mut aux = Aux::new();
    let mut t = Timers::new(aux.start);
    let expire = after(aux.start, dur(3, 123456789));
    let cb = aux.cb_check(expire);
    t.add(expire, cb);
    // One nanosecond before the expiry instant: nothing fires
    aux.advance(&mut t, after(aux.start, dur(3, 123456788)));
    assert_eq!(0, aux.counts[0]);
    assert!(t.next_expiry().is_some());
    // At the reported expiry, which is within one step after: it fires
    let exp = t.next_expiry().unwrap();
    assert!(within_17us_after(expire, Some(exp)));
    aux.advance(&mut t, exp);
    assert_eq!(1, aux.counts[0]);
    assert_eq!(None, t.next_expiry());
}

#[test]
fn fixed_timer_fires_once() {
    let mut aux = Aux::new();
    let mut t = Timers::new(aux.start);
    let expire = after(aux.start, dur(1, 0));
    let cb = aux.cb();
    let key = t.add(expire, cb);
    aux.advance(&mut t, after(aux.start, dur(2, 0)));
    assert_eq!(1, aux.counts[0]);
    aux.advance(&mut t, after(aux.start, dur(3, 0)));
    assert_eq!(1, aux.counts[0]);
    // Already fired: nothing to delete
    assert!(!t.del(key));
}

#[test]
fn fixed_delete_after_time_moves_on() {
    let mut aux = Aux::new();
    let mut t = Timers::new(aux.start);
    let expire = after(aux.start, dur(100, 5));
    let cb = aux.cb();
    let key = t.add(expire, cb);
    aux.advance(&mut t, after(aux.start, dur(50, 0)));
    assert_eq!(0, aux.counts[0]);
    assert!(t.del(key));
    assert!(!t.del(key));
    assert_eq!(None, t.next_expiry());
}

#[test]
fn time_never_goes_back() {
    let mut aux = Aux::new();
    let mut t = Timers::new(aux.start);
    aux.advance(&mut t, after(aux.start, dur(10, 0)));
    let expire = after(aux.start, dur(5, 0));
    let cb = aux.cb();
    // Set in the past: due at once, but not before time moves on
    t.add(expire, cb);
    aux.advance(&mut t, after(aux.start, dur(9, 0)));
    assert_eq!(0, aux.counts[0]);
    // Within the same step of the compact unit: still nothing
    aux.advance(&mut t, after(aux.start, dur(10, 1)));
    assert_eq!(0, aux.counts[0]);
    aux.advance(&mut t, after(aux.start, dur(10, 20000)));
    assert_eq!(1, aux.counts[0]);
}

#[test]
fn max_timer_takes_latest_expiry() {
    let mut aux = Aux::new();
    let mut t = Timers::new(aux.start);
    let e1 = after(aux.start, dur(10, 0));
    let e2 = after(aux.start, dur(20, 0));
    let e0 = after(aux.start, dur(5, 0));
    let cb = aux.cb();
    let key = t.add_max(e1, cb);
    assert!(t.mod_max(key, e2));
    // An earlier expiry does not change it
    assert!(t.mod_max(key, e0));
    aux.advance(&mut t, after(aux.start, dur(15, 0)));
    assert_eq!(0, aux.counts[0]);
    assert!(t.max_is_active(key));
    aux.advance(&mut t, after(aux.start, dur(20, 0)));
    assert_eq!(1, aux.counts[0]);
    assert!(!t.max_is_active(key));
    assert!(!t.del_max(key));
}

#[test]
fn min_timer_takes_earliest_expiry() {
    let mut aux = Aux::new();
    let mut t = Timers::new(aux.start);
    let e1 = after(aux.start, dur(20, 0));
    let e2 = after(aux.start, dur(10, 0));
    let e3 = after(aux.start, dur(30, 0));
    let cb = aux.cb();
    let key = t.add_min(e1, cb);
    assert!(t.mod_min(key, e2));
    // A later expiry does not change it
    assert!(t.mod_min(key, e3));
    while let Some(exp) = t.next_expiry() {
        assert!(exp <= e2);
        aux.advance(&mut t, exp);
    }
    assert_eq!(1, aux.counts[0]);
    assert!(aux.now >= e2);
    assert!(!t.min_is_active(key));
    assert!(!t.del_min(key));
}

#[test]
fn slots_are_reused_with_new_generation() {
    let mut aux = Aux::new();
    let mut t = Timers::new(aux.start);
    let e = after(aux.start, dur(10, 0));
    let cb = aux.cb();
    let k1 = t.add_max(e, cb);
    assert!(t.del_max(k1));
    let cb = aux.cb();
    let k2 = t.add_max(e, cb);
    assert_eq!(1, t.slots_used());
    // The old key no longer matches the reused slot
    assert!(!t.max_is_active(k1));
    assert!(t.max_is_active(k2));
    assert!(!t.del_max(k1));
    assert!(t.del_max(k2));
    assert_eq!(0, t.slots_used());
}

#[test]
fn fixed_timers_fire_in_time_order() {
    let start = Instant::new(1000, 0);
    let mut t: Timers<Vec<u32>> = Timers::new(start);
    let mut q: FnOnceQueue<Vec<u32>> = FnOnceQueue::new();
    for (n, secs) in [(1u32, 30u64), (2, 10), (3, 20), (4, 10), (5, 5)] {
        t.add(after(start, dur(secs, 0)), Callback(Box::new(move |v: &mut Vec<u32>| v.push(n))));
    }
    t.advance(after(start, dur(25, 0)), &mut q);
    let mut out = Vec::new();
    q.execute(&mut out);
    assert_eq!(out, vec![5, 2, 4, 3]);
    t.advance(after(start, dur(40, 0)), &mut q);
    q.execute(&mut out);
    assert_eq!(out, vec![5, 2, 4, 3, 1]);
}

#[test]
fn rounded_75point_values() {
    let r = rounded_75point(Time::from_units(0), Time::from_units(60 << 16));
    assert_eq!(r.units(), 48 << 16);
    let r = rounded_75point(Time::from_units(0), Time::from_units(100 << 16));
    assert_eq!(r.units(), 80 << 16);
    // Under about half a second: straight to the target
    let r = rounded_75point(Time::from_units(0x1000), Time::from_units(0x8FFF));
    assert_eq!(r.units(), 0x8FFF);
    // A fraction of a second past the last step goes on to the next second
    let r = rounded_75point(Time::from_units(0x801E), Time::from_units(0x1003D));
    assert_eq!(r.units(), 0x10000);
}

#[test]
fn max_timer_set_again_at_its_expiry_or_the_limit() {
    let start = Instant::new(1000, 0);
    let mut t: Timers<u32> = Timers::new(start);
    let mut q: FnOnceQueue<u32> = FnOnceQueue::new();
    let e1 = after(start, dur(40000, 0));
    let e2 = after(start, dur(100000, 0));
    t.add_max(e1, Callback(Box::new(|n: &mut u32| *n += 1)));
    let k2 = t.add_max(e2, Callback(Box::new(|n: &mut u32| *n += 10)));
    assert!(t.next_expiry() == Some(after(start, dur(32767, 0))));
    // Both come up at 32767s: the first is set again at its expiry, the
    // second at the limit ahead of that step
    t.advance(after(start, dur(32768, 0)), &mut q);
    assert!(q.is_empty());
    assert!(t.next_expiry() == Some(e1));
    t.advance(after(start, dur(40000, 0)), &mut q);
    assert!(!q.is_empty());
    assert!(t.max_is_active(k2));
    assert!(t.next_expiry() == Some(after(start, dur(65534, 0))));
}

#[test]
fn min_timer_first_wakes_at_75_percent() {
    let start = Instant::new(1000, 0);
    let mut t: Timers<u32> = Timers::new(start);
    let mut q: FnOnceQueue<u32> = FnOnceQueue::new();
    let k = t.add_min(after(start, dur(100, 0)), Callback(Box::new(|n: &mut u32| *n += 1)));
    assert!(t.next_expiry() == Some(after(start, dur(80, 0))));
    // At 80s it is set again, 75% of the way from there to 100s
    t.advance(after(start, dur(80, 0)), &mut q);
    assert!(q.is_empty());
    assert!(t.min_is_active(k));
    let next = t.next_expiry().unwrap();
    assert!(after(start, dur(95, 0)) <= next && next <= after(start, dur(100, 0)));
    t.advance(after(start, dur(100, 0)), &mut q);
    assert!(!q.is_empty());
    assert!(!t.min_is_active(k));
}

#[test]
fn default_keys_match_no_timer() {
    let start = Instant::new(1000, 0);
    let mut t: Timers<u32> = Timers::new(start);
    let km = t.add_max(after(start, dur(10, 0)), Callback(Box::new(|n: &mut u32| *n += 1)));
    let kn = t.add_min(after(start, dur(10, 0)), Callback(Box::new(|n: &mut u32| *n += 1)));
    assert!(t.max_is_active(km) && t.min_is_active(kn));
    assert!(!t.max_is_active(MaxTimerKey::default()));
    assert!(!t.min_is_active(MinTimerKey::default()));
    assert!(!t.del_max(MaxTimerKey::default()));
    assert!(!t.del_min(MinTimerKey::default()));
    assert_eq!(2, t.slots_used());
}

#[test]
fn all_timers_fire_in_wake_order() {
    let start = Instant::new(1000, 0);
    let mut t: Timers<Vec<u32>> = Timers::new(start);
    let mut q: FnOnceQueue<Vec<u32>> = FnOnceQueue::new();
    t.add_max(after(start, dur(10, 0)), Callback(Box::new(|v: &mut Vec<u32>| v.push(3))));
    t.add(after(start, dur(5, 0)), Callback(Box::new(|v: &mut Vec<u32>| v.push(1))));
    // First wakes at 5.5s, 75% of the way to 7s rounded up to half a second
    t.add_min(after(start, dur(7, 0)), Callback(Box::new(|v: &mut Vec<u32>| v.push(2))));
    assert!(t.next_expiry() == Some(after(start, dur(5, 0))));
    t.advance(after(start, dur(20, 0)), &mut q);
    let mut out = Vec::new();
    q.execute(&mut out);
    assert_eq!(out, vec![1, 2, 3]);
    assert!(t.next_expiry().is_none());
}

#[test]
fn compact_time_covers_eight_million_years() {
    let start = Instant::new(1000, 0);
    let secs: u64 = (1 << 48) - 1;
    let late = after(start, dur(secs, 500_000_000));
    let c = Time::new_ceil(late, start);
    assert_eq!(c.units(), (secs << 16) | 30518);
    let f = Time::new_floor(late, start);
    assert_eq!(f.units(), (secs << 16) | 30517);
    assert!(c.instant(start) >= late);
    assert!(f.instant(start) <= late);
    // A fixed timer far ahead is taken as a Max timer at the limit ahead
    let mut t: Timers<u32> = Timers::new(start);
    t.add(after(start, dur(1 << 47, 0)), Callback(Box::new(|n: &mut u32| *n += 1)));
    assert!(t.next_expiry() == Some(after(start, dur(32767, 0))));
}

#[test]
fn len_counts_waiting_timers_and_times_round_trip() {
    let start = Instant::new(1000, 0);
    let mut t: Timers<u32> = Timers::new(start);
    assert_eq!(t.len(), 0);
    t.add(after(start, dur(5, 0)), Callback::new(|n: &mut u32| *n += 1));
    t.add_max(after(start, dur(50000, 0)), Callback::new(|n: &mut u32| *n += 1));
    t.add_min(after(start, dur(7, 0)), Callback::new(|n: &mut u32| *n += 1));
    assert_eq!(t.len(), 3);
    for units in [0u64, 1, 61035, (12 << 16) | 30000, (99999 << 16) | 61035] {
        let inst = Time::from_units(units).instant(start);
        assert_eq!(Time::new_floor(inst, start).units(), units);
        assert_eq!(Time::new_ceil(inst, start).units(), units);
    }
}
