use stakker::actor::StopCause;
use stakker::count::{CountAndState, State};
use stakker::fwd::{Forward, Fwd, FwdRc, MinRc};
use std::cell::Cell;
use std::rc::Rc;

#[test]
fn panic_2_drop() {
    // This one doesn't panic
    let fwd = Fwd::new(|()| panic!("Test"));
    drop(fwd);
}

#[test]
fn fwd_calls_each_time_and_clones_share() {
    let hits = Rc::new(Cell::new(0u32));
    let h2 = hits.clone();
    let fwd = Fwd::new(move |n: u32| h2.set(h2.get() + n));
    fwd.fwd(2);
    let fwd2 = fwd.clone();
    fwd2.fwd(3);
    fwd.fwd(4);
    assert_eq!(hits.get(), 9);
}

#[test]
fn min_rc_shares_value() {
    let rc = MinRc::new(12345u32);
    let rc2 = rc.clone();
    assert_eq!(*rc.inner(), 12345);
    assert_eq!(*rc2.inner(), 12345);
    let f = FwdRc::new(|_: u8| ());
    let g = f.clone();
    g.inner().forward(1);
}

#[test]
fn stop_cause_errors_and_text() {
    assert!(!StopCause::Stopped.has_error());
    assert!(StopCause::Failed("bad".to_string()).has_error());
    assert!(StopCause::Killed("gone".to_string()).has_error());
    assert!(!StopCause::Dropped.has_error());
    assert!(!StopCause::Lost.has_error());
    assert_eq!(StopCause::Stopped.to_string(), "Actor stopped");
    assert_eq!(StopCause::Failed("bad".to_string()).to_string(), "Actor failed: bad");
    assert_eq!(StopCause::Killed("gone".to_string()).to_string(), "Actor was killed: gone");
    assert_eq!(StopCause::Dropped.to_string(), "Actor was dropped");
    assert_eq!(StopCause::Lost.to_string(), "Lost connection to actor");
}

#[test]
fn count_and_state_counts() {
    let c = CountAndState::new();
    assert!(c.is_prep());
    assert!(!c.is_zombie());
    let c = c.inc().inc();
    let (c, zero) = c.dec();
    assert!(!zero);
    let (c, zero) = c.dec();
    assert!(zero);
    let (c, zero) = c.dec();
    assert!(!zero);
    let c = c.set_state(State::Zombie);
    assert!(c.is_zombie());
    assert!(!c.is_prep());
    let c = c.inc().set_state(State::Ready);
    assert!(!c.is_zombie());
    assert!(!c.is_prep());
    let (_, zero) = c.dec();
    assert!(zero);
}

#[test]
fn dec_undoes_inc() {
    let c = CountAndState::new().set_state(State::Ready);
    let c2 = c.inc();
    let (c3, zero) = c2.dec();
    assert!(zero);
    assert!(!c3.is_prep() && !c3.is_zombie());
    // A count of zero does not go lower
    let (_, zero) = c3.dec();
    assert!(!zero);
}
