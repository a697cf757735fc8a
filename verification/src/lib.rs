//! A lightweight single-threaded actor runtime: the verified core.
use vstd::prelude::*;

pub mod time;
pub mod queue;
pub mod timers;
pub mod log;
pub mod count;
pub mod actor;
pub mod fwd;
pub mod waker;
pub mod clock;
pub mod handlers;

pub use time::{Duration, Instant};

verus! {
} // verus!
