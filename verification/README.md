# stakker

The verified core of a lightweight single-threaded actor runtime: its
queue of deferred calls, its timer queue, its logging levels and
filters, the packed reference count of an actor, forwarders, and the
index arithmetic of its inter-thread wake bitmaps.  Each function in
`src/` carries a contract that Verus proves.

Layout:

- `src/time.rs`: instants and durations as seconds and nanoseconds.
- `src/queue.rs`: `FnOnceQueue`, a queue of one-shot calls with the byte
  accounting of a flat arena that grows by chaining chunks.
- `src/timers.rs`: `Timers`, fixed, Max and Min timers held in a compact
  time unit, with the laws on rounding, firing and keys.
- `src/log.rs`: `LogLevel` and `LogFilter`, their names, parsing and text.
- `src/count.rs`: `CountAndState`, a saturating count with a state.
- `src/actor.rs`: `StopCause`.
- `src/fwd.rs`: `Fwd`, `FwdRc` and `MinRc`.
- `src/waker.rs`: bit and index arithmetic of the wake bitmaps.
- `src/handlers.rs`: which wake bit a new wake handler gets, over the
  slab of handler slots (the `slab` crate, behind stated contracts).
- `src/clock.rs`: the run loop's decisions: moving the clock on while
  expiring timers, and when the queues are taken afresh.
- `app/`: what lives outside the verified library: `Ret`, whose
  guarantee rests on its destructor, the run loop that drains the
  queues, and the atomic wake bitmaps shared between threads.
- `tests/`: tests of the library.
