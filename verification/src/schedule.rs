//! The time gate: whether enough time has passed since the last flush.
//!
//! Clock readings and intervals are plain `u64` counts of one unit (the
//! caller picks it, nanoseconds for instance) on a monotonic clock.

use vstd::prelude::*;

verus! {

/// Time that passed between `last` and `now`; zero where the clock reading
/// `now` lies before `last`.
pub open spec fn elapsed_between(last: u64, now: u64) -> nat {
    if now >= last {
        (now - last) as nat
    } else {
        0
    }
}

/// A flush is due when the elapsed time has reached the interval. The
/// comparison is inclusive: a reading exactly on the boundary is due.
pub open spec fn flush_due(last: u64, now: u64, interval: u64) -> bool {
    elapsed_between(last, now) >= interval
}

/// Time that passed between two clock readings, saturating at zero.
pub fn elapsed(last: u64, now: u64) -> (d: u64)
    ensures
        d == elapsed_between(last, now),
{
    if now >= last {
        now - last
    } else {
        0
    }
}

/// Decides whether a flush is due at `now`.
pub fn is_due(last: u64, now: u64, interval: u64) -> (due: bool)
    ensures
        due == flush_due(last, now, interval),
{
    elapsed(last, now) >= interval
}

/// The time of the last flush once the timer has been asked at `now`: `now`
/// where a flush was due, else unchanged.
pub open spec fn last_after(last: u64, now: u64, interval: u64) -> u64 {
    if flush_due(last, now, interval) {
        now
    } else {
        last
    }
}

/// The time gate over three readings. With the last flush at `t0`, a
/// reading `t1` before the interval has run out triggers nothing and leaves
/// the timer alone; a reading `t2` on the boundary or later triggers a
/// flush and moves the timer to `t2`; and, for a positive interval, asking
/// again at `t2` triggers no second flush.
pub proof fn lemma_time_gate(t0: u64, t1: u64, t2: u64, interval: u64)
    requires
        t0 <= t1,
        t1 - t0 < interval,
        t2 - t0 >= interval,
    ensures
        !flush_due(t0, t1, interval),
        last_after(t0, t1, interval) == t0,
        flush_due(last_after(t0, t1, interval), t2, interval),
        last_after(last_after(t0, t1, interval), t2, interval) == t2,
        interval > 0 ==> !flush_due(t2, t2, interval),
{
}

} // verus!
