//! Throttling of progress reports: a countdown that fires at most once per
//! period. The caller reads the clock and passes the time in.
use vstd::prelude::*;

verus! {

/// Fires when a period has passed since it last fired.
pub struct CountdownTimer {
    start_ms: u64,
    duration_ms: u64,
}

pub struct TimerView {
    pub start_ms: u64,
    pub duration_ms: u64,
}

impl View for CountdownTimer {
    type V = TimerView;

    closed spec fn view(&self) -> TimerView {
        TimerView { start_ms: self.start_ms, duration_ms: self.duration_ms }
    }
}

impl CountdownTimer {
    /// A countdown of `duration_ms` milliseconds started at `now_ms`.
    pub fn new(duration_ms: u64, now_ms: u64) -> (r: CountdownTimer)
        ensures
            r@.start_ms == now_ms,
            r@.duration_ms == duration_ms,
    {
        CountdownTimer { start_ms: now_ms, duration_ms }
    }

    /// Whether the period has passed at `now_ms`; if it has, or if the clock
    /// went backwards, the countdown starts again at `now_ms`.
    pub fn passed(&mut self, now_ms: u64) -> (r: bool)
        ensures
            r == (now_ms < old(self)@.start_ms || now_ms - old(self)@.start_ms
                >= old(self)@.duration_ms),
            final(self)@.duration_ms == old(self)@.duration_ms,
            final(self)@.start_ms == if r {
                now_ms
            } else {
                old(self)@.start_ms
            },
    {
        if now_ms < self.start_ms || now_ms - self.start_ms >= self.duration_ms {
            self.start_ms = now_ms;
            true
        } else {
            false
        }
    }
}

} // verus!
