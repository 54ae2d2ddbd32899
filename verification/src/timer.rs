//! Periodic ticks of 10 ms on a counter of any frequency.

use vstd::prelude::*;

verus! {

pub const TICK_MS: u64 = 10;

pub struct Timer {
    /// Counter steps in a second.
    pub timebase: u64,
    /// Milliseconds since the start.
    pub ticks: u64,
}

pub fn ms_to_ticks(timebase: u64, ms: u64) -> (r: u64)
    requires
        ms * timebase <= u64::MAX,
    ensures
        r == ms * timebase / 1000,
{
    ms * timebase / 1000
}

pub fn ticks_to_ms(timebase: u64, ticks: u64) -> (r: u64)
    requires
        ticks * 1000 <= u64::MAX,
        timebase > 0,
    ensures
        r == ticks as int * 1000 / timebase as int,
{
    ticks * 1000 / timebase
}

impl Timer {
    /// Starts to count; gives the time of the first tick.
    pub fn init(timebase: u64, now: u64) -> (r: (Timer, u64))
        requires
            10 * timebase <= u64::MAX,
            now + 10 * timebase / 1000 <= u64::MAX,
        ensures
            r.0 == (Timer { timebase, ticks: 0 }),
            r.1 == now + 10 * timebase / 1000,
    {
        (Timer { timebase, ticks: 0 }, now + ms_to_ticks(timebase, TICK_MS))
    }

    pub fn now_ms(&self) -> (r: u64)
        ensures
            r == self.ticks,
    {
        self.ticks
    }

    /// Counts a tick; gives the time of the next.
    pub fn on_timer_interrupt(&mut self, now: u64) -> (next: u64)
        requires
            old(self).ticks + TICK_MS <= u64::MAX,
            10 * old(self).timebase <= u64::MAX,
            now + 10 * old(self).timebase / 1000 <= u64::MAX,
        ensures
            *final(self) == (Timer {
                ticks: (old(self).ticks + TICK_MS) as u64,
                ..*old(self)
            }),
            next == now + 10 * old(self).timebase / 1000,
    {
        self.ticks = self.ticks + TICK_MS;
        now + ms_to_ticks(self.timebase, TICK_MS)
    }
}

/// Whole milliseconds survive the way to ticks and back where a second is a
/// whole number of thousand steps.
pub proof fn ms_round_trip(timebase: int, ms: int)
    requires
        timebase > 0,
        timebase % 1000 == 0,
        ms >= 0,
    ensures
        (ms * timebase / 1000) * 1000 / timebase == ms,
{
    let k = timebase / 1000;
    assert(timebase == 1000 * k);
    assert(ms * timebase == (ms * k) * 1000) by (nonlinear_arith)
        requires
            timebase == 1000 * k,
    ;
    assert(ms * timebase / 1000 == ms * k);
    assert((ms * k) * 1000 == ms * timebase) by (nonlinear_arith)
        requires
            timebase == 1000 * k,
    ;
    assert(ms * timebase / timebase == ms) by (nonlinear_arith)
        requires
            timebase > 0,
    ;
}

} // verus!
