//! Timekeeping: a counter of 10 MHz, and the time of day at the start from the
//! real-time clock.

use vstd::prelude::*;

verus! {

pub const TIMER_FREQ: u64 = 10_000_000;

/// Timer interrupt period: 1 ms.
pub const TICK_TICKS: u64 = 10_000;

/// The time of day where the clock tells none, in nanoseconds.
pub const DEFAULT_EPOCH: u64 = 1_700_000_000_000_000_000;

pub struct Clock {
    pub boot_time_ns: u64,
    pub next_deadline: u64,
    pub ticks: u64,
}

/// Nanoseconds since the start, from the counter.
pub fn uptime_ns(rdtime: u64) -> (r: u64)
    requires
        rdtime * 100 <= u64::MAX,
    ensures
        r == rdtime * 100,
{
    rdtime * 100
}

/// The time of day from the two halves that the clock gave; 0 is no time.
pub fn read_rtc_ns(lo: u32, hi: u32) -> (r: Option<u64>)
    ensures
        r == (if lo == 0 && hi == 0 {
            None
        } else {
            Some((hi * 0x1_0000_0000 + lo) as u64)
        }),
{
    let v: u64 = hi as u64 * 0x1_0000_0000 + lo as u64;
    if v == 0 {
        None
    } else {
        Some(v)
    }
}

pub open spec fn minus(a: u64, b: u64) -> int {
    if a >= b {
        a - b
    } else {
        a - b + 0x1_0000_0000_0000_0000
    }
}

impl Clock {
    /// Starts the clock and arms the first tick.
    pub fn init(rtc: Option<u64>, rdtime: u64) -> (r: Clock)
        requires
            rdtime * 100 <= u64::MAX,
            rdtime + TICK_TICKS <= u64::MAX,
        ensures
            r.boot_time_ns == minus(
                match rtc {
                    Some(v) => v,
                    None => DEFAULT_EPOCH,
                },
                (rdtime * 100) as u64,
            ),
            r.next_deadline == rdtime + TICK_TICKS,
            r.ticks == 0,
    {
        let epoch: u64 = match rtc {
            Some(v) => v,
            None => DEFAULT_EPOCH,
        };
        let mut c = Clock {
            boot_time_ns: epoch.wrapping_sub(uptime_ns(rdtime)),
            next_deadline: 0,
            ticks: 0,
        };
        c.arm(rdtime, TICK_TICKS);
        c
    }

    /// Sets the next timer interrupt, which the firmware is to be told.
    pub fn arm(&mut self, rdtime: u64, delta_ticks: u64) -> (next: u64)
        requires
            rdtime + delta_ticks <= u64::MAX,
        ensures
            next == rdtime + delta_ticks,
            *final(self) == (Clock { next_deadline: next, ..*old(self) }),
    {
        let next: u64 = rdtime + delta_ticks;
        self.next_deadline = next;
        next
    }

    /// Counts a tick and arms the next; sleepers are to be looked at.
    pub fn on_tick(&mut self, rdtime: u64) -> (next: u64)
        requires
            rdtime + TICK_TICKS <= u64::MAX,
            old(self).ticks < u64::MAX,
        ensures
            next == rdtime + TICK_TICKS,
            *final(self) == (Clock {
                next_deadline: next,
                ticks: (old(self).ticks + 1) as u64,
                ..*old(self)
            }),
    {
        self.ticks = self.ticks + 1;
        self.arm(rdtime, TICK_TICKS)
    }

    pub fn ticks(&self) -> (r: u64)
        ensures
            r == self.ticks,
    {
        self.ticks
    }

    /// The time of day in nanoseconds.
    pub fn realtime_ns(&self, rdtime: u64) -> (r: u64)
        requires
            rdtime * 100 <= u64::MAX,
            self.boot_time_ns + rdtime * 100 <= u64::MAX,
        ensures
            r == self.boot_time_ns + rdtime * 100,
    {
        self.boot_time_ns + uptime_ns(rdtime)
    }

    /// The time of day in milliseconds.
    pub fn realtime_ms(&self, rdtime: u64) -> (r: u64)
        requires
            rdtime * 100 <= u64::MAX,
            self.boot_time_ns + rdtime * 100 <= u64::MAX,
        ensures
            r == (self.boot_time_ns + rdtime * 100) / 1_000_000,
    {
        self.realtime_ns(rdtime) / 1_000_000
    }
}

/// Right after the start the time of day is what the clock told.
pub proof fn time_starts_at_epoch(epoch: u64, rdtime: u64, c: Clock)
    requires
        rdtime * 100 <= epoch,
        c.boot_time_ns == minus(epoch, (rdtime * 100) as u64),
    ensures
        c.boot_time_ns + rdtime * 100 == epoch,
{
}

} // verus!
