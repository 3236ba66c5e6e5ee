//! Tick and millisecond time source. A periodic timer interrupt advances
//! the tick count; between ticks, a free-running 32-bit hardware counter
//! supplies sub-tick resolution. Counter wraparound never drives the
//! reported millisecond value backwards: the difference is taken modulo
//! two to the thirty-second, and the reported value is clamped to be
//! non-decreasing.

use vstd::prelude::*;

verus! {

/// How far a free-running 32-bit counter reading `now` has advanced past
/// `then`, modulo two to the thirty-second.
pub open spec fn spec_wrap_delta(now: u32, then: u32) -> int {
    if now >= then {
        now - then
    } else {
        now - then + 0x1_0000_0000
    }
}

/// Wraparound-safe counter subtraction.
fn wrap_delta(now: u32, then: u32) -> (r: u32)
    ensures
        r as int == spec_wrap_delta(now, then),
{
    if now >= then {
        now - then
    } else {
        (u32::MAX - then) + now + 1
    }
}

/// The monotonic clock: tick count plus the hardware reading taken at the
/// last tick, and the highest millisecond value reported so far.
pub struct Clock {
    /// Milliseconds represented by one tick.
    pub ms_per_tick: u32,
    /// Hardware counter increments per millisecond.
    pub hw_per_ms: u32,
    /// Ticks counted so far; bumped only by the timer interrupt.
    pub ticks: u64,
    /// Hardware counter reading at the last tick.
    pub hw_at_tick: u32,
    /// Highest millisecond value ever reported.
    pub last_ms: u64,
}

impl Clock {
    pub open spec fn wf(self) -> bool {
        &&& self.ms_per_tick >= 1
        &&& self.hw_per_ms >= 1
    }

    /// Milliseconds described by the raw state at hardware reading
    /// `hw_now`, before clamping.
    pub open spec fn spec_raw_ms(self, hw_now: u32) -> int {
        self.ticks * self.ms_per_tick + spec_wrap_delta(hw_now, self.hw_at_tick)
            / (self.hw_per_ms as int)
    }

    /// What `now_millis` reports: the raw value, saturated to `u64` and
    /// never below anything reported before.
    pub open spec fn spec_now_ms(self, hw_now: u32) -> int {
        let raw = if self.spec_raw_ms(hw_now) > u64::MAX {
            u64::MAX as int
        } else {
            self.spec_raw_ms(hw_now)
        };
        if raw > self.last_ms {
            raw
        } else {
            self.last_ms as int
        }
    }

    pub fn new(ms_per_tick: u32, hw_per_ms: u32, hw_now: u32) -> (r: Clock)
        requires
            ms_per_tick >= 1,
            hw_per_ms >= 1,
        ensures
            r.wf(),
            r.ticks == 0,
            r.last_ms == 0,
            r.ms_per_tick == ms_per_tick,
            r.hw_per_ms == hw_per_ms,
            r.hw_at_tick == hw_now,
    {
        Clock { ms_per_tick, hw_per_ms, ticks: 0, hw_at_tick: hw_now, last_ms: 0 }
    }

    /// Called from the periodic timer interrupt: count the tick and record
    /// the hardware reading it happened at.
    pub fn on_tick(&mut self, hw_now: u32)
        requires
            old(self).wf(),
            old(self).ticks < u64::MAX,
        ensures
            final(self).wf(),
            final(self).ticks == old(self).ticks + 1,
            final(self).hw_at_tick == hw_now,
            final(self).last_ms == old(self).last_ms,
            final(self).ms_per_tick == old(self).ms_per_tick,
            final(self).hw_per_ms == old(self).hw_per_ms,
    {
        self.ticks = self.ticks + 1;
        self.hw_at_tick = hw_now;
    }

    /// Monotonic millisecond timestamp, readable from any context. The
    /// result never decreases between any two calls, whatever the hardware
    /// counter does.
    pub fn now_millis(&mut self, hw_now: u32) -> (r: u64)
        requires
            old(self).wf(),
        ensures
            final(self).wf(),
            r as int == old(self).spec_now_ms(hw_now),
            r >= old(self).last_ms,
            final(self).last_ms == r,
            final(self).ticks == old(self).ticks,
            final(self).hw_at_tick == old(self).hw_at_tick,
            final(self).ms_per_tick == old(self).ms_per_tick,
            final(self).hw_per_ms == old(self).hw_per_ms,
    {
        let sub_ms: u32 = wrap_delta(hw_now, self.hw_at_tick) / self.hw_per_ms;
        let candidate: u64 = match self.ticks.checked_mul(self.ms_per_tick as u64) {
            Some(base) => match base.checked_add(sub_ms as u64) {
                Some(v) => v,
                None => u64::MAX,
            },
            None => u64::MAX,
        };
        let r = if candidate > self.last_ms {
            candidate
        } else {
            self.last_ms
        };
        self.last_ms = r;
        r
    }
}

} // verus!
