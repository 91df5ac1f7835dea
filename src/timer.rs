//! The tick counter driven by the timer interrupt, and uptime.
use vstd::prelude::*;
use crate::scheduler::Scheduler;
use crate::task::Task;

verus! {

/// Timer interrupts per second.
pub const TICKS_PER_SECOND: u64 = 1000;

/// Base frequency of the programmable interval timer in Hz.
pub const PIT_BASE_FREQUENCY: u64 = 1193180;

/// Counts timer ticks since boot.
pub struct Timer {
    pub ticks: u64,
}

/// Milliseconds since boot after `ticks` ticks.
pub open spec fn uptime_ms(ticks: u64) -> int {
    ticks * 1000 / (TICKS_PER_SECOND as int)
}

impl Timer {
    pub fn new() -> (r: Timer)
        ensures
            r.ticks == 0,
    {
        Timer { ticks: 0 }
    }

    /// Counts one tick; the counter wraps after `u64::MAX` ticks.
    pub fn tick(&mut self)
        ensures
            final(self).ticks == if old(self).ticks == u64::MAX {
                0
            } else {
                old(self).ticks + 1
            },
    {
        self.ticks = self.ticks.wrapping_add(1);
    }

    /// Milliseconds since boot.
    pub fn get_uptime_ms(&self) -> (r: u64)
        ensures
            r == uptime_ms(self.ticks),
    {
        let t = self.ticks;
        let whole = t / TICKS_PER_SECOND;
        let part = t % TICKS_PER_SECOND;
        proof {
            assert(t * 1000 / 1000 == t) by (nonlinear_arith);
        }
        whole * 1000 + part * 1000 / TICKS_PER_SECOND
    }
}

/// The divisor that makes the interval timer fire `TICKS_PER_SECOND`
/// times a second.
pub fn timer_divisor() -> (r: u16)
    ensures
        r == PIT_BASE_FREQUENCY / TICKS_PER_SECOND,
{
    (PIT_BASE_FREQUENCY / TICKS_PER_SECOND) as u16
}

/// The first half of sleeping: the running task's wake time becomes `now`
/// plus `ms` (saturating). The caller then yields, and the task is not
/// selected again before that time. Without a running task nothing changes.
pub fn sleep_ms(scheduler: &mut Scheduler, now: u64, ms: u64)
    ensures
        final(scheduler).tasks@ == old(scheduler).tasks@,
        final(scheduler).current_task == match old(scheduler).current_task {
            Some(t) => Some(
                Task {
                    wake_at: if now + ms > u64::MAX {
                        u64::MAX
                    } else {
                        (now + ms) as u64
                    },
                    ..t
                },
            ),
            None => None,
        },
{
    let wake_at = now.saturating_add(ms);
    match &mut scheduler.current_task {
        Some(task) => {
            task.wake_at = wake_at;
        },
        None => {},
    }
}

} // verus!
