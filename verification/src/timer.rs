//! Arithmetic of the AArch64 generic timer: the scheduler tick count, the
//! re-arm interval of a 1 kHz tick, and busy-wait deadlines.

use vstd::prelude::*;

verus! {

pub const VIRTUAL_TIMER_IRQ: u32 = 27;
pub const TICKS_PER_SECOND: u64 = 1000;

/// Scheduler ticks since the periodic timer was started, wrapping.
pub struct TickCounter {
    pub count: u64,
}

impl TickCounter {
    pub fn new() -> (r: Self)
        ensures
            r.count == 0,
    {
        TickCounter { count: 0 }
    }
}

/// Restart counting from zero.
pub fn init_periodic(counter: &mut TickCounter)
    ensures
        final(counter).count == 0,
{
    counter.count = 0;
}

/// Count one timer interrupt.
pub fn handle_irq(counter: &mut TickCounter)
    ensures
        final(counter).count == (if old(counter).count == u64::MAX { 0 } else { old(counter).count + 1 }),
{
    counter.count = counter.count.wrapping_add(1);
}

pub fn ticks(counter: &TickCounter) -> (r: u64)
    ensures
        r == counter.count,
{
    counter.count
}

/// Counter ticks between two scheduler ticks for a counter running at
/// `frequency` Hz, at least one.
pub fn rearm_interval(frequency: u64) -> (r: u64)
    ensures
        r == (if frequency / 1000 < 1 { 1 } else { frequency / 1000 }),
{
    let interval = frequency / TICKS_PER_SECOND;
    if interval < 1 {
        1
    } else {
        interval
    }
}

/// Counter ticks in `microseconds` at `frequency` Hz (whole ticks per
/// microsecond), saturating.
pub fn delay_ticks(frequency: u64, microseconds: u64) -> (r: u64)
    ensures
        r == (if (frequency / 1000000) * microseconds > u64::MAX {
            u64::MAX as int
        } else {
            (frequency / 1000000) * microseconds
        }),
{
    match (frequency / 1000000).checked_mul(microseconds) {
        Some(v) => v,
        None => u64::MAX,
    }
}

/// Whether a busy wait that started at `start` must go on at `now`: the
/// wrapping distance is still short of `ticks`.
pub fn still_waiting(now: u64, start: u64, ticks: u64) -> (r: bool)
    ensures
        r == ((if now >= start { now - start } else { now + 0x1_0000_0000_0000_0000 - start }) < ticks),
{
    now.wrapping_sub(start) < ticks
}

} // verus!
