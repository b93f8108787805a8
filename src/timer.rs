use vstd::prelude::*;

verus! {

/// Timer ticks per second of the platform clock.
pub const CLOCK_FREQ: u64 = 12500000;
/// Timer interrupts per second.
pub const TICKS_PER_SEC: u64 = 100000;
/// Milliseconds per second.
pub const MSEC_PER_SEC: u64 = 1000;

/// The clock value at which the next timer interrupt is due, given the clock now.
pub fn set_next_trigger(now: u64) -> (r: u64)
    requires
        now + CLOCK_FREQ / TICKS_PER_SEC <= u64::MAX,
    ensures
        r == now + CLOCK_FREQ / TICKS_PER_SEC,
{
    now + CLOCK_FREQ / TICKS_PER_SEC
}

/// A clock value in whole milliseconds.
pub fn get_time_ms(ticks: u64) -> (r: u64)
    ensures
        r == ticks / (CLOCK_FREQ / MSEC_PER_SEC),
{
    ticks / (CLOCK_FREQ / MSEC_PER_SEC)
}

} // verus!
