use vstd::prelude::*;

verus! {

/// Ticks per second of the operating system's clock, which counts
/// nanoseconds.
pub const OS_TICKS_PER_SECOND: u64 = 1_000_000_000;

/// Cycles per second measured over `os_nanos` nanoseconds in which the counter
/// advanced by `cpu_cycles`, rounded down and capped at `u64::MAX`.
pub open spec fn frequency_of(cpu_cycles: u64, os_nanos: u64) -> u64 {
    let f = cpu_cycles * OS_TICKS_PER_SECOND / os_nanos as int;
    if f > u64::MAX {
        u64::MAX
    } else {
        f as u64
    }
}

/// The frequency of the operating system's clock, in ticks per second.
pub fn get_os_timer_frequency() -> (r: u64)
    ensures
        r == OS_TICKS_PER_SECOND,
{
    OS_TICKS_PER_SECOND
}

/// The cycle counter's frequency, from the cycles it advanced during a
/// calibration wait of `os_nanos` nanoseconds.
pub fn estimate_cpu_frequency(cpu_cycles: u64, os_nanos: u64) -> (r: u64)
    requires
        os_nanos > 0,
    ensures
        r == frequency_of(cpu_cycles, os_nanos),
{
    let scaled: u128 = cpu_cycles as u128 * OS_TICKS_PER_SECOND as u128;
    let f: u128 = scaled / os_nanos as u128;
    if f > u64::MAX as u128 {
        u64::MAX
    } else {
        f as u64
    }
}

/// Whether a calibration wait of `wait_millis` milliseconds, which must be
/// positive, is over once `os_nanos` nanoseconds have passed.
pub fn calibration_finished(wait_millis: u64, os_nanos: u64) -> (r: bool)
    requires
        wait_millis > 0,
    ensures
        r == (os_nanos >= wait_millis * 1_000_000),
{
    let wait_nanos: u128 = wait_millis as u128 * 1_000_000;
    os_nanos as u128 >= wait_nanos
}

} // verus!
