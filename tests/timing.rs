use processor::timer::{calibration_finished, estimate_cpu_frequency, get_os_timer_frequency};

#[test]
fn os_timer_counts_nanoseconds() {
    assert_eq!(get_os_timer_frequency(), 1_000_000_000);
}

#[test]
fn frequency_from_a_calibration_window() {
    assert_eq!(estimate_cpu_frequency(300_000_000, 100_000_000), 3_000_000_000);
    assert_eq!(estimate_cpu_frequency(10, 3), 3_333_333_333);
    assert_eq!(estimate_cpu_frequency(0, 5), 0);
}

#[test]
fn frequency_saturates() {
    assert_eq!(estimate_cpu_frequency(u64::MAX, 1), u64::MAX);
}

#[test]
fn calibration_waits_the_requested_time() {
    assert!(!calibration_finished(100, 99_999_999));
    assert!(calibration_finished(100, 100_000_000));
    assert!(calibration_finished(1, 1_000_000));
    assert!(!calibration_finished(1, 0));
    assert!(!calibration_finished(u64::MAX, u64::MAX));
}
