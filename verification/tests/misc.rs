use rvkernel::log::{level_as_u8, level_str, log_enabled, set_log_level, LogFilter, LogLevel};
use rvkernel::timer::{
    digits_u64, read_time_parts, read_time_seconds, TIMEBASE_DECIMALS, TIMEBASE_HZ,
};

#[test]
fn log_levels_have_names_and_numbers() {
    assert_eq!(level_str(LogLevel::Error), "ERROR");
    assert_eq!(level_str(LogLevel::Warn), "WARN");
    assert_eq!(level_str(LogLevel::Info), "INFO");
    assert_eq!(level_str(LogLevel::Debug), "DEBUG");
    assert_eq!(level_str(LogLevel::Trace), "TRACE");
    assert_eq!(level_as_u8(LogLevel::Error), 1);
    assert_eq!(level_as_u8(LogLevel::Trace), 5);
}

#[test]
fn log_filter_lets_through_up_to_its_level() {
    let mut filter = LogFilter::new();
    assert!(log_enabled(&filter, LogLevel::Error));
    assert!(log_enabled(&filter, LogLevel::Info));
    assert!(!log_enabled(&filter, LogLevel::Debug));
    set_log_level(&mut filter, LogLevel::Trace);
    assert!(log_enabled(&filter, LogLevel::Trace));
    set_log_level(&mut filter, LogLevel::Error);
    assert!(log_enabled(&filter, LogLevel::Error));
    assert!(!log_enabled(&filter, LogLevel::Warn));
}

#[test]
fn digits_of_numbers() {
    assert_eq!(digits_u64(0), 1);
    assert_eq!(digits_u64(9), 1);
    assert_eq!(digits_u64(10), 2);
    assert_eq!(digits_u64(9_999_999), 7);
    assert_eq!(digits_u64(10_000_000), 8);
    assert_eq!(digits_u64(u64::MAX), 20);
    assert_eq!(digits_u64(TIMEBASE_HZ - 1), TIMEBASE_DECIMALS);
}

#[test]
fn ticks_are_seconds_and_a_fraction() {
    assert_eq!(read_time_seconds(0), 0);
    assert_eq!(read_time_seconds(9_999_999), 0);
    assert_eq!(read_time_seconds(10_000_000), 1);
    assert_eq!(read_time_parts(25_000_123), (2, 5_000_123));
    assert_eq!(read_time_parts(u64::MAX), (1_844_674_407_370, 9_551_615));
}
