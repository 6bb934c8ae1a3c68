use prism::ui::format_duration;
use std::time::Duration;

// ========== format_duration 测试 ==========

#[test]
fn test_format_duration_zero() {
    assert_eq!(format_duration(Duration::from_secs(0)), "00:00");
}

#[test]
fn test_format_duration_seconds_only() {
    assert_eq!(format_duration(Duration::from_secs(7)), "00:07");
    assert_eq!(format_duration(Duration::from_secs(42)), "00:42");
}

#[test]
fn test_format_duration_minutes_and_seconds() {
    assert_eq!(format_duration(Duration::from_secs(65)), "01:05");
    assert_eq!(format_duration(Duration::from_secs(125)), "02:05");
    assert_eq!(format_duration(Duration::from_secs(599)), "09:59");
    assert_eq!(format_duration(Duration::from_secs(3599)), "59:59");
}

#[test]
fn test_format_duration_exactly_one_hour() {
    assert_eq!(format_duration(Duration::from_secs(3600)), "1:00:00");
}

#[test]
fn test_format_duration_hours_minutes_seconds() {
    assert_eq!(format_duration(Duration::from_secs(3661)), "1:01:01");
    assert_eq!(format_duration(Duration::from_secs(3725)), "1:02:05");
    assert_eq!(format_duration(Duration::from_secs(7200)), "2:00:00");
    assert_eq!(format_duration(Duration::from_secs(7384)), "2:03:04");
}

#[test]
fn test_format_duration_large_hours() {
    assert_eq!(format_duration(Duration::from_secs(36000)), "10:00:00");
    assert_eq!(format_duration(Duration::from_secs(36610)), "10:10:10");
}
