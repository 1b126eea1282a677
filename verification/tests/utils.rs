use rmduprs::utils::{format_duration, format_duration_verbose};
use std::time::Duration;

#[test]
fn test_format_duration_seconds() {
    let dur = Duration::from_secs(45);
    assert_eq!(format_duration(dur), (0, 45));
}

#[test]
fn test_format_duration_minutes() {
    let dur = Duration::from_secs(125); // 2 min 5 sec
    assert_eq!(format_duration(dur), (2, 5));
}

#[test]
fn test_format_duration_verbose_seconds() {
    let dur = Duration::from_millis(500);
    let result = format_duration_verbose(dur);
    assert!(result.contains("sec"));
}

#[test]
fn test_format_duration_verbose_minutes() {
    let dur = Duration::from_secs(125);
    let result = format_duration_verbose(dur);
    assert_eq!(result, "2 min 5 sec");
}

#[test]
fn minute_is_the_limit_between_the_two_forms() {
    assert_eq!(format_duration_verbose(Duration::from_millis(59_999)), "60.0 sec");
    assert_eq!(format_duration_verbose(Duration::from_secs(60)), "1 min 0 sec");
    assert_eq!(format_duration_verbose(Duration::from_millis(3_599_900)), "59 min 59 sec");
    assert_eq!(format_duration_verbose(Duration::from_secs(7_265)), "121 min 5 sec");
}

#[test]
fn seconds_have_one_decimal_place() {
    assert_eq!(format_duration_verbose(Duration::from_millis(500)), "0.5 sec");
    assert_eq!(format_duration_verbose(Duration::from_millis(0)), "0.0 sec");
    assert_eq!(format_duration_verbose(Duration::from_millis(12_340)), "12.3 sec");
}

#[test]
fn format_duration_drops_the_fraction() {
    assert_eq!(format_duration(Duration::from_millis(59_999)), (0, 59));
    assert_eq!(format_duration(Duration::from_secs(3600)), (60, 0));
    assert_eq!(format_duration(Duration::from_secs(0)), (0, 0));
}
