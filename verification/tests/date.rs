use dd_merge::date::{date_or_unknown, format_commit_date, format_date};

#[test]
fn test_format_date() {
    let formatted = format_date(1700000000);
    assert!(formatted.starts_with("2023-11-14"));
}

#[test]
fn test_format_date_invalid_timestamp() {
    let formatted = format_date(i64::MIN);
    assert_eq!(formatted, "unknown");
}

#[test]
fn test_format_commit_date() {
    let formatted = format_commit_date(None, 1700000000);
    // Should produce a human-readable date string
    assert!(!formatted.is_empty());
    assert_ne!(formatted, "unknown");
}

#[test]
fn test_format_commit_date_invalid() {
    let formatted = format_commit_date(None, i64::MIN);
    assert_eq!(formatted, "unknown");
}

#[test]
fn dates_to_the_minute() {
    assert_eq!(format_date(0), "1970-01-01 00:00");
    assert_eq!(format_date(1700000000), "2023-11-14 22:13");
    assert_eq!(format_date(-1), "1969-12-31 23:59");
    assert_eq!(format_date(i64::MAX), "unknown");
}

#[test]
fn commit_dates_in_universal_time() {
    assert_eq!(format_commit_date(None, 0), "Thu, Jan 1, 1970, 12:00 AM UTC");
    assert_eq!(format_commit_date(None, 1700000000), "Tue, Nov 14, 2023, 10:13 PM UTC");
}

#[test]
fn a_local_date_is_shown_as_it_is() {
    assert_eq!(format_commit_date(Some("here and now".to_string()), 0), "here and now");
    assert_eq!(format_commit_date(Some(String::new()), i64::MIN), "");
}

#[test]
fn a_missing_date_is_unknown() {
    assert_eq!(date_or_unknown(None), "unknown");
    assert_eq!(date_or_unknown(Some("x".to_string())), "x");
}
