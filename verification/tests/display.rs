use paper_ecash::components::badge::BadgeVariant;
use paper_ecash::components::button::ButtonVariant;
use paper_ecash::components::redemption_chart::{format_date, format_date_full, format_hour};
use paper_ecash::utils::time::{format_duration_secs, format_relative_time, format_relative_time_at, format_timestamp};

#[test]
fn timestamps_in_utc() {
    assert_eq!(format_timestamp(0).unwrap(), "1970-01-01 00:00:00 UTC");
    assert_eq!(format_timestamp(1_700_000_000).unwrap(), "2023-11-14 22:13:20 UTC");
    assert_eq!(format_timestamp(-1).unwrap(), "1969-12-31 23:59:59 UTC");
    assert!(format_timestamp(i64::MAX).is_none());
}

#[test]
fn chart_dates() {
    assert_eq!(format_date(1_700_000_000).unwrap(), "Nov 14");
    assert_eq!(format_date_full(1_700_000_000).unwrap(), "Nov 14, 2023");
    assert_eq!(format_date(0).unwrap(), "Jan 01");
    assert!(format_date_full(i64::MIN).is_none());
}

#[test]
fn relative_times() {
    assert_eq!(format_relative_time_at(100, 50), "in the future");
    assert_eq!(format_relative_time_at(100, 159), "just now");
    assert_eq!(format_relative_time_at(0, 60), "1 minute ago");
    assert_eq!(format_relative_time_at(0, 7200), "2 hours ago");
    assert_eq!(format_relative_time_at(0, 86400), "1 day ago");
    assert_eq!(format_relative_time_at(0, 86400 * 45), "1 month ago");
    assert_eq!(format_relative_time_at(0, 86400 * 800), "2 years ago");
    assert_eq!(format_relative_time(i64::MAX), "in the future");
}

#[test]
fn durations() {
    assert_eq!(format_duration_secs(59), "59s");
    assert_eq!(format_duration_secs(60), "1m");
    assert_eq!(format_duration_secs(3599), "59m");
    assert_eq!(format_duration_secs(3600), "1h");
    assert_eq!(format_duration_secs(86400 * 3), "3d");
}

#[test]
fn hours_on_the_twelve_hour_clock() {
    assert_eq!(format_hour(0), "12am");
    assert_eq!(format_hour(9), "9am");
    assert_eq!(format_hour(12), "12pm");
    assert_eq!(format_hour(14), "2pm");
    assert_eq!(format_hour(30), "30");
}

#[test]
fn style_classes() {
    assert_eq!(BadgeVariant::default(), BadgeVariant::Gray);
    assert_eq!(BadgeVariant::Green.classes(), "badge badge-green");
    assert_eq!(BadgeVariant::Yellow.classes(), "badge badge-yellow");
    assert_eq!(ButtonVariant::default(), ButtonVariant::Primary);
    assert_eq!(ButtonVariant::Transparent.classes(), "btn btn-ghost");
    assert_eq!(ButtonVariant::Danger.classes(), "btn btn-danger");
}
