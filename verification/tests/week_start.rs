use chrono::Datelike;
use download_stats::date::{get_week_start, parse_date, Date, Weekday, EARLIEST_DAY, FIRST_DAY, LAST_DAY};

#[test]
fn test_get_week_start() {
    // 2025-11-19 is a Wednesday
    let date = Date::from_ymd_opt(2025, 11, 19).unwrap();
    let week_start = get_week_start(date);

    // Should return Monday of that week (2025-11-17)
    assert_eq!(week_start, Date::from_ymd_opt(2025, 11, 17).unwrap());
    assert_eq!(week_start.weekday(), Weekday::Mon);
}

#[test]
fn test_get_week_start_already_monday() {
    // 2025-11-17 is a Monday
    let date = Date::from_ymd_opt(2025, 11, 17).unwrap();
    let week_start = get_week_start(date);

    // Should return itself
    assert_eq!(week_start, date);
}

#[test]
fn test_parse_date() {
    let date = parse_date("2025-11-19").unwrap();
    assert_eq!(date.year(), 2025);
    assert_eq!(date.month(), 11);
    assert_eq!(date.day(), 19);
}

#[test]
fn day_range_is_that_of_chrono() {
    assert_eq!(chrono::NaiveDate::MIN.num_days_from_ce(), EARLIEST_DAY);
    assert_eq!(chrono::NaiveDate::MAX.num_days_from_ce(), LAST_DAY);
    assert!(chrono::NaiveDate::from_num_days_from_ce_opt(EARLIEST_DAY - 1).is_none());
    assert!(chrono::NaiveDate::from_num_days_from_ce_opt(LAST_DAY + 1).is_none());
    let first = chrono::NaiveDate::from_num_days_from_ce_opt(FIRST_DAY).unwrap();
    assert_eq!(first.weekday(), chrono::Weekday::Mon);
    assert!(FIRST_DAY - EARLIEST_DAY < 7);
}
