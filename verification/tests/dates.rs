use chrono::Datelike;
use download_stats::crates_io;
use download_stats::date::{get_week_start, parse_date, Date, Weekday, FIRST_DAY, LAST_DAY};

fn weekday_of_chrono(day: i32) -> u32 {
    chrono::NaiveDate::from_num_days_from_ce_opt(day).unwrap().weekday().num_days_from_monday()
}

#[test]
fn weekday_follows_the_day_number() {
    let mut days: Vec<i32> = (-800..800).collect();
    days.extend(730_000..740_000);
    days.extend(FIRST_DAY..FIRST_DAY + 400);
    days.extend(LAST_DAY - 400..=LAST_DAY);
    for day in days {
        let date = Date::from_num_days_from_ce_opt(day).unwrap();
        assert_eq!(date.num_days_from_ce(), day);
        let expected = (day as i64 - 1).rem_euclid(7) as u32;
        assert_eq!(date.weekday().num_days_from_monday(), expected, "day {}", day);
        assert_eq!(weekday_of_chrono(day), expected, "day {}", day);
    }
}

#[test]
fn week_start_is_the_monday_on_or_before() {
    let mut days: Vec<i32> = (-50..50).collect();
    days.extend(739_000..739_400);
    days.extend(FIRST_DAY..FIRST_DAY + 30);
    days.extend(LAST_DAY - 30..=LAST_DAY);
    for day in days {
        let date = Date::from_num_days_from_ce_opt(day).unwrap();
        let monday = get_week_start(date);
        assert!(monday <= date);
        assert!(date.num_days_from_ce() - monday.num_days_from_ce() < 7);
        assert_eq!(monday.weekday(), Weekday::Mon);
        assert_eq!(get_week_start(monday), monday);
        assert_eq!(date.week_start(), monday);
        if date.weekday() == Weekday::Mon {
            assert_eq!(monday, date);
        }
        let by_chrono = chrono::NaiveDate::from_num_days_from_ce_opt(day).unwrap();
        let by_chrono = by_chrono - chrono::Duration::days(by_chrono.weekday().num_days_from_monday() as i64);
        assert_eq!(monday.num_days_from_ce(), by_chrono.num_days_from_ce());
        assert_eq!(monday.to_iso_string(), by_chrono.to_string());
    }
}

#[test]
fn week_of_a_sunday_starts_six_days_before() {
    let sunday = parse_date("2025-11-23").unwrap();
    assert_eq!(sunday.weekday(), Weekday::Sun);
    assert_eq!(get_week_start(sunday), parse_date("2025-11-17").unwrap());
    let monday = parse_date("2025-11-24").unwrap();
    assert_eq!(get_week_start(monday), monday);
    // the week crosses a year
    assert_eq!(get_week_start(parse_date("2026-01-01").unwrap()).to_iso_string(), "2025-12-29");
}

#[test]
fn all_weekdays_in_order() {
    let expected = [
        Weekday::Mon,
        Weekday::Tue,
        Weekday::Wed,
        Weekday::Thu,
        Weekday::Fri,
        Weekday::Sat,
        Weekday::Sun,
    ];
    let monday = Date::from_ymd_opt(2025, 11, 17).unwrap();
    for (offset, weekday) in expected.iter().enumerate() {
        let date = Date::from_num_days_from_ce_opt(monday.num_days_from_ce() + offset as i32).unwrap();
        assert_eq!(date.weekday(), *weekday);
        assert_eq!(weekday.num_days_from_monday(), offset as u32);
    }
}

#[test]
fn parse_date_reads_what_chrono_reads() {
    let date = parse_date("2025-11-19").unwrap();
    assert_eq!(date, Date::from_ymd_opt(2025, 11, 19).unwrap());
    assert_eq!(date.num_days_from_ce(), 739_574);
    assert_eq!(date.to_iso_string(), "2025-11-19");
    assert_eq!(crates_io::parse_date("2025-11-19").unwrap(), date);
    // single digits are read, and written back in full
    assert_eq!(parse_date("2025-1-5").unwrap().to_iso_string(), "2025-01-05");
    assert_eq!(parse_date("0001-01-01").unwrap().num_days_from_ce(), 1);
    assert_eq!(parse_date("2024-02-29").unwrap().day(), 29);
}

#[test]
fn parse_date_rejects_what_is_no_date() {
    for text in ["", "2025-13-01", "2025-02-30", "2023-02-29", "20251119", "2025-11-19T00:00:00", "yesterday", "2025-11"] {
        let error = parse_date(text).unwrap_err();
        assert_eq!(error.value, text);
        assert_eq!(error.message(), format!("failed to parse date '{}'", text));
    }
}

#[test]
fn dates_before_the_first_monday_are_not_held() {
    assert!(Date::from_num_days_from_ce_opt(FIRST_DAY).is_some());
    assert!(Date::from_num_days_from_ce_opt(FIRST_DAY - 1).is_none());
    assert!(Date::from_num_days_from_ce_opt(LAST_DAY).is_some());
    assert!(Date::from_num_days_from_ce_opt(LAST_DAY + 1).is_none());
    let earliest = chrono::NaiveDate::MIN;
    assert!(Date::from_ymd_opt(earliest.year(), earliest.month(), earliest.day()).is_none());
    assert!(parse_date(&earliest.to_string()).is_err());
    let first = chrono::NaiveDate::from_num_days_from_ce_opt(FIRST_DAY).unwrap();
    let date = Date::from_ymd_opt(first.year(), first.month(), first.day()).unwrap();
    assert_eq!(date.num_days_from_ce(), FIRST_DAY);
    assert_eq!(get_week_start(date), date);
    assert_eq!(parse_date(&first.to_string()).unwrap(), date);
    let last = chrono::NaiveDate::MAX;
    let date = parse_date(&last.to_string()).unwrap();
    assert_eq!(date.num_days_from_ce(), LAST_DAY);
    assert_eq!((date.year(), date.month(), date.day()), (last.year(), 12, 31));
}

#[test]
fn from_ymd_rejects_days_that_do_not_exist() {
    assert!(Date::from_ymd_opt(2015, 3, 14).is_some());
    assert!(Date::from_ymd_opt(2015, 0, 14).is_none());
    assert!(Date::from_ymd_opt(2015, 2, 29).is_none());
    assert!(Date::from_ymd_opt(400000, 1, 1).is_none());
    let date = Date::from_ymd_opt(1999, 9, 3).unwrap();
    assert_eq!(date.num_days_from_ce(), 730_000);
    assert_eq!((date.year(), date.month(), date.day()), (1999, 9, 3));
}

#[test]
fn year_month_and_day_are_those_a_date_was_made_from() {
    for year in [-4, 0, 1, 99, 1999, 2024, 2025, 9999, 10000, 262142] {
        for month in 1..=12u32 {
            for day in [1u32, 15, 28, 29, 30, 31] {
                let made = Date::from_ymd_opt(year, month, day);
                let by_chrono = chrono::NaiveDate::from_ymd_opt(year, month, day);
                assert_eq!(made.is_some(), by_chrono.is_some());
                let Some(date) = made else { continue };
                assert_eq!((date.year(), date.month(), date.day()), (year, month, day));
                assert!((1..=12).contains(&date.month()) && (1..=31).contains(&date.day()));
                if (0..=9999).contains(&year) {
                    let text = format!("{:04}-{:02}-{:02}", year, month, day);
                    assert_eq!(date.to_iso_string(), text);
                    assert_eq!(parse_date(&text).unwrap(), date);
                }
            }
        }
    }
}

#[test]
fn a_date_written_in_full_that_does_not_exist_is_not_read() {
    for (year, month, day) in [(2025, 2, 29), (2025, 4, 31), (2023, 2, 30), (1900, 2, 29)] {
        assert!(Date::from_ymd_opt(year, month, day).is_none());
        assert!(parse_date(&format!("{:04}-{:02}-{:02}", year, month, day)).is_err());
    }
}
