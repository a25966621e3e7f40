use download_stats::format::{decimal_string, format_number, join};
use download_stats::query::csv_line;

#[test]
fn format_number_groups_thousands() {
    assert_eq!(format_number(0), "0");
    assert_eq!(format_number(7), "7");
    assert_eq!(format_number(999), "999");
    assert_eq!(format_number(1000), "1,000");
    assert_eq!(format_number(1001), "1,001");
    assert_eq!(format_number(12_345), "12,345");
    assert_eq!(format_number(100_000), "100,000");
    assert_eq!(format_number(1_234_567), "1,234,567");
    assert_eq!(format_number(1_000_000_000), "1,000,000,000");
    assert_eq!(format_number(u64::MAX), "18,446,744,073,709,551,615");
}

#[test]
fn format_number_is_the_digits_with_commas() {
    for n in (0..3000u64).chain([9_999, 10_000, 99_999, 999_999, 1_000_000, 4_294_967_296]) {
        let text = format_number(n);
        assert_eq!(text.replace(',', ""), n.to_string());
        let groups: Vec<&str> = text.split(',').collect();
        assert!(!groups[0].is_empty() && groups[0].len() <= 3);
        assert!(groups[1..].iter().all(|g| g.len() == 3));
    }
}

#[test]
fn decimal_string_is_to_string() {
    for n in (0..1200u64).chain([u64::MAX, u64::MAX - 1, 1 << 32, 10_000_000_000]) {
        assert_eq!(decimal_string(n), n.to_string());
    }
}

#[test]
fn join_puts_the_separator_between() {
    let parts = |list: &[&str]| list.iter().map(|s| s.to_string()).collect::<Vec<String>>();
    assert_eq!(join(&parts(&[]), ","), "");
    assert_eq!(join(&parts(&["a"]), ","), "a");
    assert_eq!(join(&parts(&["a", "b", "c"]), ","), "a,b,c");
    assert_eq!(join(&parts(&["", "", ""]), ", "), ", , ");
    assert_eq!(csv_line(&parts(&["2025-11-17", "crates", "foo", "350"])), "2025-11-17,crates,foo,350");
    assert_eq!(csv_line(&parts(&["week_start", "source", "identifier", "downloads"])), "week_start,source,identifier,downloads");
}
