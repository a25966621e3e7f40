use download_stats::date::parse_date;
use download_stats::weekly::{find_weekly_stat, insert_weekly_stat, Source, WeeklyStat, WeeklyTable};

#[test]
fn table_holds_one_total_per_key() {
    let monday = parse_date("2025-11-17").unwrap();
    let next = parse_date("2025-11-24").unwrap();
    let mut table = WeeklyTable::new();
    assert_eq!(table.len(), 0);
    assert!(table.rows().is_empty());
    assert_eq!(table.get(monday, Source::Crates, "foo"), None);

    table.put(monday, Source::Crates, "foo", 10);
    table.put(monday, Source::Github, "releases", 20);
    table.put(next, Source::Crates, "foo", 30);
    table.put(monday, Source::Crates, "bar", 40);
    assert_eq!(table.len(), 4);

    // the same key again replaces the total
    table.put(monday, Source::Crates, "foo", 11);
    insert_weekly_stat(&mut table, monday, Source::Github, "releases", 0);
    assert_eq!(table.len(), 4);
    assert_eq!(table.get(monday, Source::Crates, "foo"), Some(11));
    assert_eq!(table.get(monday, Source::Github, "releases"), Some(0));
    assert_eq!(table.get(next, Source::Crates, "foo"), Some(30));
    assert_eq!(table.get(monday, Source::Crates, "bar"), Some(40));
    assert_eq!(table.get(next, Source::Crates, "bar"), None);
    assert_eq!(table.get(next, Source::Github, "foo"), None);
}

#[test]
fn put_all_applies_the_totals_in_order() {
    let monday = parse_date("2025-11-17").unwrap();
    let stat = |identifier: &str, downloads: u64| WeeklyStat {
        week_start: monday,
        source: Source::Crates,
        identifier: identifier.to_string(),
        downloads,
    };
    let stats = vec![stat("a", 1), stat("b", 2), stat("a", 3)];
    let mut table = WeeklyTable::new();
    table.put_all(&stats);
    assert_eq!(table.len(), 2);
    assert_eq!(table.get(monday, Source::Crates, "a"), Some(3));
    assert_eq!(table.get(monday, Source::Crates, "b"), Some(2));
    table.put_all(&stats);
    assert_eq!(table.len(), 2);
    assert_eq!(table.get(monday, Source::Crates, "a"), Some(3));

    assert_eq!(find_weekly_stat(&stats, monday, Source::Crates, "a"), Some(0));
    assert_eq!(find_weekly_stat(&stats, monday, Source::Crates, "b"), Some(1));
    assert_eq!(find_weekly_stat(&stats, monday, Source::Github, "a"), None);
    assert_eq!(find_weekly_stat(&stats, monday, Source::Crates, "c"), None);
}

#[test]
fn sources_are_tagged() {
    assert_eq!(Source::Crates.as_str(), "crates");
    assert_eq!(Source::Github.as_str(), "github");
}
