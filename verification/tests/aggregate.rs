use download_stats::aggregate::{
    compute_all_weekly, compute_crates_weekly, compute_github_weekly, download_delta,
    read_crates_rows, read_github_rows, sort_by_day, weekly_crates_totals, weekly_github_totals,
    AggregateError, CratesDownloadRow, DailyDownloads, GithubSnapshotRow, Snapshot,
};
use download_stats::date::{parse_date, Date};
use download_stats::weekly::{insert_weekly_stat, Source, WeeklyStat, WeeklyTable};

fn crates_row(date: &str, name: &str, downloads: u64) -> CratesDownloadRow {
    CratesDownloadRow { date: date.to_string(), crate_name: name.to_string(), downloads }
}

fn github_row(date: &str, tag: &str, asset: &str, count: u64) -> GithubSnapshotRow {
    GithubSnapshotRow {
        date: date.to_string(),
        release_tag: tag.to_string(),
        asset_name: asset.to_string(),
        download_count: count,
    }
}

fn day(text: &str) -> Date {
    parse_date(text).unwrap()
}

fn summary(stats: &[WeeklyStat]) -> Vec<(String, &'static str, String, u64)> {
    let mut rows: Vec<(String, &'static str, String, u64)> = stats
        .iter()
        .map(|s| (s.week_start.to_iso_string(), s.source.as_str(), s.identifier.clone(), s.downloads))
        .collect();
    rows.sort();
    rows
}

fn row(week: &str, source: &'static str, identifier: &str, downloads: u64) -> (String, &'static str, String, u64) {
    (week.to_string(), source, identifier.to_string(), downloads)
}

#[test]
fn crates_rows_of_one_week_are_summed() {
    let rows = vec![
        crates_row("2025-11-17", "foo", 100),
        crates_row("2025-11-18", "foo", 50),
        crates_row("2025-11-20", "foo", 200),
    ];
    let stats = compute_crates_weekly(&rows).unwrap();
    assert_eq!(stats.len(), 1);
    assert_eq!(stats[0].week_start, day("2025-11-17"));
    assert_eq!(stats[0].week_start.to_iso_string(), "2025-11-17");
    assert_eq!(stats[0].source, Source::Crates);
    assert_eq!(stats[0].source.as_str(), "crates");
    assert_eq!(stats[0].identifier, "foo");
    assert_eq!(stats[0].downloads, 350);
}

#[test]
fn crates_totals_are_kept_per_week_and_package() {
    let rows = vec![
        crates_row("2025-11-23", "foo", 1),
        crates_row("2025-11-24", "foo", 2),
        crates_row("2025-11-24", "bar", 4),
        crates_row("2025-11-30", "foo", 8),
        crates_row("2025-12-01", "bar", 16),
        crates_row("2025-11-17", "foo", 32),
    ];
    let stats = compute_crates_weekly(&rows).unwrap();
    // first occurrence decides the order of the result
    let keys: Vec<(String, String)> =
        stats.iter().map(|s| (s.week_start.to_iso_string(), s.identifier.clone())).collect();
    assert_eq!(
        keys,
        vec![
            ("2025-11-17".to_string(), "foo".to_string()),
            ("2025-11-24".to_string(), "foo".to_string()),
            ("2025-11-24".to_string(), "bar".to_string()),
            ("2025-12-01".to_string(), "bar".to_string()),
        ]
    );
    assert_eq!(
        summary(&stats),
        vec![
            row("2025-11-17", "crates", "foo", 33),
            row("2025-11-24", "crates", "bar", 4),
            row("2025-11-24", "crates", "foo", 10),
            row("2025-12-01", "crates", "bar", 16),
        ]
    );
}

#[test]
fn crates_totals_do_not_depend_on_row_order() {
    let texts = [
        ("2025-11-23", "foo", 1u64),
        ("2025-11-24", "foo", 2),
        ("2025-11-24", "bar", 4),
        ("2025-11-30", "foo", 8),
        ("2025-12-01", "bar", 16),
    ];
    let forward: Vec<CratesDownloadRow> =
        texts.iter().map(|(d, n, c)| crates_row(d, n, *c)).collect();
    let backward: Vec<CratesDownloadRow> =
        texts.iter().rev().map(|(d, n, c)| crates_row(d, n, *c)).collect();
    let rotated: Vec<CratesDownloadRow> =
        texts.iter().cycle().skip(2).take(texts.len()).map(|(d, n, c)| crates_row(d, n, *c)).collect();
    let expected = summary(&compute_crates_weekly(&forward).unwrap());
    assert_eq!(summary(&compute_crates_weekly(&backward).unwrap()), expected);
    assert_eq!(summary(&compute_crates_weekly(&rotated).unwrap()), expected);
}

#[test]
fn crates_without_rows_gives_no_totals() {
    let stats = compute_crates_weekly(&Vec::new()).unwrap();
    assert!(stats.is_empty());
    let stats = compute_github_weekly(&Vec::new()).unwrap();
    assert!(stats.is_empty());
}

#[test]
fn crates_bad_date_aborts_with_the_first_offending_text() {
    let rows = vec![
        crates_row("2025-11-17", "foo", 100),
        crates_row("2025-13-01", "foo", 50),
        crates_row("not a date", "foo", 200),
    ];
    match compute_crates_weekly(&rows) {
        Err(AggregateError::InvalidDate { value }) => assert_eq!(value, "2025-13-01"),
        other => panic!("unexpected: {:?}", other),
    }
    let error = compute_crates_weekly(&rows).unwrap_err();
    assert_eq!(error.message(), "failed to parse date '2025-13-01'");
    assert!(matches!(read_crates_rows(&rows), Err(AggregateError::InvalidDate { .. })));
}

#[test]
fn crates_total_beyond_u64_is_an_overflow() {
    let rows = vec![
        crates_row("2025-11-17", "foo", u64::MAX),
        crates_row("2025-11-10", "foo", 5),
        crates_row("2025-11-18", "foo", 1),
    ];
    assert!(matches!(compute_crates_weekly(&rows), Err(AggregateError::TotalOverflow)));
    let fits = vec![
        crates_row("2025-11-17", "foo", u64::MAX - 1),
        crates_row("2025-11-18", "foo", 1),
        crates_row("2025-11-18", "bar", u64::MAX),
    ];
    let stats = compute_crates_weekly(&fits).unwrap();
    assert_eq!(
        summary(&stats),
        vec![
            row("2025-11-17", "crates", "bar", u64::MAX),
            row("2025-11-17", "crates", "foo", u64::MAX),
        ]
    );
    assert_eq!(
        AggregateError::TotalOverflow.message(),
        "weekly download total is too large"
    );
}

#[test]
fn typed_crates_rows_give_the_same_totals() {
    let days = vec![
        DailyDownloads { date: day("2025-11-17"), crate_name: "foo".to_string(), downloads: 100 },
        DailyDownloads { date: day("2025-11-23"), crate_name: "foo".to_string(), downloads: 7 },
        DailyDownloads { date: day("2025-11-24"), crate_name: "foo".to_string(), downloads: 1 },
    ];
    let stats = weekly_crates_totals(&days).unwrap();
    assert_eq!(
        summary(&stats),
        vec![row("2025-11-17", "crates", "foo", 107), row("2025-11-24", "crates", "foo", 1)]
    );
}

#[test]
fn delta_is_clamped_at_zero() {
    assert_eq!(download_delta(100, 80), 0);
    assert_eq!(download_delta(100, 100), 0);
    assert_eq!(download_delta(1000, 1500), 500);
    assert_eq!(download_delta(0, u64::MAX), u64::MAX);

    let rows = vec![
        github_row("2025-11-17", "v1", "asset.tar.gz", 100),
        github_row("2025-11-18", "v1", "asset.tar.gz", 80),
    ];
    let stats = compute_github_weekly(&rows).unwrap();
    assert_eq!(summary(&stats), vec![row("2025-11-17", "github", "releases", 0)]);
}

#[test]
fn github_deltas_go_to_the_week_of_the_later_snapshot() {
    let rows = vec![
        github_row("2025-11-10", "v1", "asset.tar.gz", 1000),
        github_row("2025-11-17", "v1", "asset.tar.gz", 1500),
        github_row("2025-11-24", "v1", "asset.tar.gz", 1400),
    ];
    let stats = compute_github_weekly(&rows).unwrap();
    assert_eq!(stats.len(), 2);
    assert_eq!(stats[0].week_start, day("2025-11-17"));
    assert_eq!(stats[0].source, Source::Github);
    assert_eq!(stats[0].identifier, "releases");
    assert_eq!(stats[0].downloads, 500);
    assert_eq!(stats[1].week_start, day("2025-11-24"));
    assert_eq!(stats[1].downloads, 0);
    assert_eq!(
        summary(&stats),
        vec![row("2025-11-17", "github", "releases", 500), row("2025-11-24", "github", "releases", 0)]
    );
}

#[test]
fn github_single_snapshot_gives_no_totals() {
    let rows = vec![
        github_row("2025-11-10", "v1", "a.tar.gz", 1000),
        github_row("2025-11-10", "v1", "b.tar.gz", 10),
        github_row("2025-11-10", "v2", "a.tar.gz", 77),
    ];
    assert!(compute_github_weekly(&rows).unwrap().is_empty());

    let with_lonely = vec![
        github_row("2025-11-10", "v1", "a.tar.gz", 1000),
        github_row("2025-11-12", "v9", "lonely.zip", 5000),
        github_row("2025-11-19", "v1", "a.tar.gz", 1010),
    ];
    let without = vec![
        github_row("2025-11-10", "v1", "a.tar.gz", 1000),
        github_row("2025-11-19", "v1", "a.tar.gz", 1010),
    ];
    assert_eq!(
        summary(&compute_github_weekly(&with_lonely).unwrap()),
        summary(&compute_github_weekly(&without).unwrap())
    );
    assert_eq!(
        summary(&compute_github_weekly(&without).unwrap()),
        vec![row("2025-11-17", "github", "releases", 10)]
    );
}

#[test]
fn github_totals_sum_over_assets_and_ignore_their_order() {
    let a = [
        ("2025-11-10", "v1", "x", 10u64),
        ("2025-11-17", "v1", "x", 30),
        ("2025-11-19", "v1", "x", 35),
        ("2025-11-26", "v1", "x", 20),
    ];
    let b = [("2025-11-11", "v1", "y", 100u64), ("2025-11-18", "v1", "y", 400)];
    let c = [("2025-11-12", "v2", "x", 7u64), ("2025-11-25", "v2", "x", 8)];
    let grouped: Vec<GithubSnapshotRow> =
        a.iter().chain(b.iter()).chain(c.iter()).map(|(d, t, n, k)| github_row(d, t, n, *k)).collect();
    let regrouped: Vec<GithubSnapshotRow> =
        c.iter().chain(a.iter()).chain(b.iter()).map(|(d, t, n, k)| github_row(d, t, n, *k)).collect();
    let interleaved: Vec<GithubSnapshotRow> = [a[0], b[0], c[0], a[1], b[1], a[2], c[1], a[3]]
        .iter()
        .map(|(d, t, n, k)| github_row(d, t, n, *k))
        .collect();
    let expected = vec![
        row("2025-11-17", "github", "releases", 20 + 5 + 300),
        row("2025-11-24", "github", "releases", 0 + 1),
    ];
    assert_eq!(summary(&compute_github_weekly(&grouped).unwrap()), expected);
    assert_eq!(summary(&compute_github_weekly(&regrouped).unwrap()), expected);
    assert_eq!(summary(&compute_github_weekly(&interleaved).unwrap()), expected);

    // the rows of an asset are taken by day, not by their place
    let swapped: Vec<GithubSnapshotRow> =
        [a[1], a[0]].iter().map(|(d, t, n, k)| github_row(d, t, n, *k)).collect();
    assert_eq!(
        summary(&compute_github_weekly(&swapped).unwrap()),
        vec![row("2025-11-17", "github", "releases", 20)]
    );
    let backward: Vec<GithubSnapshotRow> =
        grouped.iter().rev().map(|r| github_row(&r.date, &r.release_tag, &r.asset_name, r.download_count)).collect();
    assert_eq!(summary(&compute_github_weekly(&backward).unwrap()), expected);
}

#[test]
fn github_later_snapshot_given_first() {
    // the counter went down from 100 on the 11th to 80 on the 18th
    let rows = vec![
        github_row("2025-11-18", "v1", "a", 80),
        github_row("2025-11-11", "v1", "a", 100),
    ];
    assert_eq!(
        summary(&compute_github_weekly(&rows).unwrap()),
        vec![row("2025-11-17", "github", "releases", 0)]
    );
    // the counter grew from 100 on the 11th to 150 on the 18th
    let rows = vec![
        github_row("2025-11-18", "v1", "a", 150),
        github_row("2025-11-11", "v1", "a", 100),
    ];
    assert_eq!(
        summary(&compute_github_weekly(&rows).unwrap()),
        vec![row("2025-11-17", "github", "releases", 50)]
    );
}

#[test]
fn github_growth_adds_up_to_latest_minus_earliest() {
    // counters that never go down, rows in no particular order
    let rows = vec![
        github_row("2025-11-25", "v1", "a", 900),
        github_row("2025-11-03", "v1", "b", 5),
        github_row("2025-11-11", "v1", "a", 100),
        github_row("2025-12-02", "v1", "b", 70),
        github_row("2025-11-18", "v1", "a", 150),
        github_row("2025-11-19", "v1", "b", 5),
        github_row("2025-11-04", "v1", "a", 100),
    ];
    let stats = compute_github_weekly(&rows).unwrap();
    let total: u64 = stats.iter().map(|s| s.downloads).sum();
    assert_eq!(total, (900 - 100) + (70 - 5));
    assert_eq!(
        summary(&stats),
        vec![
            row("2025-11-10", "github", "releases", 0),
            row("2025-11-17", "github", "releases", 50),
            row("2025-11-24", "github", "releases", 750),
            row("2025-12-01", "github", "releases", 65),
        ]
    );
}

#[test]
fn snapshots_are_put_in_day_order() {
    let snapshot = |date: &str, asset: &str, count: u64| Snapshot {
        date: day(date),
        release_tag: "v1".to_string(),
        asset_name: asset.to_string(),
        download_count: count,
    };
    let given = vec![
        snapshot("2025-11-18", "a", 1),
        snapshot("2025-11-11", "b", 2),
        snapshot("2025-11-18", "c", 3),
        snapshot("2025-11-04", "d", 4),
        snapshot("2025-11-11", "e", 5),
    ];
    let sorted = sort_by_day(&given);
    let listed: Vec<(String, &str, u64)> = sorted
        .iter()
        .map(|s| (s.date.to_iso_string(), s.asset_name.as_str(), s.download_count))
        .collect();
    assert_eq!(
        listed,
        vec![
            ("2025-11-04".to_string(), "d", 4),
            ("2025-11-11".to_string(), "b", 2),
            ("2025-11-11".to_string(), "e", 5),
            ("2025-11-18".to_string(), "a", 1),
            ("2025-11-18".to_string(), "c", 3),
        ]
    );
    assert!(sort_by_day(&Vec::new()).is_empty());
}

#[test]
fn github_same_asset_name_in_two_releases_is_two_assets() {
    let rows = vec![
        github_row("2025-11-10", "v1", "asset", 10),
        github_row("2025-11-11", "v2", "asset", 500),
        github_row("2025-11-12", "v1", "asset", 12),
    ];
    assert_eq!(
        summary(&compute_github_weekly(&rows).unwrap()),
        vec![row("2025-11-10", "github", "releases", 2)]
    );
}

#[test]
fn github_bad_date_and_overflow() {
    let rows = vec![
        github_row("2025-11-10", "v1", "asset", 10),
        github_row("2025/11/11", "v1", "asset", 500),
    ];
    match compute_github_weekly(&rows) {
        Err(AggregateError::InvalidDate { value }) => assert_eq!(value, "2025/11/11"),
        other => panic!("unexpected: {:?}", other),
    }
    assert!(read_github_rows(&rows).is_err());
    let big = vec![
        github_row("2025-11-10", "v1", "a", 0),
        github_row("2025-11-10", "v1", "b", 0),
        github_row("2025-11-11", "v1", "a", u64::MAX),
        github_row("2025-11-12", "v1", "b", 1),
    ];
    assert!(matches!(compute_github_weekly(&big), Err(AggregateError::TotalOverflow)));
}

#[test]
fn typed_snapshots_give_the_same_totals() {
    let snapshots = vec![
        Snapshot {
            date: day("2025-11-10"),
            release_tag: "v1".to_string(),
            asset_name: "a".to_string(),
            download_count: 3,
        },
        Snapshot {
            date: day("2025-11-16"),
            release_tag: "v1".to_string(),
            asset_name: "a".to_string(),
            download_count: 10,
        },
    ];
    let stats = weekly_github_totals(&snapshots).unwrap();
    assert_eq!(summary(&stats), vec![row("2025-11-10", "github", "releases", 7)]);
}

#[test]
fn aggregation_overwrites_and_is_idempotent() {
    let crates = vec![
        crates_row("2025-11-17", "foo", 100),
        crates_row("2025-11-18", "foo", 50),
        crates_row("2025-11-25", "bar", 9),
    ];
    let github = vec![
        github_row("2025-11-10", "v1", "asset.tar.gz", 1000),
        github_row("2025-11-17", "v1", "asset.tar.gz", 1500),
    ];
    let mut table = WeeklyTable::new();
    // a stale value under a key that the aggregation produces, and one that it does not touch
    insert_weekly_stat(&mut table, day("2025-11-17"), Source::Crates, "foo", 1);
    insert_weekly_stat(&mut table, day("2025-01-06"), Source::Crates, "old", 3);
    compute_all_weekly(&crates, &github, &mut table).unwrap();
    let once = summary(table.rows());
    assert_eq!(
        once,
        vec![
            row("2025-01-06", "crates", "old", 3),
            row("2025-11-17", "crates", "foo", 150),
            row("2025-11-17", "github", "releases", 500),
            row("2025-11-24", "crates", "bar", 9),
        ]
    );
    assert_eq!(table.len(), 4);
    compute_all_weekly(&crates, &github, &mut table).unwrap();
    assert_eq!(summary(table.rows()), once);
    assert_eq!(table.get(day("2025-11-17"), Source::Crates, "foo"), Some(150));
    assert_eq!(table.get(day("2025-11-17"), Source::Github, "foo"), None);
}

#[test]
fn driver_names_the_stage_that_failed() {
    let good_crates = vec![crates_row("2025-11-17", "foo", 100)];
    let bad_crates = vec![crates_row("17.11.2025", "foo", 100)];
    let good_github = vec![
        github_row("2025-11-10", "v1", "a", 1),
        github_row("2025-11-11", "v1", "a", 2),
    ];
    let bad_github = vec![github_row("", "v1", "a", 1)];

    let mut table = WeeklyTable::new();
    let error = compute_all_weekly(&bad_crates, &good_github, &mut table).unwrap_err();
    assert_eq!(error.stage, Source::Crates);
    assert_eq!(
        error.message(),
        "failed to compute crates.io weekly aggregates: failed to parse date '17.11.2025'"
    );
    assert_eq!(table.len(), 0);

    let mut table = WeeklyTable::new();
    let error = compute_all_weekly(&good_crates, &bad_github, &mut table).unwrap_err();
    assert_eq!(error.stage, Source::Github);
    assert_eq!(
        error.message(),
        "failed to compute GitHub weekly aggregates: failed to parse date ''"
    );
    // what the first stage put into the table stays
    assert_eq!(summary(table.rows()), vec![row("2025-11-17", "crates", "foo", 100)]);
}
