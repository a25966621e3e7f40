use download_stats::charts::{
    chart_categories, chart_dates, comparison_bounds, is_top_tag, largest_downloads,
    largest_version_downloads, release_versions, series_bounds, series_color, sort_versions,
    split_by_source, sum_of_cell, sum_of_day, top_versions, version_series, DataPoint,
    SourceTotal, TagDownloads, TagRow, VersionDownloads, TOP_VERSIONS,
};
use download_stats::date::{parse_date, Date};

fn day(text: &str) -> Date {
    parse_date(text).unwrap()
}

fn point(date: &str, downloads: u64) -> DataPoint {
    DataPoint { date: day(date), downloads }
}

#[test]
fn series_bounds_take_first_and_last_day_and_the_maximum() {
    let data = vec![point("2025-11-03", 10), point("2025-11-10", 30), point("2025-11-17", 20)];
    let bounds = series_bounds(&data).unwrap();
    assert_eq!(bounds.min_date, day("2025-11-03"));
    assert_eq!(bounds.max_date, day("2025-11-17"));
    assert_eq!(bounds.max_downloads, 30);
    assert_eq!(largest_downloads(&data), Some(30));
    let one = vec![point("2025-11-03", 0)];
    let bounds = series_bounds(&one).unwrap();
    assert_eq!((bounds.min_date, bounds.max_date, bounds.max_downloads), (day("2025-11-03"), day("2025-11-03"), 0));
    assert!(series_bounds(&Vec::new()).is_none());
    assert_eq!(largest_downloads(&Vec::new()), None);
}

#[test]
fn comparison_bounds_span_both_series() {
    let crates = vec![point("2025-11-10", 10), point("2025-11-17", 30)];
    let github = vec![point("2025-11-03", 50), point("2025-11-24", 20)];
    let bounds = comparison_bounds(&crates, &github).unwrap();
    assert_eq!(bounds.min_date, day("2025-11-03"));
    assert_eq!(bounds.max_date, day("2025-11-24"));
    assert_eq!(bounds.max_downloads, 50);
    let bounds = comparison_bounds(&crates, &Vec::new()).unwrap();
    assert_eq!((bounds.min_date, bounds.max_date, bounds.max_downloads), (day("2025-11-10"), day("2025-11-17"), 30));
    let bounds = comparison_bounds(&Vec::new(), &github).unwrap();
    assert_eq!((bounds.min_date, bounds.max_date, bounds.max_downloads), (day("2025-11-03"), day("2025-11-24"), 50));
    assert!(comparison_bounds(&Vec::new(), &Vec::new()).is_none());
}

#[test]
fn totals_are_split_by_source() {
    let rows: Vec<SourceTotal> = [
        ("2025-11-03", "crates", 1u64),
        ("2025-11-03", "github", 2),
        ("2025-11-10", "other", 3),
        ("2025-11-10", "crates", 4),
        ("2025-11-17", "github", 5),
    ]
    .iter()
    .map(|(d, s, n)| SourceTotal { date: day(d), source: s.to_string(), downloads: *n })
    .collect();
    let series = split_by_source(&rows);
    assert_eq!(series.crates, vec![point("2025-11-03", 1), point("2025-11-10", 4)]);
    assert_eq!(series.github, vec![point("2025-11-03", 2), point("2025-11-17", 5)]);
}

fn tags(list: &[(&str, u64)]) -> Vec<TagDownloads> {
    list.iter().map(|(t, n)| TagDownloads { tag: t.to_string(), downloads: *n }).collect()
}

fn listed(versions: &[VersionDownloads]) -> Vec<(&str, &str, u64)> {
    versions.iter().map(|v| (v.tag.as_str(), v.version.as_str(), v.downloads)).collect()
}

#[test]
fn versions_are_read_from_tags() {
    let all = tags(&[
        ("cargo-nextest-0.9.100", 5),
        ("nextest-runner-0.70.0", 6),
        ("cargo-nextest-0.9", 7),
        ("cargo-nextest-", 8),
        ("cargo-nextest-1.0.0-rc.1", 9),
        ("cargo-nextest-0.9.01", 10),
        ("cargo-nextest-0.9.5", 11),
    ]);
    let versions = release_versions(&all);
    assert_eq!(
        listed(&versions),
        vec![
            ("cargo-nextest-0.9.100", "0.9.100", 5),
            ("cargo-nextest-1.0.0-rc.1", "1.0.0-rc.1", 9),
            ("cargo-nextest-0.9.5", "0.9.5", 11),
        ]
    );
    assert!(release_versions(&Vec::new()).is_empty());
}

#[test]
fn versions_are_sorted_latest_first() {
    let all = tags(&[
        ("cargo-nextest-0.9.5", 1),
        ("cargo-nextest-0.9.100", 2),
        ("cargo-nextest-1.0.0-rc.1", 3),
        ("cargo-nextest-0.9.19", 4),
        ("cargo-nextest-1.0.0", 5),
        ("cargo-nextest-0.9.100", 6),
        ("cargo-nextest-1.0.0-rc.1+build", 7),
    ]);
    let sorted = sort_versions(&release_versions(&all));
    assert_eq!(
        listed(&sorted),
        vec![
            ("cargo-nextest-1.0.0", "1.0.0", 5),
            ("cargo-nextest-1.0.0-rc.1+build", "1.0.0-rc.1+build", 7),
            ("cargo-nextest-1.0.0-rc.1", "1.0.0-rc.1", 3),
            ("cargo-nextest-0.9.100", "0.9.100", 2),
            ("cargo-nextest-0.9.100", "0.9.100", 6),
            ("cargo-nextest-0.9.19", "0.9.19", 4),
            ("cargo-nextest-0.9.5", "0.9.5", 1),
        ]
    );
    // the same as the stable sort of the versions themselves
    let mut expected: Vec<(semver::Version, u64)> = release_versions(&all)
        .iter()
        .map(|v| (semver::Version::parse(&v.version).unwrap(), v.downloads))
        .collect();
    expected.sort_by(|a, b| b.0.cmp(&a.0));
    let got: Vec<(semver::Version, u64)> =
        sorted.iter().map(|v| (semver::Version::parse(&v.version).unwrap(), v.downloads)).collect();
    assert_eq!(got, expected);
    assert!(sort_versions(&Vec::new()).is_empty());
}

#[test]
fn top_versions_are_the_first_five_above_the_threshold() {
    let all = tags(&[
        ("cargo-nextest-0.9.7", 50_000),
        ("cargo-nextest-0.9.6", 9_999),
        ("cargo-nextest-0.9.5", 10_000),
        ("cargo-nextest-0.9.4", 20_000),
        ("cargo-nextest-0.9.3", 30_000),
        ("cargo-nextest-0.9.2", 0),
        ("cargo-nextest-0.9.1", 40_000),
        ("cargo-nextest-0.9.0", 60_000),
    ]);
    let versions = sort_versions(&release_versions(&all));
    assert_eq!(largest_version_downloads(&versions), 60_000);
    assert_eq!(largest_version_downloads(&Vec::new()), 0);
    assert_eq!(TOP_VERSIONS, 5);
    let top = top_versions(&versions, 10_000);
    assert_eq!(
        top,
        vec![
            "cargo-nextest-0.9.7",
            "cargo-nextest-0.9.5",
            "cargo-nextest-0.9.4",
            "cargo-nextest-0.9.3",
            "cargo-nextest-0.9.1",
        ]
    );
    assert_eq!(top_versions(&versions, 50_000), vec!["cargo-nextest-0.9.7", "cargo-nextest-0.9.0"]);
    assert!(top_versions(&versions, 60_001).is_empty());
    assert_eq!(top_versions(&versions, 0).len(), 5);
    let categories = chart_categories(&top_versions(&versions, 50_000));
    assert_eq!(categories, vec!["cargo-nextest-0.9.7", "cargo-nextest-0.9.0", "Other"]);
    assert_eq!(chart_categories(&Vec::new()), vec!["Other"]);
    assert!(is_top_tag("cargo-nextest-0.9.7", &top));
    assert!(!is_top_tag("cargo-nextest-0.9.6", &top));
    assert!(!is_top_tag("Other", &top));
}

fn tag_rows(list: &[(&str, &str, u64)]) -> Vec<TagRow> {
    list.iter().map(|(d, t, n)| TagRow { date: day(d), tag: t.to_string(), downloads: *n }).collect()
}

#[test]
fn version_series_fill_every_day_of_every_series() {
    let rows = tag_rows(&[
        ("2025-11-10", "a", 10),
        ("2025-11-10", "b", 20),
        ("2025-11-10", "c", 1),
        ("2025-11-10", "d", 2),
        ("2025-11-12", "a", 15),
        ("2025-11-11", "c", 4),
        ("2025-11-12", "b", 25),
        ("2025-11-12", "d", 5),
        ("2025-11-12", "d", 6),
    ]);
    let top = vec!["b".to_string(), "a".to_string()];
    let series = version_series(&rows, &top).unwrap();
    assert_eq!(series.dates, vec![day("2025-11-10"), day("2025-11-11"), day("2025-11-12")]);
    assert_eq!(series.categories, vec!["b", "a", "Other"]);
    assert_eq!(series.values, vec![vec![20, 0, 25], vec![10, 0, 15], vec![3, 4, 11]]);
    assert_eq!(series.max_downloads, 51);
    assert_eq!(chart_dates(&rows), series.dates);
    assert_eq!(sum_of_day(&rows, day("2025-11-10")), 33);
    assert_eq!(sum_of_day(&rows, day("2025-11-13")), 0);
    assert_eq!(sum_of_cell(&rows, &top, "Other", day("2025-11-12")), 11);
    assert_eq!(sum_of_cell(&rows, &top, "a", day("2025-11-12")), 15);
    assert_eq!(sum_of_cell(&rows, &top, "c", day("2025-11-10")), 0);
    assert!(version_series(&Vec::new(), &top).is_none());
}

#[test]
fn version_series_sums_do_not_overflow() {
    let rows = tag_rows(&[("2025-11-10", "a", u64::MAX), ("2025-11-10", "b", u64::MAX), ("2025-11-10", "c", 1)]);
    let series = version_series(&rows, &Vec::new()).unwrap();
    assert_eq!(series.categories, vec!["Other"]);
    assert_eq!(series.values, vec![vec![2 * (u64::MAX as u128) + 1]]);
    assert_eq!(series.max_downloads, 2 * (u64::MAX as u128) + 1);
}

#[test]
fn colours_go_round() {
    let colours: Vec<usize> = (0..8).map(series_color).collect();
    assert_eq!(colours, vec![0, 1, 2, 3, 4, 5, 0, 1]);
}

#[test]
fn sorted_versions_never_put_an_earlier_one_first() {
    let all = tags(&[
        ("cargo-nextest-0.9.5", 1),
        ("cargo-nextest-0.9.100", 2),
        ("cargo-nextest-1.0.0-rc.1", 3),
        ("cargo-nextest-0.9.19", 4),
        ("cargo-nextest-1.0.0", 5),
        ("cargo-nextest-0.9.100", 6),
        ("cargo-nextest-1.0.0-alpha.1", 7),
        ("cargo-nextest-1.0.0-alpha.beta", 8),
        ("cargo-nextest-0.1.0", 9),
    ]);
    let sorted = sort_versions(&release_versions(&all));
    for i in 0..sorted.len() {
        for j in i + 1..sorted.len() {
            let first = semver::Version::parse(&sorted[i].version).unwrap();
            let second = semver::Version::parse(&sorted[j].version).unwrap();
            assert!(first >= second, "{} before {}", first, second);
        }
    }
}

#[test]
fn series_of_a_day_add_up_to_the_day() {
    let rows = tag_rows(&[
        ("2025-11-10", "a", 10),
        ("2025-11-10", "b", 20),
        ("2025-11-10", "c", 1),
        ("2025-11-11", "c", 4),
        ("2025-11-12", "a", 15),
        ("2025-11-12", "d", 5),
    ]);
    let top = vec!["b".to_string(), "a".to_string()];
    let series = version_series(&rows, &top).unwrap();
    for (d, date) in series.dates.iter().enumerate() {
        let sum: u128 = series.values.iter().map(|line| line[d]).sum();
        assert_eq!(sum, sum_of_day(&rows, *date));
    }
}
