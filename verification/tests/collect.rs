use download_stats::commands::{collect_crates_stats, collect_github_stats};
use download_stats::crates_io::{
    crate_url, downloads_url, CrateInfo, CrateResponse, DownloadsMeta, DownloadsResponse,
    ExtraDownload, VersionDownload,
};
use download_stats::date::parse_date;
use download_stats::github::{releases_url, Asset, Release, ReleasePager, PER_PAGE};

fn release(tag: &str, assets: &[(&str, u64)]) -> Release {
    Release {
        tag_name: tag.to_string(),
        assets: assets
            .iter()
            .map(|(name, count)| Asset { name: name.to_string(), download_count: *count })
            .collect(),
    }
}

#[test]
fn github_collection_keeps_the_tracked_releases() {
    let today = parse_date("2025-11-19").unwrap();
    let releases = vec![
        release("cargo-nextest-0.9.100", &[("linux.tar.gz", 10), ("mac.tar.gz", 5)]),
        release("nextest-runner-0.70.0", &[("src.tar.gz", 1000)]),
        release("cargo-nextest-0.9.99", &[]),
        release("cargo-nextest", &[("short.tar.gz", 3)]),
        release("xcargo-nextest-1.0.0", &[("x.tar.gz", 4)]),
        release("cargo-nextest-0.9.98", &[("linux.tar.gz", u64::MAX)]),
    ];
    let collection = collect_github_stats(today, &releases);
    let rows: Vec<(String, &str, &str, u64)> = collection
        .snapshots
        .iter()
        .map(|s| (s.date.to_iso_string(), s.release_tag.as_str(), s.asset_name.as_str(), s.download_count))
        .collect();
    assert_eq!(
        rows,
        vec![
            ("2025-11-19".to_string(), "cargo-nextest-0.9.100", "linux.tar.gz", 10),
            ("2025-11-19".to_string(), "cargo-nextest-0.9.100", "mac.tar.gz", 5),
            ("2025-11-19".to_string(), "cargo-nextest-0.9.98", "linux.tar.gz", u64::MAX),
        ]
    );
    assert_eq!(collection.total_downloads, 15 + u64::MAX as u128);
    let nothing = collect_github_stats(today, &Vec::new());
    assert!(nothing.snapshots.is_empty());
    assert_eq!(nothing.total_downloads, 0);
}

fn response(versions: &[(u64, u64, &str)], extras: &[(&str, u64)]) -> DownloadsResponse {
    DownloadsResponse {
        version_downloads: versions
            .iter()
            .map(|(version, downloads, date)| VersionDownload {
                version: *version,
                downloads: *downloads,
                date: date.to_string(),
            })
            .collect(),
        meta: DownloadsMeta {
            extra_downloads: extras
                .iter()
                .map(|(date, downloads)| ExtraDownload { date: date.to_string(), downloads: *downloads })
                .collect(),
        },
    }
}

#[test]
fn crates_collection_records_versions_then_extras() {
    let downloads = response(
        &[(1234567, 10, "2025-11-17"), (42, 20, "2025-11-18")],
        &[("2025-11-17", 7), ("2025-11-18", 8)],
    );
    let collection = collect_crates_stats(&downloads);
    assert!(collection.failure.is_none());
    let rows: Vec<(String, Option<&str>, u64)> = collection
        .records
        .iter()
        .map(|r| (r.date.to_iso_string(), r.version.as_deref(), r.downloads))
        .collect();
    assert_eq!(
        rows,
        vec![
            ("2025-11-17".to_string(), Some("1234567"), 10),
            ("2025-11-18".to_string(), Some("42"), 20),
            ("2025-11-17".to_string(), None, 7),
            ("2025-11-18".to_string(), None, 8),
        ]
    );
}

#[test]
fn crates_collection_stops_at_the_first_bad_date() {
    let downloads = response(
        &[(1, 10, "2025-11-17"), (2, 20, "18/11/2025"), (3, 30, "2025-11-19")],
        &[("2025-11-17", 7)],
    );
    let collection = collect_crates_stats(&downloads);
    assert_eq!(collection.records.len(), 1);
    assert_eq!(collection.records[0].version.as_deref(), Some("1"));
    let failure = collection.failure.unwrap();
    assert_eq!(failure.value, "18/11/2025");
    assert_eq!(failure.message(), "failed to parse date '18/11/2025'");

    let downloads = response(&[(1, 10, "2025-11-17")], &[("2025-11-17", 7), ("", 8), ("x", 9)]);
    let collection = collect_crates_stats(&downloads);
    assert_eq!(collection.records.len(), 2);
    assert_eq!(collection.failure.unwrap().value, "");

    let collection = collect_crates_stats(&response(&[], &[]));
    assert!(collection.records.is_empty());
    assert!(collection.failure.is_none());
}

#[test]
fn registry_types_hold_what_is_reported() {
    let answer = CrateResponse { crate_info: CrateInfo { downloads: 5_000_000, recent_downloads: 400_000 } };
    assert_eq!(answer.crate_info.downloads, 5_000_000);
    assert_eq!(answer.crate_info.recent_downloads, 400_000);
}

#[test]
fn addresses() {
    assert_eq!(crate_url("cargo-nextest"), "https://crates.io/api/v1/crates/cargo-nextest");
    assert_eq!(
        downloads_url("cargo-nextest"),
        "https://crates.io/api/v1/crates/cargo-nextest/downloads"
    );
    assert_eq!(
        releases_url("nextest-rs", "nextest", 1),
        "https://api.github.com/repos/nextest-rs/nextest/releases?per_page=100&page=1"
    );
    assert_eq!(
        releases_url("o", "r", 12),
        "https://api.github.com/repos/o/r/releases?per_page=100&page=12"
    );
}

fn batch(from: usize, count: usize) -> Vec<Release> {
    (from..from + count).map(|n| release(&format!("cargo-nextest-0.9.{}", n), &[("a", n as u64)])).collect()
}

#[test]
fn pager_goes_on_while_pages_are_full() {
    assert_eq!(PER_PAGE, 100);
    let mut pager = ReleasePager::new();
    assert_eq!(pager.page(), 1);
    assert!(pager.accept(batch(0, 100)));
    assert_eq!(pager.page(), 2);
    assert!(pager.accept(batch(100, 100)));
    assert_eq!(pager.page(), 3);
    assert!(!pager.accept(batch(200, 99)));
    assert_eq!(pager.page(), 3);
    let releases = pager.into_releases();
    assert_eq!(releases.len(), 299);
    for (n, release) in releases.iter().enumerate() {
        assert_eq!(release.tag_name, format!("cargo-nextest-0.9.{}", n));
    }
}

#[test]
fn pager_ends_on_an_empty_first_page() {
    let mut pager = ReleasePager::new();
    assert!(!pager.accept(Vec::new()));
    assert_eq!(pager.page(), 1);
    assert!(pager.into_releases().is_empty());
}
