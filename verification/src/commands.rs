//! What a collection run records.
//!
//! A run fetches the releases of each configured repository and the
//! download counts of each configured package. This module decides what is
//! recorded of what was fetched; fetching and storing are the caller's.

use crate::aggregate::{all_dates_valid, asset_counts, is_first_invalid_date, AssetCount, Snapshot};
use crate::crates_io::DownloadsResponse;
use crate::date::{parse_date, Date, DateError};
use crate::format::{decimal_digits, decimal_string};
use crate::github::Release;
use crate::text::str_starts_with;
use vstd::prelude::*;

verus! {

/// The beginning of the tag of every release whose downloads are recorded.
pub open spec fn release_tag_prefix() -> Seq<char> {
    "cargo-nextest-"@
}

/// Whether the downloads of the release tagged `tag` are recorded.
pub open spec fn is_recorded_release(tag: Seq<char>) -> bool {
    release_tag_prefix().is_prefix_of(tag)
}

/// The snapshots of the assets of `release` on day `day`, in their order.
pub open spec fn release_counts(release: Release, day: int) -> Seq<AssetCount> {
    Seq::new(
        release.assets.len() as nat,
        |j: int|
            AssetCount {
                day,
                release_tag: release.tag_name@,
                asset_name: release.assets[j].name@,
                count: release.assets[j].download_count as nat,
            },
    )
}

/// The snapshots recorded of `releases` on day `day`: those of every asset
/// of every release whose tag begins with `cargo-nextest-`, in their order.
pub open spec fn recorded_counts(releases: Seq<Release>, day: int) -> Seq<AssetCount>
    decreases releases.len(),
{
    if releases.len() == 0 {
        Seq::empty()
    } else {
        let before = recorded_counts(releases.drop_last(), day);
        if is_recorded_release(releases.last().tag_name@) {
            before + release_counts(releases.last(), day)
        } else {
            before
        }
    }
}

/// The sum of the download counts of `counts`.
pub open spec fn total_count(counts: Seq<AssetCount>) -> nat
    decreases counts.len(),
{
    if counts.len() == 0 {
        0
    } else {
        total_count(counts.drop_last()) + counts.last().count
    }
}

/// What is recorded of the releases of one repository.
#[derive(Debug)]
pub struct GithubCollection {
    /// One snapshot for each asset of each recorded release.
    pub snapshots: Vec<Snapshot>,
    /// The sum of the download counts of the snapshots.
    pub total_downloads: u128,
}

/// Decides what is recorded of the releases that were fetched on day
/// `today`: one snapshot of each asset of each release whose tag begins with
/// `cargo-nextest-`; other releases are skipped.
pub fn collect_github_stats(today: Date, releases: &Vec<Release>) -> (collection: GithubCollection)
    ensures
        asset_counts(collection.snapshots@) == recorded_counts(releases@, today@),
        collection.total_downloads == total_count(recorded_counts(releases@, today@)),
{
    let mut snapshots: Vec<Snapshot> = Vec::new();
    let mut total: u128 = 0;
    let mut i: usize = 0;
    assert(releases@.take(0) =~= Seq::<Release>::empty());
    assert(asset_counts(snapshots@) =~= recorded_counts(releases@.take(0), today@));
    while i < releases.len()
        invariant
            i <= releases.len(),
            asset_counts(snapshots@) == recorded_counts(releases@.take(i as int), today@),
            total == total_count(asset_counts(snapshots@)),
            total <= snapshots.len() * u64::MAX,
        decreases releases.len() - i,
    {
        let release = &releases[i];
        let ghost before = asset_counts(snapshots@);
        let ghost added = release_counts(*release, today@);
        proof {
            assert(releases@.take(i + 1).drop_last() =~= releases@.take(i as int));
            assert(releases@.take(i + 1).last() == *release);
            reveal_strlit("cargo-nextest-");
        }
        if str_starts_with(release.tag_name.as_str(), "cargo-nextest-") {
            let mut j: usize = 0;
            assert(before + added.take(0) =~= before);
            while j < release.assets.len()
                invariant
                    j <= release.assets.len(),
                    added == release_counts(*release, today@),
                    asset_counts(snapshots@) == before + added.take(j as int),
                    total == total_count(asset_counts(snapshots@)),
                    total <= snapshots.len() * u64::MAX,
                decreases release.assets.len() - j,
            {
                let asset = &release.assets[j];
                let ghost counts = asset_counts(snapshots@);
                snapshots.push(
                    Snapshot {
                        date: today,
                        release_tag: release.tag_name.clone(),
                        asset_name: asset.name.clone(),
                        download_count: asset.download_count,
                    },
                );
                proof {
                    assert(asset_counts(snapshots@).drop_last() =~= counts);
                    assert(added.len() == release.assets.len());
                    assert(asset_counts(snapshots@).last() == added[j as int]);
                    assert(added.take(j + 1) =~= added.take(j as int).push(added[j as int]));
                    assert(asset_counts(snapshots@) =~= counts.push(added[j as int]));
                    assert(asset_counts(snapshots@) =~= before + added.take(j + 1));
                    assert(snapshots.len() <= usize::MAX);
                }
                total = total + asset.download_count as u128;
                j += 1;
            }
            assert(added.take(j as int) =~= added);
        }
        i += 1;
    }
    assert(releases@.take(i as int) =~= releases@);
    GithubCollection { snapshots, total_downloads: total }
}

/// The downloads of one day of one package, of one version or of the
/// versions that are not counted one by one.
#[derive(Debug)]
pub struct CratesDownloadRecord {
    /// The day.
    pub date: Date,
    /// The registry's number of the version in decimal digits, or `None`
    /// for the versions that are not counted one by one.
    pub version: Option<String>,
    /// The downloads counted on that day.
    pub downloads: u64,
}

/// A reported count before its date is read.
pub struct ReportedCount {
    /// The day, written `YYYY-MM-DD`.
    pub date: Seq<char>,
    /// The version in decimal digits, if the count is of one version.
    pub version: Option<Seq<char>>,
    /// The downloads counted on that day.
    pub downloads: nat,
}

/// The counts that `response` reports: first those per version, then
/// those of the versions that are not counted one by one.
pub open spec fn reported_counts(response: DownloadsResponse) -> Seq<ReportedCount> {
    Seq::new(
        response.version_downloads.len() as nat,
        |i: int|
            ReportedCount {
                date: response.version_downloads[i].date@,
                version: Some(decimal_digits(response.version_downloads[i].version as nat)),
                downloads: response.version_downloads[i].downloads as nat,
            },
    ) + Seq::new(
        response.meta.extra_downloads.len() as nat,
        |i: int|
            ReportedCount {
                date: response.meta.extra_downloads[i].date@,
                version: None,
                downloads: response.meta.extra_downloads[i].downloads as nat,
            },
    )
}

/// The date texts of reported counts.
pub open spec fn reported_dates(counts: Seq<ReportedCount>) -> Seq<Seq<char>> {
    Seq::new(counts.len(), |i: int| counts[i].date)
}

impl CratesDownloadRecord {
    /// Whether this record holds `count` with its date read.
    pub open spec fn holds(self, count: ReportedCount) -> bool {
        &&& Date::parsed(count.date) == Some(self.date@)
        &&& self.downloads == count.downloads
        &&& match self.version {
            Some(version) => count.version == Some(version@),
            None => count.version is None,
        }
    }
}

/// What is recorded of the reported downloads of one package.
#[derive(Debug)]
pub struct CratesCollection {
    /// The records to store, in the order of the report.
    pub records: Vec<CratesDownloadRecord>,
    /// The date that could not be read, if the report holds one. The
    /// records are then those that precede it.
    pub failure: Option<DateError>,
}

/// Decides what is recorded of the downloads that the registry reports for
/// a package: one record for each reported count, in the order of the
/// report, up to the first count whose date cannot be read. Such a date
/// ends the run: it is returned as the failure.
pub fn collect_crates_stats(downloads: &DownloadsResponse) -> (collection: CratesCollection)
    ensures
        collection.records.len() <= reported_counts(*downloads).len(),
        forall|k: int|
            0 <= k < collection.records.len() ==> (#[trigger] collection.records[k]).holds(
                reported_counts(*downloads)[k],
            ),
        match collection.failure {
            Some(error) => is_first_invalid_date(
                reported_dates(reported_counts(*downloads)),
                collection.records.len() as int,
            ) && error.value@ == reported_counts(*downloads)[collection.records.len() as int].date,
            None => collection.records.len() == reported_counts(*downloads).len()
                && all_dates_valid(reported_dates(reported_counts(*downloads))),
        },
{
    let ghost counts = reported_counts(*downloads);
    let ghost dates = reported_dates(counts);
    let versions = &downloads.version_downloads;
    let extras = &downloads.meta.extra_downloads;
    let mut records: Vec<CratesDownloadRecord> = Vec::new();
    let mut i: usize = 0;
    while i < versions.len()
        invariant
            i <= versions.len(),
            versions == &downloads.version_downloads,
            counts == reported_counts(*downloads),
            dates == reported_dates(counts),
            records.len() == i,
            forall|k: int| 0 <= k < i ==> (#[trigger] records[k]).holds(counts[k]),
            forall|k: int| 0 <= k < i ==> (#[trigger] Date::parsed(dates[k])) is Some,
        decreases versions.len() - i,
    {
        assert(counts[i as int].date == versions[i as int].date@);
        match parse_date(versions[i].date.as_str()) {
            Ok(date) => {
                records.push(
                    CratesDownloadRecord {
                        date,
                        version: Some(decimal_string(versions[i].version)),
                        downloads: versions[i].downloads,
                    },
                );
            },
            Err(error) => {
                assert(is_first_invalid_date(dates, i as int));
                return CratesCollection { records, failure: Some(error) };
            },
        }
        i += 1;
    }
    let mut j: usize = 0;
    while j < extras.len()
        invariant
            j <= extras.len(),
            i == versions.len(),
            versions == &downloads.version_downloads,
            extras == &downloads.meta.extra_downloads,
            counts == reported_counts(*downloads),
            dates == reported_dates(counts),
            records.len() == i + j,
            forall|k: int| 0 <= k < i + j ==> (#[trigger] records[k]).holds(counts[k]),
            forall|k: int| 0 <= k < i + j ==> (#[trigger] Date::parsed(dates[k])) is Some,
        decreases extras.len() - j,
    {
        assert(counts[i + j].date == extras[j as int].date@);
        match parse_date(extras[j].date.as_str()) {
            Ok(date) => {
                records.push(
                    CratesDownloadRecord { date, version: None, downloads: extras[j].downloads },
                );
            },
            Err(error) => {
                assert(is_first_invalid_date(dates, i + j));
                return CratesCollection { records, failure: Some(error) };
            },
        }
        j += 1;
    }
    CratesCollection { records, failure: None }
}

} // verus!
