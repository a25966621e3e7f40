//! The figures that charts are drawn from.
//!
//! Drawing is the caller's. This module computes what is drawn: the range
//! of the axes, the two series of the comparison of sources, and, for the
//! chart of release downloads by version, which versions get a series of
//! their own.

use crate::commands::release_tag_prefix;
use crate::date::Date;
use crate::text::{str_eq, str_strip_prefix};
use crate::totals::{lemma_total_push, total_for};
use crate::version::{
    compare_versions, is_later_version, is_not_earlier_version, is_transitive, is_version,
    semver_order,
};
use vstd::prelude::*;
use vstd::seq_lib::{group_to_multiset_ensures, to_multiset_insert};

verus! {

/// The downloads reported for one day or week.
#[derive(Clone, Copy, Debug, PartialEq, Eq)]
pub struct DataPoint {
    pub date: Date,
    pub downloads: u64,
}

/// The ranges of the axes of a chart over time.
#[derive(Clone, Copy, Debug, PartialEq, Eq)]
pub struct ChartBounds {
    /// Where the time axis begins.
    pub min_date: Date,
    /// Where the time axis ends.
    pub max_date: Date,
    /// Where the axis of downloads ends; it begins at 0.
    pub max_downloads: u64,
}

/// Whether `max` is the largest number of downloads among `points`.
pub open spec fn is_max_downloads(points: Seq<DataPoint>, max: u64) -> bool {
    &&& forall|i: int| 0 <= i < points.len() ==> (#[trigger] points[i]).downloads <= max
    &&& exists|i: int| 0 <= i < points.len() && (#[trigger] points[i]).downloads == max
}

/// Whether `min` is the earliest day among `points`.
pub open spec fn is_min_day(points: Seq<DataPoint>, min: int) -> bool {
    &&& forall|i: int| 0 <= i < points.len() ==> min <= (#[trigger] points[i]).date@
    &&& exists|i: int| 0 <= i < points.len() && (#[trigger] points[i]).date@ == min
}

/// Whether `max` is the latest day among `points`.
pub open spec fn is_max_day(points: Seq<DataPoint>, max: int) -> bool {
    &&& forall|i: int| 0 <= i < points.len() ==> (#[trigger] points[i]).date@ <= max
    &&& exists|i: int| 0 <= i < points.len() && (#[trigger] points[i]).date@ == max
}

/// The largest number of downloads among `points`, if there are any.
pub fn largest_downloads(points: &Vec<DataPoint>) -> (max: Option<u64>)
    ensures
        match max {
            Some(max) => is_max_downloads(points@, max),
            None => points.len() == 0,
        },
{
    if points.len() == 0 {
        return None;
    }
    let mut max = points[0].downloads;
    let mut i: usize = 1;
    while i < points.len()
        invariant
            1 <= i <= points.len(),
            forall|k: int| 0 <= k < i ==> (#[trigger] points[k]).downloads <= max,
            exists|k: int| 0 <= k < i && (#[trigger] points[k]).downloads == max,
        decreases points.len() - i,
    {
        if points[i].downloads > max {
            max = points[i].downloads;
        }
        i += 1;
    }
    Some(max)
}

/// The ranges of the axes for a series that is ordered by time: from its
/// first day to its last, and up to its largest number of downloads. A
/// series without points has no ranges and is not drawn.
pub fn series_bounds(data: &Vec<DataPoint>) -> (bounds: Option<ChartBounds>)
    ensures
        match bounds {
            Some(bounds) => data.len() > 0 && bounds.min_date@ == data[0].date@
                && bounds.max_date@ == data[data.len() - 1].date@ && is_max_downloads(
                data@,
                bounds.max_downloads,
            ),
            None => data.len() == 0,
        },
{
    match largest_downloads(data) {
        Some(max_downloads) => Some(
            ChartBounds {
                min_date: data[0].date,
                max_date: data[data.len() - 1].date,
                max_downloads,
            },
        ),
        None => None,
    }
}

/// The ranges of the axes for the comparison of the two sources: from the
/// earliest to the latest day of either series, and up to the largest
/// number of downloads of either. Without any point there are no ranges
/// and nothing is drawn.
pub fn comparison_bounds(crates: &Vec<DataPoint>, github: &Vec<DataPoint>) -> (bounds: Option<
    ChartBounds,
>)
    ensures
        match bounds {
            Some(bounds) => is_min_day(crates@ + github@, bounds.min_date@) && is_max_day(
                crates@ + github@,
                bounds.max_date@,
            ) && is_max_downloads(crates@ + github@, bounds.max_downloads),
            None => crates.len() == 0 && github.len() == 0,
        },
{
    let ghost all = crates@ + github@;
    let total = crates.len() as u128 + github.len() as u128;
    if total == 0 {
        return None;
    }
    let first = if crates.len() > 0 {
        crates[0]
    } else {
        github[0]
    };
    assert(first == all[0]);
    let mut min_date = first.date;
    let mut max_date = first.date;
    let mut max_downloads = first.downloads;
    let mut i: usize = 0;
    while i < crates.len()
        invariant
            i <= crates.len(),
            all == crates@ + github@,
            all.len() > 0,
            forall|k: int| 0 <= k < i ==> min_date@ <= (#[trigger] all[k]).date@ <= max_date@,
            forall|k: int| 0 <= k < i ==> (#[trigger] all[k]).downloads <= max_downloads,
            exists|k: int| 0 <= k < all.len() && (#[trigger] all[k]).date@ == min_date@,
            exists|k: int| 0 <= k < all.len() && (#[trigger] all[k]).date@ == max_date@,
            exists|k: int| 0 <= k < all.len() && (#[trigger] all[k]).downloads == max_downloads,
        decreases crates.len() - i,
    {
        let point = crates[i];
        assert(point == all[i as int]);
        if point.date.num_days_from_ce() < min_date.num_days_from_ce() {
            min_date = point.date;
        }
        if point.date.num_days_from_ce() > max_date.num_days_from_ce() {
            max_date = point.date;
        }
        if point.downloads > max_downloads {
            max_downloads = point.downloads;
        }
        i += 1;
    }
    let mut j: usize = 0;
    while j < github.len()
        invariant
            j <= github.len(),
            i == crates.len(),
            all == crates@ + github@,
            all.len() > 0,
            forall|k: int| 0 <= k < i + j ==> min_date@ <= (#[trigger] all[k]).date@ <= max_date@,
            forall|k: int| 0 <= k < i + j ==> (#[trigger] all[k]).downloads <= max_downloads,
            exists|k: int| 0 <= k < all.len() && (#[trigger] all[k]).date@ == min_date@,
            exists|k: int| 0 <= k < all.len() && (#[trigger] all[k]).date@ == max_date@,
            exists|k: int| 0 <= k < all.len() && (#[trigger] all[k]).downloads == max_downloads,
        decreases github.len() - j,
    {
        let point = github[j];
        assert(point == all[i + j]);
        if point.date.num_days_from_ce() < min_date.num_days_from_ce() {
            min_date = point.date;
        }
        if point.date.num_days_from_ce() > max_date.num_days_from_ce() {
            max_date = point.date;
        }
        if point.downloads > max_downloads {
            max_downloads = point.downloads;
        }
        j += 1;
    }
    Some(ChartBounds { min_date, max_date, max_downloads })
}

/// The downloads of one week of one source, as stored.
#[derive(Debug)]
pub struct SourceTotal {
    pub date: Date,
    /// The tag of the source: `crates` or `github`.
    pub source: String,
    pub downloads: u64,
}

/// The points of the totals of `rows` whose source is tagged `tag`, in
/// their order.
pub open spec fn points_of_source(rows: Seq<SourceTotal>, tag: Seq<char>) -> Seq<DataPoint>
    decreases rows.len(),
{
    if rows.len() == 0 {
        Seq::empty()
    } else {
        let before = points_of_source(rows.drop_last(), tag);
        if rows.last().source@ == tag {
            before.push(DataPoint { date: rows.last().date, downloads: rows.last().downloads })
        } else {
            before
        }
    }
}

/// The two series of the comparison of sources.
#[derive(Debug)]
pub struct SourceSeries {
    /// The totals of the registry, in the order of the rows.
    pub crates: Vec<DataPoint>,
    /// The totals of the releases, in the order of the rows.
    pub github: Vec<DataPoint>,
}

/// Splits weekly totals into the series of the registry and that of the
/// releases. Totals of any other source are left out.
pub fn split_by_source(rows: &Vec<SourceTotal>) -> (series: SourceSeries)
    ensures
        series.crates@ == points_of_source(rows@, "crates"@),
        series.github@ == points_of_source(rows@, "github"@),
{
    let mut crates: Vec<DataPoint> = Vec::new();
    let mut github: Vec<DataPoint> = Vec::new();
    let mut i: usize = 0;
    assert(rows@.take(0) =~= Seq::<SourceTotal>::empty());
    while i < rows.len()
        invariant
            i <= rows.len(),
            crates@ == points_of_source(rows@.take(i as int), "crates"@),
            github@ == points_of_source(rows@.take(i as int), "github"@),
        decreases rows.len() - i,
    {
        proof {
            assert(rows@.take(i + 1).drop_last() =~= rows@.take(i as int));
            reveal_strlit("crates");
            reveal_strlit("github");
            assert("crates"@ != "github"@) by {
                assert("crates"@[0] != "github"@[0]);
            }
        }
        let point = DataPoint { date: rows[i].date, downloads: rows[i].downloads };
        if str_eq(rows[i].source.as_str(), "crates") {
            crates.push(point);
        } else if str_eq(rows[i].source.as_str(), "github") {
            github.push(point);
        }
        i += 1;
    }
    assert(rows@.take(i as int) =~= rows@);
    SourceSeries { crates, github }
}

/// The downloads of all assets of one release.
#[derive(Debug)]
pub struct TagDownloads {
    /// The tag of the release.
    pub tag: String,
    pub downloads: u64,
}

/// The downloads of all assets of the release of one version.
#[derive(Debug)]
pub struct VersionDownloads {
    /// The tag of the release.
    pub tag: String,
    /// The version that the tag names: what follows `cargo-nextest-`.
    pub version: String,
    pub downloads: u64,
}

/// The downloads of a version as contracts speak of them.
pub struct VersionCount {
    /// The tag of the release.
    pub tag: Seq<char>,
    /// The version that the tag names.
    pub version: Seq<char>,
    pub downloads: nat,
}

impl View for VersionDownloads {
    type V = VersionCount;

    open spec fn view(&self) -> VersionCount {
        VersionCount { tag: self.tag@, version: self.version@, downloads: self.downloads as nat }
    }
}

/// What a list of versions stands for.
pub open spec fn version_counts(versions: Seq<VersionDownloads>) -> Seq<VersionCount> {
    Seq::new(versions.len(), |i: int| versions[i]@)
}

/// The version that `tag` names: what follows `cargo-nextest-`, where the
/// tag begins so and what follows is a semantic version.
pub open spec fn version_of_tag(tag: Seq<char>) -> Option<Seq<char>> {
    if release_tag_prefix().is_prefix_of(tag) && is_version(
        tag.skip(release_tag_prefix().len() as int),
    ) {
        Some(tag.skip(release_tag_prefix().len() as int))
    } else {
        None
    }
}

/// The releases among `tags` whose tag names a version, in their order.
pub open spec fn versions_among(tags: Seq<TagDownloads>) -> Seq<VersionCount>
    decreases tags.len(),
{
    if tags.len() == 0 {
        Seq::empty()
    } else {
        let before = versions_among(tags.drop_last());
        match version_of_tag(tags.last().tag@) {
            Some(version) => before.push(
                VersionCount {
                    tag: tags.last().tag@,
                    version,
                    downloads: tags.last().downloads as nat,
                },
            ),
            None => before,
        }
    }
}

/// Whether every one of `versions` is a semantic version.
pub open spec fn are_all_versions(versions: Seq<VersionCount>) -> bool {
    forall|i: int| 0 <= i < versions.len() ==> is_version((#[trigger] versions[i]).version)
}

/// Whether no version of `versions` comes before a later one.
pub open spec fn latest_come_first(versions: Seq<VersionCount>) -> bool {
    forall|i: int, j: int|
        0 <= i < j < versions.len() ==> is_not_earlier_version(
            (#[trigger] versions[i]).version,
            (#[trigger] versions[j]).version,
        )
}

/// Picks the releases whose tag names a version: the tag begins with
/// `cargo-nextest-` and a semantic version follows. The others are left
/// out.
pub fn release_versions(tags: &Vec<TagDownloads>) -> (versions: Vec<VersionDownloads>)
    ensures
        version_counts(versions@) == versions_among(tags@),
        are_all_versions(version_counts(versions@)),
{
    let mut versions: Vec<VersionDownloads> = Vec::new();
    let mut i: usize = 0;
    assert(tags@.take(0) =~= Seq::<TagDownloads>::empty());
    assert(version_counts(versions@) =~= versions_among(tags@.take(0)));
    while i < tags.len()
        invariant
            i <= tags.len(),
            version_counts(versions@) == versions_among(tags@.take(i as int)),
            are_all_versions(version_counts(versions@)),
        decreases tags.len() - i,
    {
        let ghost before = version_counts(versions@);
        assert(tags@.take(i + 1).drop_last() =~= tags@.take(i as int));
        assert(tags@.take(i + 1).last() == tags[i as int]);
        match str_strip_prefix(tags[i].tag.as_str(), "cargo-nextest-") {
            Some(rest) => {
                assert(rest@ =~= tags[i as int].tag@.skip(release_tag_prefix().len() as int));
                assert(release_tag_prefix().is_prefix_of(tags[i as int].tag@));
                if compare_versions(rest, rest).is_some() {
                    versions.push(
                        VersionDownloads {
                            tag: tags[i].tag.clone(),
                            version: String::from_str(rest),
                            downloads: tags[i].downloads,
                        },
                    );
                    assert(version_counts(versions@) =~= before.push(versions[versions.len() - 1]@));
                }
            },
            None => {},
        }
        i += 1;
    }
    assert(tags@.take(i as int) =~= tags@);
    versions
}

/// The position of the first version at or after `from` in `sorted` that
/// `version` is later than, or the length of `sorted` where there is none.
pub open spec fn first_earlier(sorted: Seq<VersionCount>, version: Seq<char>, from: int) -> int
    decreases sorted.len() - from,
{
    if from < 0 || from >= sorted.len() {
        sorted.len() as int
    } else if is_later_version(version, sorted[from].version) {
        from
    } else {
        first_earlier(sorted, version, from + 1)
    }
}

/// The versions of `versions` from the latest to the earliest: each in
/// turn is placed before the first version that it is later than, so that
/// versions none of which is later than the other keep their order.
pub open spec fn latest_first(versions: Seq<VersionCount>) -> Seq<VersionCount>
    decreases versions.len(),
{
    if versions.len() == 0 {
        Seq::empty()
    } else {
        let sorted = latest_first(versions.drop_last());
        sorted.insert(first_earlier(sorted, versions.last().version, 0), versions.last())
    }
}

/// Sorting rearranges: the sorted versions are the versions that were
/// given, each as often as it was given.
pub proof fn lemma_latest_first_rearranges(versions: Seq<VersionCount>)
    ensures
        latest_first(versions).to_multiset() == versions.to_multiset(),
        latest_first(versions).len() == versions.len(),
    decreases versions.len(),
{
    broadcast use group_to_multiset_ensures;

    if versions.len() > 0 {
        let front = versions.drop_last();
        let sorted = latest_first(front);
        lemma_latest_first_rearranges(front);
        lemma_first_earlier_bounds(sorted, versions.last().version, 0);
        to_multiset_insert(sorted, first_earlier(sorted, versions.last().version, 0), versions.last());
        assert(versions =~= front.push(versions.last()));
    }
}

/// `first_earlier` lies within the list.
proof fn lemma_first_earlier_bounds(sorted: Seq<VersionCount>, version: Seq<char>, from: int)
    requires
        0 <= from <= sorted.len(),
    ensures
        from <= first_earlier(sorted, version, from) <= sorted.len(),
    decreases sorted.len() - from,
{
    if from < sorted.len() && !is_later_version(version, sorted[from].version) {
        lemma_first_earlier_bounds(sorted, version, from + 1);
    }
}

/// Sorts versions from the latest to the earliest, by the order of
/// semantic versions. Versions that are equal in that order keep the order
/// in which they came. Where all are semantic versions, none comes before a
/// later one.
pub fn sort_versions(versions: &Vec<VersionDownloads>) -> (sorted: Vec<VersionDownloads>)
    ensures
        version_counts(sorted@) == latest_first(version_counts(versions@)),
        version_counts(sorted@).to_multiset() == version_counts(versions@).to_multiset(),
        sorted.len() == versions.len(),
        are_all_versions(version_counts(versions@)) ==> latest_come_first(
            version_counts(sorted@),
        ),
{
    proof {
        lemma_latest_first_rearranges(version_counts(versions@));
    }
    let ghost counts = version_counts(versions@);
    let ghost all = are_all_versions(counts);
    let mut sorted: Vec<VersionDownloads> = Vec::new();
    let mut i: usize = 0;
    assert(counts.take(0) =~= Seq::<VersionCount>::empty());
    assert(version_counts(sorted@) =~= latest_first(counts.take(0)));
    while i < versions.len()
        invariant
            i <= versions.len(),
            counts == version_counts(versions@),
            all == are_all_versions(counts),
            sorted.len() == i,
            version_counts(sorted@) == latest_first(counts.take(i as int)),
            all ==> are_all_versions(version_counts(sorted@)) && latest_come_first(
                version_counts(sorted@),
            ),
        decreases versions.len() - i,
    {
        let ghost before = version_counts(sorted@);
        let ghost version = versions[i as int].version@;
        assert(counts.take(i + 1).drop_last() =~= counts.take(i as int));
        assert(counts.take(i + 1).last() == versions[i as int]@);
        assert(counts[i as int].version == version);
        let mut at: usize = 0;
        let mut found = false;
        while !found && at < sorted.len()
            invariant
                at <= sorted.len(),
                i < versions.len(),
                version == versions[i as int].version@,
                before == version_counts(sorted@),
                all ==> is_version(version) && are_all_versions(before),
                first_earlier(before, version, 0) == first_earlier(before, version, at as int),
                found ==> at < sorted.len() && is_later_version(version, before[at as int].version),
                found ==> forall|c: Seq<char>|
                    is_transitive(
                        Some(1i8),
                        #[trigger] semver_order(before[at as int].version, c),
                        semver_order(version, c),
                    ),
                all ==> forall|k: int|
                    0 <= k < at ==> is_not_earlier_version((#[trigger] before[k]).version, version),
            decreases sorted.len() - at, if found { 0int } else { 1int },
        {
            assert(before[at as int].version == sorted[at as int].version@);
            let order = compare_versions(versions[i].version.as_str(), sorted[at].version.as_str());
            if order == Some(1i8) {
                found = true;
            } else {
                proof {
                    if all {
                        assert(is_version(before[at as int].version));
                        assert(is_not_earlier_version(before[at as int].version, version));
                    }
                }
                at += 1;
            }
        }
        proof {
            assert(first_earlier(before, version, 0) == at);
        }
        sorted.insert(
            at,
            VersionDownloads {
                tag: versions[i].tag.clone(),
                version: versions[i].version.clone(),
                downloads: versions[i].downloads,
            },
        );
        proof {
            let after = version_counts(sorted@);
            assert(after =~= before.insert(at as int, versions[i as int]@));
            if all {
                assert forall|k: int| 0 <= k < after.len() implies is_version(
                    (#[trigger] after[k]).version,
                ) by {
                    if k < at {
                        assert(after[k] == before[k]);
                    } else if k > at {
                        assert(after[k] == before[k - 1]);
                    }
                }
                assert forall|a: int, b: int| 0 <= a < b < after.len() implies is_not_earlier_version(
                    (#[trigger] after[a]).version,
                    (#[trigger] after[b]).version,
                ) by {
                    let a0 = if a < at { a } else { a - 1 };
                    let b0 = if b < at { b } else { b - 1 };
                    if a != at && b != at {
                        assert(after[a] == before[a0] && after[b] == before[b0]);
                        assert(is_not_earlier_version(before[a0].version, before[b0].version));
                    } else if b == at {
                        assert(after[a] == before[a]);
                        assert(is_not_earlier_version(before[a].version, version));
                    } else {
                        assert(after[b] == before[b0]);
                        assert(found);
                        if b0 > at {
                            assert(is_not_earlier_version(
                                before[at as int].version,
                                before[b0].version,
                            ));
                            assert(is_transitive(
                                Some(1i8),
                                semver_order(before[at as int].version, before[b0].version),
                                semver_order(version, before[b0].version),
                            ));
                        }
                    }
                }
            }
        }
        i += 1;
    }
    assert(counts.take(i as int) =~= counts);
    sorted
}

/// The largest number of downloads among `versions`, or 0 where there are
/// none.
pub fn largest_version_downloads(versions: &Vec<VersionDownloads>) -> (max: u64)
    ensures
        forall|i: int| 0 <= i < versions.len() ==> (#[trigger] versions[i]).downloads <= max,
        versions.len() == 0 ==> max == 0,
        versions.len() > 0 ==> exists|i: int|
            0 <= i < versions.len() && (#[trigger] versions[i]).downloads == max,
{
    let mut max: u64 = 0;
    let mut i: usize = 0;
    while i < versions.len()
        invariant
            i <= versions.len(),
            forall|k: int| 0 <= k < i ==> (#[trigger] versions[k]).downloads <= max,
            i == 0 ==> max == 0,
            i > 0 ==> exists|k: int| 0 <= k < i && (#[trigger] versions[k]).downloads == max,
        decreases versions.len() - i,
    {
        if versions[i].downloads > max || i == 0 {
            max = versions[i].downloads;
        }
        i += 1;
    }
    max
}

/// The number of versions that get a series of their own.
pub const TOP_VERSIONS: usize = 5;

/// The tags of the versions of `versions` with at least `threshold`
/// downloads, in their order.
pub open spec fn tags_above(versions: Seq<VersionCount>, threshold: nat) -> Seq<Seq<char>>
    decreases versions.len(),
{
    if versions.len() == 0 {
        Seq::empty()
    } else {
        let before = tags_above(versions.drop_last(), threshold);
        if versions.last().downloads >= threshold {
            before.push(versions.last().tag)
        } else {
            before
        }
    }
}

/// The first `limit` elements of `list`, or all of them where there are
/// fewer.
pub open spec fn first_of<A>(list: Seq<A>, limit: nat) -> Seq<A> {
    if list.len() <= limit {
        list
    } else {
        list.take(limit as int)
    }
}

/// The texts that a list of strings holds.
pub open spec fn tag_texts(tags: Seq<String>) -> Seq<Seq<char>> {
    Seq::new(tags.len(), |i: int| tags[i]@)
}

/// The tags of `versions`, in their order.
pub open spec fn version_tags(versions: Seq<VersionCount>) -> Seq<Seq<char>> {
    Seq::new(versions.len(), |i: int| versions[i].tag)
}

/// The tags above a threshold are tags of the versions, and all different
/// where the tags of the versions are.
pub proof fn lemma_tags_above(versions: Seq<VersionCount>, threshold: nat)
    ensures
        forall|j: int|
            0 <= j < tags_above(versions, threshold).len() ==> version_tags(versions).contains(
                #[trigger] tags_above(versions, threshold)[j],
            ),
        version_tags(versions).no_duplicates() ==> tags_above(versions, threshold).no_duplicates(),
    decreases versions.len(),
{
    if versions.len() > 0 {
        let front = versions.drop_last();
        let before = tags_above(front, threshold);
        let after = tags_above(versions, threshold);
        let last = versions.last().tag;
        lemma_tags_above(front, threshold);
        assert forall|j: int| 0 <= j < after.len() implies version_tags(versions).contains(
            #[trigger] after[j],
        ) by {
            if j < before.len() {
                assert(after[j] == before[j]);
                let i = choose|i: int|
                    0 <= i < front.len() && version_tags(front)[i] == before[j];
                assert(version_tags(versions)[i] == before[j]);
            } else {
                assert(version_tags(versions)[versions.len() - 1] == after[j]);
            }
        }
        if version_tags(versions).no_duplicates() {
            assert forall|a: int, b: int| 0 <= a < b < front.len() implies version_tags(front)[a]
                != version_tags(front)[b] by {
                assert(version_tags(versions)[a] != version_tags(versions)[b]);
            }
            assert forall|a: int, b: int| 0 <= a < b < after.len() implies after[a]
                != after[b] by {
                if b < before.len() {
                    assert(before[a] != before[b]);
                } else {
                    assert(after[a] == before[a]);
                    let i = choose|i: int|
                        0 <= i < front.len() && version_tags(front)[i] == before[a];
                    assert(version_tags(versions)[i] != version_tags(versions)[versions.len()
                        - 1]);
                }
            }
        }
    }
}

/// Picks the versions that get a series of their own: the first five, in
/// the order given, that have at least `threshold` downloads. Returns their
/// tags, which are all different where the tags of the versions are.
pub fn top_versions(versions: &Vec<VersionDownloads>, threshold: u64) -> (tags: Vec<String>)
    ensures
        tag_texts(tags@) == first_of(
            tags_above(version_counts(versions@), threshold as nat),
            TOP_VERSIONS as nat,
        ),
        tags.len() <= TOP_VERSIONS,
        forall|j: int|
            0 <= j < tags.len() ==> version_tags(version_counts(versions@)).contains(
                #[trigger] tag_texts(tags@)[j],
            ),
        version_tags(version_counts(versions@)).no_duplicates() ==> tag_texts(
            tags@,
        ).no_duplicates(),
{
    proof {
        lemma_tags_above(version_counts(versions@), threshold as nat);
    }
    let ghost counts = version_counts(versions@);
    let mut tags: Vec<String> = Vec::new();
    let mut i: usize = 0;
    assert(counts.take(0) =~= Seq::<VersionCount>::empty());
    assert(tag_texts(tags@) =~= first_of(tags_above(counts.take(0), threshold as nat), 5));
    while i < versions.len()
        invariant
            i <= versions.len(),
            counts == version_counts(versions@),
            tag_texts(tags@) == first_of(
                tags_above(counts.take(i as int), threshold as nat),
                TOP_VERSIONS as nat,
            ),
        decreases versions.len() - i,
    {
        let ghost above = tags_above(counts.take(i as int), threshold as nat);
        assert(counts.take(i + 1).drop_last() =~= counts.take(i as int));
        assert(counts.take(i + 1).last() == versions[i as int]@);
        let ghost chosen = tag_texts(tags@);
        assert(chosen.len() == tags.len());
        if versions[i].downloads >= threshold && tags.len() < TOP_VERSIONS {
            tags.push(versions[i].tag.clone());
            assert(chosen == above);
            assert(tag_texts(tags@) =~= chosen.push(versions[i as int].tag@));
        } else if versions[i].downloads >= threshold {
            assert(above.push(versions[i as int].tag@).take(5) =~= above.take(5));
        }
        i += 1;
    }
    proof {
        assert(counts.take(i as int) =~= counts);
        let above = tags_above(counts, threshold as nat);
        let chosen = tag_texts(tags@);
        assert(chosen.len() == tags.len());
        assert forall|j: int| 0 <= j < chosen.len() implies #[trigger] chosen[j] == above[j] by {}
    }
    tags
}

/// The name of the series of all versions without a series of their own.
pub open spec fn other_category() -> Seq<char> {
    "Other"@
}

/// The series of the chart of downloads by version: one for each of the
/// versions in `top`, in their order, and `Other` for the rest.
pub fn chart_categories(top: &Vec<String>) -> (categories: Vec<String>)
    ensures
        tag_texts(categories@) == tag_texts(top@).push(other_category()),
{
    let mut categories: Vec<String> = Vec::new();
    let mut i: usize = 0;
    assert(tag_texts(categories@) =~= tag_texts(top@).take(0));
    while i < top.len()
        invariant
            i <= top.len(),
            tag_texts(categories@) == tag_texts(top@).take(i as int),
        decreases top.len() - i,
    {
        let ghost copied = tag_texts(categories@);
        categories.push(top[i].clone());
        assert(tag_texts(categories@) =~= copied.push(top[i as int]@));
        assert(tag_texts(categories@) =~= tag_texts(top@).take(i + 1));
        i += 1;
    }
    let ghost copied = tag_texts(categories@);
    assert(copied =~= tag_texts(top@));
    categories.push(String::from_str("Other"));
    assert(tag_texts(categories@) =~= copied.push(other_category()));
    categories
}

/// The series that the downloads of the release tagged `tag` are counted
/// under: its own where the tag is among `top`, else `Other`.
pub open spec fn category_text(tag: Seq<char>, top: Seq<Seq<char>>) -> Seq<char> {
    if top.contains(tag) {
        tag
    } else {
        other_category()
    }
}

/// Whether `tag` is among the tags `top`.
pub fn is_top_tag(tag: &str, top: &Vec<String>) -> (found: bool)
    ensures
        found == tag_texts(top@).contains(tag@),
{
    let mut i: usize = 0;
    while i < top.len()
        invariant
            i <= top.len(),
            forall|k: int| 0 <= k < i ==> (#[trigger] tag_texts(top@)[k]) != tag@,
        decreases top.len() - i,
    {
        if str_eq(top[i].as_str(), tag) {
            assert(tag_texts(top@)[i as int] == tag@);
            return true;
        }
        i += 1;
    }
    false
}

/// The downloads of all assets of one release up to one day.
#[derive(Debug)]
pub struct TagRow {
    pub date: Date,
    /// The tag of the release.
    pub tag: String,
    pub downloads: u64,
}

/// Each row as an amount under its day.
pub open spec fn day_items(rows: Seq<TagRow>) -> Seq<(int, nat)> {
    Seq::new(rows.len(), |i: int| (rows[i].date@, rows[i].downloads as nat))
}

/// Each row as an amount under its day and its series.
pub open spec fn cell_items(rows: Seq<TagRow>, top: Seq<Seq<char>>) -> Seq<
    ((int, Seq<char>), nat),
> {
    Seq::new(
        rows.len(),
        |i: int| ((rows[i].date@, category_text(rows[i].tag@, top)), rows[i].downloads as nat),
    )
}

/// The downloads of all releases on day `day`.
pub open spec fn day_total(rows: Seq<TagRow>, day: int) -> nat {
    total_for(day_items(rows), day)
}

/// The downloads on day `day` of the releases that are counted under the
/// series `category`.
pub open spec fn cell_total(
    rows: Seq<TagRow>,
    top: Seq<Seq<char>>,
    category: Seq<char>,
    day: int,
) -> nat {
    total_for(cell_items(rows, top), (day, category))
}

/// Whether `day` is among `dates`.
pub open spec fn has_day(dates: Seq<Date>, day: int) -> bool {
    exists|d: int| 0 <= d < dates.len() && (#[trigger] dates[d])@ == day
}

/// Whether `day` is the day of one of `rows`.
pub open spec fn is_day_of(rows: Seq<TagRow>, day: int) -> bool {
    exists|k: int| 0 <= k < rows.len() && (#[trigger] rows[k]).date@ == day
}

/// Whether `dates` holds the days of `rows`, each once, from the earliest
/// to the latest.
pub open spec fn are_days_of(dates: Seq<Date>, rows: Seq<TagRow>) -> bool {
    &&& forall|a: int, b: int|
        0 <= a < b < dates.len() ==> (#[trigger] dates[a])@ < (#[trigger] dates[b])@
    &&& forall|d: int| 0 <= d < dates.len() ==> is_day_of(rows, (#[trigger] dates[d])@)
    &&& forall|k: int| 0 <= k < rows.len() ==> has_day(dates, (#[trigger] rows[k]).date@)
}

/// The days stay those of the rows when a row of a day that is held is
/// added.
proof fn lemma_days_keep(dates: Seq<Date>, rows: Seq<TagRow>, row: TagRow, at: int)
    requires
        are_days_of(dates, rows),
        0 <= at < dates.len(),
        dates[at]@ == row.date@,
    ensures
        are_days_of(dates, rows.push(row)),
{
    let now = rows.push(row);
    assert forall|d: int| 0 <= d < dates.len() implies is_day_of(now, (#[trigger] dates[d])@) by {
        assert(is_day_of(rows, dates[d]@));
        let k = choose|k: int| 0 <= k < rows.len() && (#[trigger] rows[k]).date@ == dates[d]@;
        assert(now[k].date@ == dates[d]@);
    }
    assert forall|k: int| 0 <= k < now.len() implies has_day(dates, (#[trigger] now[k]).date@) by {
        if k < rows.len() {
            assert(has_day(dates, rows[k].date@));
        } else {
            assert(dates[at]@ == now[k].date@);
        }
    }
}

/// The days stay those of the rows when a row of a new day is added and
/// its day is put where it belongs.
proof fn lemma_days_insert(dates: Seq<Date>, rows: Seq<TagRow>, row: TagRow, at: int)
    requires
        are_days_of(dates, rows),
        0 <= at <= dates.len(),
        forall|k: int| 0 <= k < at ==> (#[trigger] dates[k])@ < row.date@,
        at < dates.len() ==> row.date@ < dates[at]@,
    ensures
        are_days_of(dates.insert(at, row.date), rows.push(row)),
{
    let now = rows.push(row);
    let after = dates.insert(at, row.date);
    assert forall|a: int, b: int| 0 <= a < b < after.len() implies (#[trigger] after[a])@ < (
    #[trigger] after[b])@ by {
        let a0 = if a < at { a } else { a - 1 };
        let b0 = if b < at { b } else { b - 1 };
        if a != at && b != at {
            assert(dates[a0]@ < dates[b0]@);
        } else if a == at {
            if b0 > at {
                assert(dates[at]@ < dates[b0]@);
            }
        } else {
            assert(dates[a0]@ < row.date@);
        }
    }
    assert forall|d: int| 0 <= d < after.len() implies is_day_of(now, (#[trigger] after[d])@) by {
        if d == at {
            assert(now[rows.len() as int].date@ == after[d]@);
        } else {
            let d0 = if d < at { d } else { d - 1 };
            assert(is_day_of(rows, dates[d0]@));
            let k = choose|k: int| 0 <= k < rows.len() && (#[trigger] rows[k]).date@ == dates[d0]@;
            assert(now[k].date@ == after[d]@);
        }
    }
    assert forall|k: int| 0 <= k < now.len() implies has_day(after, (#[trigger] now[k]).date@) by {
        if k < rows.len() {
            assert(has_day(dates, rows[k].date@));
            let d = choose|d: int| 0 <= d < dates.len() && (#[trigger] dates[d])@ == rows[k].date@;
            let d1 = if d < at { d } else { d + 1 };
            assert(after[d1]@ == now[k].date@);
        } else {
            assert(after[at]@ == now[k].date@);
        }
    }
}

/// The days of `rows`, each once, from the earliest to the latest.
pub fn chart_dates(rows: &Vec<TagRow>) -> (dates: Vec<Date>)
    ensures
        are_days_of(dates@, rows@),
{
    let mut dates: Vec<Date> = Vec::new();
    let mut i: usize = 0;
    while i < rows.len()
        invariant
            i <= rows.len(),
            are_days_of(dates@, rows@.take(i as int)),
        decreases rows.len() - i,
    {
        let date = rows[i].date;
        let mut at: usize = 0;
        while at < dates.len() && dates[at].num_days_from_ce() < date.num_days_from_ce()
            invariant
                at <= dates.len(),
                forall|k: int| 0 <= k < at ==> (#[trigger] dates[k])@ < date@,
            decreases dates.len() - at,
        {
            at += 1;
        }
        assert(rows@.take(i + 1) =~= rows@.take(i as int).push(rows[i as int]));
        if at < dates.len() && dates[at].num_days_from_ce() == date.num_days_from_ce() {
            proof {
                lemma_days_keep(dates@, rows@.take(i as int), rows[i as int], at as int);
            }
        } else {
            proof {
                lemma_days_insert(dates@, rows@.take(i as int), rows[i as int], at as int);
            }
            dates.insert(at, date);
        }
        i += 1;
    }
    assert(rows@.take(i as int) =~= rows@);
    dates
}

/// The downloads of all releases on day `day`.
pub fn sum_of_day(rows: &Vec<TagRow>, day: Date) -> (sum: u128)
    ensures
        sum == day_total(rows@, day@),
{
    let ghost items = day_items(rows@);
    let mut sum: u128 = 0;
    let mut i: usize = 0;
    while i < rows.len()
        invariant
            i <= rows.len(),
            items == day_items(rows@),
            sum == total_for(items.take(i as int), day@),
            sum <= i * u64::MAX,
        decreases rows.len() - i,
    {
        proof {
            assert(items.take(i + 1) =~= items.take(i as int).push(items[i as int]));
            lemma_total_push(items.take(i as int), items[i as int], day@);
        }
        if rows[i].date.num_days_from_ce() == day.num_days_from_ce() {
            sum = sum + rows[i].downloads as u128;
        }
        i += 1;
    }
    assert(items.take(i as int) =~= items);
    sum
}

/// The downloads on day `day` of the releases that are counted under the
/// series `category`, where the versions with a series of their own are
/// those tagged `top`.
pub fn sum_of_cell(rows: &Vec<TagRow>, top: &Vec<String>, category: &str, day: Date) -> (sum: u128)
    ensures
        sum == cell_total(rows@, tag_texts(top@), category@, day@),
{
    let ghost items = cell_items(rows@, tag_texts(top@));
    let mut sum: u128 = 0;
    let mut i: usize = 0;
    while i < rows.len()
        invariant
            i <= rows.len(),
            items == cell_items(rows@, tag_texts(top@)),
            sum == total_for(items.take(i as int), (day@, category@)),
            sum <= i * u64::MAX,
        decreases rows.len() - i,
    {
        proof {
            assert(items.take(i + 1) =~= items.take(i as int).push(items[i as int]));
            lemma_total_push(items.take(i as int), items[i as int], (day@, category@));
        }
        if rows[i].date.num_days_from_ce() == day.num_days_from_ce() {
            let counted = if is_top_tag(rows[i].tag.as_str(), top) {
                str_eq(rows[i].tag.as_str(), category)
            } else {
                str_eq("Other", category)
            };
            if counted {
                sum = sum + rows[i].downloads as u128;
            }
        }
        i += 1;
    }
    assert(items.take(i as int) =~= items);
    sum
}

/// What the chart of release downloads by version shows.
#[derive(Debug)]
pub struct VersionSeries {
    /// The days of the time axis, from the earliest to the latest.
    pub dates: Vec<Date>,
    /// The names of the series: the tags of the versions with a series of
    /// their own, then `Other`.
    pub categories: Vec<String>,
    /// For each series, its downloads on each day of `dates`.
    pub values: Vec<Vec<u128>>,
    /// The largest number of downloads of all releases together on one
    /// day: where the axis of downloads ends.
    pub max_downloads: u128,
}

impl VersionSeries {
    /// Whether this is what the chart shows of `rows` when the versions
    /// tagged `top` have a series of their own.
    pub open spec fn shows(self, rows: Seq<TagRow>, top: Seq<Seq<char>>) -> bool {
        &&& are_days_of(self.dates@, rows)
        &&& tag_texts(self.categories@) == top.push(other_category())
        &&& self.values.len() == self.categories.len()
        &&& forall|c: int|
            0 <= c < self.values.len() ==> (#[trigger] self.values[c]).len() == self.dates.len()
        &&& forall|c: int, d: int|
            0 <= c < self.values.len() && 0 <= d < self.dates.len() ==> #[trigger] self.values[c][d]
                == cell_total(rows, top, self.categories[c]@, self.dates[d]@)
        &&& forall|d: int|
            0 <= d < self.dates.len() ==> day_total(rows, (#[trigger] self.dates[d])@)
                <= self.max_downloads
        &&& exists|d: int|
            0 <= d < self.dates.len() && day_total(rows, (#[trigger] self.dates[d])@)
                == self.max_downloads
    }
}

/// Computes what the chart of release downloads by version shows: for
/// each day that occurs, the downloads of each version in `top` and of all
/// other releases together. Without rows there is nothing to show.
pub fn version_series(rows: &Vec<TagRow>, top: &Vec<String>) -> (series: Option<VersionSeries>)
    ensures
        match series {
            Some(series) => rows.len() > 0 && series.shows(rows@, tag_texts(top@)),
            None => rows.len() == 0,
        },
{
    if rows.len() == 0 {
        return None;
    }
    let dates = chart_dates(rows);
    let categories = chart_categories(top);
    proof {
        assert(has_day(dates@, rows[0].date@));
        assert(tag_texts(categories@).len() == categories.len());
    }
    let mut max_downloads = sum_of_day(rows, dates[0]);
    let mut d: usize = 1;
    while d < dates.len()
        invariant
            1 <= d <= dates.len(),
            forall|k: int| 0 <= k < d ==> day_total(rows@, (#[trigger] dates[k])@) <= max_downloads,
            exists|k: int| 0 <= k < d && day_total(rows@, (#[trigger] dates[k])@) == max_downloads,
        decreases dates.len() - d,
    {
        let total = sum_of_day(rows, dates[d]);
        if total > max_downloads {
            max_downloads = total;
        }
        d += 1;
    }
    let mut values: Vec<Vec<u128>> = Vec::new();
    let mut c: usize = 0;
    while c < categories.len()
        invariant
            c <= categories.len(),
            values.len() == c,
            forall|k: int| 0 <= k < c ==> (#[trigger] values[k]).len() == dates.len(),
            forall|k: int, e: int|
                0 <= k < c && 0 <= e < dates.len() ==> #[trigger] values[k][e] == cell_total(
                    rows@,
                    tag_texts(top@),
                    categories[k]@,
                    dates[e]@,
                ),
        decreases categories.len() - c,
    {
        let mut line: Vec<u128> = Vec::new();
        let mut e: usize = 0;
        while e < dates.len()
            invariant
                e <= dates.len(),
                c < categories.len(),
                line.len() == e,
                forall|k: int|
                    0 <= k < e ==> #[trigger] line[k] == cell_total(
                        rows@,
                        tag_texts(top@),
                        categories[c as int]@,
                        dates[k]@,
                    ),
            decreases dates.len() - e,
        {
            line.push(sum_of_cell(rows, top, categories[c].as_str(), dates[e]));
            e += 1;
        }
        values.push(line);
        c += 1;
    }
    let series = VersionSeries { dates, categories, values, max_downloads };
    proof {
        assert(are_days_of(series.dates@, rows@));
        assert(tag_texts(series.categories@) == tag_texts(top@).push(other_category()));
        assert(series.values.len() == series.categories.len());
        assert forall|c: int| 0 <= c < series.values.len() implies (
        #[trigger] series.values[c]).len() == series.dates.len() by {}
        assert forall|c: int, d: int|
            0 <= c < series.values.len() && 0 <= d < series.dates.len() implies
            #[trigger] series.values[c][d] == cell_total(
                rows@,
                tag_texts(top@),
                series.categories[c]@,
                series.dates[d]@,
            ) by {}
        assert(series.shows(rows@, tag_texts(top@)));
    }
    Some(series)
}

/// The number of colours that the series of a chart go through.
pub const SERIES_COLORS: usize = 6;

/// The position in the palette of the colour of the series at `index`:
/// the series take the colours in turn and begin again after the last.
pub fn series_color(index: usize) -> (color: usize)
    ensures
        color == index % SERIES_COLORS,
        color < SERIES_COLORS,
{
    index % SERIES_COLORS
}

/// The downloads on day `day` of the series `categories`, added up.
pub open spec fn series_sum(
    rows: Seq<TagRow>,
    top: Seq<Seq<char>>,
    categories: Seq<Seq<char>>,
    day: int,
) -> nat
    decreases categories.len(),
{
    if categories.len() == 0 {
        0
    } else {
        series_sum(rows, top, categories.drop_last(), day) + cell_total(
            rows,
            top,
            categories.last(),
            day,
        )
    }
}

/// How often `category` occurs among `categories`.
pub open spec fn occurrences(categories: Seq<Seq<char>>, category: Seq<char>) -> nat
    decreases categories.len(),
{
    if categories.len() == 0 {
        0
    } else {
        occurrences(categories.drop_last(), category) + if categories.last() == category {
            1nat
        } else {
            0nat
        }
    }
}

/// A name that is listed once among names that are all different occurs
/// once.
proof fn lemma_occurs_once(categories: Seq<Seq<char>>, at: int)
    requires
        categories.no_duplicates(),
        0 <= at < categories.len(),
    ensures
        occurrences(categories, categories[at]) == 1,
    decreases categories.len(),
{
    let front = categories.drop_last();
    if at == categories.len() - 1 {
        lemma_occurs_never(front, categories[at]);
    } else {
        assert(categories[at] != categories[categories.len() - 1]);
        lemma_occurs_once(front, at);
    }
}

/// A name that is not listed does not occur.
proof fn lemma_occurs_never(categories: Seq<Seq<char>>, category: Seq<char>)
    requires
        forall|k: int| 0 <= k < categories.len() ==> #[trigger] categories[k] != category,
    ensures
        occurrences(categories, category) == 0,
    decreases categories.len(),
{
    if categories.len() > 0 {
        assert(categories[categories.len() - 1] != category);
        lemma_occurs_never(categories.drop_last(), category);
    }
}

/// One more row adds its downloads to the series of its day as often as
/// its series is listed.
proof fn lemma_series_sum_push(
    rows: Seq<TagRow>,
    row: TagRow,
    top: Seq<Seq<char>>,
    categories: Seq<Seq<char>>,
    day: int,
)
    ensures
        series_sum(rows.push(row), top, categories, day) == series_sum(rows, top, categories, day)
            + if row.date@ == day {
            occurrences(categories, category_text(row.tag@, top)) * row.downloads
        } else {
            0
        },
    decreases categories.len(),
{
    let category = category_text(row.tag@, top);
    let amount = row.downloads as nat;
    if categories.len() == 0 {
        assert(occurrences(categories, category) * amount == 0) by (nonlinear_arith)
            requires
                occurrences(categories, category) == 0,
        ;
    } else {
        let item = ((row.date@, category), amount);
        let before = occurrences(categories.drop_last(), category);
        lemma_series_sum_push(rows, row, top, categories.drop_last(), day);
        assert(cell_items(rows.push(row), top) =~= cell_items(rows, top).push(item));
        lemma_total_push(cell_items(rows, top), item, (day, categories.last()));
        assert((before + 1) * amount == before * amount + amount) by (nonlinear_arith);
        if categories.last() == category {
            assert(occurrences(categories, category) == before + 1);
        } else {
            assert(occurrences(categories, category) == before);
        }
    }
}

/// Where the versions with a series of their own have tags that are all
/// different and none of them is `Other`, every row is counted under one
/// series: the series of a day add up to the downloads of all releases on
/// that day.
pub proof fn lemma_series_add_up(rows: Seq<TagRow>, top: Seq<Seq<char>>, day: int)
    requires
        top.no_duplicates(),
        !top.contains(other_category()),
    ensures
        series_sum(rows, top, top.push(other_category()), day) == day_total(rows, day),
    decreases rows.len(),
{
    let categories = top.push(other_category());
    if rows.len() == 0 {
        assert(rows =~= Seq::<TagRow>::empty());
        lemma_series_of_no_rows(top, categories, day);
        assert(day_items(rows) =~= Seq::empty());
    } else {
        let front = rows.drop_last();
        let row = rows.last();
        lemma_series_add_up(front, top, day);
        assert(rows =~= front.push(row));
        lemma_series_sum_push(front, row, top, categories, day);
        let item = (row.date@, row.downloads as nat);
        assert(day_items(rows) =~= day_items(front).push(item));
        lemma_total_push(day_items(front), item, day);
        let category = category_text(row.tag@, top);
        let at = if top.contains(row.tag@) {
            choose|k: int| 0 <= k < top.len() && top[k] == row.tag@
        } else {
            top.len() as int
        };
        assert(categories[at] == category);
        assert forall|a: int, b: int| 0 <= a < b < categories.len() implies categories[a]
            != categories[b] by {
            if b < top.len() {
                assert(top[a] != top[b]);
            } else {
                assert(top[a] == categories[a]);
                assert(top.contains(top[a]));
            }
        }
        lemma_occurs_once(categories, at);
        assert(occurrences(categories, category) * row.downloads == row.downloads)
            by (nonlinear_arith)
            requires
                occurrences(categories, category) == 1,
        ;
    }
}

/// Without rows every series is empty.
proof fn lemma_series_of_no_rows(top: Seq<Seq<char>>, categories: Seq<Seq<char>>, day: int)
    ensures
        series_sum(Seq::<TagRow>::empty(), top, categories, day) == 0,
    decreases categories.len(),
{
    if categories.len() > 0 {
        lemma_series_of_no_rows(top, categories.drop_last(), day);
        assert(cell_items(Seq::<TagRow>::empty(), top) =~= Seq::empty());
    }
}

} // verus!
