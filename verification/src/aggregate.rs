//! Weekly aggregation of download statistics.
//!
//! Raw observations are bucketed into calendar weeks (Monday to Sunday) and
//! summed per week. Registry downloads are daily counts and are summed per
//! week and package. Release downloads are cumulative counts per asset: the
//! snapshots are put in the order of their days, the growth between two
//! consecutive snapshots of an asset is attributed to the week of the later
//! one, and a counter that went down counts as no growth.

use crate::date::{parse_date, week_start_day, Date, DateError};
use crate::totals::{
    grouped, keys_in_order, lemma_keys_contains, lemma_keys_distinct, lemma_keys_push,
    lemma_total_prefix, lemma_total_push, lemma_total_without_key, total_for,
};
use crate::weekly::{
    find_weekly_stat, releases_identifier, upsert_all, weekly_entries, Source, WeeklyEntry,
    WeeklyKey, WeeklyStat, WeeklyTable,
};
use vstd::prelude::*;

verus! {

/// Why an aggregation produced nothing.
#[derive(Debug)]
pub enum AggregateError {
    /// A raw row holds a date that cannot be read. `value` is the text of
    /// the first such row.
    InvalidDate { value: String },
    /// The downloads of some week add up to more than a `u64` holds.
    TotalOverflow,
}

impl AggregateError {
    /// A description of the failure.
    pub open spec fn message_text(self) -> Seq<char> {
        match self {
            AggregateError::InvalidDate { value } => DateError::message_text(value@),
            AggregateError::TotalOverflow => "weekly download total is too large"@,
        }
    }

    /// A description of the failure; a date that cannot be read is quoted.
    pub fn message(&self) -> (text: String)
        ensures
            text@ == self.message_text(),
    {
        match self {
            AggregateError::InvalidDate { value } => {
                let mut text = String::from_str("failed to parse date '");
                text.append(value.as_str());
                text.append("'");
                text
            },
            AggregateError::TotalOverflow => String::from_str("weekly download total is too large"),
        }
    }
}

/// The weekly totals of keyed amounts: one entry for each key that occurs,
/// in the order of first occurrence, with the sum of its amounts.
pub open spec fn weekly_of(items: Seq<(WeeklyKey, nat)>) -> Seq<WeeklyEntry> {
    let groups = grouped(items);
    Seq::new(
        groups.len(),
        |j: int|
            WeeklyEntry {
                week: groups[j].0.week,
                source: groups[j].0.source,
                identifier: groups[j].0.identifier,
                downloads: groups[j].1,
            },
    )
}

/// Whether some total of `items` is more than a `u64` holds.
pub open spec fn some_total_overflows(items: Seq<(WeeklyKey, nat)>) -> bool {
    exists|key: WeeklyKey| total_for(items, key) > u64::MAX
}

/// Adds `amount` to the total of a week in a list that holds the weekly
/// totals of `items`. Returns false, and leaves the list as it was, where
/// the new total is more than a `u64` holds.
fn add_weekly_amount(
    stats: &mut Vec<WeeklyStat>,
    week: Date,
    source: Source,
    identifier: &str,
    amount: u64,
    Ghost(items): Ghost<Seq<(WeeklyKey, nat)>>,
) -> (added: bool)
    requires
        weekly_entries(old(stats)@) == weekly_of(items),
    ensures
        added ==> weekly_entries(final(stats)@) == weekly_of(
            items.push(
                (WeeklyKey { week: week@, source, identifier: identifier@ }, amount as nat),
            ),
        ),
        !added ==> final(stats)@ == old(stats)@ && total_for(
            items.push(
                (WeeklyKey { week: week@, source, identifier: identifier@ }, amount as nat),
            ),
            WeeklyKey { week: week@, source, identifier: identifier@ },
        ) > u64::MAX,
{
    let ghost key = WeeklyKey { week: week@, source, identifier: identifier@ };
    let ghost item = (key, amount as nat);
    let ghost keys = keys_in_order(items);
    proof {
        lemma_keys_push(items, item);
        lemma_keys_distinct(items);
        lemma_keys_contains(items, key);
        assert forall|other: WeeklyKey|
            total_for(items.push(item), other) == total_for(items, other) + if other == key {
                amount as nat
            } else {
                0
            } by {
            lemma_total_push(items, item, other);
        }
        lemma_weekly_of_entries(stats@, items);
    }
    match find_weekly_stat(stats, week, source, identifier) {
        Some(j) => {
            assert(stats[j as int]@.key() == key);
            match stats[j].downloads.checked_add(amount) {
                Some(sum) => {
                    let updated = WeeklyStat {
                        week_start: stats[j].week_start,
                        source,
                        identifier: stats[j].identifier.clone(),
                        downloads: sum,
                    };
                    stats.set(j, updated);
                    assert(weekly_entries(stats@) =~= weekly_of(items.push(item)));
                    true
                },
                None => false,
            }
        },
        None => {
            proof {
                if keys.contains(key) {
                    let j = choose|j: int| 0 <= j < keys.len() && keys[j] == key;
                    assert(stats[j]@.key() == key);
                }
                lemma_total_without_key(items, key);
            }
            stats.push(
                WeeklyStat {
                    week_start: week,
                    source,
                    identifier: String::from_str(identifier),
                    downloads: amount,
                },
            );
            assert(weekly_entries(stats@) =~= weekly_of(items.push(item)));
            true
        },
    }
}

/// A list that holds the weekly totals of `items` holds, entry by entry, the
/// keys of `items` and their totals.
proof fn lemma_weekly_of_entries(stats: Seq<WeeklyStat>, items: Seq<(WeeklyKey, nat)>)
    requires
        weekly_entries(stats) == weekly_of(items),
    ensures
        stats.len() == keys_in_order(items).len(),
        forall|j: int|
            0 <= j < stats.len() ==> (#[trigger] stats[j])@.key() == keys_in_order(items)[j]
                && stats[j].downloads == total_for(items, keys_in_order(items)[j]),
{
    assert(weekly_entries(stats).len() == stats.len());
    assert(weekly_of(items).len() == keys_in_order(items).len());
    assert forall|j: int| 0 <= j < stats.len() implies (#[trigger] stats[j])@.key()
        == keys_in_order(items)[j] && stats[j].downloads == total_for(
        items,
        keys_in_order(items)[j],
    ) by {
        assert(weekly_entries(stats)[j] == stats[j]@);
        assert(weekly_of(items)[j].downloads == total_for(items, keys_in_order(items)[j]));
    }
}

/// A finished list of weekly totals holds no total that is too large.
proof fn lemma_totals_fit(stats: Seq<WeeklyStat>, items: Seq<(WeeklyKey, nat)>)
    requires
        weekly_entries(stats) == weekly_of(items),
    ensures
        !some_total_overflows(items),
{
    let keys = keys_in_order(items);
    lemma_weekly_of_entries(stats, items);
    assert forall|key: WeeklyKey| total_for(items, key) <= u64::MAX by {
        lemma_keys_contains(items, key);
        if keys.contains(key) {
            let j = choose|j: int| 0 <= j < keys.len() && keys[j] == key;
            assert(stats[j].downloads == total_for(items, keys[j]));
        } else {
            lemma_total_without_key(items, key);
        }
    }
}

/// One day's downloads of one package, as stored.
#[derive(Debug)]
pub struct CratesDownloadRow {
    /// The day, written `YYYY-MM-DD`.
    pub date: String,
    /// The package.
    pub crate_name: String,
    /// The downloads counted on that day.
    pub downloads: u64,
}

/// One day's downloads of one package.
#[derive(Debug)]
pub struct DailyDownloads {
    /// The day.
    pub date: Date,
    /// The package.
    pub crate_name: String,
    /// The downloads counted on that day.
    pub downloads: u64,
}

/// One day's downloads of one package as contracts speak of them.
pub struct DayCount {
    /// Day number of the day.
    pub day: int,
    /// The package.
    pub name: Seq<char>,
    /// The downloads counted on that day.
    pub downloads: nat,
}

impl View for DailyDownloads {
    type V = DayCount;

    open spec fn view(&self) -> DayCount {
        DayCount { day: self.date@, name: self.crate_name@, downloads: self.downloads as nat }
    }
}

/// The daily counts that a list of typed rows stands for.
pub open spec fn day_counts(days: Seq<DailyDownloads>) -> Seq<DayCount> {
    Seq::new(days.len(), |i: int| days[i]@)
}

impl DayCount {
    /// The week and package under which this count is summed.
    pub open spec fn key(self) -> WeeklyKey {
        WeeklyKey { week: week_start_day(self.day), source: Source::Crates, identifier: self.name }
    }
}

/// Each daily count as an amount under its week and package.
pub open spec fn crates_items(days: Seq<DayCount>) -> Seq<(WeeklyKey, nat)> {
    Seq::new(days.len(), |i: int| (days[i].key(), days[i].downloads))
}

/// The downloads of package `name` in the week that starts on day `week`.
pub open spec fn crates_week_total(days: Seq<DayCount>, week: int, name: Seq<char>) -> nat {
    total_for(crates_items(days), WeeklyKey { week, source: Source::Crates, identifier: name })
}

/// The weekly totals of `days`: one entry for each week and package that
/// occurs, in the order of first occurrence, with the sum of its downloads.
pub open spec fn crates_weekly(days: Seq<DayCount>) -> Seq<WeeklyEntry> {
    weekly_of(crates_items(days))
}

/// Whether some weekly total of `days` is more than a `u64` holds.
pub open spec fn crates_overflow(days: Seq<DayCount>) -> bool {
    some_total_overflows(crates_items(days))
}

/// Sums daily downloads into weekly totals per package. Fails exactly
/// where a weekly total is more than a `u64` holds.
pub fn weekly_crates_totals(days: &Vec<DailyDownloads>) -> (r: Result<
    Vec<WeeklyStat>,
    AggregateError,
>)
    ensures
        match r {
            Ok(stats) => !crates_overflow(day_counts(days@)) && weekly_entries(stats@)
                == crates_weekly(day_counts(days@)),
            Err(e) => e is TotalOverflow && crates_overflow(day_counts(days@)),
        },
{
    let ghost items = crates_items(day_counts(days@));
    let mut stats: Vec<WeeklyStat> = Vec::new();
    assert(weekly_entries(stats@) =~= weekly_of(items.take(0)));
    let mut i: usize = 0;
    while i < days.len()
        invariant
            i <= days.len(),
            items == crates_items(day_counts(days@)),
            weekly_entries(stats@) == weekly_of(items.take(i as int)),
        decreases days.len() - i,
    {
        let week = days[i].date.week_start();
        assert(items.take(i + 1) =~= items.take(i as int).push(items[i as int]));
        let added = add_weekly_amount(
            &mut stats,
            week,
            Source::Crates,
            days[i].crate_name.as_str(),
            days[i].downloads,
            Ghost(items.take(i as int)),
        );
        if !added {
            proof {
                lemma_total_prefix(items, i + 1, items[i as int].0);
            }
            return Err(AggregateError::TotalOverflow);
        }
        i += 1;
    }
    proof {
        assert(items.take(i as int) =~= items);
        lemma_totals_fit(stats@, items);
    }
    Ok(stats)
}

/// Whether every text of `dates` holds a date.
pub open spec fn all_dates_valid(dates: Seq<Seq<char>>) -> bool {
    forall|i: int| 0 <= i < dates.len() ==> (#[trigger] Date::parsed(dates[i])) is Some
}

/// Whether `at` is the position of the first text of `dates` that holds no
/// date.
pub open spec fn is_first_invalid_date(dates: Seq<Seq<char>>, at: int) -> bool {
    &&& 0 <= at < dates.len()
    &&& Date::parsed(dates[at]) is None
    &&& forall|i: int| 0 <= i < at ==> (#[trigger] Date::parsed(dates[i])) is Some
}

/// The day number that `text` holds; arbitrary where it holds no date.
pub open spec fn parsed_day(text: Seq<char>) -> int {
    Date::parsed(text).unwrap()
}

impl CratesDownloadRow {
    /// This row with its date read.
    pub open spec fn count(self) -> DayCount {
        DayCount {
            day: parsed_day(self.date@),
            name: self.crate_name@,
            downloads: self.downloads as nat,
        }
    }
}

/// The date texts of stored rows.
pub open spec fn crates_row_dates(rows: Seq<CratesDownloadRow>) -> Seq<Seq<char>> {
    Seq::new(rows.len(), |i: int| rows[i].date@)
}

/// The daily counts that stored rows stand for once their dates are read.
pub open spec fn crates_row_counts(rows: Seq<CratesDownloadRow>) -> Seq<DayCount> {
    Seq::new(rows.len(), |i: int| rows[i].count())
}

/// Reads the dates of stored rows. Fails at the first row whose date
/// cannot be read, quoting its text.
pub fn read_crates_rows(rows: &Vec<CratesDownloadRow>) -> (r: Result<
    Vec<DailyDownloads>,
    AggregateError,
>)
    ensures
        match r {
            Ok(days) => all_dates_valid(crates_row_dates(rows@)) && day_counts(days@)
                == crates_row_counts(rows@),
            Err(AggregateError::InvalidDate { value }) => exists|at: int|
                is_first_invalid_date(crates_row_dates(rows@), at) && value@
                    == #[trigger] rows[at].date@,
            Err(AggregateError::TotalOverflow) => false,
        },
{
    let ghost dates = crates_row_dates(rows@);
    let mut days: Vec<DailyDownloads> = Vec::new();
    let mut i: usize = 0;
    while i < rows.len()
        invariant
            i <= rows.len(),
            dates == crates_row_dates(rows@),
            days.len() == i,
            forall|k: int| 0 <= k < i ==> (#[trigger] Date::parsed(dates[k])) is Some,
            forall|k: int| 0 <= k < i ==> (#[trigger] days[k])@ == rows[k].count(),
        decreases rows.len() - i,
    {
        match parse_date(rows[i].date.as_str()) {
            Ok(date) => {
                assert(Date::parsed(dates[i as int]) == Some(date@));
                days.push(
                    DailyDownloads {
                        date,
                        crate_name: rows[i].crate_name.clone(),
                        downloads: rows[i].downloads,
                    },
                );
            },
            Err(e) => {
                assert(is_first_invalid_date(dates, i as int));
                return Err(AggregateError::InvalidDate { value: e.value });
            },
        }
        i += 1;
    }
    assert(day_counts(days@) =~= crates_row_counts(rows@));
    Ok(days)
}

/// Whether the aggregation of stored registry rows succeeds: every date
/// can be read and no weekly total is more than a `u64` holds.
pub open spec fn crates_rows_aggregate(rows: Seq<CratesDownloadRow>) -> bool {
    all_dates_valid(crates_row_dates(rows)) && !crates_overflow(crates_row_counts(rows))
}

/// Whether the aggregation of stored registry rows fails with `error`:
/// with the text of the first date that cannot be read, or, where all can
/// be read, because a weekly total is more than a `u64` holds.
pub open spec fn crates_rows_fail_with(rows: Seq<CratesDownloadRow>, error: AggregateError) -> bool {
    match error {
        AggregateError::InvalidDate { value } => exists|at: int|
            is_first_invalid_date(crates_row_dates(rows), at) && value@ == #[trigger] rows[at].date@,
        AggregateError::TotalOverflow => all_dates_valid(crates_row_dates(rows))
            && crates_overflow(crates_row_counts(rows)),
    }
}

/// Computes the weekly totals of registry downloads from stored rows. A
/// date that cannot be read aborts the aggregation with the text of the
/// first such date; otherwise the result holds one total for each week and
/// package, and fails only where a total is more than a `u64` holds.
pub fn compute_crates_weekly(rows: &Vec<CratesDownloadRow>) -> (r: Result<
    Vec<WeeklyStat>,
    AggregateError,
>)
    ensures
        match r {
            Ok(stats) => crates_rows_aggregate(rows@) && weekly_entries(stats@) == crates_weekly(
                crates_row_counts(rows@),
            ),
            Err(e) => crates_rows_fail_with(rows@, e),
        },
{
    match read_crates_rows(rows) {
        Ok(days) => weekly_crates_totals(&days),
        Err(e) => Err(e),
    }
}

/// One snapshot of the cumulative download count of a release asset, as
/// stored.
#[derive(Debug)]
pub struct GithubSnapshotRow {
    /// The day of the snapshot, written `YYYY-MM-DD`.
    pub date: String,
    /// The release that the asset belongs to.
    pub release_tag: String,
    /// The asset.
    pub asset_name: String,
    /// The downloads of the asset up to that day.
    pub download_count: u64,
}

/// One snapshot of the cumulative download count of a release asset.
#[derive(Debug)]
pub struct Snapshot {
    /// The day of the snapshot.
    pub date: Date,
    /// The release that the asset belongs to.
    pub release_tag: String,
    /// The asset.
    pub asset_name: String,
    /// The downloads of the asset up to that day.
    pub download_count: u64,
}

/// A snapshot as contracts speak of it.
pub struct AssetCount {
    /// Day number of the day of the snapshot.
    pub day: int,
    /// The release that the asset belongs to.
    pub release_tag: Seq<char>,
    /// The asset.
    pub asset_name: Seq<char>,
    /// The downloads of the asset up to that day.
    pub count: nat,
}

impl View for Snapshot {
    type V = AssetCount;

    open spec fn view(&self) -> AssetCount {
        AssetCount {
            day: self.date@,
            release_tag: self.release_tag@,
            asset_name: self.asset_name@,
            count: self.download_count as nat,
        }
    }
}

/// The snapshots that a list of typed rows stands for.
pub open spec fn asset_counts(snapshots: Seq<Snapshot>) -> Seq<AssetCount> {
    Seq::new(snapshots.len(), |i: int| snapshots[i]@)
}

impl AssetCount {
    /// Whether this snapshot is of the asset `asset_name` of `release_tag`.
    pub open spec fn is_of(self, release_tag: Seq<char>, asset_name: Seq<char>) -> bool {
        self.release_tag == release_tag && self.asset_name == asset_name
    }

    /// Whether this snapshot and `other` are of the same asset.
    pub open spec fn same_asset(self, other: AssetCount) -> bool {
        other.is_of(self.release_tag, self.asset_name)
    }
}

/// The growth of a cumulative counter from `previous` to `current`; a
/// counter that went down has not grown.
pub open spec fn snapshot_delta(previous: nat, current: nat) -> nat {
    if current > previous {
        (current - previous) as nat
    } else {
        0
    }
}

/// The growth of a cumulative counter from `previous` to `current`: their
/// difference, or 0 where the counter went down.
pub fn download_delta(previous: u64, current: u64) -> (delta: u64)
    ensures
        delta == snapshot_delta(previous as nat, current as nat),
{
    if current > previous {
        current - previous
    } else {
        0
    }
}

/// The snapshots of one asset among `snapshots`, in their order.
pub open spec fn asset_history(
    snapshots: Seq<AssetCount>,
    release_tag: Seq<char>,
    asset_name: Seq<char>,
) -> Seq<AssetCount>
    decreases snapshots.len(),
{
    if snapshots.len() == 0 {
        Seq::empty()
    } else {
        let before = asset_history(snapshots.drop_last(), release_tag, asset_name);
        if snapshots.last().is_of(release_tag, asset_name) {
            before.push(snapshots.last())
        } else {
            before
        }
    }
}

/// The position at or after `from` of the first snapshot of `sorted` whose
/// day is later than `day`, or the length of `sorted` where there is none.
pub open spec fn later_day_position(sorted: Seq<AssetCount>, day: int, from: int) -> int
    decreases sorted.len() - from,
{
    if from < 0 || from >= sorted.len() {
        sorted.len() as int
    } else if sorted[from].day > day {
        from
    } else {
        later_day_position(sorted, day, from + 1)
    }
}

/// The snapshots of `snapshots` in the order of their days: each in turn is
/// placed behind the snapshots of its day and of earlier days, so that
/// snapshots of one day keep the order in which they were given.
pub open spec fn in_day_order(snapshots: Seq<AssetCount>) -> Seq<AssetCount>
    decreases snapshots.len(),
{
    if snapshots.len() == 0 {
        Seq::empty()
    } else {
        let sorted = in_day_order(snapshots.drop_last());
        sorted.insert(later_day_position(sorted, snapshots.last().day, 0), snapshots.last())
    }
}

/// Whether the days of `snapshots` never go back.
pub open spec fn days_ascend(snapshots: Seq<AssetCount>) -> bool {
    forall|i: int, j: int|
        0 <= i < j < snapshots.len() ==> (#[trigger] snapshots[i]).day <= (#[trigger] snapshots[j]).day
}

/// Where the first later day is found: behind snapshots that are not
/// later, and at a snapshot that is.
pub proof fn lemma_later_day_position(sorted: Seq<AssetCount>, day: int, from: int)
    requires
        0 <= from <= sorted.len(),
    ensures
        from <= later_day_position(sorted, day, from) <= sorted.len(),
        forall|k: int|
            from <= k < later_day_position(sorted, day, from) ==> (#[trigger] sorted[k]).day <= day,
        later_day_position(sorted, day, from) < sorted.len() ==> sorted[later_day_position(
            sorted,
            day,
            from,
        )].day > day,
    decreases sorted.len() - from,
{
    if from < sorted.len() && sorted[from].day <= day {
        lemma_later_day_position(sorted, day, from + 1);
    }
}

/// Putting snapshots in the order of their days rearranges them and leaves
/// no day before an earlier one.
pub proof fn lemma_in_day_order(snapshots: Seq<AssetCount>)
    ensures
        in_day_order(snapshots).len() == snapshots.len(),
        in_day_order(snapshots).to_multiset() == snapshots.to_multiset(),
        days_ascend(in_day_order(snapshots)),
    decreases snapshots.len(),
{
    broadcast use vstd::seq_lib::group_to_multiset_ensures;

    if snapshots.len() > 0 {
        let front = snapshots.drop_last();
        let last = snapshots.last();
        let sorted = in_day_order(front);
        let at = later_day_position(sorted, last.day, 0);
        lemma_in_day_order(front);
        lemma_later_day_position(sorted, last.day, 0);
        vstd::seq_lib::to_multiset_insert(sorted, at, last);
        assert(snapshots =~= front.push(last));
        let after = sorted.insert(at, last);
        assert forall|i: int, j: int| 0 <= i < j < after.len() implies (#[trigger] after[i]).day <= (
        #[trigger] after[j]).day by {
            let i0 = if i < at { i } else { i - 1 };
            let j0 = if j < at { j } else { j - 1 };
            if i != at && j != at {
                assert(sorted[i0].day <= sorted[j0].day);
            } else if i == at {
                if j0 > at {
                    assert(sorted[at].day <= sorted[j0].day);
                }
            } else {
                assert(sorted[i0].day <= last.day);
            }
        }
    }
}

/// The week under which release downloads of day `day` are summed.
pub open spec fn releases_key(day: int) -> WeeklyKey {
    WeeklyKey {
        week: week_start_day(day),
        source: Source::Github,
        identifier: releases_identifier(),
    }
}

/// What `snapshot` adds to the weekly totals when it follows the snapshots
/// `earlier`: nothing if it is the first of its asset, else the growth since
/// the latest earlier snapshot of its asset, under the week of its own day.
pub open spec fn snapshot_item(earlier: Seq<AssetCount>, snapshot: AssetCount) -> Option<
    (WeeklyKey, nat),
> {
    let history = asset_history(earlier, snapshot.release_tag, snapshot.asset_name);
    if history.len() > 0 {
        Some((releases_key(snapshot.day), snapshot_delta(history.last().count, snapshot.count)))
    } else {
        None
    }
}

/// What snapshots that are taken one after the other add: each but the
/// first of its asset adds its growth since the snapshot of its asset
/// before it, under the week of its own day. The weekly totals take the
/// snapshots in the order of their days (see [`github_weekly`]).
pub open spec fn github_items(snapshots: Seq<AssetCount>) -> Seq<(WeeklyKey, nat)>
    decreases snapshots.len(),
{
    if snapshots.len() == 0 {
        Seq::empty()
    } else {
        let before = github_items(snapshots.drop_last());
        match snapshot_item(snapshots.drop_last(), snapshots.last()) {
            Some(item) => before.push(item),
            None => before,
        }
    }
}

/// The release downloads of the week that contains day `week`: the growth
/// between snapshots of an asset that follow one another by day, summed
/// over the later snapshots that fall in that week.
pub open spec fn github_week_total(snapshots: Seq<AssetCount>, week: int) -> nat {
    total_for(github_items(in_day_order(snapshots)), releases_key(week))
}

/// The weekly totals of release downloads, however the snapshots are
/// given: they are put in the order of their days, and each that follows
/// an earlier one of its asset adds its growth to the week of its day. One
/// entry for each such week, in the order of first occurrence.
pub open spec fn github_weekly(snapshots: Seq<AssetCount>) -> Seq<WeeklyEntry> {
    weekly_of(github_items(in_day_order(snapshots)))
}

/// Whether some weekly total of `snapshots` is more than a `u64` holds.
pub open spec fn github_overflow(snapshots: Seq<AssetCount>) -> bool {
    some_total_overflows(github_items(in_day_order(snapshots)))
}

/// An asset has a history exactly if one of the snapshots is of it, and its
/// history consists of snapshots of it.
pub proof fn lemma_history_members(
    snapshots: Seq<AssetCount>,
    release_tag: Seq<char>,
    asset_name: Seq<char>,
)
    ensures
        asset_history(snapshots, release_tag, asset_name).len() > 0 <==> exists|i: int|
            0 <= i < snapshots.len() && (#[trigger] snapshots[i]).is_of(release_tag, asset_name),
        forall|j: int|
            0 <= j < asset_history(snapshots, release_tag, asset_name).len() ==> (
            #[trigger] asset_history(snapshots, release_tag, asset_name)[j]).is_of(
                release_tag,
                asset_name,
            ),
    decreases snapshots.len(),
{
    if snapshots.len() > 0 {
        let front = snapshots.drop_last();
        lemma_history_members(front, release_tag, asset_name);
        if asset_history(front, release_tag, asset_name).len() > 0 {
            let i = choose|i: int|
                0 <= i < front.len() && (#[trigger] front[i]).is_of(release_tag, asset_name);
            assert(snapshots[i].is_of(release_tag, asset_name));
        }
        if exists|i: int|
            0 <= i < snapshots.len() && (#[trigger] snapshots[i]).is_of(release_tag, asset_name) {
            let i = choose|i: int|
                0 <= i < snapshots.len() && (#[trigger] snapshots[i]).is_of(
                    release_tag,
                    asset_name,
                );
            if i < snapshots.len() - 1 {
                assert(front[i].is_of(release_tag, asset_name));
            }
        }
    }
}

/// The totals over the first `n` snapshots are at most the totals over all
/// of them.
pub proof fn lemma_github_total_prefix(snapshots: Seq<AssetCount>, n: int, key: WeeklyKey)
    requires
        0 <= n <= snapshots.len(),
    ensures
        total_for(github_items(snapshots.take(n)), key) <= total_for(github_items(snapshots), key),
    decreases snapshots.len() - n,
{
    if n < snapshots.len() {
        lemma_github_total_prefix(snapshots, n + 1, key);
        let longer = snapshots.take(n + 1);
        assert(longer.drop_last() =~= snapshots.take(n));
        match snapshot_item(snapshots.take(n), longer.last()) {
            Some(item) => {
                lemma_total_push(github_items(snapshots.take(n)), item, key);
            },
            None => {},
        }
    } else {
        assert(snapshots.take(n) =~= snapshots);
    }
}

/// The position in `latest` of the latest snapshot of the asset of
/// `snapshots[at]`, if `latest` holds one.
fn find_latest(snapshots: &Vec<Snapshot>, latest: &Vec<usize>, at: usize) -> (found: Option<usize>)
    requires
        at < snapshots.len(),
        forall|s: int| 0 <= s < latest.len() ==> #[trigger] latest[s] < snapshots.len(),
    ensures
        match found {
            Some(s) => s < latest.len() && snapshots[latest[s as int] as int]@.same_asset(
                snapshots[at as int]@,
            ),
            None => forall|s: int|
                0 <= s < latest.len() ==> !snapshots[#[trigger] latest[s] as int]@.same_asset(
                    snapshots[at as int]@,
                ),
        },
{
    let mut s: usize = 0;
    while s < latest.len()
        invariant
            s <= latest.len(),
            at < snapshots.len(),
            forall|t: int| 0 <= t < latest.len() ==> #[trigger] latest[t] < snapshots.len(),
            forall|t: int|
                0 <= t < s ==> !snapshots[#[trigger] latest[t] as int]@.same_asset(
                    snapshots[at as int]@,
                ),
        decreases latest.len() - s,
    {
        let p = latest[s];
        if snapshots[p].release_tag == snapshots[at].release_tag && snapshots[p].asset_name
            == snapshots[at].asset_name {
            return Some(s);
        }
        s += 1;
    }
    None
}

/// The history of an asset over one more snapshot: the new snapshot is
/// appended where it is of that asset.
pub proof fn lemma_history_step(
    snapshots: Seq<AssetCount>,
    n: int,
    release_tag: Seq<char>,
    asset_name: Seq<char>,
)
    requires
        0 <= n < snapshots.len(),
    ensures
        asset_history(snapshots.take(n + 1), release_tag, asset_name) == if snapshots[n].is_of(
            release_tag,
            asset_name,
        ) {
            asset_history(snapshots.take(n), release_tag, asset_name).push(snapshots[n])
        } else {
            asset_history(snapshots.take(n), release_tag, asset_name)
        },
{
    assert(snapshots.take(n + 1).drop_last() =~= snapshots.take(n));
}

/// The items of one more snapshot: its item, if it has one, is appended.
pub proof fn lemma_github_items_step(snapshots: Seq<AssetCount>, n: int)
    requires
        0 <= n < snapshots.len(),
    ensures
        github_items(snapshots.take(n + 1)) == match snapshot_item(
            snapshots.take(n),
            snapshots[n],
        ) {
            Some(item) => github_items(snapshots.take(n)).push(item),
            None => github_items(snapshots.take(n)),
        },
{
    assert(snapshots.take(n + 1).drop_last() =~= snapshots.take(n));
}

/// Whether `latest` holds, for each asset among the first `n` snapshots and
/// for no other, the position of its latest snapshot among them.
spec fn tracks_latest(counts: Seq<AssetCount>, latest: Seq<usize>, n: int) -> bool {
    &&& 0 <= n <= counts.len()
    &&& forall|s: int| 0 <= s < latest.len() ==> 0 <= #[trigger] latest[s] < n
    &&& forall|s: int|
        0 <= s < latest.len() ==> is_latest_of_asset(counts, n, #[trigger] latest[s] as int)
    &&& forall|s: int, t: int|
        0 <= s < t < latest.len() ==> !counts[#[trigger] latest[s] as int].same_asset(
            counts[#[trigger] latest[t] as int],
        )
    &&& forall|k: int| 0 <= k < n ==> is_tracked(counts, latest, #[trigger] counts[k])
}

/// Whether the snapshot at `at` is the latest of its asset among the first
/// `n` snapshots.
spec fn is_latest_of_asset(counts: Seq<AssetCount>, n: int, at: int) -> bool {
    let history = asset_history(counts.take(n), counts[at].release_tag, counts[at].asset_name);
    history.len() > 0 && history.last() == counts[at]
}

/// Whether `latest` holds the position of a snapshot of the asset of
/// `snapshot`.
spec fn is_tracked(counts: Seq<AssetCount>, latest: Seq<usize>, snapshot: AssetCount) -> bool {
    exists|s: int| 0 <= s < latest.len() && counts[#[trigger] latest[s] as int].same_asset(snapshot)
}

/// Tracking goes on when the position of a snapshot replaces that of the
/// earlier snapshot of its asset.
proof fn lemma_tracks_replace(counts: Seq<AssetCount>, latest: Seq<usize>, n: int, s: int)
    requires
        tracks_latest(counts, latest, n),
        n < counts.len(),
        n <= usize::MAX,
        0 <= s < latest.len(),
        counts[latest[s] as int].same_asset(counts[n]),
    ensures
        tracks_latest(counts, latest.update(s, n as usize), n + 1),
{
    let after = latest.update(s, n as usize);
    let current = counts[n];
    assert forall|t: int| 0 <= t < after.len() implies is_latest_of_asset(
        counts,
        n + 1,
        #[trigger] after[t] as int,
    ) by {
        let seen = counts[after[t] as int];
        lemma_history_step(counts, n, seen.release_tag, seen.asset_name);
        if t != s {
            assert(is_latest_of_asset(counts, n, latest[t] as int));
            if t < s {
                assert(!counts[latest[t] as int].same_asset(counts[latest[s] as int]));
            } else {
                assert(!counts[latest[s] as int].same_asset(counts[latest[t] as int]));
            }
        }
    }
    assert forall|t: int, u: int| 0 <= t < u < after.len() implies !counts[#[trigger] after[t]
        as int].same_asset(counts[#[trigger] after[u] as int]) by {
        assert(!counts[latest[t] as int].same_asset(counts[latest[u] as int]));
    }
    assert forall|k: int| 0 <= k < n + 1 implies is_tracked(counts, after, #[trigger] counts[k]) by {
        if k < n {
            assert(is_tracked(counts, latest, counts[k]));
            let t = choose|t: int|
                0 <= t < latest.len() && counts[#[trigger] latest[t] as int].same_asset(counts[k]);
            assert(counts[after[t] as int].same_asset(counts[k]));
        } else {
            assert(counts[after[s] as int].same_asset(counts[k]));
        }
    }
}

/// Tracking goes on when the position of the first snapshot of an asset is
/// appended.
proof fn lemma_tracks_append(counts: Seq<AssetCount>, latest: Seq<usize>, n: int)
    requires
        tracks_latest(counts, latest, n),
        n < counts.len(),
        n <= usize::MAX,
        !is_tracked(counts, latest, counts[n]),
    ensures
        tracks_latest(counts, latest.push(n as usize), n + 1),
        asset_history(counts.take(n), counts[n].release_tag, counts[n].asset_name).len() == 0,
{
    let after = latest.push(n as usize);
    let current = counts[n];
    let earlier = counts.take(n);
    lemma_history_members(earlier, current.release_tag, current.asset_name);
    if asset_history(earlier, current.release_tag, current.asset_name).len() > 0 {
        let k = choose|k: int|
            0 <= k < earlier.len() && (#[trigger] earlier[k]).is_of(
                current.release_tag,
                current.asset_name,
            );
        assert(earlier[k] == counts[k]);
        assert(is_tracked(counts, latest, counts[k]));
        let t = choose|t: int|
            0 <= t < latest.len() && counts[#[trigger] latest[t] as int].same_asset(counts[k]);
        assert(counts[latest[t] as int].same_asset(current));
        assert(false);
    }
    assert forall|t: int| 0 <= t < after.len() implies is_latest_of_asset(
        counts,
        n + 1,
        #[trigger] after[t] as int,
    ) by {
        let seen = counts[after[t] as int];
        lemma_history_step(counts, n, seen.release_tag, seen.asset_name);
        if t < latest.len() {
            assert(is_latest_of_asset(counts, n, latest[t] as int));
            assert(counts[latest[t] as int].same_asset(current) == seen.same_asset(current));
        }
    }
    assert forall|t: int, u: int| 0 <= t < u < after.len() implies !counts[#[trigger] after[t]
        as int].same_asset(counts[#[trigger] after[u] as int]) by {
        if u < latest.len() {
            assert(!counts[latest[t] as int].same_asset(counts[latest[u] as int]));
        } else {
            assert(!counts[latest[t] as int].same_asset(current));
        }
    }
    assert forall|k: int| 0 <= k < n + 1 implies is_tracked(counts, after, #[trigger] counts[k]) by {
        if k < n {
            assert(is_tracked(counts, latest, counts[k]));
            let t = choose|t: int|
                0 <= t < latest.len() && counts[#[trigger] latest[t] as int].same_asset(counts[k]);
            assert(counts[after[t] as int].same_asset(counts[k]));
        } else {
            assert(counts[after[latest.len() as int] as int].same_asset(counts[k]));
        }
    }
}

/// Records the snapshot at `at` as the latest of its asset and returns the
/// position of the one that was the latest before, if there was one.
fn track_snapshot(snapshots: &Vec<Snapshot>, latest: &mut Vec<usize>, at: usize) -> (previous:
    Option<usize>)
    requires
        at < snapshots.len(),
        tracks_latest(asset_counts(snapshots@), old(latest)@, at as int),
    ensures
        tracks_latest(asset_counts(snapshots@), final(latest)@, at + 1),
        match previous {
            Some(p) => p < at && ({
                let history = asset_history(
                    asset_counts(snapshots@).take(at as int),
                    snapshots[at as int]@.release_tag,
                    snapshots[at as int]@.asset_name,
                );
                history.len() > 0 && history.last() == snapshots[p as int]@
            }),
            None => asset_history(
                asset_counts(snapshots@).take(at as int),
                snapshots[at as int]@.release_tag,
                snapshots[at as int]@.asset_name,
            ).len() == 0,
        },
{
    let ghost counts = asset_counts(snapshots@);
    match find_latest(snapshots, latest, at) {
        Some(s) => {
            let p = latest[s];
            proof {
                assert(counts[p as int].same_asset(counts[at as int]));
                assert(is_latest_of_asset(counts, at as int, latest[s as int] as int));
                lemma_tracks_replace(counts, latest@, at as int, s as int);
            }
            latest.set(s, at);
            Some(p)
        },
        None => {
            proof {
                if is_tracked(counts, latest@, counts[at as int]) {
                    let s = choose|s: int|
                        0 <= s < latest.len() && counts[#[trigger] latest[s] as int].same_asset(
                            counts[at as int],
                        );
                    assert(snapshots[latest[s] as int]@.same_asset(snapshots[at as int]@));
                }
                lemma_tracks_append(counts, latest@, at as int);
            }
            latest.push(at);
            None
        },
    }
}

/// Puts snapshots in the order of their days. Snapshots of one day keep
/// the order in which they were given.
pub fn sort_by_day(snapshots: &Vec<Snapshot>) -> (sorted: Vec<Snapshot>)
    ensures
        asset_counts(sorted@) == in_day_order(asset_counts(snapshots@)),
        sorted.len() == snapshots.len(),
        days_ascend(asset_counts(sorted@)),
{
    let ghost counts = asset_counts(snapshots@);
    let mut sorted: Vec<Snapshot> = Vec::new();
    let mut i: usize = 0;
    assert(counts.take(0) =~= Seq::<AssetCount>::empty());
    assert(asset_counts(sorted@) =~= in_day_order(counts.take(0)));
    while i < snapshots.len()
        invariant
            i <= snapshots.len(),
            counts == asset_counts(snapshots@),
            sorted.len() == i,
            asset_counts(sorted@) == in_day_order(counts.take(i as int)),
        decreases snapshots.len() - i,
    {
        let ghost before = asset_counts(sorted@);
        let day = snapshots[i].date.num_days_from_ce();
        assert(counts.take(i + 1).drop_last() =~= counts.take(i as int));
        assert(counts.take(i + 1).last() == snapshots[i as int]@);
        let mut at: usize = 0;
        while at < sorted.len() && sorted[at].date.num_days_from_ce() <= day
            invariant
                at <= sorted.len(),
                before == asset_counts(sorted@),
                later_day_position(before, day as int, 0) == later_day_position(
                    before,
                    day as int,
                    at as int,
                ),
            decreases sorted.len() - at,
        {
            assert(before[at as int].day == sorted[at as int].date@);
            at += 1;
        }
        proof {
            if at < sorted.len() {
                assert(before[at as int].day == sorted[at as int].date@);
            }
            assert(later_day_position(before, day as int, 0) == at);
        }
        sorted.insert(
            at,
            Snapshot {
                date: snapshots[i].date,
                release_tag: snapshots[i].release_tag.clone(),
                asset_name: snapshots[i].asset_name.clone(),
                download_count: snapshots[i].download_count,
            },
        );
        assert(asset_counts(sorted@) =~= before.insert(at as int, snapshots[i as int]@));
        i += 1;
    }
    proof {
        assert(counts.take(i as int) =~= counts);
        lemma_in_day_order(counts);
    }
    sorted
}

/// Reconstructs weekly release downloads from cumulative snapshots,
/// however they are given. The snapshots are put in the order of their
/// days; for each snapshot that follows an earlier one of the same asset,
/// the growth of the counter (0 where it went down) is added to the week
/// of the later snapshot. Fails exactly where a weekly total is more than
/// a `u64` holds.
pub fn weekly_github_totals(snapshots: &Vec<Snapshot>) -> (r: Result<
    Vec<WeeklyStat>,
    AggregateError,
>)
    ensures
        match r {
            Ok(stats) => !github_overflow(asset_counts(snapshots@)) && weekly_entries(stats@)
                == github_weekly(asset_counts(snapshots@)),
            Err(e) => e is TotalOverflow && github_overflow(asset_counts(snapshots@)),
        },
{
    let ordered = sort_by_day(snapshots);
    totals_in_sequence(&ordered)
}

/// The weekly totals of snapshots that are taken one after the other, as
/// they stand.
fn totals_in_sequence(snapshots: &Vec<Snapshot>) -> (r: Result<Vec<WeeklyStat>, AggregateError>)
    ensures
        match r {
            Ok(stats) => !some_total_overflows(github_items(asset_counts(snapshots@)))
                && weekly_entries(stats@) == weekly_of(github_items(asset_counts(snapshots@))),
            Err(e) => e is TotalOverflow && some_total_overflows(
                github_items(asset_counts(snapshots@)),
            ),
        },
{
    let ghost counts = asset_counts(snapshots@);
    let identifier = "releases";
    let mut latest: Vec<usize> = Vec::new();
    let mut stats: Vec<WeeklyStat> = Vec::new();
    assert(weekly_entries(stats@) =~= weekly_of(github_items(counts.take(0))));
    let mut i: usize = 0;
    while i < snapshots.len()
        invariant
            i <= snapshots.len(),
            counts == asset_counts(snapshots@),
            identifier@ == releases_identifier(),
            tracks_latest(counts, latest@, i as int),
            weekly_entries(stats@) == weekly_of(github_items(counts.take(i as int))),
        decreases snapshots.len() - i,
    {
        proof {
            lemma_github_items_step(counts, i as int);
        }
        match track_snapshot(snapshots, &mut latest, i) {
            Some(p) => {
                let delta = download_delta(
                    snapshots[p].download_count,
                    snapshots[i].download_count,
                );
                let week = snapshots[i].date.week_start();
                let added = add_weekly_amount(
                    &mut stats,
                    week,
                    Source::Github,
                    identifier,
                    delta,
                    Ghost(github_items(counts.take(i as int))),
                );
                if !added {
                    proof {
                        lemma_github_total_prefix(counts, i + 1, releases_key(counts[i as int].day));
                    }
                    return Err(AggregateError::TotalOverflow);
                }
            },
            None => {},
        }
        i += 1;
    }
    proof {
        assert(counts.take(i as int) =~= counts);
        lemma_totals_fit(stats@, github_items(counts));
    }
    Ok(stats)
}

impl GithubSnapshotRow {
    /// This row with its date read.
    pub open spec fn count(self) -> AssetCount {
        AssetCount {
            day: parsed_day(self.date@),
            release_tag: self.release_tag@,
            asset_name: self.asset_name@,
            count: self.download_count as nat,
        }
    }
}

/// The date texts of stored snapshots.
pub open spec fn github_row_dates(rows: Seq<GithubSnapshotRow>) -> Seq<Seq<char>> {
    Seq::new(rows.len(), |i: int| rows[i].date@)
}

/// The snapshots that stored rows stand for once their dates are read.
pub open spec fn github_row_counts(rows: Seq<GithubSnapshotRow>) -> Seq<AssetCount> {
    Seq::new(rows.len(), |i: int| rows[i].count())
}

/// Reads the dates of stored snapshots. Fails at the first row whose date
/// cannot be read, quoting its text.
pub fn read_github_rows(rows: &Vec<GithubSnapshotRow>) -> (r: Result<
    Vec<Snapshot>,
    AggregateError,
>)
    ensures
        match r {
            Ok(snapshots) => all_dates_valid(github_row_dates(rows@)) && asset_counts(snapshots@)
                == github_row_counts(rows@),
            Err(AggregateError::InvalidDate { value }) => exists|at: int|
                is_first_invalid_date(github_row_dates(rows@), at) && value@
                    == #[trigger] rows[at].date@,
            Err(AggregateError::TotalOverflow) => false,
        },
{
    let ghost dates = github_row_dates(rows@);
    let mut snapshots: Vec<Snapshot> = Vec::new();
    let mut i: usize = 0;
    while i < rows.len()
        invariant
            i <= rows.len(),
            dates == github_row_dates(rows@),
            snapshots.len() == i,
            forall|k: int| 0 <= k < i ==> (#[trigger] Date::parsed(dates[k])) is Some,
            forall|k: int| 0 <= k < i ==> (#[trigger] snapshots[k])@ == rows[k].count(),
        decreases rows.len() - i,
    {
        match parse_date(rows[i].date.as_str()) {
            Ok(date) => {
                assert(Date::parsed(dates[i as int]) == Some(date@));
                snapshots.push(
                    Snapshot {
                        date,
                        release_tag: rows[i].release_tag.clone(),
                        asset_name: rows[i].asset_name.clone(),
                        download_count: rows[i].download_count,
                    },
                );
            },
            Err(e) => {
                assert(is_first_invalid_date(dates, i as int));
                return Err(AggregateError::InvalidDate { value: e.value });
            },
        }
        i += 1;
    }
    assert(asset_counts(snapshots@) =~= github_row_counts(rows@));
    Ok(snapshots)
}

/// Whether the aggregation of stored snapshots succeeds: every date can be
/// read and no weekly total is more than a `u64` holds.
pub open spec fn github_rows_aggregate(rows: Seq<GithubSnapshotRow>) -> bool {
    all_dates_valid(github_row_dates(rows)) && !github_overflow(github_row_counts(rows))
}

/// Whether the aggregation of stored snapshots fails with `error`: with
/// the text of the first date that cannot be read, or, where all can be
/// read, because a weekly total is more than a `u64` holds.
pub open spec fn github_rows_fail_with(rows: Seq<GithubSnapshotRow>, error: AggregateError) -> bool {
    match error {
        AggregateError::InvalidDate { value } => exists|at: int|
            is_first_invalid_date(github_row_dates(rows), at) && value@ == #[trigger] rows[at].date@,
        AggregateError::TotalOverflow => all_dates_valid(github_row_dates(rows))
            && github_overflow(github_row_counts(rows)),
    }
}

/// Computes the weekly totals of release downloads from stored snapshots,
/// in whatever order they are given: the growth of an asset is taken
/// between its snapshots in the order of their days. A date that cannot be
/// read aborts the aggregation with the text of the first such date;
/// otherwise the result holds one total for each week to which growth is
/// attributed, and fails only where a total is more than a `u64` holds.
pub fn compute_github_weekly(rows: &Vec<GithubSnapshotRow>) -> (r: Result<
    Vec<WeeklyStat>,
    AggregateError,
>)
    ensures
        match r {
            Ok(stats) => github_rows_aggregate(rows@) && weekly_entries(stats@) == github_weekly(
                github_row_counts(rows@),
            ),
            Err(e) => github_rows_fail_with(rows@, e),
        },
{
    match read_github_rows(rows) {
        Ok(snapshots) => weekly_github_totals(&snapshots),
        Err(e) => Err(e),
    }
}

/// The weekly table after an aggregation of `days` and `snapshots` that
/// started from `table`.
pub open spec fn aggregated(
    table: Map<WeeklyKey, nat>,
    days: Seq<DayCount>,
    snapshots: Seq<AssetCount>,
) -> Map<WeeklyKey, nat> {
    upsert_all(upsert_all(table, crates_weekly(days)), github_weekly(snapshots))
}

/// A failure of one stage of the aggregation.
#[derive(Debug)]
pub struct StageError {
    /// The stage that failed: the source whose raw data was aggregated.
    pub stage: Source,
    /// Why it failed.
    pub error: AggregateError,
}

impl StageError {
    /// What the failed stage was doing.
    pub open spec fn context_text(stage: Source) -> Seq<char> {
        match stage {
            Source::Crates => "failed to compute crates.io weekly aggregates"@,
            Source::Github => "failed to compute GitHub weekly aggregates"@,
        }
    }

    /// A description that names the failed stage and, after a colon, the
    /// cause.
    pub fn message(&self) -> (text: String)
        ensures
            text@ == Self::context_text(self.stage) + ": "@ + self.error.message_text(),
    {
        let mut text = match self.stage {
            Source::Crates => String::from_str("failed to compute crates.io weekly aggregates"),
            Source::Github => String::from_str("failed to compute GitHub weekly aggregates"),
        };
        text.append(": ");
        let cause = self.error.message();
        text.append(cause.as_str());
        text
    }
}

/// Computes all weekly totals and puts them into `table`: first those of
/// the registry downloads, then those of the release downloads. The first
/// stage that fails ends the run; what an earlier stage has put into the
/// table stays there.
pub fn compute_all_weekly(
    crates_rows: &Vec<CratesDownloadRow>,
    github_rows: &Vec<GithubSnapshotRow>,
    table: &mut WeeklyTable,
) -> (r: Result<(), StageError>)
    requires
        old(table).wf(),
    ensures
        final(table).wf(),
        match r {
            Ok(_) => crates_rows_aggregate(crates_rows@) && github_rows_aggregate(github_rows@)
                && final(table)@ == aggregated(
                old(table)@,
                crates_row_counts(crates_rows@),
                github_row_counts(github_rows@),
            ),
            Err(e) => match e.stage {
                Source::Crates => crates_rows_fail_with(crates_rows@, e.error) && final(table)@
                    == old(table)@,
                Source::Github => crates_rows_aggregate(crates_rows@) && github_rows_fail_with(
                    github_rows@,
                    e.error,
                ) && final(table)@ == upsert_all(
                    old(table)@,
                    crates_weekly(crates_row_counts(crates_rows@)),
                ),
            },
        },
{
    match compute_crates_weekly(crates_rows) {
        Ok(stats) => table.put_all(&stats),
        Err(error) => {
            return Err(StageError { stage: Source::Crates, error });
        },
    }
    match compute_github_weekly(github_rows) {
        Ok(stats) => table.put_all(&stats),
        Err(error) => {
            return Err(StageError { stage: Source::Github, error });
        },
    }
    Ok(())
}

} // verus!
