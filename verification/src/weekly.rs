//! Weekly totals and the table that holds them.
//!
//! A weekly total is identified by its week, its source and an identifier.
//! The table holds at most one total for each such key; putting a total
//! under a key that is taken replaces the total that was there.

use crate::date::Date;
use crate::text::str_eq;
use vstd::prelude::*;

verus! {

/// Where a weekly total comes from.
#[derive(Clone, Copy, Debug, PartialEq, Eq, Structural, Hash)]
pub enum Source {
    /// Downloads of release assets.
    Github,
    /// Downloads from the package registry.
    Crates,
}

impl Source {
    /// The tag under which the source is stored.
    pub open spec fn tag(self) -> Seq<char> {
        match self {
            Source::Github => "github"@,
            Source::Crates => "crates"@,
        }
    }

    /// The tag under which the source is stored: `github` or `crates`.
    pub fn as_str(&self) -> (tag: &'static str)
        ensures
            tag@ == self.tag(),
    {
        match self {
            Source::Github => "github",
            Source::Crates => "crates",
        }
    }
}

/// The identifier under which all release downloads of a week are stored.
pub open spec fn releases_identifier() -> Seq<char> {
    "releases"@
}

/// A weekly total as contracts speak of it.
pub struct WeeklyEntry {
    /// Day number of the Monday that starts the week.
    pub week: int,
    /// Where the downloads were counted.
    pub source: Source,
    /// The package name, or `releases` for release downloads.
    pub identifier: Seq<char>,
    /// The downloads of that week.
    pub downloads: nat,
}

/// What identifies a weekly total: week, source and identifier.
pub struct WeeklyKey {
    /// Day number of the Monday that starts the week.
    pub week: int,
    /// Where the downloads were counted.
    pub source: Source,
    /// The package name, or `releases` for release downloads.
    pub identifier: Seq<char>,
}

impl WeeklyEntry {
    /// The key under which this total is stored.
    pub open spec fn key(self) -> WeeklyKey {
        WeeklyKey { week: self.week, source: self.source, identifier: self.identifier }
    }
}

/// The downloads of one week for one identifier of one source.
#[derive(Debug)]
pub struct WeeklyStat {
    /// The Monday that starts the week.
    pub week_start: Date,
    /// Where the downloads were counted.
    pub source: Source,
    /// The package name, or `releases` for release downloads.
    pub identifier: String,
    /// The downloads of that week.
    pub downloads: u64,
}

impl View for WeeklyStat {
    type V = WeeklyEntry;

    open spec fn view(&self) -> WeeklyEntry {
        WeeklyEntry {
            week: self.week_start@,
            source: self.source,
            identifier: self.identifier@,
            downloads: self.downloads as nat,
        }
    }
}

/// The entries that a list of weekly totals stands for.
pub open spec fn weekly_entries(stats: Seq<WeeklyStat>) -> Seq<WeeklyEntry> {
    Seq::new(stats.len(), |j: int| stats[j]@)
}

/// The position of the first total for `week` and `identifier` of `source`
/// in `stats`, if there is one.
pub fn find_weekly_stat(
    stats: &Vec<WeeklyStat>,
    week: Date,
    source: Source,
    identifier: &str,
) -> (found: Option<usize>)
    ensures
        match found {
            Some(j) => j < stats.len() && stats[j as int].week_start@ == week@ && stats[j as int].source
                == source && stats[j as int].identifier@ == identifier@ && forall|k: int|
                0 <= k < j ==> !(#[trigger] stats[k].week_start@ == week@ && stats[k].source
                    == source && stats[k].identifier@ == identifier@),
            None => forall|j: int|
                0 <= j < stats.len() ==> !(#[trigger] stats[j].week_start@ == week@ && stats[j].source
                    == source && stats[j].identifier@ == identifier@),
        },
{
    let mut j: usize = 0;
    while j < stats.len()
        invariant
            j <= stats.len(),
            forall|k: int|
                0 <= k < j ==> !(#[trigger] stats[k].week_start@ == week@ && stats[k].source == source
                    && stats[k].identifier@ == identifier@),
        decreases stats.len() - j,
    {
        if stats[j].week_start.num_days_from_ce() == week.num_days_from_ce() && stats[j].source
            == source && str_eq(stats[j].identifier.as_str(), identifier) {
            return Some(j);
        }
        j += 1;
    }
    None
}

/// The table after `entry` was put into `table`: the total under the key of
/// `entry` is that of `entry`, the others are as they were.
pub open spec fn upsert(table: Map<WeeklyKey, nat>, entry: WeeklyEntry) -> Map<WeeklyKey, nat> {
    table.insert(entry.key(), entry.downloads)
}

/// The table after the entries of `entries` were put into `table` one
/// after the other.
pub open spec fn upsert_all(table: Map<WeeklyKey, nat>, entries: Seq<WeeklyEntry>) -> Map<
    WeeklyKey,
    nat,
>
    decreases entries.len(),
{
    if entries.len() == 0 {
        table
    } else {
        upsert(upsert_all(table, entries.drop_last()), entries.last())
    }
}

/// The total of the last entry of `entries` under `key`, if there is one.
pub open spec fn latest_for(entries: Seq<WeeklyEntry>, key: WeeklyKey) -> Option<nat>
    decreases entries.len(),
{
    if entries.len() == 0 {
        None
    } else if entries.last().key() == key {
        Some(entries.last().downloads)
    } else {
        latest_for(entries.drop_last(), key)
    }
}

/// The table that holds the entries of `entries` and nothing else.
pub open spec fn weekly_table(entries: Seq<WeeklyEntry>) -> Map<WeeklyKey, nat> {
    upsert_all(Map::empty(), entries)
}

/// Whether no two entries of `entries` have the same key.
pub open spec fn distinct_keys(entries: Seq<WeeklyEntry>) -> bool {
    forall|i: int, j: int|
        0 <= i < j < entries.len() ==> (#[trigger] entries[i]).key() != (#[trigger] entries[j]).key()
}

/// After entries were put into a table, a key holds the total of the last
/// entry under it, or what the table held before where there is none.
pub proof fn lemma_upsert_all_lookup(
    table: Map<WeeklyKey, nat>,
    entries: Seq<WeeklyEntry>,
    key: WeeklyKey,
)
    ensures
        upsert_all(table, entries).dom().contains(key) <==> table.dom().contains(key)
            || latest_for(entries, key) is Some,
        upsert_all(table, entries).dom().contains(key) ==> upsert_all(table, entries)[key]
            == match latest_for(entries, key) {
            Some(downloads) => downloads,
            None => table[key],
        },
    decreases entries.len(),
{
    if entries.len() > 0 {
        lemma_upsert_all_lookup(table, entries.drop_last(), key);
    }
}

/// Putting the same entries into a table a second time changes nothing.
pub proof fn lemma_upsert_all_idempotent(table: Map<WeeklyKey, nat>, entries: Seq<WeeklyEntry>)
    ensures
        upsert_all(upsert_all(table, entries), entries) == upsert_all(table, entries),
{
    let once = upsert_all(table, entries);
    let twice = upsert_all(once, entries);
    assert forall|key: WeeklyKey| #[trigger]
        once.dom().contains(key) == twice.dom().contains(key) by {
        lemma_upsert_all_lookup(table, entries, key);
        lemma_upsert_all_lookup(once, entries, key);
    }
    assert(once.dom() =~= twice.dom());
    assert forall|key: WeeklyKey| once.dom().contains(key) implies #[trigger] once[key]
        == twice[key] by {
        lemma_upsert_all_lookup(table, entries, key);
        lemma_upsert_all_lookup(once, entries, key);
    }
    assert(once =~= twice);
}

/// An entry whose key occurs once among `entries` is the last under its key.
pub proof fn lemma_latest_of_distinct(entries: Seq<WeeklyEntry>, at: int)
    requires
        distinct_keys(entries),
        0 <= at < entries.len(),
    ensures
        latest_for(entries, entries[at].key()) == Some(entries[at].downloads),
    decreases entries.len(),
{
    if at < entries.len() - 1 {
        let front = entries.drop_last();
        assert(entries[at].key() != entries[entries.len() - 1].key());
        assert forall|i: int, j: int| 0 <= i < j < front.len() implies (#[trigger] front[i]).key()
            != (#[trigger] front[j]).key() by {
            assert(entries[i].key() != entries[j].key());
        }
        lemma_latest_of_distinct(front, at);
    }
}

/// A key that has a last entry is the key of some entry.
pub proof fn lemma_latest_is_entry(entries: Seq<WeeklyEntry>, key: WeeklyKey)
    ensures
        latest_for(entries, key) is Some <==> exists|i: int|
            0 <= i < entries.len() && (#[trigger] entries[i]).key() == key,
    decreases entries.len(),
{
    if entries.len() > 0 {
        let front = entries.drop_last();
        lemma_latest_is_entry(front, key);
        if latest_for(front, key) is Some {
            let i = choose|i: int| 0 <= i < front.len() && (#[trigger] front[i]).key() == key;
            assert(entries[i].key() == key);
        }
        if exists|i: int| 0 <= i < entries.len() && (#[trigger] entries[i]).key() == key {
            let i = choose|i: int| 0 <= i < entries.len() && (#[trigger] entries[i]).key() == key;
            if i < entries.len() - 1 {
                assert(front[i].key() == key);
            }
        }
    }
}

/// The weekly totals in store: at most one total for each week, source and
/// identifier. Its view maps each key that is held to its total.
#[derive(Debug)]
pub struct WeeklyTable {
    rows: Vec<WeeklyStat>,
}

impl View for WeeklyTable {
    type V = Map<WeeklyKey, nat>;

    closed spec fn view(&self) -> Map<WeeklyKey, nat> {
        weekly_table(weekly_entries(self.rows@))
    }
}

impl WeeklyTable {
    /// Whether the table holds at most one total for each key. Every
    /// table that this module hands out does.
    pub closed spec fn wf(&self) -> bool {
        distinct_keys(weekly_entries(self.rows@))
    }

    /// A table that holds nothing.
    pub fn new() -> (table: WeeklyTable)
        ensures
            table.wf(),
            table@ == Map::<WeeklyKey, nat>::empty(),
    {
        let rows: Vec<WeeklyStat> = Vec::new();
        assert(weekly_entries(rows@) =~= Seq::empty());
        WeeklyTable { rows }
    }

    /// The totals that are held, each key once.
    pub fn rows(&self) -> (rows: &Vec<WeeklyStat>)
        requires
            self.wf(),
        ensures
            distinct_keys(weekly_entries(rows@)),
            weekly_table(weekly_entries(rows@)) == self@,
    {
        &self.rows
    }

    /// The number of totals that are held.
    pub fn len(&self) -> (n: usize)
        requires
            self.wf(),
        ensures
            n == self@.dom().len(),
            self@.dom().finite(),
    {
        proof {
            lemma_table_size(weekly_entries(self.rows@));
        }
        self.rows.len()
    }

    /// The total held for `week_start`, `source` and `identifier`, if any.
    pub fn get(&self, week_start: Date, source: Source, identifier: &str) -> (downloads: Option<
        u64,
    >)
        requires
            self.wf(),
        ensures
            match downloads {
                Some(total) => self@.dom().contains(
                    WeeklyKey { week: week_start@, source, identifier: identifier@ },
                ) && self@[WeeklyKey { week: week_start@, source, identifier: identifier@ }]
                    == total,
                None => !self@.dom().contains(
                    WeeklyKey { week: week_start@, source, identifier: identifier@ },
                ),
            },
    {
        let ghost key = WeeklyKey { week: week_start@, source, identifier: identifier@ };
        let ghost entries = weekly_entries(self.rows@);
        proof {
            lemma_upsert_all_lookup(Map::empty(), entries, key);
            lemma_latest_is_entry(entries, key);
        }
        match find_weekly_stat(&self.rows, week_start, source, identifier) {
            Some(j) => {
                proof {
                    assert(entries[j as int].key() == key);
                    lemma_latest_of_distinct(entries, j as int);
                }
                Some(self.rows[j].downloads)
            },
            None => {
                proof {
                    if latest_for(entries, key) is Some {
                        let i = choose|i: int|
                            0 <= i < entries.len() && (#[trigger] entries[i]).key() == key;
                        assert(self.rows[i].week_start@ == week_start@);
                    }
                }
                None
            },
        }
    }

    /// Puts a total into the table. A total that is already held for the
    /// same week, source and identifier is replaced.
    pub fn put(&mut self, week_start: Date, source: Source, identifier: &str, downloads: u64)
        requires
            old(self).wf(),
        ensures
            final(self).wf(),
            final(self)@ == old(self)@.insert(
                WeeklyKey { week: week_start@, source, identifier: identifier@ },
                downloads as nat,
            ),
    {
        let ghost key = WeeklyKey { week: week_start@, source, identifier: identifier@ };
        let ghost before = weekly_entries(self.rows@);
        let stat = WeeklyStat {
            week_start,
            source,
            identifier: String::from_str(identifier),
            downloads,
        };
        match find_weekly_stat(&self.rows, week_start, source, identifier) {
            Some(j) => {
                self.rows.set(j, stat);
                proof {
                    assert(weekly_entries(self.rows@) =~= before.update(j as int, stat@));
                    lemma_replace_entry(before, j as int, stat@);
                }
            },
            None => {
                self.rows.push(stat);
                proof {
                    let after = weekly_entries(self.rows@);
                    assert(after.drop_last() =~= before);
                    assert forall|i: int, k: int| 0 <= i < k < after.len() implies (
                    #[trigger] after[i]).key() != (#[trigger] after[k]).key() by {
                        if k < before.len() {
                            assert(before[i].key() != before[k].key());
                        } else {
                            assert(old(self).rows[i].week_start@ == before[i].week);
                        }
                    }
                }
            },
        }
    }

    /// Puts the totals of `stats` into the table, one after the other.
    pub fn put_all(&mut self, stats: &Vec<WeeklyStat>)
        requires
            old(self).wf(),
        ensures
            final(self).wf(),
            final(self)@ == upsert_all(old(self)@, weekly_entries(stats@)),
    {
        let ghost entries = weekly_entries(stats@);
        let mut i: usize = 0;
        assert(entries.take(0) =~= Seq::empty());
        while i < stats.len()
            invariant
                i <= stats.len(),
                entries == weekly_entries(stats@),
                self.wf(),
                self@ == upsert_all(old(self)@, entries.take(i as int)),
            decreases stats.len() - i,
        {
            assert(entries.take(i + 1).drop_last() =~= entries.take(i as int));
            self.put(
                stats[i].week_start,
                stats[i].source,
                stats[i].identifier.as_str(),
                stats[i].downloads,
            );
            i += 1;
        }
        assert(entries.take(i as int) =~= entries);
    }
}

/// Puts a total into the table of weekly totals. A total that is already
/// held for the same week, source and identifier is replaced.
pub fn insert_weekly_stat(
    table: &mut WeeklyTable,
    week_start: Date,
    source: Source,
    identifier: &str,
    downloads: u64,
)
    requires
        old(table).wf(),
    ensures
        final(table).wf(),
        final(table)@ == old(table)@.insert(
            WeeklyKey { week: week_start@, source, identifier: identifier@ },
            downloads as nat,
        ),
{
    table.put(week_start, source, identifier, downloads);
}

/// Replacing an entry by one of the same key keeps the keys distinct and
/// puts the new total under that key.
pub proof fn lemma_replace_entry(entries: Seq<WeeklyEntry>, at: int, entry: WeeklyEntry)
    requires
        distinct_keys(entries),
        0 <= at < entries.len(),
        entries[at].key() == entry.key(),
    ensures
        distinct_keys(entries.update(at, entry)),
        weekly_table(entries.update(at, entry)) == upsert(weekly_table(entries), entry),
{
    let after = entries.update(at, entry);
    let target = upsert(weekly_table(entries), entry);
    assert forall|i: int, k: int| 0 <= i < k < after.len() implies (#[trigger] after[i]).key() != (
    #[trigger] after[k]).key() by {
        assert(entries[i].key() != entries[k].key());
    }
    assert forall|other: WeeklyKey| #[trigger]
        weekly_table(after).dom().contains(other) == target.dom().contains(other) by {
        lemma_upsert_all_lookup(Map::empty(), after, other);
        lemma_upsert_all_lookup(Map::empty(), entries, other);
        lemma_latest_is_entry(after, other);
        lemma_latest_is_entry(entries, other);
        if latest_for(entries, other) is Some {
            let i = choose|i: int| 0 <= i < entries.len() && (#[trigger] entries[i]).key() == other;
            assert(after[i].key() == other);
        }
        if latest_for(after, other) is Some {
            let i = choose|i: int| 0 <= i < after.len() && (#[trigger] after[i]).key() == other;
            assert(entries[i].key() == other);
        }
        if other == entry.key() {
            assert(after[at].key() == other);
        }
    }
    assert(weekly_table(after).dom() =~= target.dom());
    assert forall|other: WeeklyKey| weekly_table(after).dom().contains(other) implies #[trigger]
        weekly_table(after)[other] == target[other] by {
        lemma_upsert_all_lookup(Map::empty(), after, other);
        lemma_upsert_all_lookup(Map::empty(), entries, other);
        lemma_latest_is_entry(after, other);
        let i = choose|i: int| 0 <= i < after.len() && (#[trigger] after[i]).key() == other;
        lemma_latest_of_distinct(after, i);
        if i != at {
            assert(entries[i] == after[i]);
            lemma_latest_of_distinct(entries, i);
            assert(entries[i].key() != entries[at].key());
        }
    }
    assert(weekly_table(after) =~= target);
}

/// A table built from entries with distinct keys holds as many totals as
/// there are entries.
pub proof fn lemma_table_size(entries: Seq<WeeklyEntry>)
    requires
        distinct_keys(entries),
    ensures
        weekly_table(entries).dom().finite(),
        weekly_table(entries).dom().len() == entries.len(),
    decreases entries.len(),
{
    if entries.len() > 0 {
        let front = entries.drop_last();
        assert forall|i: int, j: int| 0 <= i < j < front.len() implies (#[trigger] front[i]).key()
            != (#[trigger] front[j]).key() by {
            assert(entries[i].key() != entries[j].key());
        }
        lemma_table_size(front);
        lemma_upsert_all_lookup(Map::empty(), front, entries.last().key());
        lemma_latest_is_entry(front, entries.last().key());
        if latest_for(front, entries.last().key()) is Some {
            let i = choose|i: int|
                0 <= i < front.len() && (#[trigger] front[i]).key() == entries.last().key();
            assert(entries[i].key() != entries[entries.len() - 1].key());
        }
    }
}

} // verus!
