//! What holds of the weekly aggregation whatever the raw data.
//!
//! The weekly table is a function of the raw observations: registry totals
//! do not depend on the order of the rows, release totals depend only on the
//! snapshots of each asset in the order of their days, an asset with a
//! single snapshot adds nothing, and aggregating the same data again leaves
//! the table as it is.

use crate::aggregate::{
    aggregated, asset_history, crates_items, crates_week_total, crates_weekly, days_ascend,
    github_items, github_week_total, github_weekly, in_day_order, later_day_position,
    lemma_in_day_order, lemma_later_day_position, snapshot_item, weekly_of, AssetCount, DayCount,
};
use crate::date::{lemma_week_start, weekday_index};
use crate::totals::{
    grouped, keys_in_order, lemma_grouped_sum, lemma_keys_contains, lemma_keys_distinct,
    lemma_sum_push, lemma_total_permutation, lemma_totals_map_permutation, sum_of_amounts,
    total_for, totals_map,
};
use crate::weekly::{
    distinct_keys, latest_for, lemma_latest_is_entry, lemma_latest_of_distinct,
    lemma_upsert_all_idempotent, lemma_upsert_all_lookup, releases_identifier, upsert_all,
    weekly_table, Source, WeeklyEntry, WeeklyKey,
};
use vstd::multiset::*;
use vstd::prelude::*;
use vstd::seq_lib::*;

verus! {

/// The table built from the weekly totals of keyed amounts maps each key
/// that occurs to the sum of its amounts: every weekly total is the sum of
/// the raw amounts that fall under its key.
pub proof fn lemma_weekly_table_totals(items: Seq<(WeeklyKey, nat)>)
    ensures
        distinct_keys(weekly_of(items)),
        weekly_table(weekly_of(items)) == totals_map(items),
{
    let entries = weekly_of(items);
    let keys = keys_in_order(items);
    lemma_keys_distinct(items);
    assert forall|i: int, j: int| 0 <= i < j < entries.len() implies (#[trigger] entries[i]).key()
        != (#[trigger] entries[j]).key() by {
        assert(entries[i].key() == keys[i]);
        assert(entries[j].key() == keys[j]);
    }
    assert forall|key: WeeklyKey| #[trigger]
        weekly_table(entries).dom().contains(key) == totals_map(items).dom().contains(key) by {
        lemma_upsert_all_lookup(Map::empty(), entries, key);
        lemma_latest_is_entry(entries, key);
        lemma_keys_contains(items, key);
        if latest_for(entries, key) is Some {
            let i = choose|i: int| 0 <= i < entries.len() && (#[trigger] entries[i]).key() == key;
            assert(keys[i] == key);
        }
        if keys.contains(key) {
            let i = choose|i: int| 0 <= i < keys.len() && keys[i] == key;
            assert(entries[i].key() == key);
        }
    }
    assert(weekly_table(entries).dom() =~= totals_map(items).dom());
    assert forall|key: WeeklyKey| weekly_table(entries).dom().contains(key) implies #[trigger]
        weekly_table(entries)[key] == totals_map(items)[key] by {
        lemma_upsert_all_lookup(Map::empty(), entries, key);
        lemma_latest_is_entry(entries, key);
        let i = choose|i: int| 0 <= i < entries.len() && (#[trigger] entries[i]).key() == key;
        lemma_latest_of_distinct(entries, i);
        assert(keys[i] == key);
    }
    assert(weekly_table(entries) =~= totals_map(items));
}

/// Rows in another order give the same items in another order.
proof fn lemma_crates_items_permutation(a: Seq<DayCount>, b: Seq<DayCount>)
    requires
        a.to_multiset() == b.to_multiset(),
    ensures
        crates_items(a).to_multiset() == crates_items(b).to_multiset(),
    decreases a.len(),
{
    broadcast use group_to_multiset_ensures;

    a.to_multiset_ensures();
    b.to_multiset_ensures();
    if a.len() == 0 {
        assert(b.len() == 0);
        assert(crates_items(a) =~= crates_items(b));
    } else {
        let row = a.last();
        let front = a.drop_last();
        assert(a =~= front.push(row));
        assert(a.to_multiset().count(row) > 0);
        assert(b.contains(row));
        let at = choose|i: int| 0 <= i < b.len() && b[i] == row;
        to_multiset_remove(b, at);
        assert(front.to_multiset() =~= a.to_multiset().remove(row));
        lemma_crates_items_permutation(front, b.remove(at));
        let item = (row.key(), row.downloads);
        assert(crates_items(a) =~= crates_items(front).push(item));
        assert(crates_items(b.remove(at)) =~= crates_items(b).remove(at));
        to_multiset_remove(crates_items(b), at);
        assert(crates_items(b)[at] == item);
        assert(crates_items(b).to_multiset().count(item) > 0) by {
            assert(crates_items(b).contains(item));
        }
        assert(crates_items(b).to_multiset() =~= crates_items(b).to_multiset().remove(item).insert(
            item,
        ));
    }
}

/// Registry aggregation does not depend on the order of the rows: rows in
/// another order give every week and package the same total, and so the
/// same weekly table.
pub proof fn lemma_crates_order_independent(a: Seq<DayCount>, b: Seq<DayCount>)
    requires
        a.to_multiset() == b.to_multiset(),
    ensures
        forall|week: int, name: Seq<char>| #[trigger]
            crates_week_total(a, week, name) == crates_week_total(b, week, name),
        weekly_table(crates_weekly(a)) == weekly_table(crates_weekly(b)),
{
    lemma_crates_items_permutation(a, b);
    assert forall|week: int, name: Seq<char>| #[trigger]
        crates_week_total(a, week, name) == crates_week_total(b, week, name) by {
        lemma_total_permutation(
            crates_items(a),
            crates_items(b),
            WeeklyKey { week, source: crate::weekly::Source::Crates, identifier: name },
        );
    }
    lemma_totals_map_permutation(crates_items(a), crates_items(b));
    lemma_weekly_table_totals(crates_items(a));
    lemma_weekly_table_totals(crates_items(b));
}

/// Taking out a snapshot of another asset leaves the history of an asset
/// as it was.
proof fn lemma_history_remove_other(
    snapshots: Seq<AssetCount>,
    at: int,
    release_tag: Seq<char>,
    asset_name: Seq<char>,
)
    requires
        0 <= at < snapshots.len(),
        !snapshots[at].is_of(release_tag, asset_name),
    ensures
        asset_history(snapshots.remove(at), release_tag, asset_name) == asset_history(
            snapshots,
            release_tag,
            asset_name,
        ),
    decreases snapshots.len(),
{
    if at == snapshots.len() - 1 {
        assert(snapshots.remove(at) =~= snapshots.drop_last());
    } else {
        lemma_history_remove_other(snapshots.drop_last(), at, release_tag, asset_name);
        assert(snapshots.remove(at).drop_last() =~= snapshots.drop_last().remove(at));
        assert(snapshots.remove(at).last() == snapshots.last());
    }
}

/// The last snapshot of an asset ends the history of the asset; before it,
/// and without it, the history is shorter by that snapshot.
proof fn lemma_history_remove_last(
    snapshots: Seq<AssetCount>,
    at: int,
    release_tag: Seq<char>,
    asset_name: Seq<char>,
)
    requires
        0 <= at < snapshots.len(),
        snapshots[at].is_of(release_tag, asset_name),
        forall|later: int|
            at < later < snapshots.len() ==> !(#[trigger] snapshots[later]).is_of(
                release_tag,
                asset_name,
            ),
    ensures
        asset_history(snapshots, release_tag, asset_name).len() > 0,
        asset_history(snapshots, release_tag, asset_name).last() == snapshots[at],
        asset_history(snapshots.remove(at), release_tag, asset_name) == asset_history(
            snapshots,
            release_tag,
            asset_name,
        ).drop_last(),
        asset_history(snapshots.take(at), release_tag, asset_name) == asset_history(
            snapshots,
            release_tag,
            asset_name,
        ).drop_last(),
    decreases snapshots.len(),
{
    let front = snapshots.drop_last();
    if at == snapshots.len() - 1 {
        assert(snapshots.remove(at) =~= front);
        assert(snapshots.take(at) =~= front);
        assert(asset_history(front, release_tag, asset_name).push(snapshots[at]).drop_last()
            =~= asset_history(front, release_tag, asset_name));
    } else {
        assert(!snapshots[snapshots.len() - 1].is_of(release_tag, asset_name));
        assert forall|later: int| at < later < front.len() implies !(#[trigger] front[later]).is_of(
            release_tag,
            asset_name,
        ) by {
            assert(!snapshots[later].is_of(release_tag, asset_name));
        }
        lemma_history_remove_last(front, at, release_tag, asset_name);
        assert(snapshots.remove(at).drop_last() =~= front.remove(at));
        assert(snapshots.remove(at).last() == snapshots.last());
        assert(front.take(at) =~= snapshots.take(at));
    }
}

/// An asset that has a history has a last snapshot.
proof fn lemma_last_of_asset(
    snapshots: Seq<AssetCount>,
    release_tag: Seq<char>,
    asset_name: Seq<char>,
) -> (at: int)
    requires
        asset_history(snapshots, release_tag, asset_name).len() > 0,
    ensures
        0 <= at < snapshots.len(),
        snapshots[at].is_of(release_tag, asset_name),
        forall|later: int|
            at < later < snapshots.len() ==> !(#[trigger] snapshots[later]).is_of(
                release_tag,
                asset_name,
            ),
    decreases snapshots.len(),
{
    if snapshots.last().is_of(release_tag, asset_name) {
        snapshots.len() - 1
    } else {
        let at = lemma_last_of_asset(snapshots.drop_last(), release_tag, asset_name);
        assert forall|later: int| at < later < snapshots.len() implies !(
        #[trigger] snapshots[later]).is_of(release_tag, asset_name) by {
            if later < snapshots.len() - 1 {
                assert(!snapshots.drop_last()[later].is_of(release_tag, asset_name));
            }
        }
        at
    }
}

/// `items` with `item` added, if there is one.
pub open spec fn with_item(
    items: Multiset<(WeeklyKey, nat)>,
    item: Option<(WeeklyKey, nat)>,
) -> Multiset<(WeeklyKey, nat)> {
    match item {
        Some(item) => items.insert(item),
        None => items,
    }
}

/// The items of snapshots are those of the snapshots without the last
/// snapshot of some asset, and the item of that snapshot.
proof fn lemma_items_remove(snapshots: Seq<AssetCount>, at: int)
    requires
        0 <= at < snapshots.len(),
        forall|later: int|
            at < later < snapshots.len() ==> !(#[trigger] snapshots[later]).same_asset(
                snapshots[at],
            ),
    ensures
        github_items(snapshots).to_multiset() == with_item(
            github_items(snapshots.remove(at)).to_multiset(),
            snapshot_item(snapshots.take(at), snapshots[at]),
        ),
    decreases snapshots.len(),
{
    broadcast use group_to_multiset_ensures;

    let front = snapshots.drop_last();
    if at == snapshots.len() - 1 {
        assert(snapshots.remove(at) =~= front);
        assert(snapshots.take(at) =~= front);
    } else {
        let last = snapshots.last();
        assert(!snapshots[snapshots.len() - 1].same_asset(snapshots[at]));
        assert forall|later: int| at < later < front.len() implies !(
        #[trigger] front[later]).same_asset(front[at]) by {
            assert(!snapshots[later].same_asset(snapshots[at]));
        }
        lemma_items_remove(front, at);
        assert(front.take(at) =~= snapshots.take(at));
        assert(snapshots.remove(at).drop_last() =~= front.remove(at));
        assert(snapshots.remove(at).last() == last);
        lemma_history_remove_other(front, at, last.release_tag, last.asset_name);
        assert(snapshot_item(front.remove(at), last) == snapshot_item(front, last));
        let moved = snapshot_item(snapshots.take(at), snapshots[at]);
        let without = github_items(front.remove(at)).to_multiset();
        match snapshot_item(front, last) {
            Some(item) => {
                assert(with_item(without, moved).insert(item) =~= with_item(
                    without.insert(item),
                    moved,
                ));
            },
            None => {},
        }
    }
}

/// Snapshots that give every asset the same history give the same items,
/// in whatever order.
proof fn lemma_github_items_permutation(a: Seq<AssetCount>, b: Seq<AssetCount>)
    requires
        forall|release_tag: Seq<char>, asset_name: Seq<char>| #[trigger]
            asset_history(a, release_tag, asset_name) == asset_history(b, release_tag, asset_name),
    ensures
        github_items(a).to_multiset() == github_items(b).to_multiset(),
    decreases a.len(),
{
    broadcast use group_to_multiset_ensures;

    if a.len() == 0 {
        if b.len() > 0 {
            crate::aggregate::lemma_history_members(b, b[0].release_tag, b[0].asset_name);
            assert(b[0].is_of(b[0].release_tag, b[0].asset_name));
            assert(asset_history(a, b[0].release_tag, b[0].asset_name).len() == 0);
        }
        assert(github_items(b) =~= github_items(a));
    } else {
        let last = a.last();
        let front = a.drop_last();
        let history = asset_history(a, last.release_tag, last.asset_name);
        assert(history == asset_history(front, last.release_tag, last.asset_name).push(last));
        assert(history.drop_last() =~= asset_history(front, last.release_tag, last.asset_name));
        assert(asset_history(b, last.release_tag, last.asset_name) == history);
        let at = lemma_last_of_asset(b, last.release_tag, last.asset_name);
        lemma_history_remove_last(b, at, last.release_tag, last.asset_name);
        assert(b[at] == last);
        assert forall|release_tag: Seq<char>, asset_name: Seq<char>| #[trigger]
            asset_history(front, release_tag, asset_name) == asset_history(
                b.remove(at),
                release_tag,
                asset_name,
            ) by {
            assert(asset_history(a, release_tag, asset_name) == asset_history(
                b,
                release_tag,
                asset_name,
            ));
            if last.is_of(release_tag, asset_name) {
                assert(release_tag == last.release_tag && asset_name == last.asset_name);
            } else {
                lemma_history_remove_other(b, at, release_tag, asset_name);
            }
        }
        lemma_github_items_permutation(front, b.remove(at));
        assert forall|later: int| at < later < b.len() implies !(#[trigger] b[later]).same_asset(
            b[at],
        ) by {
            assert(!b[later].is_of(last.release_tag, last.asset_name));
        }
        lemma_items_remove(b, at);
        assert(snapshot_item(b.take(at), b[at]) == snapshot_item(front, last));
    }
}

/// The history of an asset over two runs of snapshots is its history over
/// the first followed by its history over the second.
pub proof fn lemma_history_concat(
    first: Seq<AssetCount>,
    second: Seq<AssetCount>,
    release_tag: Seq<char>,
    asset_name: Seq<char>,
)
    ensures
        asset_history(first + second, release_tag, asset_name) == asset_history(
            first,
            release_tag,
            asset_name,
        ) + asset_history(second, release_tag, asset_name),
    decreases second.len(),
{
    if second.len() == 0 {
        assert(first + second =~= first);
        assert(asset_history(first, release_tag, asset_name) + Seq::<AssetCount>::empty()
            =~= asset_history(first, release_tag, asset_name));
    } else {
        lemma_history_concat(first, second.drop_last(), release_tag, asset_name);
        assert((first + second).drop_last() =~= first + second.drop_last());
        assert((first + second).last() == second.last());
        let before = asset_history(first, release_tag, asset_name);
        let middle = asset_history(second.drop_last(), release_tag, asset_name);
        assert((before + middle).push(second.last()) =~= before + middle.push(second.last()));
    }
}

/// The snapshots of a history are snapshots of the sequence: where no day
/// of the sequence is later than `high`, no day of the history is.
proof fn lemma_history_days_at_most(
    snapshots: Seq<AssetCount>,
    release_tag: Seq<char>,
    asset_name: Seq<char>,
    high: int,
)
    requires
        forall|i: int| 0 <= i < snapshots.len() ==> (#[trigger] snapshots[i]).day <= high,
    ensures
        forall|j: int|
            0 <= j < asset_history(snapshots, release_tag, asset_name).len() ==> (
            #[trigger] asset_history(snapshots, release_tag, asset_name)[j]).day <= high,
    decreases snapshots.len(),
{
    if snapshots.len() > 0 {
        let front = snapshots.drop_last();
        let before = asset_history(front, release_tag, asset_name);
        let history = asset_history(snapshots, release_tag, asset_name);
        assert forall|i: int| 0 <= i < front.len() implies (#[trigger] front[i]).day <= high by {
            assert(front[i] == snapshots[i]);
        }
        lemma_history_days_at_most(front, release_tag, asset_name, high);
        assert(snapshots[snapshots.len() - 1].day <= high);
        assert forall|j: int| 0 <= j < history.len() implies (#[trigger] history[j]).day <= high by {
            if j < before.len() {
                assert(history[j] == before[j]);
            }
        }
    }
}

/// The snapshots of a history are snapshots of the sequence: where every
/// day of the sequence is later than `low`, every day of the history is.
proof fn lemma_history_days_above(
    snapshots: Seq<AssetCount>,
    release_tag: Seq<char>,
    asset_name: Seq<char>,
    low: int,
)
    requires
        forall|i: int| 0 <= i < snapshots.len() ==> (#[trigger] snapshots[i]).day > low,
    ensures
        forall|j: int|
            0 <= j < asset_history(snapshots, release_tag, asset_name).len() ==> (
            #[trigger] asset_history(snapshots, release_tag, asset_name)[j]).day > low,
    decreases snapshots.len(),
{
    if snapshots.len() > 0 {
        let front = snapshots.drop_last();
        let before = asset_history(front, release_tag, asset_name);
        let history = asset_history(snapshots, release_tag, asset_name);
        assert forall|i: int| 0 <= i < front.len() implies (#[trigger] front[i]).day > low by {
            assert(front[i] == snapshots[i]);
        }
        lemma_history_days_above(front, release_tag, asset_name, low);
        assert(snapshots[snapshots.len() - 1].day > low);
        assert forall|j: int| 0 <= j < history.len() implies (#[trigger] history[j]).day > low by {
            if j < before.len() {
                assert(history[j] == before[j]);
            }
        }
    }
}

/// The first later day is found at the one position that has no later day
/// before it and a later day at it.
proof fn lemma_later_day_position_is(sorted: Seq<AssetCount>, day: int, from: int, at: int)
    requires
        0 <= from <= at <= sorted.len(),
        forall|k: int| from <= k < at ==> (#[trigger] sorted[k]).day <= day,
        at < sorted.len() ==> sorted[at].day > day,
    ensures
        later_day_position(sorted, day, from) == at,
    decreases at - from,
{
    if from < at {
        assert(sorted[from].day <= day);
        lemma_later_day_position_is(sorted, day, from + 1, at);
    }
}

/// Snapshots whose days never go back are in the order of their days as
/// they stand.
pub proof fn lemma_in_day_order_of_ascending(snapshots: Seq<AssetCount>)
    requires
        days_ascend(snapshots),
    ensures
        in_day_order(snapshots) == snapshots,
    decreases snapshots.len(),
{
    if snapshots.len() > 0 {
        let front = snapshots.drop_last();
        let last = snapshots.last();
        assert forall|i: int, j: int| 0 <= i < j < front.len() implies (#[trigger] front[i]).day <= (
        #[trigger] front[j]).day by {
            assert(snapshots[i].day <= snapshots[j].day);
        }
        lemma_in_day_order_of_ascending(front);
        assert forall|k: int| 0 <= k < front.len() implies (#[trigger] front[k]).day <= last.day by {
            assert(snapshots[k].day <= snapshots[snapshots.len() - 1].day);
        }
        lemma_later_day_position_is(front, last.day, 0, front.len() as int);
        assert(front.insert(front.len() as int, last) =~= snapshots);
    }
}

/// Putting snapshots in the order of their days puts the snapshots of each
/// asset in the order of their days: the history of an asset over the
/// ordered snapshots is its history in the order of its days.
pub proof fn lemma_history_in_day_order(
    snapshots: Seq<AssetCount>,
    release_tag: Seq<char>,
    asset_name: Seq<char>,
)
    ensures
        asset_history(in_day_order(snapshots), release_tag, asset_name) == in_day_order(
            asset_history(snapshots, release_tag, asset_name),
        ),
    decreases snapshots.len(),
{
    if snapshots.len() > 0 {
        let front = snapshots.drop_last();
        let last = snapshots.last();
        let sorted = in_day_order(front);
        let at = later_day_position(sorted, last.day, 0);
        lemma_history_in_day_order(front, release_tag, asset_name);
        lemma_in_day_order(front);
        lemma_later_day_position(sorted, last.day, 0);
        let head = sorted.take(at);
        let tail = sorted.skip(at);
        assert(sorted =~= head + tail);
        assert(sorted.insert(at, last) =~= (head + seq![last]) + tail);
        lemma_history_concat(head, tail, release_tag, asset_name);
        lemma_history_concat(head + seq![last], tail, release_tag, asset_name);
        lemma_history_concat(head, seq![last], release_tag, asset_name);
        let one = seq![last];
        assert(one.drop_last() =~= Seq::<AssetCount>::empty());
        assert(asset_history(one.drop_last(), release_tag, asset_name) =~= Seq::<
            AssetCount,
        >::empty());
        let head_history = asset_history(head, release_tag, asset_name);
        let tail_history = asset_history(tail, release_tag, asset_name);
        let history = asset_history(sorted, release_tag, asset_name);
        assert(history == head_history + tail_history);
        if last.is_of(release_tag, asset_name) {
            assert(asset_history(one, release_tag, asset_name) =~= seq![last]);
            assert forall|i: int| 0 <= i < head.len() implies (#[trigger] head[i]).day
                <= last.day by {
                assert(head[i] == sorted[i]);
            }
            lemma_history_days_at_most(head, release_tag, asset_name, last.day);
            assert forall|i: int| 0 <= i < tail.len() implies (#[trigger] tail[i]).day
                > last.day by {
                assert(tail[i] == sorted[at + i]);
                if i > 0 {
                    assert(sorted[at].day <= sorted[at + i].day);
                }
            }
            lemma_history_days_above(tail, release_tag, asset_name, last.day);
            let place = head_history.len() as int;
            assert forall|k: int| 0 <= k < place implies (#[trigger] history[k]).day <= last.day by {
                assert(history[k] == head_history[k]);
            }
            if place < history.len() {
                assert(history[place] == tail_history[0]);
            }
            lemma_later_day_position_is(history, last.day, 0, place);
            assert(snapshots =~= front.push(last));
            assert(asset_history(snapshots, release_tag, asset_name) == asset_history(
                front,
                release_tag,
                asset_name,
            ).push(last));
            assert(asset_history(snapshots, release_tag, asset_name).drop_last()
                =~= asset_history(front, release_tag, asset_name));
            assert(history.insert(place, last) =~= (head_history + seq![last]) + tail_history);
        } else {
            assert(asset_history(one, release_tag, asset_name) =~= Seq::<AssetCount>::empty());
            assert((head_history + Seq::<AssetCount>::empty()) + tail_history =~= head_history
                + tail_history);
        }
    }
}

/// Release aggregation depends only on the snapshots of each asset in the
/// order of their days: snapshots that give every asset the same history
/// by day give every week the same total, and so the same weekly table, in
/// whatever order the rows and the assets are taken.
pub proof fn lemma_github_asset_order_independent(a: Seq<AssetCount>, b: Seq<AssetCount>)
    requires
        forall|release_tag: Seq<char>, asset_name: Seq<char>|
            in_day_order(#[trigger] asset_history(a, release_tag, asset_name)) == in_day_order(
                #[trigger] asset_history(b, release_tag, asset_name),
            ),
    ensures
        forall|week: int| #[trigger] github_week_total(a, week) == github_week_total(b, week),
        weekly_table(github_weekly(a)) == weekly_table(github_weekly(b)),
{
    let a_sorted = in_day_order(a);
    let b_sorted = in_day_order(b);
    assert forall|release_tag: Seq<char>, asset_name: Seq<char>| #[trigger]
        asset_history(a_sorted, release_tag, asset_name) == asset_history(
            b_sorted,
            release_tag,
            asset_name,
        ) by {
        lemma_history_in_day_order(a, release_tag, asset_name);
        lemma_history_in_day_order(b, release_tag, asset_name);
        assert(in_day_order(asset_history(a, release_tag, asset_name)) == in_day_order(
            asset_history(b, release_tag, asset_name),
        ));
    }
    lemma_same_histories_same_totals(a_sorted, b_sorted);
}

/// Snapshots taken one after the other that give every asset the same
/// history give every key the same total.
proof fn lemma_same_histories_same_totals(a: Seq<AssetCount>, b: Seq<AssetCount>)
    requires
        forall|release_tag: Seq<char>, asset_name: Seq<char>| #[trigger]
            asset_history(a, release_tag, asset_name) == asset_history(b, release_tag, asset_name),
    ensures
        forall|key: WeeklyKey| #[trigger]
            total_for(github_items(a), key) == total_for(github_items(b), key),
        weekly_table(weekly_of(github_items(a))) == weekly_table(weekly_of(github_items(b))),
{
    lemma_github_items_permutation(a, b);
    assert forall|key: WeeklyKey| #[trigger]
        total_for(github_items(a), key) == total_for(github_items(b), key) by {
        lemma_total_permutation(github_items(a), github_items(b), key);
    }
    lemma_totals_map_permutation(github_items(a), github_items(b));
    lemma_weekly_table_totals(github_items(a));
    lemma_weekly_table_totals(github_items(b));
}

/// Where the snapshots of every asset are given in the order of their
/// days, the totals are those of the differences between each snapshot and
/// the one of its asset that is given before it.
pub proof fn lemma_github_rows_given_by_day(snapshots: Seq<AssetCount>)
    requires
        forall|release_tag: Seq<char>, asset_name: Seq<char>|
            days_ascend(#[trigger] asset_history(snapshots, release_tag, asset_name)),
    ensures
        forall|week: int| #[trigger]
            github_week_total(snapshots, week) == total_for(
                github_items(snapshots),
                crate::aggregate::releases_key(week),
            ),
        weekly_table(github_weekly(snapshots)) == weekly_table(weekly_of(github_items(snapshots))),
{
    let sorted = in_day_order(snapshots);
    assert forall|release_tag: Seq<char>, asset_name: Seq<char>| #[trigger]
        asset_history(sorted, release_tag, asset_name) == asset_history(
            snapshots,
            release_tag,
            asset_name,
        ) by {
        lemma_history_in_day_order(snapshots, release_tag, asset_name);
        assert(days_ascend(asset_history(snapshots, release_tag, asset_name)));
        lemma_in_day_order_of_ascending(asset_history(snapshots, release_tag, asset_name));
    }
    lemma_same_histories_same_totals(sorted, snapshots);
}

/// Of snapshots taken one after the other, the first of an asset adds
/// nothing to any week.
pub proof fn lemma_first_snapshot_adds_nothing(snapshots: Seq<AssetCount>, at: int)
    requires
        0 <= at < snapshots.len(),
        forall|earlier: int|
            0 <= earlier < at ==> !(#[trigger] snapshots[earlier]).same_asset(snapshots[at]),
    ensures
        snapshot_item(snapshots.take(at), snapshots[at]) is None,
        github_items(snapshots.take(at + 1)) == github_items(snapshots.take(at)),
{
    let earlier = snapshots.take(at);
    crate::aggregate::lemma_history_members(
        earlier,
        snapshots[at].release_tag,
        snapshots[at].asset_name,
    );
    if asset_history(earlier, snapshots[at].release_tag, snapshots[at].asset_name).len() > 0 {
        let i = choose|i: int|
            0 <= i < earlier.len() && (#[trigger] earlier[i]).is_of(
                snapshots[at].release_tag,
                snapshots[at].asset_name,
            );
        assert(snapshots[i].same_asset(snapshots[at]));
    }
    crate::aggregate::lemma_github_items_step(snapshots, at);
}

/// An asset with a single snapshot adds nothing: without that snapshot
/// every week has the same total, and the weekly table is the same.
pub proof fn lemma_single_snapshot_adds_nothing(snapshots: Seq<AssetCount>, at: int)
    requires
        0 <= at < snapshots.len(),
        forall|other: int|
            0 <= other < snapshots.len() && other != at ==> !(
            #[trigger] snapshots[other]).same_asset(snapshots[at]),
    ensures
        forall|week: int| #[trigger]
            github_week_total(snapshots, week) == github_week_total(snapshots.remove(at), week),
        weekly_table(github_weekly(snapshots)) == weekly_table(
            github_weekly(snapshots.remove(at)),
        ),
{
    let single = snapshots[at];
    let without = snapshots.remove(at);
    let sorted = in_day_order(snapshots);
    let sorted_without = in_day_order(without);
    // the asset has a history of one snapshot, and none without it
    assert forall|later: int| at < later < snapshots.len() implies !(
    #[trigger] snapshots[later]).is_of(single.release_tag, single.asset_name) by {
        assert(!snapshots[later].same_asset(single));
    }
    lemma_history_remove_last(snapshots, at, single.release_tag, single.asset_name);
    crate::aggregate::lemma_history_members(without, single.release_tag, single.asset_name);
    if asset_history(without, single.release_tag, single.asset_name).len() > 0 {
        let i = choose|i: int|
            0 <= i < without.len() && (#[trigger] without[i]).is_of(
                single.release_tag,
                single.asset_name,
            );
        let other = if i < at { i } else { i + 1 };
        assert(without[i] == snapshots[other]);
        assert(snapshots[other].same_asset(single));
    }
    let history = asset_history(snapshots, single.release_tag, single.asset_name);
    assert(history.len() == 1);
    lemma_history_in_day_order(snapshots, single.release_tag, single.asset_name);
    lemma_in_day_order(history);
    let place = lemma_last_of_asset(sorted, single.release_tag, single.asset_name);
    lemma_history_remove_last(sorted, place, single.release_tag, single.asset_name);
    assert(asset_history(sorted, single.release_tag, single.asset_name).drop_last()
        =~= Seq::<AssetCount>::empty());
    assert(snapshot_item(sorted.take(place), sorted[place]) is None);
    assert forall|release_tag: Seq<char>, asset_name: Seq<char>| #[trigger]
        asset_history(sorted.remove(place), release_tag, asset_name) == asset_history(
            sorted_without,
            release_tag,
            asset_name,
        ) by {
        lemma_history_in_day_order(snapshots, release_tag, asset_name);
        lemma_history_in_day_order(without, release_tag, asset_name);
        if single.is_of(release_tag, asset_name) {
            assert(release_tag == single.release_tag && asset_name == single.asset_name);
            assert(in_day_order(Seq::<AssetCount>::empty()) =~= Seq::<AssetCount>::empty());
        } else {
            lemma_history_remove_other(snapshots, at, release_tag, asset_name);
            lemma_history_remove_other(sorted, place, release_tag, asset_name);
        }
    }
    lemma_same_histories_same_totals(sorted.remove(place), sorted_without);
    assert forall|later: int| place < later < sorted.len() implies !(
    #[trigger] sorted[later]).same_asset(sorted[place]) by {
        assert(!sorted[later].is_of(single.release_tag, single.asset_name));
    }
    lemma_items_remove(sorted, place);
    assert forall|week: int| #[trigger]
        github_week_total(snapshots, week) == github_week_total(without, week) by {
        let key = crate::aggregate::releases_key(week);
        lemma_total_permutation(github_items(sorted), github_items(sorted.remove(place)), key);
    }
    lemma_totals_map_permutation(github_items(sorted), github_items(sorted.remove(place)));
    lemma_weekly_table_totals(github_items(sorted));
    lemma_weekly_table_totals(github_items(sorted.remove(place)));
}

/// Putting two lists of entries into a table one after the other is
/// putting their concatenation into it.
pub proof fn lemma_upsert_all_concat(
    table: Map<WeeklyKey, nat>,
    first: Seq<WeeklyEntry>,
    second: Seq<WeeklyEntry>,
)
    ensures
        upsert_all(upsert_all(table, first), second) == upsert_all(table, first + second),
    decreases second.len(),
{
    if second.len() == 0 {
        assert(first + second =~= first);
    } else {
        lemma_upsert_all_concat(table, first, second.drop_last());
        assert((first + second).drop_last() =~= first + second.drop_last());
        assert((first + second).last() == second.last());
    }
}

/// Aggregating the same raw data again leaves the weekly table as the
/// first aggregation left it.
pub proof fn lemma_aggregation_idempotent(
    table: Map<WeeklyKey, nat>,
    days: Seq<DayCount>,
    snapshots: Seq<AssetCount>,
)
    ensures
        aggregated(aggregated(table, days, snapshots), days, snapshots) == aggregated(
            table,
            days,
            snapshots,
        ),
{
    let entries = crates_weekly(days) + github_weekly(snapshots);
    lemma_upsert_all_concat(table, crates_weekly(days), github_weekly(snapshots));
    lemma_upsert_all_concat(
        aggregated(table, days, snapshots),
        crates_weekly(days),
        github_weekly(snapshots),
    );
    lemma_upsert_all_idempotent(table, entries);
}

/// Whether `key` is a key of release downloads: a Monday, the source of
/// the releases, and the identifier `releases`.
pub open spec fn is_releases_key(key: WeeklyKey) -> bool {
    &&& weekday_index(key.week) == 0
    &&& key.source == Source::Github
    &&& key.identifier == releases_identifier()
}

/// Every item of release downloads stands under a key of release
/// downloads.
proof fn lemma_github_item_keys(snapshots: Seq<AssetCount>)
    ensures
        forall|i: int|
            0 <= i < github_items(snapshots).len() ==> is_releases_key(
                (#[trigger] github_items(snapshots)[i]).0,
            ),
    decreases snapshots.len(),
{
    if snapshots.len() > 0 {
        let front = snapshots.drop_last();
        let before = github_items(front);
        lemma_github_item_keys(front);
        lemma_week_start(snapshots.last().day);
        assert forall|i: int| 0 <= i < github_items(snapshots).len() implies is_releases_key(
            (#[trigger] github_items(snapshots)[i]).0,
        ) by {
            if i < before.len() {
                assert(github_items(snapshots)[i] == before[i]);
            }
        }
    }
}

/// Every weekly total of the registry downloads starts on a Monday, has
/// the registry as its source, and is the total of its week and package.
pub proof fn lemma_crates_weekly_entries(days: Seq<DayCount>)
    ensures
        distinct_keys(crates_weekly(days)),
        forall|j: int|
            0 <= j < crates_weekly(days).len() ==> {
                let entry = #[trigger] crates_weekly(days)[j];
                &&& weekday_index(entry.week) == 0
                &&& entry.source == Source::Crates
                &&& entry.downloads == crates_week_total(days, entry.week, entry.identifier)
                &&& exists|i: int| 0 <= i < days.len() && (#[trigger] days[i]).key() == entry.key()
            },
{
    let items = crates_items(days);
    let keys = keys_in_order(items);
    lemma_weekly_table_totals(items);
    assert forall|j: int| 0 <= j < crates_weekly(days).len() implies {
        let entry = #[trigger] crates_weekly(days)[j];
        &&& weekday_index(entry.week) == 0
        &&& entry.source == Source::Crates
        &&& entry.downloads == crates_week_total(days, entry.week, entry.identifier)
        &&& exists|i: int| 0 <= i < days.len() && (#[trigger] days[i]).key() == entry.key()
    } by {
        let entry = crates_weekly(days)[j];
        assert(entry.key() == keys[j]);
        assert(keys.contains(keys[j]));
        lemma_keys_contains(items, keys[j]);
        let i = choose|i: int| 0 <= i < items.len() && (#[trigger] items[i]).0 == keys[j];
        assert(items[i].0 == days[i].key());
        lemma_week_start(days[i].day);
        assert(keys[j] == WeeklyKey {
            week: entry.week,
            source: Source::Crates,
            identifier: entry.identifier,
        });
    }
}

/// Every weekly total of the release downloads starts on a Monday, has the
/// releases as its source and `releases` as its identifier, and is the
/// total of its week.
pub proof fn lemma_github_weekly_entries(snapshots: Seq<AssetCount>)
    ensures
        distinct_keys(github_weekly(snapshots)),
        forall|j: int|
            0 <= j < github_weekly(snapshots).len() ==> {
                let entry = #[trigger] github_weekly(snapshots)[j];
                &&& is_releases_key(entry.key())
                &&& entry.downloads == github_week_total(snapshots, entry.week)
            },
{
    let items = github_items(in_day_order(snapshots));
    let keys = keys_in_order(items);
    lemma_weekly_table_totals(items);
    lemma_github_item_keys(in_day_order(snapshots));
    assert forall|j: int| 0 <= j < github_weekly(snapshots).len() implies {
        let entry = #[trigger] github_weekly(snapshots)[j];
        &&& is_releases_key(entry.key())
        &&& entry.downloads == github_week_total(snapshots, entry.week)
    } by {
        let entry = github_weekly(snapshots)[j];
        assert(entry.key() == keys[j]);
        assert(keys.contains(keys[j]));
        lemma_keys_contains(items, keys[j]);
        let i = choose|i: int| 0 <= i < items.len() && (#[trigger] items[i]).0 == keys[j];
        assert(is_releases_key(items[i].0));
        assert(crate::aggregate::releases_key(entry.week) == keys[j]);
    }
}

/// The two stages write under keys of different sources, so the order in
/// which they run decides nothing: the table is the same with the release
/// totals put first.
pub proof fn lemma_stage_order_irrelevant(
    table: Map<WeeklyKey, nat>,
    days: Seq<DayCount>,
    snapshots: Seq<AssetCount>,
)
    ensures
        aggregated(table, days, snapshots) == upsert_all(
            upsert_all(table, github_weekly(snapshots)),
            crates_weekly(days),
        ),
{
    let crates = crates_weekly(days);
    let github = github_weekly(snapshots);
    let first = upsert_all(table, crates);
    let one = upsert_all(first, github);
    let second = upsert_all(table, github);
    let other = upsert_all(second, crates);
    lemma_crates_weekly_entries(days);
    lemma_github_weekly_entries(snapshots);
    assert forall|key: WeeklyKey|
        !(latest_for(crates, key) is Some && latest_for(github, key) is Some) by {
        lemma_latest_is_entry(crates, key);
        lemma_latest_is_entry(github, key);
        if latest_for(crates, key) is Some && latest_for(github, key) is Some {
            let i = choose|i: int| 0 <= i < crates.len() && (#[trigger] crates[i]).key() == key;
            let j = choose|j: int| 0 <= j < github.len() && (#[trigger] github[j]).key() == key;
            assert(crates[i].source == Source::Crates);
            assert(is_releases_key(github[j].key()));
        }
    }
    assert forall|key: WeeklyKey| #[trigger] one.dom().contains(key) == other.dom().contains(key) by {
        lemma_upsert_all_lookup(table, crates, key);
        lemma_upsert_all_lookup(first, github, key);
        lemma_upsert_all_lookup(table, github, key);
        lemma_upsert_all_lookup(second, crates, key);
    }
    assert(one.dom() =~= other.dom());
    assert forall|key: WeeklyKey| one.dom().contains(key) implies #[trigger] one[key]
        == other[key] by {
        lemma_upsert_all_lookup(table, crates, key);
        lemma_upsert_all_lookup(first, github, key);
        lemma_upsert_all_lookup(table, github, key);
        lemma_upsert_all_lookup(second, crates, key);
        assert(!(latest_for(crates, key) is Some && latest_for(github, key) is Some));
    }
    assert(one =~= other);
}

/// Whether every day of `snapshots` is later than the one before.
pub open spec fn days_strictly_ascend(snapshots: Seq<AssetCount>) -> bool {
    forall|i: int, j: int|
        0 <= i < j < snapshots.len() ==> (#[trigger] snapshots[i]).day < (#[trigger] snapshots[j]).day
}

/// `snapshots` with `snapshot` added where it is of the asset.
spec fn with_snapshot(
    snapshots: Multiset<AssetCount>,
    snapshot: AssetCount,
    release_tag: Seq<char>,
    asset_name: Seq<char>,
) -> Multiset<AssetCount> {
    if snapshot.is_of(release_tag, asset_name) {
        snapshots.insert(snapshot)
    } else {
        snapshots
    }
}

/// The history of an asset holds the snapshots of its history without one
/// snapshot, and that snapshot where it is of the asset.
proof fn lemma_history_without(
    snapshots: Seq<AssetCount>,
    at: int,
    release_tag: Seq<char>,
    asset_name: Seq<char>,
)
    requires
        0 <= at < snapshots.len(),
    ensures
        asset_history(snapshots, release_tag, asset_name).to_multiset() == with_snapshot(
            asset_history(snapshots.remove(at), release_tag, asset_name).to_multiset(),
            snapshots[at],
            release_tag,
            asset_name,
        ),
    decreases snapshots.len(),
{
    broadcast use group_to_multiset_ensures;

    let front = snapshots.drop_last();
    if at == snapshots.len() - 1 {
        assert(snapshots.remove(at) =~= front);
    } else {
        let last = snapshots.last();
        lemma_history_without(front, at, release_tag, asset_name);
        assert(snapshots.remove(at).drop_last() =~= front.remove(at));
        assert(snapshots.remove(at).last() == last);
        let rest = asset_history(front.remove(at), release_tag, asset_name).to_multiset();
        if last.is_of(release_tag, asset_name) && snapshots[at].is_of(release_tag, asset_name) {
            assert(rest.insert(snapshots[at]).insert(last) =~= rest.insert(last).insert(
                snapshots[at],
            ));
        }
    }
}

/// Rows in another order give every asset the same snapshots.
proof fn lemma_history_permutation(
    a: Seq<AssetCount>,
    b: Seq<AssetCount>,
    release_tag: Seq<char>,
    asset_name: Seq<char>,
)
    requires
        a.to_multiset() == b.to_multiset(),
    ensures
        asset_history(a, release_tag, asset_name).to_multiset() == asset_history(
            b,
            release_tag,
            asset_name,
        ).to_multiset(),
    decreases a.len(),
{
    broadcast use group_to_multiset_ensures;

    a.to_multiset_ensures();
    b.to_multiset_ensures();
    if a.len() == 0 {
        assert(b.len() == 0);
        assert(a =~= b);
    } else {
        let last = a.last();
        let front = a.drop_last();
        assert(a =~= front.push(last));
        assert(a.to_multiset().count(last) > 0);
        assert(b.contains(last));
        let at = choose|i: int| 0 <= i < b.len() && b[i] == last;
        to_multiset_remove(b, at);
        assert(front.to_multiset() =~= a.to_multiset().remove(last));
        lemma_history_permutation(front, b.remove(at), release_tag, asset_name);
        lemma_history_without(b, at, release_tag, asset_name);
    }
}

/// Snapshots with the same members are the same once they are in the
/// order of their days, where no two of them are of one day.
proof fn lemma_day_order_is_unique(x: Seq<AssetCount>, y: Seq<AssetCount>)
    requires
        days_strictly_ascend(x),
        days_ascend(y),
        x.to_multiset() == y.to_multiset(),
    ensures
        x == y,
    decreases x.len(),
{
    broadcast use group_to_multiset_ensures;

    x.to_multiset_ensures();
    y.to_multiset_ensures();
    if x.len() == 0 {
        assert(y.len() == 0);
        assert(x =~= y);
    } else {
        let top = x.len() - 1;
        let last = x[top];
        assert(x.to_multiset().count(last) > 0) by {
            assert(x.contains(last));
        }
        assert(y.contains(last));
        let p = choose|i: int| 0 <= i < y.len() && y[i] == last;
        assert(y.to_multiset().count(y[top]) > 0) by {
            assert(y.contains(y[top]));
        }
        assert(x.contains(y[top]));
        let q = choose|i: int| 0 <= i < x.len() && x[i] == y[top];
        if p < top {
            assert(y[p].day <= y[top].day);
        }
        if q < top {
            assert(x[q].day < x[top].day);
        }
        assert(y[top] == last);
        let x_front = x.drop_last();
        let y_front = y.drop_last();
        assert(x =~= x_front.push(last));
        assert(y =~= y_front.push(last));
        assert(x_front.to_multiset() =~= x.to_multiset().remove(last));
        assert(y_front.to_multiset() =~= y.to_multiset().remove(last));
        assert forall|i: int, j: int| 0 <= i < j < x_front.len() implies (
        #[trigger] x_front[i]).day < (#[trigger] x_front[j]).day by {
            assert(x[i].day < x[j].day);
        }
        assert forall|i: int, j: int| 0 <= i < j < y_front.len() implies (
        #[trigger] y_front[i]).day <= (#[trigger] y_front[j]).day by {
            assert(y[i].day <= y[j].day);
        }
        lemma_day_order_is_unique(x_front, y_front);
    }
}

/// Release aggregation does not depend on the order of the rows: where no
/// asset has two snapshots of one day, rows in another order give every
/// week the same total, and so the same weekly table.
pub proof fn lemma_github_row_order_independent(a: Seq<AssetCount>, b: Seq<AssetCount>)
    requires
        a.to_multiset() == b.to_multiset(),
        forall|release_tag: Seq<char>, asset_name: Seq<char>|
            days_strictly_ascend(
                in_day_order(#[trigger] asset_history(a, release_tag, asset_name)),
            ),
    ensures
        forall|week: int| #[trigger] github_week_total(a, week) == github_week_total(b, week),
        weekly_table(github_weekly(a)) == weekly_table(github_weekly(b)),
{
    assert forall|release_tag: Seq<char>, asset_name: Seq<char>|
        in_day_order(#[trigger] asset_history(a, release_tag, asset_name)) == in_day_order(
            #[trigger] asset_history(b, release_tag, asset_name),
        ) by {
        let of_a = asset_history(a, release_tag, asset_name);
        let of_b = asset_history(b, release_tag, asset_name);
        lemma_history_permutation(a, b, release_tag, asset_name);
        lemma_in_day_order(of_a);
        lemma_in_day_order(of_b);
        assert(days_strictly_ascend(in_day_order(of_a)));
        lemma_day_order_is_unique(in_day_order(of_a), in_day_order(of_b));
    }
    lemma_github_asset_order_independent(a, b);
}

/// The sum of the downloads of weekly totals.
pub open spec fn sum_of_downloads(entries: Seq<WeeklyEntry>) -> nat
    decreases entries.len(),
{
    if entries.len() == 0 {
        0
    } else {
        sum_of_downloads(entries.drop_last()) + entries.last().downloads
    }
}

/// The weekly totals add up to the sum of all amounts.
proof fn lemma_weekly_sum(items: Seq<(WeeklyKey, nat)>)
    ensures
        sum_of_downloads(weekly_of(items)) == sum_of_amounts(items),
{
    lemma_grouped_sum(items);
    lemma_same_amounts(weekly_of(items), grouped(items));
}

/// Entries and items that agree in their amounts, one by one, have the
/// same sum.
proof fn lemma_same_amounts(entries: Seq<WeeklyEntry>, items: Seq<(WeeklyKey, nat)>)
    requires
        entries.len() == items.len(),
        forall|j: int| 0 <= j < entries.len() ==> (#[trigger] entries[j]).downloads == items[j].1,
    ensures
        sum_of_downloads(entries) == sum_of_amounts(items),
    decreases entries.len(),
{
    if entries.len() > 0 {
        let top = entries.len() - 1;
        assert(entries[top].downloads == items[top].1);
        assert forall|j: int| 0 <= j < top implies (#[trigger] entries.drop_last()[j]).downloads
            == items.drop_last()[j].1 by {
            assert(entries[j].downloads == items[j].1);
        }
        lemma_same_amounts(entries.drop_last(), items.drop_last());
    }
}

/// Whether the counter of no asset goes down from a snapshot to a later
/// one in the sequence.
pub open spec fn counts_never_go_down(snapshots: Seq<AssetCount>) -> bool {
    forall|i: int, j: int|
        0 <= i < j < snapshots.len() && (#[trigger] snapshots[i]).same_asset(
            #[trigger] snapshots[j],
        ) ==> snapshots[i].count <= snapshots[j].count
}

/// Whether no snapshot before the one at `at` is of its asset.
pub open spec fn is_first_of_asset(snapshots: Seq<AssetCount>, at: int) -> bool {
    forall|j: int| 0 <= j < at ==> !(#[trigger] snapshots[j]).same_asset(snapshots[at])
}

/// Whether no snapshot behind the one at `at` is of its asset.
pub open spec fn is_last_of_asset(snapshots: Seq<AssetCount>, at: int) -> bool {
    forall|j: int| at < j < snapshots.len() ==> !(#[trigger] snapshots[j]).same_asset(snapshots[at])
}

/// The counts of those of the first `n` snapshots that are the first of
/// their asset, added up.
pub open spec fn first_counts(snapshots: Seq<AssetCount>, n: int) -> nat
    decreases n,
{
    if n <= 0 {
        0
    } else {
        first_counts(snapshots, n - 1) + if is_first_of_asset(snapshots, n - 1) {
            snapshots[n - 1].count
        } else {
            0
        }
    }
}

/// The counts of those of the first `n` snapshots that are the last of
/// their asset, added up.
pub open spec fn last_counts(snapshots: Seq<AssetCount>, n: int) -> nat
    decreases n,
{
    if n <= 0 {
        0
    } else {
        last_counts(snapshots, n - 1) + if is_last_of_asset(snapshots, n - 1) {
            snapshots[n - 1].count
        } else {
            0
        }
    }
}

/// One more snapshot leaves the first of every asset among the snapshots
/// before it as they were.
proof fn lemma_first_counts_push(snapshots: Seq<AssetCount>, next: AssetCount, n: int)
    requires
        0 <= n <= snapshots.len(),
    ensures
        first_counts(snapshots.push(next), n) == first_counts(snapshots, n),
    decreases n,
{
    if n > 0 {
        let longer = snapshots.push(next);
        lemma_first_counts_push(snapshots, next, n - 1);
        assert(longer[n - 1] == snapshots[n - 1]);
        if is_first_of_asset(snapshots, n - 1) {
            assert forall|j: int| 0 <= j < n - 1 implies !(#[trigger] longer[j]).same_asset(
                longer[n - 1],
            ) by {
                assert(!snapshots[j].same_asset(snapshots[n - 1]));
            }
        }
        if is_first_of_asset(longer, n - 1) {
            assert forall|j: int| 0 <= j < n - 1 implies !(#[trigger] snapshots[j]).same_asset(
                snapshots[n - 1],
            ) by {
                assert(!longer[j].same_asset(longer[n - 1]));
            }
        }
    }
}

/// One more snapshot takes the place of the last snapshot of its asset:
/// the counts of the last of every asset among the snapshots before it
/// lose the count of the snapshot at `previous`, where there is one.
proof fn lemma_last_counts_push(
    snapshots: Seq<AssetCount>,
    next: AssetCount,
    previous: int,
    n: int,
)
    requires
        0 <= n <= snapshots.len(),
        -1 <= previous < snapshots.len(),
        previous >= 0 ==> snapshots[previous].same_asset(next),
        forall|j: int|
            previous < j < snapshots.len() ==> !(#[trigger] snapshots[j]).same_asset(next),
    ensures
        last_counts(snapshots.push(next), n) == last_counts(snapshots, n) - if 0 <= previous < n {
            snapshots[previous].count as int
        } else {
            0
        },
    decreases n,
{
    if n > 0 {
        let longer = snapshots.push(next);
        let at = n - 1;
        lemma_last_counts_push(snapshots, next, previous, n - 1);
        assert(longer[at] == snapshots[at]);
        assert(longer[snapshots.len() as int] == next);
        if snapshots[at].same_asset(next) {
            assert(at <= previous);
            assert(!is_last_of_asset(longer, at)) by {
                assert(longer[snapshots.len() as int].same_asset(longer[at]));
            }
            if at == previous {
                assert forall|j: int| at < j < snapshots.len() implies !(
                #[trigger] snapshots[j]).same_asset(snapshots[at]) by {
                    assert(!snapshots[j].same_asset(next));
                }
            } else {
                assert(snapshots[previous].same_asset(snapshots[at]));
            }
        } else {
            if is_last_of_asset(snapshots, at) {
                assert forall|j: int| at < j < longer.len() implies !(
                #[trigger] longer[j]).same_asset(longer[at]) by {
                    if j < snapshots.len() {
                        assert(!snapshots[j].same_asset(snapshots[at]));
                    }
                }
            }
            if is_last_of_asset(longer, at) {
                assert forall|j: int| at < j < snapshots.len() implies !(
                #[trigger] snapshots[j]).same_asset(snapshots[at]) by {
                    assert(!longer[j].same_asset(longer[at]));
                }
            }
        }
    }
}

/// Of snapshots taken one after the other whose counters never go down,
/// the growth adds up to the counts of the last snapshot of every asset
/// less the counts of the first.
proof fn lemma_growth_in_sequence(snapshots: Seq<AssetCount>)
    requires
        counts_never_go_down(snapshots),
    ensures
        sum_of_amounts(github_items(snapshots)) == last_counts(snapshots, snapshots.len() as int)
            - first_counts(snapshots, snapshots.len() as int),
    decreases snapshots.len(),
{
    if snapshots.len() > 0 {
        let front = snapshots.drop_last();
        let next = snapshots.last();
        let top = front.len() as int;
        assert(snapshots =~= front.push(next));
        assert forall|i: int, j: int|
            0 <= i < j < front.len() && (#[trigger] front[i]).same_asset(
                #[trigger] front[j],
            ) implies front[i].count <= front[j].count by {
            assert(snapshots[i].same_asset(snapshots[j]));
        }
        lemma_growth_in_sequence(front);
        lemma_first_counts_push(front, next, top);
        crate::aggregate::lemma_history_members(front, next.release_tag, next.asset_name);
        let history = asset_history(front, next.release_tag, next.asset_name);
        if history.len() > 0 {
            let previous = lemma_last_of_asset(front, next.release_tag, next.asset_name);
            lemma_history_remove_last(front, previous, next.release_tag, next.asset_name);
            assert(snapshots[previous].same_asset(snapshots[top]));
            assert(front[previous].count <= next.count);
            assert forall|j: int| previous < j < front.len() implies !(
            #[trigger] front[j]).same_asset(next) by {
                assert(!front[j].is_of(next.release_tag, next.asset_name));
            }
            lemma_last_counts_push(front, next, previous, top);
            let item = snapshot_item(front, next).unwrap();
            lemma_sum_push(github_items(front), item);
            assert(!is_first_of_asset(snapshots, top)) by {
                assert(snapshots[previous].same_asset(snapshots[top]));
            }
            assert(is_last_of_asset(snapshots, top));
        } else {
            assert forall|j: int| 0 <= j < front.len() implies !(#[trigger] front[j]).same_asset(
                next,
            ) by {
                assert(!front[j].is_of(next.release_tag, next.asset_name));
            }
            lemma_last_counts_push(front, next, -1, top);
            assert(is_first_of_asset(snapshots, top)) by {
                assert forall|j: int| 0 <= j < top implies !(#[trigger] snapshots[j]).same_asset(
                    snapshots[top],
                ) by {
                    assert(!front[j].same_asset(next));
                }
            }
            assert(is_last_of_asset(snapshots, top));
        }
    }
}

/// Where the counter of no asset ever goes down, the weekly totals of the
/// release downloads add up to what the assets have grown by: the count of
/// the latest snapshot of each asset less the count of its earliest. (In
/// the order of the days the last snapshot of an asset is its latest and
/// the first its earliest.)
pub proof fn lemma_growth_is_latest_less_earliest(snapshots: Seq<AssetCount>)
    requires
        counts_never_go_down(in_day_order(snapshots)),
    ensures
        sum_of_downloads(github_weekly(snapshots)) == last_counts(
            in_day_order(snapshots),
            snapshots.len() as int,
        ) - first_counts(in_day_order(snapshots), snapshots.len() as int),
{
    let ordered = in_day_order(snapshots);
    lemma_in_day_order(snapshots);
    lemma_growth_in_sequence(ordered);
    lemma_weekly_sum(github_items(ordered));
}

} // verus!
