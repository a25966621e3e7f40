//! Sums per key over a sequence of keyed amounts.
//!
//! An item is a pair of a key and an amount. The total of a key is the sum of
//! the amounts of the items that carry it; the keys of a sequence are listed
//! in the order in which each first occurs. The totals do not depend on the
//! order of the items.

use vstd::multiset::*;
use vstd::prelude::*;
use vstd::seq_lib::*;

verus! {

/// The amount that `item` adds to the total of `key`.
pub open spec fn amount_for<K>(item: (K, nat), key: K) -> nat {
    if item.0 == key {
        item.1
    } else {
        0
    }
}

/// The sum of the amounts of the items of `items` that carry `key`.
pub open spec fn total_for<K>(items: Seq<(K, nat)>, key: K) -> nat
    decreases items.len(),
{
    if items.len() == 0 {
        0
    } else {
        total_for(items.drop_last(), key) + amount_for(items.last(), key)
    }
}

/// Whether some item of `items` carries `key`.
pub open spec fn has_key<K>(items: Seq<(K, nat)>, key: K) -> bool {
    exists|i: int| 0 <= i < items.len() && (#[trigger] items[i]).0 == key
}

/// The keys of `items`, each once, in the order of their first occurrence.
pub open spec fn keys_in_order<K>(items: Seq<(K, nat)>) -> Seq<K>
    decreases items.len(),
{
    if items.len() == 0 {
        Seq::empty()
    } else {
        let before = keys_in_order(items.drop_last());
        if before.contains(items.last().0) {
            before
        } else {
            before.push(items.last().0)
        }
    }
}

/// The keys of `items` in the order of their first occurrence, each with its
/// total.
pub open spec fn grouped<K>(items: Seq<(K, nat)>) -> Seq<(K, nat)> {
    let keys = keys_in_order(items);
    Seq::new(keys.len(), |j: int| (keys[j], total_for(items, keys[j])))
}

/// The totals of `items` as a map from each key that occurs to its total.
pub open spec fn totals_map<K>(items: Seq<(K, nat)>) -> Map<K, nat> {
    Map::new(|key: K| has_key(items, key), |key: K| total_for(items, key))
}

/// Appending an item adds its amount to the total of its key and leaves the
/// other totals as they were.
pub proof fn lemma_total_push<K>(items: Seq<(K, nat)>, item: (K, nat), key: K)
    ensures
        total_for(items.push(item), key) == total_for(items, key) + amount_for(item, key),
{
    assert(items.push(item).drop_last() =~= items);
}

/// Appending an item appends its key to the keys unless it is there already.
pub proof fn lemma_keys_push<K>(items: Seq<(K, nat)>, item: (K, nat))
    ensures
        keys_in_order(items.push(item)) == if keys_in_order(items).contains(item.0) {
            keys_in_order(items)
        } else {
            keys_in_order(items).push(item.0)
        },
{
    assert(items.push(item).drop_last() =~= items);
}

/// The listed keys are exactly the keys that occur.
pub proof fn lemma_keys_contains<K>(items: Seq<(K, nat)>, key: K)
    ensures
        keys_in_order(items).contains(key) <==> has_key(items, key),
    decreases items.len(),
{
    if items.len() > 0 {
        let front = items.drop_last();
        let before = keys_in_order(front);
        lemma_keys_contains(front, key);
        lemma_keys_contains(front, items.last().0);
        if has_key(items, key) {
            let i = choose|i: int| 0 <= i < items.len() && (#[trigger] items[i]).0 == key;
            if i < items.len() - 1 {
                assert(front[i].0 == key);
                assert(before.contains(key));
                let j = choose|j: int| 0 <= j < before.len() && before[j] == key;
                assert(keys_in_order(items)[j] == key);
            } else if before.contains(key) {
            } else {
                assert(before.push(key).last() == key);
            }
        }
        if keys_in_order(items).contains(key) {
            if before.contains(key) {
                let i = choose|i: int| 0 <= i < front.len() && (#[trigger] front[i]).0 == key;
                assert(items[i].0 == key);
            } else {
                assert(items[items.len() - 1].0 == key);
            }
        }
    }
}

/// No key is listed twice.
pub proof fn lemma_keys_distinct<K>(items: Seq<(K, nat)>)
    ensures
        keys_in_order(items).no_duplicates(),
    decreases items.len(),
{
    if items.len() > 0 {
        lemma_keys_distinct(items.drop_last());
    }
}

/// A key that no item carries has the total 0.
pub proof fn lemma_total_without_key<K>(items: Seq<(K, nat)>, key: K)
    requires
        !has_key(items, key),
    ensures
        total_for(items, key) == 0,
    decreases items.len(),
{
    if items.len() > 0 {
        let front = items.drop_last();
        assert(items[items.len() - 1].0 != key);
        assert forall|i: int| 0 <= i < front.len() implies (#[trigger] front[i]).0 != key by {
            assert(items[i].0 != key);
        }
        lemma_total_without_key(front, key);
    }
}

/// The total of a key over the first `n` items is at most its total over
/// all of them.
pub proof fn lemma_total_prefix<K>(items: Seq<(K, nat)>, n: int, key: K)
    requires
        0 <= n <= items.len(),
    ensures
        total_for(items.take(n), key) <= total_for(items, key),
    decreases items.len() - n,
{
    if n < items.len() {
        lemma_total_prefix(items, n + 1, key);
        assert(items.take(n + 1).drop_last() =~= items.take(n));
    } else {
        assert(items.take(n) =~= items);
    }
}

/// Taking one item out lowers the total of its key by its amount and leaves
/// the other totals as they were.
pub proof fn lemma_total_remove<K>(items: Seq<(K, nat)>, at: int, key: K)
    requires
        0 <= at < items.len(),
    ensures
        total_for(items, key) == total_for(items.remove(at), key) + amount_for(items[at], key),
    decreases items.len(),
{
    if at == items.len() - 1 {
        assert(items.remove(at) =~= items.drop_last());
    } else {
        lemma_total_remove(items.drop_last(), at, key);
        assert(items.remove(at).drop_last() =~= items.drop_last().remove(at));
        assert(items.remove(at).last() == items.last());
    }
}

/// The totals do not depend on the order of the items: two sequences that
/// hold the same items, each as often as the other, give every key the same
/// total.
pub proof fn lemma_total_permutation<K>(a: Seq<(K, nat)>, b: Seq<(K, nat)>, key: K)
    requires
        a.to_multiset() == b.to_multiset(),
    ensures
        total_for(a, key) == total_for(b, key),
    decreases a.len(),
{
    broadcast use group_to_multiset_ensures;

    a.to_multiset_ensures();
    b.to_multiset_ensures();
    if a.len() == 0 {
        assert(b.len() == 0);
    } else {
        let item = a.last();
        let front = a.drop_last();
        assert(a =~= front.push(item));
        assert(a.to_multiset().count(item) > 0);
        assert(b.contains(item));
        let at = choose|i: int| 0 <= i < b.len() && b[i] == item;
        to_multiset_remove(b, at);
        assert(front.to_multiset() =~= a.to_multiset().remove(item));
        lemma_total_permutation(front, b.remove(at), key);
        lemma_total_remove(b, at, key);
    }
}

/// Two sequences that hold the same items, each as often as the other, have
/// the same keys.
pub proof fn lemma_has_key_permutation<K>(a: Seq<(K, nat)>, b: Seq<(K, nat)>, key: K)
    requires
        a.to_multiset() == b.to_multiset(),
    ensures
        has_key(a, key) == has_key(b, key),
{
    broadcast use group_to_multiset_ensures;

    a.to_multiset_ensures();
    b.to_multiset_ensures();
    if has_key(a, key) {
        let i = choose|i: int| 0 <= i < a.len() && (#[trigger] a[i]).0 == key;
        assert(a.contains(a[i]));
        assert(b.to_multiset().count(a[i]) > 0);
        assert(b.contains(a[i]));
        let j = choose|j: int| 0 <= j < b.len() && b[j] == a[i];
        assert(b[j].0 == key);
    }
    if has_key(b, key) {
        let i = choose|i: int| 0 <= i < b.len() && (#[trigger] b[i]).0 == key;
        assert(b.contains(b[i]));
        assert(a.to_multiset().count(b[i]) > 0);
        assert(a.contains(b[i]));
        let j = choose|j: int| 0 <= j < a.len() && a[j] == b[i];
        assert(a[j].0 == key);
    }
}

/// The map of totals does not depend on the order of the items.
pub proof fn lemma_totals_map_permutation<K>(a: Seq<(K, nat)>, b: Seq<(K, nat)>)
    requires
        a.to_multiset() == b.to_multiset(),
    ensures
        totals_map(a) == totals_map(b),
{
    assert forall|key: K| has_key(a, key) == has_key(b, key) by {
        lemma_has_key_permutation(a, b, key);
    }
    assert forall|key: K| total_for(a, key) == total_for(b, key) by {
        lemma_total_permutation(a, b, key);
    }
    assert(totals_map(a) =~= totals_map(b));
}

/// The sum of the amounts of all items.
pub open spec fn sum_of_amounts<K>(items: Seq<(K, nat)>) -> nat
    decreases items.len(),
{
    if items.len() == 0 {
        0
    } else {
        sum_of_amounts(items.drop_last()) + items.last().1
    }
}

/// Appending an item adds its amount to the sum.
pub proof fn lemma_sum_push<K>(items: Seq<(K, nat)>, item: (K, nat))
    ensures
        sum_of_amounts(items.push(item)) == sum_of_amounts(items) + item.1,
{
    assert(items.push(item).drop_last() =~= items);
}

/// Replacing an item changes the sum by the difference of the amounts.
pub proof fn lemma_sum_update<K>(items: Seq<(K, nat)>, at: int, item: (K, nat))
    requires
        0 <= at < items.len(),
    ensures
        sum_of_amounts(items.update(at, item)) == sum_of_amounts(items) - items[at].1 + item.1,
    decreases items.len(),
{
    if at == items.len() - 1 {
        assert(items.update(at, item).drop_last() =~= items.drop_last());
    } else {
        lemma_sum_update(items.drop_last(), at, item);
        assert(items.update(at, item).drop_last() =~= items.drop_last().update(at, item));
    }
}

/// The totals of all keys add up to the sum of all amounts.
pub proof fn lemma_grouped_sum<K>(items: Seq<(K, nat)>)
    ensures
        sum_of_amounts(grouped(items)) == sum_of_amounts(items),
    decreases items.len(),
{
    if items.len() == 0 {
        assert(grouped(items) =~= Seq::empty());
    } else {
        let front = items.drop_last();
        let item = items.last();
        let keys = keys_in_order(front);
        lemma_grouped_sum(front);
        assert(items =~= front.push(item));
        lemma_keys_push(front, item);
        lemma_keys_distinct(front);
        assert forall|key: K|
            total_for(items, key) == total_for(front, key) + amount_for(item, key) by {
            lemma_total_push(front, item, key);
        }
        if keys.contains(item.0) {
            let at = choose|j: int| 0 <= j < keys.len() && keys[j] == item.0;
            let raised = (item.0, total_for(front, item.0) + item.1);
            assert(grouped(items) =~= grouped(front).update(at, raised));
            lemma_sum_update(grouped(front), at, raised);
        } else {
            lemma_keys_contains(front, item.0);
            lemma_total_without_key(front, item.0);
            assert(grouped(items) =~= grouped(front).push((item.0, item.1)));
            lemma_sum_push(grouped(front), (item.0, item.1));
        }
    }
}

} // verus!
