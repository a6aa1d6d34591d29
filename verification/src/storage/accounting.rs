//! Sums of logical bytes over keys.

use super::model::Dataset;
use super::store::Entry;
use crate::ordered;
use crate::ordered::ByteMap;
use crate::storage::model;
use crate::storage::store;
use vstd::prelude::*;

verus! {

/// Whether no key occurs twice.
pub open spec fn distinct(keys: Seq<Seq<u8>>) -> bool {
    forall|i: int, j: int| 0 <= i < j < keys.len() ==> #[trigger] keys[i] != #[trigger] keys[j]
}

pub proof fn lemma_ascending_distinct(keys: Seq<Seq<u8>>)
    requires
        ordered::ascending(keys),
    ensures
        distinct(keys),
{
    assert forall|i: int, j: int| 0 <= i < j < keys.len() implies #[trigger] keys[i]
        != #[trigger] keys[j] by {
        assert(ordered::precedes(keys[i], keys[j]));
        ordered::lemma_precedes_irreflexive(keys[i]);
    }
}

pub proof fn lemma_costs_remove(data: Dataset, keys: Seq<Seq<u8>>, index: int)
    requires
        0 <= index < keys.len(),
    ensures
        model::costs_of(data, keys) == model::costs_of(data, keys.remove(index)) + model::cost_of(data, keys[index]),
    decreases keys.len(),
{
    let rest = keys.remove(index);
    if index == keys.len() - 1 {
        assert(rest =~= keys.drop_last());
    } else {
        assert(rest.drop_last() =~= keys.drop_last().remove(index));
        assert(rest.last() == keys.last());
        lemma_costs_remove(data, keys.drop_last(), index);
    }
}

pub proof fn lemma_costs_nonnegative(data: Dataset, keys: Seq<Seq<u8>>)
    ensures
        model::costs_of(data, keys) >= 0,
    decreases keys.len(),
{
    if keys.len() > 0 {
        lemma_costs_nonnegative(data, keys.drop_last());
    }
}

/// Distinct keys take no more than all keys together.
pub proof fn lemma_costs_subset(data: Dataset, some: Seq<Seq<u8>>, all: Seq<Seq<u8>>)
    requires
        distinct(some),
        forall|i: int|
            0 <= i < some.len() && data.entries.contains_key(#[trigger] some[i]) ==> all.contains(
                some[i],
            ),
    ensures
        model::costs_of(data, some) <= model::costs_of(data, all),
    decreases some.len(),
{
    if some.len() == 0 {
        lemma_costs_nonnegative(data, all);
    } else {
        let key = some.last();
        let front = some.drop_last();
        assert(distinct(front)) by {
            assert forall|i: int, j: int| 0 <= i < j < front.len() implies #[trigger] front[i]
                != #[trigger] front[j] by {
                assert(some[i] != some[j]);
            }
        }
        assert(key == some[some.len() - 1]);
        if data.entries.contains_key(key) {
            assert(all.contains(key));
            let at = choose|j: int| 0 <= j < all.len() && all[j] == key;
            let rest = all.remove(at);
            lemma_costs_remove(data, all, at);
            assert forall|i: int|
                0 <= i < front.len() && data.entries.contains_key(
                    #[trigger] front[i],
                ) implies rest.contains(front[i]) by {
                assert(some[i] == front[i]);
                assert(some[i] != some[some.len() - 1]);
                assert(all.contains(some[i]));
                let j = choose|j: int| 0 <= j < all.len() && all[j] == some[i];
                if j < at {
                    assert(rest[j] == front[i]);
                } else {
                    assert(rest[j - 1] == front[i]);
                }
            }
            lemma_costs_subset(data, front, rest);
        } else {
            assert forall|i: int|
                0 <= i < front.len() && data.entries.contains_key(
                    #[trigger] front[i],
                ) implies all.contains(front[i]) by {
                assert(some[i] == front[i]);
            }
            lemma_costs_subset(data, front, all);
        }
    }
}

/// The entries of a map cost what its keys cost.
pub proof fn lemma_total_costs(data: Dataset, items: &ByteMap<Entry>, count: int)
    requires
        items.wf(),
        data.entries == items@.map_values(|entry: Entry| entry.model()),
        0 <= count <= items.items@.len(),
    ensures
        store::total(items.items@.take(count)) == model::costs_of(data, items.keys().take(count)),
    decreases count,
{
    if count > 0 {
        lemma_total_costs(data, items, count - 1);
        let keys = items.keys();
        items.lemma_at(count - 1);
        assert(items.items@.take(count).drop_last() =~= items.items@.take(count - 1));
        assert(keys.take(count).drop_last() =~= keys.take(count - 1));
        assert(data.entries.contains_key(items.key_at(count - 1)));
    }
}

pub proof fn lemma_text_costs_grow(keys: Seq<Seq<u8>>, texts: Map<Seq<u8>, Seq<u8>>, count: int)
    requires
        0 <= count <= keys.len(),
    ensures
        0 <= model::text_costs(keys.take(count), texts) <= model::text_costs(keys, texts),
    decreases keys.len() - count,
{
    if count < keys.len() {
        lemma_text_costs_grow(keys, texts, count + 1);
        assert(keys.take(count + 1).drop_last() =~= keys.take(count));
        lemma_text_costs_nonnegative(keys.take(count), texts);
    } else {
        assert(keys.take(count) =~= keys);
        lemma_text_costs_nonnegative(keys, texts);
    }
}

pub proof fn lemma_text_costs_nonnegative(keys: Seq<Seq<u8>>, texts: Map<Seq<u8>, Seq<u8>>)
    ensures
        0 <= model::text_costs(keys, texts),
    decreases keys.len(),
{
    if keys.len() > 0 {
        lemma_text_costs_nonnegative(keys.drop_last(), texts);
    }
}

pub proof fn lemma_distinct_take(keys: Seq<Seq<u8>>, count: int)
    requires
        distinct(keys),
        0 <= count <= keys.len(),
    ensures
        distinct(keys.take(count)),
{
    let part = keys.take(count);
    assert forall|i: int, j: int| 0 <= i < j < part.len() implies #[trigger] part[i]
        != #[trigger] part[j] by {
        assert(keys[i] != keys[j]);
    }
}

/// What the keys take depends on nothing but their own entries.
pub proof fn lemma_costs_same(left: Dataset, right: Dataset, keys: Seq<Seq<u8>>)
    requires
        forall|i: int|
            0 <= i < keys.len() ==> model::cost_of(left, #[trigger] keys[i]) == model::cost_of(
                right,
                keys[i],
            ),
    ensures
        model::costs_of(left, keys) == model::costs_of(right, keys),
    decreases keys.len(),
{
    if keys.len() > 0 {
        let front = keys.drop_last();
        assert forall|i: int| 0 <= i < front.len() implies model::cost_of(left, #[trigger] front[i])
            == model::cost_of(right, front[i]) by {
            assert(front[i] == keys[i]);
        }
        lemma_costs_same(left, right, front);
        assert(keys[keys.len() - 1] == keys.last());
    }
}

/// What distinct keys take when one of them changes.
pub proof fn lemma_costs_change(left: Dataset, right: Dataset, keys: Seq<Seq<u8>>, key: Seq<u8>)
    requires
        distinct(keys),
        keys.contains(key),
        forall|other: Seq<u8>|
            other != key ==> #[trigger] model::cost_of(left, other) == model::cost_of(right, other),
    ensures
        model::costs_of(right, keys) == model::costs_of(left, keys) - model::cost_of(left, key)
            + model::cost_of(right, key),
{
    let at = choose|i: int| 0 <= i < keys.len() && keys[i] == key;
    let rest = keys.remove(at);
    lemma_costs_remove(left, keys, at);
    lemma_costs_remove(right, keys, at);
    assert forall|i: int| 0 <= i < rest.len() implies model::cost_of(left, #[trigger] rest[i])
        == model::cost_of(right, rest[i]) by {
        if i < at {
            assert(rest[i] == keys[i]);
            assert(keys[i] != keys[at]);
        } else {
            assert(rest[i] == keys[i + 1]);
            assert(keys[at] != keys[i + 1]);
        }
    }
    lemma_costs_same(left, right, rest);
}

} // verus!
