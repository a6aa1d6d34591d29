//! When there is room for all pairs of MSET.

use super::model::{Dataset, Moment};
use super::value::ValueModel;
use crate::buffer;
use crate::command::reply::{ExecutionError, ReplyModel};
use crate::command::types::Command;
use crate::ordered;
use crate::storage::accounting;
use crate::storage::changes;
use crate::storage::laws;
use crate::storage::model;
use crate::storage::string_laws;
use bytes::Bytes;
use vstd::prelude::*;

verus! {

/// What some keys take now, whether they have ended or not.
pub open spec fn taken(data: Dataset, names: Seq<Seq<u8>>) -> int
    decreases names.len(),
{
    if names.len() == 0 {
        0
    } else {
        taken(data, names.drop_last()) + match changes::entry_at(data, names.last()) {
            Some(entry) => model::cost(names.last(), entry.value),
            None => 0,
        }
    }
}

/// What those of some keys take that have ended.
pub open spec fn ended(data: Dataset, names: Seq<Seq<u8>>, now: u128) -> int
    decreases names.len(),
{
    if names.len() == 0 {
        0
    } else {
        ended(data, names.drop_last(), now) + if data.entries.contains_key(names.last())
            && string_laws::live(data, names.last(), now) is None {
            model::cost(names.last(), data.entries[names.last()].value)
        } else {
            0
        }
    }
}

/// What some keys take once they hold these texts.
pub open spec fn needed(names: Seq<Seq<u8>>, texts: Map<Seq<u8>, Seq<u8>>) -> int
    decreases names.len(),
{
    if names.len() == 0 {
        0
    } else {
        needed(names.drop_last(), texts) + model::cost(
            names.last(),
            ValueModel::Text(texts[names.last()]),
        )
    }
}

/// Whether the texts are the last ones that the pairs give for their keys.
pub open spec fn settles(entries: Seq<(Bytes, Bytes)>, texts: Map<Seq<u8>, Seq<u8>>) -> bool {
    &&& forall|key: Seq<u8>| #[trigger]
        texts.contains_key(key) <==> exists|i: int|
            0 <= i < entries.len() && buffer::bytes_content((#[trigger] entries[i]).0) == key
    &&& forall|i: int|
        0 <= i < entries.len() && (forall|later: int|
            i < later < entries.len() ==> buffer::bytes_content((#[trigger] entries[later]).0)
                != buffer::bytes_content(entries[i].0)) ==> texts[buffer::bytes_content(
            (#[trigger] entries[i]).0,
        )] == buffer::bytes_content(entries[i].1)
}

/// The last pair of a key.
proof fn last_pair(entries: Seq<(Bytes, Bytes)>, key: Seq<u8>) -> (index: int)
    requires
        exists|i: int|
            0 <= i < entries.len() && buffer::bytes_content((#[trigger] entries[i]).0) == key,
    ensures
        0 <= index < entries.len(),
        buffer::bytes_content(entries[index].0) == key,
        forall|later: int|
            index < later < entries.len() ==> buffer::bytes_content((#[trigger] entries[later]).0)
                != key,
    decreases entries.len(),
{
    let last = entries.len() - 1;
    if buffer::bytes_content(entries[last].0) == key {
        last
    } else {
        let front = entries.drop_last();
        let i = choose|i: int|
            0 <= i < entries.len() && buffer::bytes_content((#[trigger] entries[i]).0) == key;
        assert(front[i] == entries[i]);
        let index = last_pair(front, key);
        assert forall|later: int| index < later < entries.len() implies buffer::bytes_content(
            (#[trigger] entries[later]).0,
        ) != key by {
            if later < last {
                assert(front[later] == entries[later]);
            }
        }
        index
    }
}

proof fn lemma_merged_keys(entries: Seq<(Bytes, Bytes)>, key: Seq<u8>)
    ensures
        model::merged(entries).contains_key(key) <==> exists|i: int|
            0 <= i < entries.len() && buffer::bytes_content((#[trigger] entries[i]).0) == key,
    decreases entries.len(),
{
    if entries.len() > 0 {
        let front = entries.drop_last();
        lemma_merged_keys(front, key);
        assert(entries[entries.len() - 1] == entries.last());
        if model::merged(front).contains_key(key) {
            let i = choose|i: int|
                0 <= i < front.len() && buffer::bytes_content((#[trigger] front[i]).0) == key;
            assert(entries[i] == front[i]);
        }
        if exists|i: int|
            0 <= i < entries.len() && buffer::bytes_content((#[trigger] entries[i]).0) == key {
            let i = choose|i: int|
                0 <= i < entries.len() && buffer::bytes_content((#[trigger] entries[i]).0) == key;
            if i < front.len() {
                assert(front[i] == entries[i]);
            }
        }
    }
}

proof fn lemma_merged(entries: Seq<(Bytes, Bytes)>, texts: Map<Seq<u8>, Seq<u8>>)
    requires
        settles(entries, texts),
    ensures
        model::merged(entries) == texts,
{
    let merged = model::merged(entries);
    assert forall|key: Seq<u8>| #[trigger] merged.contains_key(key) == texts.contains_key(key) && (
    texts.contains_key(key) ==> merged[key] == texts[key]) by {
        lemma_merged_keys(entries, key);
        if texts.contains_key(key) {
            let index = last_pair(entries, key);
            string_laws::lemma_last_pair(entries, index);
        }
    }
    assert(merged =~= texts);
}

/// What is there after the ended ones of some keys are gone.
proof fn lemma_expired(data: Dataset, names: Seq<Seq<u8>>, now: u128)
    requires
        accounting::distinct(names),
    ensures
        ({
            let seen = model::expire_all(model::begin(data), names, now);
            &&& seen.data.used == data.used - ended(data, names, now)
            &&& seen.data.limit == data.limit
            &&& forall|key: Seq<u8>| #[trigger]
                changes::entry_at(seen.data, key) == if names.contains(key) {
                    string_laws::live(data, key, now)
                } else {
                    changes::entry_at(data, key)
                }
        }),
    decreases names.len(),
{
    if names.len() > 0 {
        let front = names.drop_last();
        let last = names.last();
        accounting::lemma_distinct_take(names, names.len() - 1);
        assert(names.take(names.len() - 1) =~= front);
        lemma_expired(data, front, now);
        let before = model::expire_all(model::begin(data), front, now);
        assert(names[names.len() - 1] == last);
        assert(!front.contains(last)) by {
            if front.contains(last) {
                let i = choose|i: int| 0 <= i < front.len() && front[i] == last;
                assert(names[i] != names[names.len() - 1]);
            }
        }
        assert(changes::entry_at(before.data, last) == changes::entry_at(data, last));
        let seen = model::expire_all(model::begin(data), names, now);
        assert forall|key: Seq<u8>| #[trigger] changes::entry_at(seen.data, key) == (
        if names.contains(key) {
            string_laws::live(data, key, now)
        } else {
            changes::entry_at(data, key)
        }) by {
            assert(changes::entry_at(before.data, key) == if front.contains(key) {
                string_laws::live(data, key, now)
            } else {
                changes::entry_at(data, key)
            });
            if front.contains(key) {
                let i = choose|i: int| 0 <= i < front.len() && front[i] == key;
                assert(names[i] == key);
            }
            if names.contains(key) && key != last {
                let i = choose|i: int| 0 <= i < names.len() && names[i] == key;
                assert(front[i] == key);
            }
        }
    }
}

proof fn lemma_left(data: Dataset, seen: Dataset, names: Seq<Seq<u8>>, now: u128)
    requires
        forall|i: int|
            0 <= i < names.len() ==> changes::entry_at(seen, #[trigger] names[i])
                == string_laws::live(data, names[i], now),
    ensures
        model::costs_of(seen, names) == taken(data, names) - ended(data, names, now),
    decreases names.len(),
{
    if names.len() > 0 {
        let front = names.drop_last();
        assert forall|i: int| 0 <= i < front.len() implies changes::entry_at(
            seen,
            #[trigger] front[i],
        ) == string_laws::live(data, front[i], now) by {
            assert(front[i] == names[i]);
        }
        lemma_left(data, seen, front, now);
        assert(names[names.len() - 1] == names.last());
    }
}

proof fn lemma_needed(names: Seq<Seq<u8>>, texts: Map<Seq<u8>, Seq<u8>>)
    ensures
        model::text_costs(names, texts) == needed(names, texts),
    decreases names.len(),
{
    if names.len() > 0 {
        lemma_needed(names.drop_last(), texts);
    }
}

/// MSET is refused exactly where all of its keys together, with their last values in place of
/// what they hold, would bring usage past the quota and above what it was without the keys that
/// have ended. Otherwise it is accepted.
pub proof fn law_mset_is_refused_for_want_of_room(
    data: Dataset,
    entries: Vec<(Bytes, Bytes)>,
    texts: Map<Seq<u8>, Seq<u8>>,
    names: Seq<Seq<u8>>,
    moment: Moment,
)
    requires
        settles(entries@, texts),
        ordered::is_listing(names, texts.dom()),
    ensures
        ({
            let command = Command::MSet { entries };
            let before = data.used - ended(data, names, moment.now);
            let wanted = data.used - taken(data, names) + needed(names, texts);
            if wanted > data.limit && wanted > before {
                &&& string_laws::answer(data, command, moment) == ReplyModel::Error(
                    ExecutionError::OutOfMemory,
                )
                &&& string_laws::left(data, command, moment).used == before
            } else {
                string_laws::answer(data, command, moment) is Okay
            }
        }),
{
    let now = moment.now;
    lemma_merged(entries@, texts);
    laws::lemma_merged_finite(entries@);
    crate::storage::collections::lemma_listing_exists(texts.dom());
    ordered::lemma_listing_unique(names, ordered::listing(texts.dom()), texts.dom());
    accounting::lemma_ascending_distinct(names);
    lemma_expired(data, names, now);
    let seen = model::expire_all(model::begin(data), names, now);
    assert forall|i: int| 0 <= i < names.len() implies changes::entry_at(
        seen.data,
        #[trigger] names[i],
    ) == string_laws::live(data, names[i], now) by {
        assert(names.contains(names[i]));
    }
    lemma_left(data, seen.data, names, now);
    lemma_needed(names, texts);
}

} // verus!
