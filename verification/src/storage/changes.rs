//! What a run of commands changes, apart from what it leaves alone.

use super::model::{Dataset, EntryModel, Moment, Trace};
use super::value::ValueModel;
use crate::command::types::{
    Command, ExpiryUnit, HashCommand, SetCondition, SetExpiry, SetOptions, SortedSetCommand,
};
use bytes::Bytes;
use crate::buffer;
use crate::ordered;
use crate::storage::accounting;
use crate::storage::collections;
use crate::storage::model;
use vstd::prelude::*;

verus! {

/// The final state of a key: its entry, or none.
#[verifier::ext_equal]
pub struct Change {
    pub key: Seq<u8>,
    pub entry: Option<EntryModel>,
}

/// The entry of a key, if it has one.
pub open spec fn entry_at(data: Dataset, key: Seq<u8>) -> Option<EntryModel> {
    if data.entries.contains_key(key) {
        Some(data.entries[key])
    } else {
        None
    }
}

/// The final states of the keys that were touched, in the order of the keys.
pub open spec fn changes_of(trace: Trace) -> Seq<Change> {
    let keys = ordered::listing(trace.touched);
    Seq::new(keys.len(), |i: int| Change { key: keys[i], entry: entry_at(trace.data, keys[i]) })
}

pub open spec fn change_keys(changes: Seq<Change>) -> Seq<Seq<u8>> {
    changes.map_values(|change: Change| change.key)
}

/// Entries after the changes.
pub open spec fn changed_entries(
    entries: Map<Seq<u8>, EntryModel>,
    changes: Seq<Change>,
) -> Map<Seq<u8>, EntryModel>
    decreases changes.len(),
{
    if changes.len() == 0 {
        entries
    } else {
        let before = changed_entries(entries, changes.drop_last());
        match changes.last().entry {
            Some(entry) => before.insert(changes.last().key, entry),
            None => before.remove(changes.last().key),
        }
    }
}

/// Logical bytes of the entries that the changes put in.
pub open spec fn change_costs(changes: Seq<Change>) -> int
    decreases changes.len(),
{
    if changes.len() == 0 {
        0
    } else {
        change_costs(changes.drop_last()) + match changes.last().entry {
            Some(entry) => model::cost(changes.last().key, entry.value),
            None => 0,
        }
    }
}

/// The dataset after the changes.
pub open spec fn applied(data: Dataset, changes: Seq<Change>) -> Dataset {
    Dataset {
        entries: changed_entries(data.entries, changes),
        used: data.used - model::costs_of(data, change_keys(changes)) + change_costs(changes),
        limit: data.limit,
    }
}

/// How many entries leave when the changes are made.
pub open spec fn leaving(data: Dataset, changes: Seq<Change>) -> nat
    decreases changes.len(),
{
    if changes.len() == 0 {
        0
    } else {
        leaving(data, changes.drop_last()) + if data.entries.contains_key(changes.last().key) {
            1nat
        } else {
            0nat
        }
    }
}

/// How many entries go in when the changes are made.
pub open spec fn entering(changes: Seq<Change>) -> nat
    decreases changes.len(),
{
    if changes.len() == 0 {
        0
    } else {
        entering(changes.drop_last()) + if changes.last().entry is Some {
            1nat
        } else {
            0nat
        }
    }
}

/// How many removals and writes the changes are made by.
pub open spec fn moves(data: Dataset, changes: Seq<Change>) -> nat {
    leaving(data, changes) + entering(changes)
}

/// The version of a dataset after so many removals and writes. It counts them
/// modulo 2^64.
pub open spec fn later(version: u64, moves: nat) -> u64 {
    ((version + moves) % 0x1_0000_0000_0000_0000) as u64
}

/// A count goes on where it stopped.
pub proof fn lemma_later(version: u64, first: nat, second: nat)
    ensures
        later(later(version, first), second) == later(version, first + second),
        later(version, 0) == version,
{
    assert(((version + first) % 0x1_0000_0000_0000_0000 + second) % 0x1_0000_0000_0000_0000 == (
    version + first + second) % 0x1_0000_0000_0000_0000) by (nonlinear_arith);
}

proof fn lemma_idle(data: Dataset, changes: Seq<Change>)
    requires
        moves(data, changes) == 0,
    ensures
        changed_entries(data.entries, changes) == data.entries,
    decreases changes.len(),
{
    if changes.len() > 0 {
        lemma_idle(data, changes.drop_last());
        assert(data.entries.remove(changes.last().key) =~= data.entries);
    }
}

/// Changes that leave another dataset leave another version, unless they are so many
/// that the count comes round.
pub proof fn law_changes_move_the_version(data: Dataset, changes: Seq<Change>, version: u64)
    requires
        applied(data, changes).entries != data.entries,
        moves(data, changes) < 0x1_0000_0000_0000_0000,
    ensures
        later(version, moves(data, changes)) != version,
{
    if moves(data, changes) == 0 {
        lemma_idle(data, changes);
    }
}

/// Whether the changes can be made: each key changes once, no empty
/// collection goes in, and a counter holds the outcome.
pub open spec fn applicable(data: Dataset, changes: Seq<Change>) -> bool {
    &&& accounting::distinct(change_keys(changes))
    &&& forall|i: int|
        0 <= i < changes.len() ==> ((#[trigger] changes[i]).entry matches Some(entry)
            ==> super::value::storable(entry.value))
    &&& applied(data, changes).used <= usize::MAX
}

/// Whether the keys hold all that was touched.
pub open spec fn covers(keys: Seq<Seq<u8>>, touched: Set<Seq<u8>>) -> bool {
    accounting::distinct(keys) && forall|key: Seq<u8>| #[trigger] touched.contains(key) ==> keys.contains(key)
}

/// Whether the trace tells all that happened since the start: other keys are
/// as they were, and usage changed as the touched keys did.
pub open spec fn derived(start: Dataset, trace: Trace) -> bool {
    &&& trace.touched.finite()
    &&& trace.data.limit == start.limit
    &&& forall|key: Seq<u8>|
        !trace.touched.contains(key) ==> #[trigger] entry_at(trace.data, key) == entry_at(start, key)
    &&& forall|keys: Seq<Seq<u8>>| #[trigger]
        covers(keys, trace.touched) ==> trace.data.used - model::costs_of(trace.data, keys) == start.used
            - model::costs_of(start, keys)
}

/// Whether a trace over some keys tells the same as one over all.
pub open spec fn linked(start: Dataset, full: Trace, part: Trace, keys: Set<Seq<u8>>) -> bool {
    &&& part.data.entries == full.data.entries.restrict(keys)
    &&& part.data.used == full.data.used
    &&& part.data.limit == full.data.limit
    &&& part.touched == full.touched
    &&& full.touched.subset_of(keys)
    &&& derived(start, full)
}

/// Whether the command names the key.
pub open spec fn names(command: Command, key: Seq<u8>) -> bool {
    exists|i: int|
        0 <= i < command.key_seq().len() && buffer::bytes_content(#[trigger] command.key_seq()[i]) == key
}

/// The keys that a command names.
pub open spec fn named(command: Command) -> Set<Seq<u8>> {
    Set::new(|key: Seq<u8>| names(command, key))
}

/// The keys that some of the commands name.
pub open spec fn named_by(commands: Seq<Command>) -> Set<Seq<u8>> {
    Set::new(
        |key: Seq<u8>|
            exists|i: int| 0 <= i < commands.len() && names(#[trigger] commands[i], key),
    )
}

proof fn lemma_derived_write(start: Dataset, trace: Trace, key: Seq<u8>, entry: EntryModel)
    requires
        derived(start, trace),
    ensures
        derived(start, model::write(trace, key, entry)),
{
    let after = model::write(trace, key, entry);
    assert forall|other: Seq<u8>| !after.touched.contains(other) implies #[trigger] entry_at(
        after.data,
        other,
    ) == entry_at(start, other) by {
        assert(entry_at(trace.data, other) == entry_at(start, other));
    }
    assert forall|keys: Seq<Seq<u8>>| #[trigger] covers(keys, after.touched) implies after.data.used
        - model::costs_of(after.data, keys) == start.used - model::costs_of(start, keys) by {
        assert(after.touched.contains(key));
        assert forall|other: Seq<u8>| #[trigger] trace.touched.contains(other) implies keys.contains(
            other,
        ) by {
            assert(after.touched.contains(other));
        }
        assert(covers(keys, trace.touched));
        accounting::lemma_costs_change(trace.data, after.data, keys, key);
    }
}

proof fn lemma_derived_discard(start: Dataset, trace: Trace, key: Seq<u8>)
    requires
        derived(start, trace),
    ensures
        derived(start, model::discard(trace, key)),
{
    let after = model::discard(trace, key);
    if trace.data.entries.contains_key(key) {
        assert forall|other: Seq<u8>| !after.touched.contains(other) implies #[trigger] entry_at(
            after.data,
            other,
        ) == entry_at(start, other) by {
            assert(entry_at(trace.data, other) == entry_at(start, other));
        }
        assert forall|keys: Seq<Seq<u8>>| #[trigger] covers(keys, after.touched) implies
            after.data.used - model::costs_of(after.data, keys) == start.used - model::costs_of(start, keys) by {
            assert(after.touched.contains(key));
            assert forall|other: Seq<u8>| #[trigger] trace.touched.contains(
                other,
            ) implies keys.contains(other) by {
                assert(after.touched.contains(other));
            }
            assert(covers(keys, trace.touched));
            accounting::lemma_costs_change(trace.data, after.data, keys, key);
        }
    }
}

/// A trace that has just begun tells all.
pub proof fn lemma_link_begin(data: Dataset, keys: Set<Seq<u8>>)
    ensures
        derived(data, model::begin(data)),
        linked(
            data,
            model::begin(data),
            model::begin(Dataset { entries: data.entries.restrict(keys), ..data }),
            keys,
        ),
{
}

proof fn lemma_link_discard(
    start: Dataset,
    full: Trace,
    part: Trace,
    keys: Set<Seq<u8>>,
    key: Seq<u8>,
)
    requires
        linked(start, full, part, keys),
        keys.contains(key),
    ensures
        linked(start, model::discard(full, key), model::discard(part, key), keys),
{
    lemma_derived_discard(start, full, key);
    assert(model::discard(part, key).data.entries =~= model::discard(full, key).data.entries.restrict(keys));
}

proof fn lemma_link_expire(
    start: Dataset,
    full: Trace,
    part: Trace,
    keys: Set<Seq<u8>>,
    key: Seq<u8>,
    now: u128,
)
    requires
        linked(start, full, part, keys),
        keys.contains(key),
    ensures
        linked(start, model::expire(full, key, now), model::expire(part, key, now), keys),
        entry_at(model::expire(full, key, now).data, key) == entry_at(model::expire(part, key, now).data, key),
        model::cost_of(model::expire(full, key, now).data, key) == model::cost_of(model::expire(part, key, now).data, key),
{
    lemma_link_discard(start, full, part, keys, key);
}

proof fn lemma_link_write(
    start: Dataset,
    full: Trace,
    part: Trace,
    keys: Set<Seq<u8>>,
    key: Seq<u8>,
    entry: EntryModel,
)
    requires
        linked(start, full, part, keys),
        keys.contains(key),
    ensures
        linked(start, model::write(full, key, entry), model::write(part, key, entry), keys),
{
    lemma_derived_write(start, full, key, entry);
    assert(model::write(part, key, entry).data.entries =~= model::write(full, key, entry).data.entries.restrict(
        keys,
    ));
    assert(model::cost_of(full.data, key) == model::cost_of(part.data, key));
}

proof fn lemma_link_del(
    start: Dataset,
    full: Trace,
    part: Trace,
    keys: Set<Seq<u8>>,
    list: Seq<Bytes>,
    now: u128,
)
    requires
        linked(start, full, part, keys),
        forall|i: int| 0 <= i < list.len() ==> keys.contains(buffer::bytes_content(#[trigger] list[i])),
    ensures
        linked(start, model::ran_del(full, list, now).0, model::ran_del(part, list, now).0, keys),
        model::ran_del(full, list, now).1 == model::ran_del(part, list, now).1,
    decreases list.len(),
{
    if list.len() > 0 {
        let front = list.drop_last();
        assert forall|i: int| 0 <= i < front.len() implies keys.contains(
            buffer::bytes_content(#[trigger] front[i]),
        ) by {
            assert(front[i] == list[i]);
        }
        lemma_link_del(start, full, part, keys, front, now);
        let key = buffer::bytes_content(list.last());
        assert(list[list.len() - 1] == list.last());
        let f = model::ran_del(full, front, now).0;
        let p = model::ran_del(part, front, now).0;
        lemma_link_expire(start, f, p, keys, key, now);
        lemma_link_discard(start, model::expire(f, key, now), model::expire(p, key, now), keys, key);
    }
}

proof fn lemma_link_exists(
    start: Dataset,
    full: Trace,
    part: Trace,
    keys: Set<Seq<u8>>,
    list: Seq<Bytes>,
    now: u128,
)
    requires
        linked(start, full, part, keys),
        forall|i: int| 0 <= i < list.len() ==> keys.contains(buffer::bytes_content(#[trigger] list[i])),
    ensures
        linked(start, model::ran_exists(full, list, now).0, model::ran_exists(part, list, now).0, keys),
        model::ran_exists(full, list, now).1 == model::ran_exists(part, list, now).1,
    decreases list.len(),
{
    if list.len() > 0 {
        let front = list.drop_last();
        assert forall|i: int| 0 <= i < front.len() implies keys.contains(
            buffer::bytes_content(#[trigger] front[i]),
        ) by {
            assert(front[i] == list[i]);
        }
        lemma_link_exists(start, full, part, keys, front, now);
        assert(list[list.len() - 1] == list.last());
        lemma_link_expire(
            start,
            model::ran_exists(full, front, now).0,
            model::ran_exists(part, front, now).0,
            keys,
            buffer::bytes_content(list.last()),
            now,
        );
    }
}

proof fn lemma_link_mget(
    start: Dataset,
    full: Trace,
    part: Trace,
    keys: Set<Seq<u8>>,
    list: Seq<Bytes>,
    now: u128,
)
    requires
        linked(start, full, part, keys),
        forall|i: int| 0 <= i < list.len() ==> keys.contains(buffer::bytes_content(#[trigger] list[i])),
    ensures
        linked(start, model::ran_mget(full, list, now).0, model::ran_mget(part, list, now).0, keys),
        model::ran_mget(full, list, now).1 == model::ran_mget(part, list, now).1,
    decreases list.len(),
{
    if list.len() > 0 {
        let front = list.drop_last();
        assert forall|i: int| 0 <= i < front.len() implies keys.contains(
            buffer::bytes_content(#[trigger] front[i]),
        ) by {
            assert(front[i] == list[i]);
        }
        lemma_link_mget(start, full, part, keys, front, now);
        assert(list[list.len() - 1] == list.last());
        lemma_link_expire(
            start,
            model::ran_mget(full, front, now).0,
            model::ran_mget(part, front, now).0,
            keys,
            buffer::bytes_content(list.last()),
            now,
        );
    }
}

proof fn lemma_link_expire_all(
    start: Dataset,
    full: Trace,
    part: Trace,
    keys: Set<Seq<u8>>,
    list: Seq<Seq<u8>>,
    now: u128,
)
    requires
        linked(start, full, part, keys),
        forall|i: int| 0 <= i < list.len() ==> keys.contains(#[trigger] list[i]),
    ensures
        linked(start, model::expire_all(full, list, now), model::expire_all(part, list, now), keys),
    decreases list.len(),
{
    if list.len() > 0 {
        let front = list.drop_last();
        assert forall|i: int| 0 <= i < front.len() implies keys.contains(#[trigger] front[i]) by {
            assert(front[i] == list[i]);
        }
        lemma_link_expire_all(start, full, part, keys, front, now);
        assert(list[list.len() - 1] == list.last());
        lemma_link_expire(
            start,
            model::expire_all(full, front, now),
            model::expire_all(part, front, now),
            keys,
            list.last(),
            now,
        );
    }
}

proof fn lemma_link_discard_all(
    start: Dataset,
    full: Trace,
    part: Trace,
    keys: Set<Seq<u8>>,
    list: Seq<Seq<u8>>,
)
    requires
        linked(start, full, part, keys),
        forall|i: int| 0 <= i < list.len() ==> keys.contains(#[trigger] list[i]),
    ensures
        linked(start, model::discard_all(full, list), model::discard_all(part, list), keys),
    decreases list.len(),
{
    if list.len() > 0 {
        let front = list.drop_last();
        assert forall|i: int| 0 <= i < front.len() implies keys.contains(#[trigger] front[i]) by {
            assert(front[i] == list[i]);
        }
        lemma_link_discard_all(start, full, part, keys, front);
        assert(list[list.len() - 1] == list.last());
        lemma_link_discard(
            start,
            model::discard_all(full, front),
            model::discard_all(part, front),
            keys,
            list.last(),
        );
    }
}

proof fn lemma_link_write_all(
    start: Dataset,
    full: Trace,
    part: Trace,
    keys: Set<Seq<u8>>,
    list: Seq<Seq<u8>>,
    texts: Map<Seq<u8>, Seq<u8>>,
)
    requires
        linked(start, full, part, keys),
        forall|i: int| 0 <= i < list.len() ==> keys.contains(#[trigger] list[i]),
    ensures
        linked(start, model::write_all(full, list, texts), model::write_all(part, list, texts), keys),
    decreases list.len(),
{
    if list.len() > 0 {
        let front = list.drop_last();
        assert forall|i: int| 0 <= i < front.len() implies keys.contains(#[trigger] front[i]) by {
            assert(front[i] == list[i]);
        }
        lemma_link_write_all(start, full, part, keys, front, texts);
        assert(list[list.len() - 1] == list.last());
        lemma_link_write(
            start,
            model::write_all(full, front, texts),
            model::write_all(part, front, texts),
            keys,
            list.last(),
            EntryModel { value: ValueModel::Text(texts[list.last()]), deadline: None },
        );
    }
}

/// A batch holds the keys of its pairs.
proof fn lemma_merged(entries: Seq<(Bytes, Bytes)>)
    ensures
        model::merged(entries).dom().finite(),
        forall|key: Seq<u8>| #[trigger]
            model::merged(entries).contains_key(key) ==> exists|i: int|
                0 <= i < entries.len() && buffer::bytes_content((#[trigger] entries[i]).0) == key,
    decreases entries.len(),
{
    if entries.len() > 0 {
        let front = entries.drop_last();
        lemma_merged(front);
        assert forall|key: Seq<u8>| #[trigger] model::merged(entries).contains_key(key) implies exists|
            i: int,
        | 0 <= i < entries.len() && buffer::bytes_content((#[trigger] entries[i]).0) == key by {
            if model::merged(front).contains_key(key) {
                let i = choose|i: int|
                    0 <= i < front.len() && buffer::bytes_content((#[trigger] front[i]).0) == key;
                assert(entries[i] == front[i]);
            } else {
                assert(buffer::bytes_content(entries[entries.len() - 1].0) == key);
            }
        }
    }
}

proof fn lemma_link_mset(
    start: Dataset,
    full: Trace,
    part: Trace,
    keys: Set<Seq<u8>>,
    entries: Seq<(Bytes, Bytes)>,
    now: u128,
)
    requires
        linked(start, full, part, keys),
        forall|i: int|
            0 <= i < entries.len() ==> keys.contains(buffer::bytes_content((#[trigger] entries[i]).0)),
    ensures
        linked(start, model::ran_mset(full, entries, now).0, model::ran_mset(part, entries, now).0, keys),
        model::ran_mset(full, entries, now).1 == model::ran_mset(part, entries, now).1,
{
    let texts = model::merged(entries);
    let list = ordered::listing(texts.dom());
    lemma_merged(entries);
    collections::lemma_listing_exists(texts.dom());
    assert forall|i: int| 0 <= i < list.len() implies keys.contains(#[trigger] list[i]) by {
        assert(list.contains(list[i]));
        assert(texts.dom().contains(list[i]));
        assert(texts.contains_key(list[i]));
    }
    lemma_link_expire_all(start, full, part, keys, list, now);
    let f = model::expire_all(full, list, now);
    let p = model::expire_all(part, list, now);
    assert forall|i: int| 0 <= i < list.len() implies model::cost_of(f.data, #[trigger] list[i])
        == model::cost_of(p.data, list[i]) by {
        assert(keys.contains(list[i]));
    }
    accounting::lemma_costs_same(f.data, p.data, list);
    lemma_link_discard_all(start, f, p, keys, list);
    lemma_link_write_all(start, model::discard_all(f, list), model::discard_all(p, list), keys, list, texts);
}

proof fn lemma_link_set(
    start: Dataset,
    full: Trace,
    part: Trace,
    keys: Set<Seq<u8>>,
    key: Seq<u8>,
    value: Seq<u8>,
    options: SetOptions,
    moment: Moment,
)
    requires
        linked(start, full, part, keys),
        keys.contains(key),
    ensures
        linked(start, model::ran_set(full, key, value, options, moment).0, model::ran_set(part, key, value, options, moment).0, keys),
        model::ran_set(full, key, value, options, moment).1 == model::ran_set(part, key, value, options, moment).1,
{
    lemma_link_one(start, full, part, keys, key, moment);
}

proof fn lemma_link_increment(
    start: Dataset,
    full: Trace,
    part: Trace,
    keys: Set<Seq<u8>>,
    key: Seq<u8>,
    delta: int,
    moment: Moment,
)
    requires
        linked(start, full, part, keys),
        keys.contains(key),
    ensures
        linked(start, model::ran_increment(full, key, delta, moment).0, model::ran_increment(part, key, delta, moment).0, keys),
        model::ran_increment(full, key, delta, moment).1 == model::ran_increment(part, key, delta, moment).1,
{
    lemma_link_one(start, full, part, keys, key, moment);
}

proof fn lemma_link_deadline(
    start: Dataset,
    full: Trace,
    part: Trace,
    keys: Set<Seq<u8>>,
    key: Seq<u8>,
    value: i64,
    unit: ExpiryUnit,
    moment: Moment,
)
    requires
        linked(start, full, part, keys),
        keys.contains(key),
    ensures
        linked(start, model::ran_expire(full, key, value, unit, moment).0, model::ran_expire(part, key, value, unit, moment).0, keys),
        model::ran_expire(full, key, value, unit, moment).1 == model::ran_expire(part, key, value, unit, moment).1,
{
    lemma_link_one(start, full, part, keys, key, moment);
}

proof fn lemma_link_persist(
    start: Dataset,
    full: Trace,
    part: Trace,
    keys: Set<Seq<u8>>,
    key: Seq<u8>,
    moment: Moment,
)
    requires
        linked(start, full, part, keys),
        keys.contains(key),
    ensures
        linked(start, model::ran_persist(full, key, moment.now).0, model::ran_persist(part, key, moment.now).0, keys),
        model::ran_persist(full, key, moment.now).1 == model::ran_persist(part, key, moment.now).1,
{
    lemma_link_one(start, full, part, keys, key, moment);
}

proof fn lemma_link_hash(
    start: Dataset,
    full: Trace,
    part: Trace,
    keys: Set<Seq<u8>>,
    key: Seq<u8>,
    operation: HashCommand,
    moment: Moment,
)
    requires
        linked(start, full, part, keys),
        keys.contains(key),
    ensures
        linked(start, model::ran_hash(full, key, operation, moment.now).0, model::ran_hash(part, key, operation, moment.now).0, keys),
        model::ran_hash(full, key, operation, moment.now).1 == model::ran_hash(part, key, operation, moment.now).1,
{
    lemma_link_one(start, full, part, keys, key, moment);
}

proof fn lemma_link_sorted_set(
    start: Dataset,
    full: Trace,
    part: Trace,
    keys: Set<Seq<u8>>,
    key: Seq<u8>,
    operation: SortedSetCommand,
    moment: Moment,
)
    requires
        linked(start, full, part, keys),
        keys.contains(key),
    ensures
        linked(start, model::ran_sorted_set(full, key, operation, moment.now).0, model::ran_sorted_set(part, key, operation, moment.now).0, keys),
        model::ran_sorted_set(full, key, operation, moment.now).1 == model::ran_sorted_set(part, key, operation, moment.now).1,
{
    lemma_link_one(start, full, part, keys, key, moment);
}

/// A command sees and touches no keys but those that it names.
pub proof fn lemma_link_ran(
    start: Dataset,
    full: Trace,
    part: Trace,
    keys: Set<Seq<u8>>,
    command: Command,
    moment: Moment,
)
    requires
        linked(start, full, part, keys),
        named(command).subset_of(keys),
    ensures
        linked(start, model::ran(full, command, moment).0, model::ran(part, command, moment).0, keys),
        model::ran(full, command, moment).1 == model::ran(part, command, moment).1,
{
    let list = command.key_seq();
    assert forall|i: int| 0 <= i < list.len() implies keys.contains(
        buffer::bytes_content(#[trigger] list[i]),
    ) by {
        assert(names(command, buffer::bytes_content(list[i])));
        assert(named(command).contains(buffer::bytes_content(list[i])));
    }
    match command {
        Command::Del { keys: names } => {
            lemma_link_del(start, full, part, keys, names@, moment.now);
        },
        Command::Exists { keys: names } => {
            lemma_link_exists(start, full, part, keys, names@, moment.now);
        },
        Command::MGet { keys: names } => {
            lemma_link_mget(start, full, part, keys, names@, moment.now);
        },
        Command::MSet { entries } => {
            assert forall|i: int| 0 <= i < entries@.len() implies keys.contains(
                buffer::bytes_content((#[trigger] entries@[i]).0),
            ) by {
                assert(list[i] == entries@[i].0);
            }
            lemma_link_mset(start, full, part, keys, entries@, moment.now);
        },
        Command::Get { key } => {
            assert(list[0] == key);
            lemma_link_expire(start, full, part, keys, buffer::bytes_content(key), moment.now);
        },
        Command::Ttl { key, .. } => {
            assert(list[0] == key);
            lemma_link_expire(start, full, part, keys, buffer::bytes_content(key), moment.now);
        },
        Command::SetValue { key, value } => {
            assert(list[0] == key);
            let options = SetOptions {
                condition: SetCondition::Always,
                expiry: SetExpiry::Persistent,
                return_previous: false,
            };
            lemma_link_set(start, full, part, keys, buffer::bytes_content(key), buffer::bytes_content(value), options, moment);
        },
        Command::SetWithOptions { key, value, options } => {
            assert(list[0] == key);
            lemma_link_set(start, full, part, keys, buffer::bytes_content(key), buffer::bytes_content(value), options, moment);
        },
        Command::Incr { key } => {
            assert(list[0] == key);
            lemma_link_increment(start, full, part, keys, buffer::bytes_content(key), 1, moment);
        },
        Command::Decr { key } => {
            assert(list[0] == key);
            lemma_link_increment(start, full, part, keys, buffer::bytes_content(key), -1, moment);
        },
        Command::Expire { key, value, unit } => {
            assert(list[0] == key);
            lemma_link_deadline(start, full, part, keys, buffer::bytes_content(key), value, unit, moment);
        },
        Command::Persist { key } => {
            assert(list[0] == key);
            lemma_link_persist(start, full, part, keys, buffer::bytes_content(key), moment);
        },
        Command::Hash { key, operation } => {
            assert(list[0] == key);
            lemma_link_hash(start, full, part, keys, buffer::bytes_content(key), operation, moment);
        },
        Command::SortedSet { key, operation } => {
            assert(list[0] == key);
            lemma_link_sorted_set(start, full, part, keys, buffer::bytes_content(key), operation, moment);
        },
        _ => {},
    }
}

/// What a command on one key may do.
proof fn lemma_link_one(
    start: Dataset,
    full: Trace,
    part: Trace,
    keys: Set<Seq<u8>>,
    key: Seq<u8>,
    moment: Moment,
)
    requires
        linked(start, full, part, keys),
        keys.contains(key),
    ensures
        ({
            let f = model::expire(full, key, moment.now);
            let p = model::expire(part, key, moment.now);
            &&& linked(start, f, p, keys)
            &&& entry_at(f.data, key) == entry_at(p.data, key)
            &&& model::cost_of(f.data, key) == model::cost_of(p.data, key)
            &&& linked(start, model::discard(f, key), model::discard(p, key), keys)
            &&& forall|entry: EntryModel|
                #![trigger model::write(f, key, entry)]
                #![trigger model::write(p, key, entry)]
                linked(start, model::write(f, key, entry), model::write(p, key, entry), keys)
        }),
{
    lemma_link_expire(start, full, part, keys, key, moment.now);
    let f = model::expire(full, key, moment.now);
    let p = model::expire(part, key, moment.now);
    lemma_link_discard(start, f, p, keys, key);
    assert forall|entry: EntryModel|
        #![trigger model::write(f, key, entry)]
        #![trigger model::write(p, key, entry)]
        linked(start, model::write(f, key, entry), model::write(p, key, entry), keys) by {
        lemma_link_write(start, f, p, keys, key, entry);
    }
}

/// A run of commands sees and touches no keys but those that it names.
pub proof fn lemma_link_ran_all(
    start: Dataset,
    full: Trace,
    part: Trace,
    keys: Set<Seq<u8>>,
    commands: Seq<Command>,
    moment: Moment,
)
    requires
        linked(start, full, part, keys),
        named_by(commands).subset_of(keys),
    ensures
        linked(start, model::ran_all(full, commands, moment).0, model::ran_all(part, commands, moment).0, keys),
        model::ran_all(full, commands, moment).1 == model::ran_all(part, commands, moment).1,
    decreases commands.len(),
{
    if commands.len() > 0 {
        let front = commands.drop_last();
        assert(named_by(front).subset_of(keys)) by {
            assert forall|key: Seq<u8>| named_by(front).contains(key) implies keys.contains(key) by {
                let i = choose|i: int| 0 <= i < front.len() && names(#[trigger] front[i], key);
                assert(names(commands[i], key));
                assert(named_by(commands).contains(key));
            }
        }
        lemma_link_ran_all(start, full, part, keys, front, moment);
        assert(named(commands.last()).subset_of(keys)) by {
            assert forall|key: Seq<u8>| named(commands.last()).contains(key) implies keys.contains(
                key,
            ) by {
                assert(names(commands[commands.len() - 1], key));
                assert(named_by(commands).contains(key));
            }
        }
        lemma_link_ran(
            start,
            model::ran_all(full, front, moment).0,
            model::ran_all(part, front, moment).0,
            keys,
            commands.last(),
            moment,
        );
    }
}

/// What the changes make of a key.
pub proof fn lemma_changed_entries(
    entries: Map<Seq<u8>, EntryModel>,
    changes: Seq<Change>,
    key: Seq<u8>,
)
    requires
        accounting::distinct(change_keys(changes)),
    ensures
        !change_keys(changes).contains(key) ==> changed_entries(entries, changes).contains_key(key)
            == entries.contains_key(key) && changed_entries(entries, changes)[key] == entries[key],
        forall|i: int|
            0 <= i < changes.len() && (#[trigger] changes[i]).key == key ==> match changes[i].entry {
                Some(entry) => changed_entries(entries, changes).contains_key(key)
                    && changed_entries(entries, changes)[key] == entry,
                None => !changed_entries(entries, changes).contains_key(key),
            },
    decreases changes.len(),
{
    if changes.len() > 0 {
        let front = changes.drop_last();
        let keys = change_keys(changes);
        assert(change_keys(front) =~= keys.drop_last());
        super::accounting::lemma_distinct_take(keys, keys.len() - 1);
        assert(keys.take(keys.len() - 1) =~= keys.drop_last());
        lemma_changed_entries(entries, front, key);
        assert(keys[keys.len() - 1] == changes.last().key);
        if !keys.contains(key) {
            assert(!change_keys(front).contains(key)) by {
                if change_keys(front).contains(key) {
                    let i = choose|i: int|
                        0 <= i < change_keys(front).len() && change_keys(front)[i] == key;
                    assert(keys[i] == key);
                }
            }
        }
        assert forall|i: int| 0 <= i < changes.len() && (#[trigger] changes[i]).key
            == key implies match changes[i].entry {
            Some(entry) => changed_entries(entries, changes).contains_key(key) && changed_entries(
                entries,
                changes,
            )[key] == entry,
            None => !changed_entries(entries, changes).contains_key(key),
        } by {
            if i < front.len() {
                assert(front[i] == changes[i]);
                assert(keys[i] != keys[keys.len() - 1]);
            }
        }
    }
}

/// Changes to what keys hold in a dataset cost what the keys take there.
pub proof fn lemma_change_costs(data: Dataset, keys: Seq<Seq<u8>>, changes: Seq<Change>)
    requires
        changes.len() == keys.len(),
        forall|i: int|
            0 <= i < keys.len() ==> (#[trigger] changes[i]).key == keys[i] && changes[i].entry
                == entry_at(data, keys[i]),
    ensures
        change_costs(changes) == model::costs_of(data, keys),
    decreases keys.len(),
{
    if keys.len() > 0 {
        let front = changes.drop_last();
        assert forall|i: int| 0 <= i < keys.drop_last().len() implies (#[trigger] front[i]).key
            == keys.drop_last()[i] && front[i].entry == entry_at(data, keys.drop_last()[i]) by {
            assert(front[i] == changes[i]);
        }
        lemma_change_costs(data, keys.drop_last(), front);
        assert(changes[changes.len() - 1] == changes.last());
    }
}

/// The final states of the touched keys make of the start what the trace led to.
pub proof fn lemma_changes_suffice(start: Dataset, trace: Trace)
    requires
        derived(start, trace),
    ensures
        applied(start, changes_of(trace)) == trace.data,
        accounting::distinct(change_keys(changes_of(trace))),
        change_keys(changes_of(trace)) == ordered::listing(trace.touched),
        ordered::is_listing(ordered::listing(trace.touched), trace.touched),
{
    let keys = ordered::listing(trace.touched);
    let changes = changes_of(trace);
    collections::lemma_listing_exists(trace.touched);
    accounting::lemma_ascending_distinct(keys);
    assert(change_keys(changes) =~= keys);
    assert(covers(keys, trace.touched));
    lemma_change_costs(trace.data, keys, changes);
    let outcome = applied(start, changes);
    assert(outcome.used == trace.data.used);
    assert forall|key: Seq<u8>| #[trigger] outcome.entries.contains_key(key)
        == trace.data.entries.contains_key(key) && (trace.data.entries.contains_key(key)
        ==> outcome.entries[key] == trace.data.entries[key]) by {
        lemma_changed_entries(start.entries, changes, key);
        if trace.touched.contains(key) {
            assert(keys.contains(key));
            let i = choose|i: int| 0 <= i < keys.len() && keys[i] == key;
            assert(changes[i].key == key);
        } else {
            assert(!keys.contains(key));
            assert(entry_at(trace.data, key) == entry_at(start, key));
        }
    }
    assert(outcome.entries =~= trace.data.entries);
}

/// A command is fully told by the keys that it touches: making its changes
/// in the dataset leads where executing it leads.
pub proof fn law_changes_tell_a_command(data: Dataset, command: Command, moment: Moment)
    ensures
        ({
            let after = model::ran(model::begin(data), command, moment).0;
            &&& applied(data, changes_of(after)) == after.data
            &&& after.touched.subset_of(named(command))
        }),
{
    let keys = named(command);
    let part = model::begin(Dataset { entries: data.entries.restrict(keys), ..data });
    lemma_link_begin(data, keys);
    lemma_link_ran(data, model::begin(data), part, keys, command, moment);
    lemma_changes_suffice(data, model::ran(model::begin(data), command, moment).0);
}

/// A run of commands is fully told by the keys that it touches.
pub proof fn law_changes_tell_a_run(data: Dataset, commands: Seq<Command>, moment: Moment)
    ensures
        ({
            let after = model::ran_all(model::begin(data), commands, moment).0;
            &&& applied(data, changes_of(after)) == after.data
            &&& after.touched.subset_of(named_by(commands))
        }),
{
    let keys = named_by(commands);
    let part = model::begin(Dataset { entries: data.entries.restrict(keys), ..data });
    lemma_link_begin(data, keys);
    lemma_link_ran_all(data, model::begin(data), part, keys, commands, moment);
    lemma_changes_suffice(data, model::ran_all(model::begin(data), commands, moment).0);
}

} // verus!
