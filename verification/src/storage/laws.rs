//! What holds of datasets whatever is executed.

use super::changes::Change;
use super::model::{Dataset, EntryModel, Moment, Trace};
use super::mutation::{MutationModel, ReplayError};
use super::store::Store;
use super::value::{ScoreModel, ValueModel};
use crate::command::reply::ReplyModel;
use crate::command::score::Score;
use crate::command::types::{Command, HashCommand, SortedSetCommand};
use bytes::Bytes;
use crate::buffer;
use crate::numbers;
use crate::ordered;
use crate::storage::accounting;
use crate::storage::changes;
use crate::storage::collections;
use crate::storage::model;
use crate::storage::mutation;
use crate::storage::value;
use vstd::prelude::*;

verus! {

/// Nothing happened but that entries which had ended were removed.
pub open spec fn only_ended(start: Dataset, trace: Trace, now: u128) -> bool {
    forall|key: Seq<u8>| #[trigger]
        changes::entry_at(trace.data, key) == if trace.touched.contains(key) {
            None
        } else {
            changes::entry_at(start, key)
        } && (trace.touched.contains(key) ==> start.entries.contains_key(key) && model::is_due(
            start.entries[key],
            now,
        ))
}

proof fn lemma_ended_expire(start: Dataset, trace: Trace, key: Seq<u8>, now: u128)
    requires
        only_ended(start, trace, now),
    ensures
        only_ended(start, model::expire(trace, key, now), now),
{
    let after = model::expire(trace, key, now);
    assert forall|other: Seq<u8>| #[trigger] changes::entry_at(after.data, other)
        == (if after.touched.contains(other) {
        None
    } else {
        changes::entry_at(start, other)
    }) && (after.touched.contains(other) ==> start.entries.contains_key(other) && model::is_due(
        start.entries[other],
        now,
    )) by {
        assert(changes::entry_at(trace.data, other) == if trace.touched.contains(other) {
            None
        } else {
            changes::entry_at(start, other)
        });
    }
}

/// Reading some keys removes no more than entries that have ended.
pub proof fn lemma_ended_exists(start: Dataset, trace: Trace, keys: Seq<Bytes>, now: u128)
    requires
        only_ended(start, trace, now),
    ensures
        only_ended(start, model::ran_exists(trace, keys, now).0, now),
        only_ended(start, model::ran_mget(trace, keys, now).0, now),
    decreases keys.len(),
{
    if keys.len() > 0 {
        lemma_ended_exists(start, trace, keys.drop_last(), now);
        lemma_ended_expire(
            start,
            model::ran_exists(trace, keys.drop_last(), now).0,
            buffer::bytes_content(keys.last()),
            now,
        );
        lemma_ended_expire(
            start,
            model::ran_mget(trace, keys.drop_last(), now).0,
            buffer::bytes_content(keys.last()),
            now,
        );
    }
}

proof fn lemma_ended_all(start: Dataset, trace: Trace, keys: Seq<Seq<u8>>, now: u128)
    requires
        only_ended(start, trace, now),
    ensures
        only_ended(start, model::expire_all(trace, keys, now), now),
    decreases keys.len(),
{
    if keys.len() > 0 {
        lemma_ended_all(start, trace, keys.drop_last(), now);
        lemma_ended_expire(start, model::expire_all(trace, keys.drop_last(), now), keys.last(), now);
    }
}

/// A command that only reads, or that fails, leaves the dataset as it was,
/// except that entries which have ended may be gone.
pub proof fn law_errors_and_reads_have_no_effect(data: Dataset, command: Command, moment: Moment)
    requires
        mutation::is_read(command) || model::ran(model::begin(data), command, moment).1 is Error,
    ensures
        only_ended(data, model::ran(model::begin(data), command, moment).0, moment.now),
{
    let start = model::begin(data);
    let now = moment.now;
    assert(only_ended(data, start, now));
    match command {
        Command::Exists { keys } => {
            lemma_ended_exists(data, start, keys@, now);
        },
        Command::MGet { keys } => {
            lemma_ended_exists(data, start, keys@, now);
        },
        Command::MSet { entries } => {
            lemma_ended_all(data, start, ordered::listing(model::merged(entries@).dom()), now);
        },
        Command::Get { key } => {
            lemma_ended_expire(data, start, buffer::bytes_content(key), now);
        },
        Command::Ttl { key, .. } => {
            lemma_ended_expire(data, start, buffer::bytes_content(key), now);
        },
        Command::SetValue { key, .. } => {
            lemma_ended_expire(data, start, buffer::bytes_content(key), now);
        },
        Command::SetWithOptions { key, .. } => {
            lemma_ended_expire(data, start, buffer::bytes_content(key), now);
        },
        Command::Incr { key } => {
            lemma_ended_expire(data, start, buffer::bytes_content(key), now);
        },
        Command::Decr { key } => {
            lemma_ended_expire(data, start, buffer::bytes_content(key), now);
        },
        Command::Expire { key, .. } => {
            lemma_ended_expire(data, start, buffer::bytes_content(key), now);
        },
        Command::Persist { key } => {
            lemma_ended_expire(data, start, buffer::bytes_content(key), now);
        },
        Command::Hash { key, .. } => {
            lemma_ended_expire(data, start, buffer::bytes_content(key), now);
        },
        Command::SortedSet { key, .. } => {
            lemma_ended_expire(data, start, buffer::bytes_content(key), now);
        },
        _ => {},
    }
}

/// A read gives back what a write wrote: GET right after a SET that was
/// accepted answers the value.
pub proof fn law_get_answers_what_set_wrote(
    data: Dataset,
    key: Bytes,
    value: Bytes,
    moment: Moment,
    later: Moment,
)
    requires
        model::ran(model::begin(data), Command::SetValue { key, value }, moment).1 is Okay,
    ensures
        ({
            let after = model::ran(model::begin(data), Command::SetValue { key, value }, moment).0.data;
            model::ran(model::begin(after), Command::Get { key }, later).1 == ReplyModel::Bulk(
                Some(buffer::bytes_content(value)),
            )
        }),
{
}

/// The entry of a key is seen at a moment.
pub open spec fn alive(data: Dataset, key: Seq<u8>, moment: Moment) -> bool {
    data.entries.contains_key(key) && !model::is_due(data.entries[key], moment.now)
}

proof fn lemma_field_set(
    fields: Map<Seq<u8>, Seq<u8>>,
    entries: Seq<(Bytes, Bytes)>,
    index: int,
)
    requires
        0 <= index < entries.len(),
        forall|later: int|
            index < later < entries.len() ==> buffer::bytes_content((#[trigger] entries[later]).0)
                != buffer::bytes_content(entries[index].0),
    ensures
        ({
            let after = model::fields_set(fields, entries).0;
            let field = buffer::bytes_content(entries[index].0);
            after.contains_key(field) && after[field] == buffer::bytes_content(entries[index].1)
        }),
    decreases entries.len(),
{
    let front = entries.drop_last();
    if index < front.len() {
        assert(entries.last() == entries[entries.len() - 1]);
        assert forall|later: int| index < later < front.len() implies buffer::bytes_content(
            (#[trigger] front[later]).0,
        ) != buffer::bytes_content(front[index].0) by {
            assert(front[later] == entries[later]);
        }
        lemma_field_set(fields, front, index);
    }
}

/// HGET of a field of an accepted HSET answers the last value that was given for it,
/// as long as the key does not end in between.
pub proof fn law_hget_answers_what_hset_wrote(
    data: Dataset,
    key: Bytes,
    entries: Vec<(Bytes, Bytes)>,
    index: int,
    moment: Moment,
    later: Moment,
)
    requires
        0 <= index < entries@.len(),
        forall|next: int|
            index < next < entries@.len() ==> buffer::bytes_content((#[trigger] entries@[next]).0)
                != buffer::bytes_content(entries@[index].0),
        model::ran(
            model::begin(data),
            Command::Hash { key, operation: HashCommand::SetFields { entries } },
            moment,
        ).1 is Integer,
        alive(
            model::ran(
                model::begin(data),
                Command::Hash { key, operation: HashCommand::SetFields { entries } },
                moment,
            ).0.data,
            buffer::bytes_content(key),
            later,
        ),
    ensures
        ({
            let after = model::ran(
                model::begin(data),
                Command::Hash { key, operation: HashCommand::SetFields { entries } },
                moment,
            ).0.data;
            model::ran(
                model::begin(after),
                Command::Hash { key, operation: HashCommand::Get { field: entries@[index].0 } },
                later,
            ).1 == ReplyModel::Bulk(Some(buffer::bytes_content(entries@[index].1)))
        }),
{
    let content = buffer::bytes_content(key);
    let seen = model::expire(model::begin(data), content, moment.now).data;
    let fields = if seen.entries.contains_key(content) {
        seen.entries[content].value->Hash_0
    } else {
        Map::empty()
    };
    lemma_field_set(fields, entries@, index);
}

proof fn lemma_unchanged(members: Map<Seq<u8>, ScoreModel>, entries: Seq<(Score, Bytes)>)
    ensures
        !model::members_added(members, entries).2 ==> model::members_added(members, entries).0
            == members,
    decreases entries.len(),
{
    if entries.len() > 0 {
        lemma_unchanged(members, entries.drop_last());
    }
}

proof fn lemma_member_added(
    members: Map<Seq<u8>, ScoreModel>,
    entries: Seq<(Score, Bytes)>,
    index: int,
)
    requires
        0 <= index < entries.len(),
        forall|later: int|
            index < later < entries.len() ==> buffer::bytes_content((#[trigger] entries[later]).1)
                != buffer::bytes_content(entries[index].1),
    ensures
        ({
            let after = model::members_added(members, entries).0;
            let member = buffer::bytes_content(entries[index].1);
            after.contains_key(member) && after[member].order == entries[index].0.order
        }),
    decreases entries.len(),
{
    let front = entries.drop_last();
    if index < front.len() {
        assert(entries.last() == entries[entries.len() - 1]);
        assert forall|later: int| index < later < front.len() implies buffer::bytes_content(
            (#[trigger] front[later]).1,
        ) != buffer::bytes_content(front[index].1) by {
            assert(front[later] == entries[later]);
        }
        lemma_member_added(members, front, index);
    }
}

/// After an accepted ZADD each of its members has a score of the rank that was last
/// given for it, and ZSCORE answers the text of that score, as long as the key does
/// not end in between.
pub proof fn law_zscore_answers_what_zadd_wrote(
    data: Dataset,
    key: Bytes,
    entries: Vec<(Score, Bytes)>,
    index: int,
    moment: Moment,
    later: Moment,
)
    requires
        0 <= index < entries@.len(),
        forall|next: int|
            index < next < entries@.len() ==> buffer::bytes_content((#[trigger] entries@[next]).1)
                != buffer::bytes_content(entries@[index].1),
        model::ran(
            model::begin(data),
            Command::SortedSet { key, operation: SortedSetCommand::Add { entries } },
            moment,
        ).1 is Integer,
        alive(
            model::ran(
                model::begin(data),
                Command::SortedSet { key, operation: SortedSetCommand::Add { entries } },
                moment,
            ).0.data,
            buffer::bytes_content(key),
            later,
        ),
    ensures
        ({
            let after = model::ran(
                model::begin(data),
                Command::SortedSet { key, operation: SortedSetCommand::Add { entries } },
                moment,
            ).0.data;
            let member = buffer::bytes_content(entries@[index].1);
            let value = after.entries[buffer::bytes_content(key)].value;
            &&& value is SortedSet
            &&& value->SortedSet_0.contains_key(member)
            &&& value->SortedSet_0[member].order == entries@[index].0.order
            &&& model::ran(
                model::begin(after),
                Command::SortedSet {
                    key,
                    operation: SortedSetCommand::Score { member: entries@[index].1 },
                },
                later,
            ).1 == ReplyModel::Bulk(Some(value->SortedSet_0[member].text))
        }),
{
    let content = buffer::bytes_content(key);
    let seen = model::expire(model::begin(data), content, moment.now).data;
    let members = if seen.entries.contains_key(content) {
        seen.entries[content].value->SortedSet_0
    } else {
        Map::empty()
    };
    lemma_unchanged(members, entries@);
    lemma_member_added(members, entries@, index);
}

proof fn lemma_deleted(trace: Trace, keys: Seq<Bytes>, now: u128, key: Seq<u8>)
    ensures
        model::ran_del(trace, keys, now).0.data.entries.contains_key(key)
            ==> trace.data.entries.contains_key(key),
        (exists|i: int| 0 <= i < keys.len() && buffer::bytes_content(#[trigger] keys[i]) == key)
            ==> !model::ran_del(trace, keys, now).0.data.entries.contains_key(key),
    decreases keys.len(),
{
    if keys.len() > 0 {
        let front = keys.drop_last();
        lemma_deleted(trace, front, now, key);
        if exists|i: int| 0 <= i < keys.len() && buffer::bytes_content(#[trigger] keys[i]) == key {
            let i = choose|i: int|
                0 <= i < keys.len() && buffer::bytes_content(#[trigger] keys[i]) == key;
            if i < front.len() {
                assert(buffer::bytes_content(front[i]) == key);
                lemma_deleted(model::ran_del(trace, front, now).0, Seq::empty(), now, key);
            }
        }
    }
}

/// After DEL none of its keys is there.
pub proof fn law_deleted_keys_are_absent(data: Dataset, keys: Vec<Bytes>, moment: Moment, index: int)
    requires
        0 <= index < keys@.len(),
    ensures
        !model::ran(model::begin(data), Command::Del { keys }, moment).0.data.entries.contains_key(
            buffer::bytes_content(keys@[index]),
        ),
{
    lemma_deleted(
        model::begin(data),
        keys@,
        moment.now,
        buffer::bytes_content(keys@[index]),
    );
}

/// DECR undoes INCR: right after each other they answer numbers that differ by one,
/// and the second is that from before the first.
pub proof fn law_decr_undoes_incr(data: Dataset, key: Bytes, moment: Moment, later: Moment)
    requires
        model::ran(model::begin(data), Command::Incr { key }, moment).1 is Integer,
        ({
            let after = model::ran(model::begin(data), Command::Incr { key }, moment).0.data;
            &&& alive(after, buffer::bytes_content(key), later)
            &&& model::ran(model::begin(after), Command::Decr { key }, later).1 is Integer
        }),
    ensures
        ({
            let first = model::ran(model::begin(data), Command::Incr { key }, moment);
            let second = model::ran(model::begin(first.0.data), Command::Decr { key }, later);
            &&& second.1 == ReplyModel::Integer((first.1->Integer_0 - 1) as i64)
            &&& second.0.data.entries[buffer::bytes_content(key)].value == ValueModel::Text(
                numbers::signed_decimal(first.1->Integer_0 - 1),
            )
            &&& alive(data, buffer::bytes_content(key), moment)
                ==> second.0.data.entries[buffer::bytes_content(key)]
                == data.entries[buffer::bytes_content(key)]
        }),
{
    let sum = model::ran(model::begin(data), Command::Incr { key }, moment).1->Integer_0;
    let text = numbers::signed_decimal(sum as int);
    let read = numbers::canonical_value(text)->Some_0;
    assert(numbers::canonical_value(text) == Some(read));
    numbers::lemma_signed_injective(sum, read);
}

/// An entry that has ended is not seen by a read.
pub proof fn law_ended_entries_are_not_seen(data: Dataset, key: Bytes, moment: Moment)
    requires
        data.entries.contains_key(buffer::bytes_content(key)),
        model::is_due(data.entries[buffer::bytes_content(key)], moment.now),
    ensures
        model::ran(model::begin(data), Command::Get { key }, moment).1 == ReplyModel::Bulk(None),
        model::ran(model::begin(data), Command::Ttl { key, milliseconds: true }, moment).1
            == ReplyModel::Integer(-2i64),
        !model::ran(model::begin(data), Command::Get { key }, moment).0.data.entries.contains_key(
            buffer::bytes_content(key),
        ),
{
}

proof fn lemma_written(trace: Trace, keys: Seq<Seq<u8>>, texts: Map<Seq<u8>, Seq<u8>>, key: Seq<u8>)
    ensures
        keys.contains(key) ==> changes::entry_at(model::write_all(trace, keys, texts).data, key) == Some(
            EntryModel { value: ValueModel::Text(texts[key]), deadline: None },
        ),
        !keys.contains(key) ==> changes::entry_at(model::write_all(trace, keys, texts).data, key) == changes::entry_at(
            trace.data,
            key,
        ),
    decreases keys.len(),
{
    if keys.len() > 0 {
        let front = keys.drop_last();
        lemma_written(trace, front, texts, key);
        assert(keys[keys.len() - 1] == keys.last());
        if front.contains(key) {
            let i = choose|i: int| 0 <= i < front.len() && front[i] == key;
            assert(keys[i] == key);
        }
        if keys.contains(key) && key != keys.last() {
            let i = choose|i: int| 0 <= i < keys.len() && keys[i] == key;
            assert(front[i] == key);
        }
    }
}

/// Pairs name finitely many keys.
pub proof fn lemma_merged_finite(entries: Seq<(Bytes, Bytes)>)
    ensures
        model::merged(entries).dom().finite(),
    decreases entries.len(),
{
    if entries.len() > 0 {
        lemma_merged_finite(entries.drop_last());
    }
}

/// MSET writes all of its pairs or none: when it is accepted, each key holds
/// its last value and no deadline.
pub proof fn law_mset_writes_all(data: Dataset, entries: Vec<(Bytes, Bytes)>, moment: Moment)
    requires
        model::ran(model::begin(data), Command::MSet { entries }, moment).1 is Okay,
    ensures
        forall|key: Seq<u8>| #[trigger]
            model::merged(entries@).contains_key(key) ==> changes::entry_at(
                model::ran(model::begin(data), Command::MSet { entries }, moment).0.data,
                key,
            ) == Some(
                EntryModel { value: ValueModel::Text(model::merged(entries@)[key]), deadline: None },
            ),
{
    let texts = model::merged(entries@);
    let keys = ordered::listing(texts.dom());
    lemma_merged_finite(entries@);
    collections::lemma_listing_exists(texts.dom());
    let seen = model::expire_all(model::begin(data), keys, moment.now);
    assert forall|key: Seq<u8>| #[trigger] model::merged(entries@).contains_key(key) implies changes::entry_at(
        model::ran(model::begin(data), Command::MSet { entries }, moment).0.data,
        key,
    ) == Some(EntryModel { value: ValueModel::Text(model::merged(entries@)[key]), deadline: None }) by {
        assert(texts.dom().contains(key));
        lemma_written(model::discard_all(seen, keys), keys, texts, key);
    }
}

/// All collections are finite, as those of a store are.
pub open spec fn finite_values(data: Dataset) -> bool {
    forall|key: Seq<u8>| #[trigger]
        data.entries.contains_key(key) ==> value::finite_value(data.entries[key].value)
}

spec fn capped(trace: Trace, cap: int) -> bool {
    &&& trace.data.used <= cap
    &&& trace.data.limit <= cap
    &&& finite_values(trace.data)
}

proof fn lemma_capped_discard(trace: Trace, key: Seq<u8>, now: u128, cap: int)
    requires
        capped(trace, cap),
    ensures
        capped(model::discard(trace, key), cap),
        capped(model::expire(trace, key, now), cap),
{
    let after = model::discard(trace, key);
    assert forall|other: Seq<u8>| #[trigger] after.data.entries.contains_key(
        other,
    ) implies value::finite_value(after.data.entries[other].value) by {
        assert(trace.data.entries.contains_key(other));
    }
}

proof fn lemma_capped_write(trace: Trace, key: Seq<u8>, entry: EntryModel, cap: int)
    requires
        capped(trace, cap),
        value::finite_value(entry.value),
        model::fits(trace.data, key, entry.value) || (trace.data.entries.contains_key(key) && value::value_bytes(
            entry.value,
        ) <= value::value_bytes(trace.data.entries[key].value)),
    ensures
        capped(model::write(trace, key, entry), cap),
{
    let after = model::write(trace, key, entry);
    assert forall|other: Seq<u8>| #[trigger] after.data.entries.contains_key(
        other,
    ) implies value::finite_value(after.data.entries[other].value) by {
        if other != key {
            assert(trace.data.entries.contains_key(other));
        }
    }
}

proof fn lemma_capped_del(trace: Trace, keys: Seq<Bytes>, now: u128, cap: int)
    requires
        capped(trace, cap),
    ensures
        capped(model::ran_del(trace, keys, now).0, cap),
        capped(model::ran_exists(trace, keys, now).0, cap),
        capped(model::ran_mget(trace, keys, now).0, cap),
    decreases keys.len(),
{
    if keys.len() > 0 {
        let front = keys.drop_last();
        let key = buffer::bytes_content(keys.last());
        lemma_capped_del(trace, front, now, cap);
        lemma_capped_discard(model::ran_del(trace, front, now).0, key, now, cap);
        lemma_capped_discard(model::expire(model::ran_del(trace, front, now).0, key, now), key, now, cap);
        lemma_capped_discard(model::ran_exists(trace, front, now).0, key, now, cap);
        lemma_capped_discard(model::ran_mget(trace, front, now).0, key, now, cap);
    }
}

proof fn lemma_capped_expire_all(trace: Trace, keys: Seq<Seq<u8>>, now: u128, cap: int)
    requires
        capped(trace, cap),
    ensures
        capped(model::expire_all(trace, keys, now), cap),
        capped(model::discard_all(trace, keys), cap),
    decreases keys.len(),
{
    if keys.len() > 0 {
        let front = keys.drop_last();
        lemma_capped_expire_all(trace, front, now, cap);
        lemma_capped_discard(model::expire_all(trace, front, now), keys.last(), now, cap);
        lemma_capped_discard(model::discard_all(trace, front), keys.last(), now, cap);
    }
}

proof fn lemma_finite_write_all(trace: Trace, keys: Seq<Seq<u8>>, texts: Map<Seq<u8>, Seq<u8>>)
    requires
        finite_values(trace.data),
    ensures
        finite_values(model::write_all(trace, keys, texts).data),
        model::write_all(trace, keys, texts).data.limit == trace.data.limit,
    decreases keys.len(),
{
    if keys.len() > 0 {
        let front = keys.drop_last();
        lemma_finite_write_all(trace, front, texts);
        let before = model::write_all(trace, front, texts);
        let after = model::write_all(trace, keys, texts);
        assert forall|other: Seq<u8>| #[trigger] after.data.entries.contains_key(
            other,
        ) implies value::finite_value(after.data.entries[other].value) by {
            if other != keys.last() {
                assert(before.data.entries.contains_key(other));
            }
        }
    }
}

proof fn lemma_fields_finite(
    fields: Map<Seq<u8>, Seq<u8>>,
    entries: Seq<(Bytes, Bytes)>,
    names: Seq<Bytes>,
)
    requires
        fields.dom().finite(),
    ensures
        model::fields_set(fields, entries).0.dom().finite(),
        model::fields_deleted(fields, names).0.dom().finite(),
        model::fields_deleted(fields, names).0.submap_of(fields),
        model::fields_deleted(fields, names).1 > 0 ==> !fields.dom().is_empty(),
        model::fields_deleted(fields, names).1 >= 0,
    decreases entries.len() + names.len(),
{
    if entries.len() > 0 {
        lemma_fields_finite(fields, entries.drop_last(), names);
    }
    if names.len() > 0 {
        lemma_fields_finite(fields, entries, names.drop_last());
        let before = model::fields_deleted(fields, names.drop_last()).0;
        assert(before.remove(buffer::bytes_content(names.last())).submap_of(fields));
        if before.contains_key(buffer::bytes_content(names.last())) {
            assert(fields.dom().contains(buffer::bytes_content(names.last())));
        }
    }
}

proof fn lemma_members_finite(
    members: Map<Seq<u8>, ScoreModel>,
    entries: Seq<(crate::command::score::Score, Bytes)>,
    names: Seq<Bytes>,
)
    requires
        members.dom().finite(),
    ensures
        model::members_added(members, entries).0.dom().finite(),
        model::members_removed(members, names).0.dom().finite(),
        model::members_removed(members, names).0.submap_of(members),
        model::members_removed(members, names).1 > 0 ==> !members.dom().is_empty(),
        model::members_removed(members, names).1 >= 0,
    decreases entries.len() + names.len(),
{
    if entries.len() > 0 {
        lemma_members_finite(members, entries.drop_last(), names);
    }
    if names.len() > 0 {
        lemma_members_finite(members, entries, names.drop_last());
        let before = model::members_removed(members, names.drop_last()).0;
        assert(before.remove(buffer::bytes_content(names.last())).submap_of(members));
        if before.contains_key(buffer::bytes_content(names.last())) {
            assert(members.dom().contains(buffer::bytes_content(names.last())));
        }
    }
}

/// What a command on one key may do under the cap.
proof fn lemma_capped_one(trace: Trace, key: Seq<u8>, now: u128, cap: int)
    requires
        capped(trace, cap),
    ensures
        ({
            let seen = model::expire(trace, key, now);
            &&& capped(seen, cap)
            &&& capped(model::discard(seen, key), cap)
            &&& forall|entry: EntryModel|
                value::finite_value(entry.value) && (model::fits(seen.data, key, entry.value) || (
                seen.data.entries.contains_key(key) && value::value_bytes(entry.value) <= value::value_bytes(
                    seen.data.entries[key].value,
                ))) ==> capped(#[trigger] model::write(seen, key, entry), cap)
        }),
{
    lemma_capped_discard(trace, key, now, cap);
    let seen = model::expire(trace, key, now);
    lemma_capped_discard(seen, key, now, cap);
    assert forall|entry: EntryModel|
        value::finite_value(entry.value) && (model::fits(seen.data, key, entry.value) || (
        seen.data.entries.contains_key(key) && value::value_bytes(entry.value) <= value::value_bytes(
            seen.data.entries[key].value,
        ))) implies capped(#[trigger] model::write(seen, key, entry), cap) by {
        lemma_capped_write(seen, key, entry, cap);
    }
}

proof fn lemma_capped_mset(trace: Trace, entries: Seq<(Bytes, Bytes)>, now: u128, cap: int)
    requires
        capped(trace, cap),
    ensures
        capped(model::ran_mset(trace, entries, now).0, cap),
{
    let texts = model::merged(entries);
    let keys = ordered::listing(texts.dom());
    lemma_merged_finite(entries);
    collections::lemma_listing_exists(texts.dom());
    accounting::lemma_ascending_distinct(keys);
    let seen = model::expire_all(trace, keys, now);
    lemma_capped_expire_all(trace, keys, now, cap);
    lemma_capped_expire_all(seen, keys, now, cap);
    let cleared = model::discard_all(seen, keys);
    lemma_finite_write_all(cleared, keys, texts);
    super::execution::lemma_discard_all(seen, keys);
    super::execution::lemma_write_all(cleared, keys, texts);
}

proof fn lemma_capped_hash(trace: Trace, key: Seq<u8>, operation: HashCommand, now: u128, cap: int)
    requires
        capped(trace, cap),
    ensures
        capped(super::model::ran_hash(trace, key, operation, now).0, cap),
{
    lemma_capped_one(trace, key, now, cap);
    let seen = model::expire(trace, key, now);
    let present = seen.data.entries.contains_key(key);
    if !(present && !(seen.data.entries[key].value is Hash)) {
        let fields = if present {
            seen.data.entries[key].value->Hash_0
        } else {
            Map::empty()
        };
        assert(fields.dom().finite());
        match operation {
            HashCommand::SetFields { entries } => {
                lemma_fields_finite(fields, entries@, Seq::empty());
            },
            HashCommand::Delete { fields: names } => {
                lemma_fields_finite(fields, Seq::empty(), names@);
                collections::lemma_fields_subset(model::fields_deleted(fields, names@).0, fields);
            },
            _ => {},
        }
    }
}

proof fn lemma_capped_sorted_set(
    trace: Trace,
    key: Seq<u8>,
    operation: SortedSetCommand,
    now: u128,
    cap: int,
)
    requires
        capped(trace, cap),
    ensures
        capped(super::model::ran_sorted_set(trace, key, operation, now).0, cap),
{
    lemma_capped_one(trace, key, now, cap);
    let seen = model::expire(trace, key, now);
    let present = seen.data.entries.contains_key(key);
    if !(present && !(seen.data.entries[key].value is SortedSet)) {
        let members = if present {
            seen.data.entries[key].value->SortedSet_0
        } else {
            Map::empty()
        };
        assert(members.dom().finite());
        match operation {
            SortedSetCommand::Add { entries } => {
                lemma_members_finite(members, entries@, Seq::empty());
            },
            SortedSetCommand::Remove { members: names } => {
                lemma_members_finite(members, Seq::empty(), names@);
                collections::lemma_members_subset(model::members_removed(members, names@).0, members);
            },
            _ => {},
        }
    }
}

/// Usage never grows past the quota: after a command it is within the quota,
/// or no more than it was.
pub proof fn law_usage_respects_the_quota(data: Dataset, command: Command, moment: Moment)
    requires
        finite_values(data),
    ensures
        ({
            let after = model::ran(model::begin(data), command, moment).0.data;
            &&& after.used <= data.limit || after.used <= data.used
            &&& after.limit == data.limit
            &&& finite_values(after)
        }),
{
    let start = model::begin(data);
    let cap = if data.limit >= data.used {
        data.limit
    } else {
        data.used
    };
    let now = moment.now;
    super::changes::law_changes_tell_a_command(data, command, moment);
    assert(capped(start, cap));
    match command {
        Command::Del { keys } => lemma_capped_del(start, keys@, now, cap),
        Command::Exists { keys } => lemma_capped_del(start, keys@, now, cap),
        Command::MGet { keys } => lemma_capped_del(start, keys@, now, cap),
        Command::MSet { entries } => lemma_capped_mset(start, entries@, now, cap),
        Command::Get { key } => lemma_capped_one(start, buffer::bytes_content(key), now, cap),
        Command::Ttl { key, .. } => lemma_capped_one(start, buffer::bytes_content(key), now, cap),
        Command::SetValue { key, .. } => lemma_capped_one(start, buffer::bytes_content(key), now, cap),
        Command::SetWithOptions { key, .. } => lemma_capped_one(
            start,
            buffer::bytes_content(key),
            now,
            cap,
        ),
        Command::Incr { key } => lemma_capped_one(start, buffer::bytes_content(key), now, cap),
        Command::Decr { key } => lemma_capped_one(start, buffer::bytes_content(key), now, cap),
        Command::Expire { key, .. } => lemma_capped_one(start, buffer::bytes_content(key), now, cap),
        Command::Persist { key } => lemma_capped_one(start, buffer::bytes_content(key), now, cap),
        Command::Hash { key, operation } => lemma_capped_hash(
            start,
            buffer::bytes_content(key),
            operation,
            now,
            cap,
        ),
        Command::SortedSet { key, operation } => lemma_capped_sorted_set(
            start,
            buffer::bytes_content(key),
            operation,
            now,
            cap,
        ),
        _ => {},
    }
}

/// A dataset without entries.
pub open spec fn empty_dataset(limit: int) -> Dataset {
    Dataset { entries: Map::empty(), used: 0, limit }
}

proof fn lemma_resolved_snapshot(data: Dataset, moment: Moment, count: int)
    requires
        data.entries.dom().finite(),
        0 <= count <= ordered::listing(data.entries.dom()).len(),
        model::costs_of(data, ordered::listing(data.entries.dom())) <= usize::MAX,
        forall|key: Seq<u8>| #[trigger]
            data.entries.contains_key(key) ==> mutation::resolved(
                mutation::mutation_of(Change { key, entry: changes::entry_at(data, key) }),
                moment,
            ) is Ok,
    ensures
        ({
            let keys = ordered::listing(data.entries.dom());
            let outcome = mutation::resolved_all(mutation::snapshot_of(data).take(count), 0, moment);
            &&& outcome is Ok
            &&& outcome->Ok_0.len() == count
            &&& changes::change_costs(outcome->Ok_0) <= model::costs_of(data, keys.take(count))
            &&& model::costs_of(data, keys.take(count)) <= model::costs_of(data, keys)
            &&& forall|i: int|
                0 <= i < count ==> (#[trigger] outcome->Ok_0[i]) == (Change {
                    key: keys[i],
                    entry: mutation::resolved(
                        mutation::mutation_of(Change { key: keys[i], entry: changes::entry_at(data, keys[i]) }),
                        moment,
                    )->Ok_0,
                })
        }),
    decreases count,
{
    let keys = ordered::listing(data.entries.dom());
    let models = mutation::snapshot_of(data);
    collections::lemma_listing_exists(data.entries.dom());
    lemma_costs_prefix(data, keys, count);
    if count > 0 {
        lemma_resolved_snapshot(data, moment, count - 1);
        let key = keys[count - 1];
        assert(keys.contains(key));
        assert(data.entries.dom().contains(key));
        assert(data.entries.contains_key(key));
        assert(models.take(count).drop_last() =~= models.take(count - 1));
        assert(models.take(count).last() == models[count - 1]);
        assert(keys.take(count).drop_last() =~= keys.take(count - 1));
        let before = mutation::resolved_all(models.take(count - 1), 0, moment)->Ok_0;
        let change = Change {
            key,
            entry: mutation::resolved(mutation::mutation_of(Change { key, entry: changes::entry_at(data, key) }), moment)->Ok_0,
        };
        assert(before.push(change).drop_last() =~= before);
    } else {
        assert(models.take(0) =~= Seq::<MutationModel>::empty());
        assert(keys.take(0) =~= Seq::<Seq<u8>>::empty());
    }
}

proof fn lemma_costs_prefix(data: Dataset, keys: Seq<Seq<u8>>, count: int)
    requires
        0 <= count <= keys.len(),
    ensures
        model::costs_of(data, keys.take(count)) <= model::costs_of(data, keys),
    decreases keys.len() - count,
{
    if count < keys.len() {
        lemma_costs_prefix(data, keys, count + 1);
        assert(keys.take(count + 1).drop_last() =~= keys.take(count));
    } else {
        assert(keys.take(count) =~= keys);
    }
}

/// The absolute time at which an entry ends, if it does.
pub open spec fn ends_at(entry: EntryModel) -> Option<i64> {
    match entry.deadline {
        Some(deadline) => Some(deadline.unix_ms),
        None => None,
    }
}

/// Whether an entry has ended by the wall clock.
pub open spec fn due(entry: EntryModel, moment: Moment) -> bool {
    entry.deadline matches Some(deadline) && deadline.unix_ms <= moment.unix_ms
}

/// A snapshot holds each entry once, in the order of the keys, with its value
/// and the absolute time of its deadline, and nothing else.
pub proof fn law_snapshot_holds_the_entries(data: Dataset)
    requires
        data.entries.dom().finite(),
    ensures
        ({
            let snapshot = mutation::snapshot_of(data);
            let keys = mutation::mutation_keys(snapshot);
            &&& snapshot.len() == data.entries.dom().len()
            &&& ordered::ascending(keys)
            &&& forall|key: Seq<u8>| #[trigger]
                data.entries.contains_key(key) <==> keys.contains(key)
            &&& forall|i: int|
                0 <= i < snapshot.len() ==> (#[trigger] snapshot[i]) == (MutationModel::Put {
                    key: keys[i],
                    value: data.entries[keys[i]].value,
                    expires_at_unix_ms: ends_at(data.entries[keys[i]]),
                })
        }),
{
    let snapshot = mutation::snapshot_of(data);
    let keys = ordered::listing(data.entries.dom());
    collections::lemma_listing_exists(data.entries.dom());
    accounting::lemma_ascending_distinct(keys);
    assert(mutation::mutation_keys(snapshot) =~= keys);
    assert(keys.no_duplicates());
    keys.unique_seq_to_set();
    assert(keys.to_set() =~= data.entries.dom());
    assert forall|key: Seq<u8>| #[trigger] data.entries.contains_key(key) <==> keys.contains(key) by {
        assert(data.entries.dom().contains(key) <==> keys.contains(key));
    }
    assert forall|i: int| 0 <= i < snapshot.len() implies (#[trigger] snapshot[i]) == (
    MutationModel::Put {
        key: keys[i],
        value: data.entries[keys[i]].value,
        expires_at_unix_ms: ends_at(data.entries[keys[i]]),
    }) by {
        assert(keys.contains(keys[i]));
        assert(data.entries.contains_key(keys[i]));
    }
}

/// A snapshot can be replayed into an empty store that has room for it, where
/// the monotonic clock can tell its deadlines.
pub proof fn law_snapshot_can_be_replayed(data: Dataset, limit: int, moment: Moment)
    requires
        data.entries.dom().finite(),
        model::costs_of(data, ordered::listing(data.entries.dom())) <= limit <= usize::MAX,
        forall|key: Seq<u8>| #[trigger]
            data.entries.contains_key(key) ==> mutation::resolved(
                mutation::mutation_of(Change { key, entry: changes::entry_at(data, key) }),
                moment,
            ) is Ok,
    ensures
        mutation::replay_outcome(empty_dataset(limit), mutation::snapshot_of(data), moment) is Ok,
{
    let keys = ordered::listing(data.entries.dom());
    let models = mutation::snapshot_of(data);
    let blank = empty_dataset(limit);
    collections::lemma_listing_exists(data.entries.dom());
    accounting::lemma_ascending_distinct(keys);
    assert(mutation::mutation_keys(models) =~= keys);
    lemma_resolved_snapshot(data, moment, keys.len() as int);
    assert(models.take(keys.len() as int) =~= models);
    assert(keys.take(keys.len() as int) =~= keys);
    lemma_blank(blank, keys);
}

/// What mutations are resolved to, one by one.
pub proof fn lemma_resolved_each(mutations: Seq<MutationModel>, base: int, moment: Moment)
    requires
        mutation::resolved_all(mutations, base, moment) is Ok,
    ensures
        ({
            let changes = mutation::resolved_all(mutations, base, moment)->Ok_0;
            &&& changes.len() == mutations.len()
            &&& forall|i: int|
                0 <= i < changes.len() ==> (#[trigger] changes[i]).key == mutations[i].key()
                    && mutation::resolved(mutations[i], moment) == Ok::<
                    Option<EntryModel>,
                    ReplayError,
                >(changes[i].entry)
        }),
    decreases mutations.len(),
{
    if mutations.len() > 0 {
        let changes = mutation::resolved_all(mutations, base, moment)->Ok_0;
        let front = mutation::resolved_all(mutations.drop_last(), base, moment)->Ok_0;
        lemma_resolved_each(mutations.drop_last(), base, moment);
        assert forall|i: int| 0 <= i < changes.len() implies (#[trigger] changes[i]).key
            == mutations[i].key() && mutation::resolved(mutations[i], moment) == Ok::<
            Option<EntryModel>,
            ReplayError,
        >(changes[i].entry) by {
            if i < front.len() {
                assert(changes[i] == front[i]);
                assert(mutations.drop_last()[i] == mutations[i]);
            } else {
                assert(mutations[i] == mutations.last());
            }
        }
    }
}

/// Replaying a snapshot into an empty store brings back every entry whose
/// deadline is still ahead, with its value and the absolute time of its
/// deadline, and nothing else. The bytes in use are those of what came back.
/// Where no deadline has passed, these are the bytes of all entries, and the
/// snapshot of the new store is the one that was replayed.
pub proof fn law_snapshot_restores(data: Dataset, limit: int, moment: Moment)
    requires
        data.entries.dom().finite(),
        mutation::replay_outcome(
            empty_dataset(limit),
            mutation::snapshot_of(data),
            moment,
        ) is Ok,
    ensures
        ({
            let outcome = mutation::replay_outcome(
                empty_dataset(limit),
                mutation::snapshot_of(data),
                moment,
            );
            let restored = changes::applied(empty_dataset(limit), outcome->Ok_0);
            &&& forall|key: Seq<u8>| #[trigger]
                changes::entry_at(restored, key) == if data.entries.contains_key(key) && !due(
                    data.entries[key],
                    moment,
                ) {
                    Some(
                        EntryModel {
                            value: data.entries[key].value,
                            deadline: match data.entries[key].deadline {
                                None => None,
                                Some(deadline) => Some(
                                    super::model::Deadline {
                                        at: (moment.now + (deadline.unix_ms - moment.unix_ms)
                                            * 1_000_000) as u128,
                                        unix_ms: deadline.unix_ms,
                                    },
                                ),
                            },
                        },
                    )
                } else {
                    None
                }
            &&& restored.limit == limit
            &&& restored.used == model::costs_of(
                restored,
                ordered::listing(restored.entries.dom()),
            )
            &&& (forall|key: Seq<u8>| #[trigger]
                data.entries.contains_key(key) ==> !due(data.entries[key], moment)) ==> {
                &&& restored.used == model::costs_of(data, ordered::listing(data.entries.dom()))
                &&& mutation::snapshot_of(restored) == mutation::snapshot_of(data)
            }
        }),
{
    let keys = ordered::listing(data.entries.dom());
    let models = mutation::snapshot_of(data);
    let blank = empty_dataset(limit);
    collections::lemma_listing_exists(data.entries.dom());
    accounting::lemma_ascending_distinct(keys);
    law_snapshot_holds_the_entries(data);
    assert(mutation::mutation_keys(models) =~= keys);
    lemma_blank(blank, keys);
    let changes = mutation::resolved_all(models, 0, moment)->Ok_0;
    lemma_resolved_each(models, 0, moment);
    assert forall|i: int| 0 <= i < keys.len() implies (#[trigger] changes[i]).key == keys[i] by {
        assert(mutation::mutation_keys(models)[i] == models[i].key());
    }
    assert(changes::change_keys(changes) =~= keys);
    let restored = changes::applied(blank, changes);
    assert forall|key: Seq<u8>| #[trigger] changes::entry_at(restored, key) == (
    if data.entries.contains_key(key) && !due(data.entries[key], moment) {
        Some(
            EntryModel {
                value: data.entries[key].value,
                deadline: match data.entries[key].deadline {
                    None => None,
                    Some(deadline) => Some(
                        super::model::Deadline {
                            at: (moment.now + (deadline.unix_ms - moment.unix_ms)
                                * 1_000_000) as u128,
                            unix_ms: deadline.unix_ms,
                        },
                    ),
                },
            },
        )
    } else {
        None
    }) by {
        changes::lemma_changed_entries(blank.entries, changes, key);
        if data.entries.contains_key(key) {
            assert(keys.contains(key));
            let i = choose|i: int| 0 <= i < keys.len() && keys[i] == key;
            assert(changes[i].key == key);
            assert(models[i] == (MutationModel::Put {
                key: keys[i],
                value: data.entries[keys[i]].value,
                expires_at_unix_ms: ends_at(data.entries[keys[i]]),
            }));
        } else {
            assert(!keys.contains(key));
        }
    }
    assert forall|i: int| 0 <= i < keys.len() implies (#[trigger] changes[i]).key == keys[i]
        && changes[i].entry == changes::entry_at(restored, keys[i]) by {
        changes::lemma_changed_entries(blank.entries, changes, keys[i]);
    }
    changes::lemma_change_costs(restored, keys, changes);
    lemma_restored_costs(data, restored);
    if forall|key: Seq<u8>| #[trigger]
        data.entries.contains_key(key) ==> !due(data.entries[key], moment) {
        assert forall|key: Seq<u8>| #[trigger]
            restored.entries.dom().contains(key) <==> data.entries.dom().contains(key) by {
            assert(changes::entry_at(restored, key) is Some <==> data.entries.contains_key(key));
        }
        assert(restored.entries.dom() =~= data.entries.dom());
        assert forall|key: Seq<u8>| data.entries.contains_key(key) implies #[trigger]
        restored.entries[key].value == data.entries[key].value && ends_at(restored.entries[key])
            == ends_at(data.entries[key]) by {
            assert(changes::entry_at(restored, key) == Some(restored.entries[key]));
        }
        lemma_costs_agree(data, restored, keys);
        law_snapshot_holds_the_entries(restored);
        assert(mutation::snapshot_of(restored) =~= models) by {
            assert forall|i: int| 0 <= i < keys.len() implies #[trigger] mutation::snapshot_of(
                restored,
            )[i] == models[i] by {
                assert(keys.contains(keys[i]));
                assert(data.entries.contains_key(keys[i]));
            }
        }
    }
}

/// Entries that came back take the same whether their keys are listed alone or
/// with those that did not come back.
proof fn lemma_restored_costs(data: Dataset, restored: Dataset)
    requires
        data.entries.dom().finite(),
        forall|key: Seq<u8>|
            #[trigger] changes::entry_at(restored, key) is Some ==> data.entries.contains_key(key),
    ensures
        model::costs_of(restored, ordered::listing(data.entries.dom())) == model::costs_of(
            restored,
            ordered::listing(restored.entries.dom()),
        ),
{
    let keys = ordered::listing(data.entries.dom());
    let left = ordered::listing(restored.entries.dom());
    assert forall|key: Seq<u8>| #[trigger] restored.entries.dom().contains(key) implies
        data.entries.dom().contains(key) by {
        assert(changes::entry_at(restored, key) is Some);
    }
    vstd::set_lib::lemma_len_subset(restored.entries.dom(), data.entries.dom());
    collections::lemma_listing_exists(data.entries.dom());
    collections::lemma_listing_exists(restored.entries.dom());
    accounting::lemma_ascending_distinct(keys);
    accounting::lemma_ascending_distinct(left);
    assert forall|i: int| 0 <= i < keys.len() && restored.entries.contains_key(
        #[trigger] keys[i],
    ) implies left.contains(keys[i]) by {
        assert(restored.entries.dom().contains(keys[i]));
    }
    assert forall|i: int| 0 <= i < left.len() && restored.entries.contains_key(
        #[trigger] left[i],
    ) implies keys.contains(left[i]) by {
        assert(restored.entries.dom().contains(left[i]));
        assert(data.entries.dom().contains(left[i]));
    }
    accounting::lemma_costs_subset(restored, keys, left);
    accounting::lemma_costs_subset(restored, left, keys);
}

proof fn lemma_costs_agree(left: Dataset, right: Dataset, keys: Seq<Seq<u8>>)
    requires
        forall|key: Seq<u8>| #[trigger]
            left.entries.contains_key(key) <==> right.entries.contains_key(key),
        forall|key: Seq<u8>|
            left.entries.contains_key(key) ==> (#[trigger] right.entries[key]).value
                == left.entries[key].value,
    ensures
        model::costs_of(left, keys) == model::costs_of(right, keys),
    decreases keys.len(),
{
    if keys.len() > 0 {
        lemma_costs_agree(left, right, keys.drop_last());
        let key = keys.last();
        assert(left.entries.contains_key(key) <==> right.entries.contains_key(key));
    }
}

/// A store and one that its snapshot was replayed into, before any deadline
/// has passed, have the same bytes in use and the same snapshot.
pub proof fn law_restored_stores_are_alike(
    store: Store,
    fresh: Store,
    restored: Store,
    moment: Moment,
)
    requires
        store.wf(),
        store.outside() == 0,
        fresh.data() == empty_dataset(store.data().limit),
        mutation::replay_outcome(
            fresh.data(),
            mutation::snapshot_of(store.data()),
            moment,
        ) matches Ok(changes) && restored.data() == changes::applied(fresh.data(), changes),
        forall|key: Seq<u8>| #[trigger]
            store.data().entries.contains_key(key) ==> !due(store.data().entries[key], moment),
    ensures
        restored.data().used == store.data().used,
        restored.data().limit == store.data().limit,
        mutation::snapshot_of(restored.data()) == mutation::snapshot_of(store.data()),
{
    store.lemma_used();
    law_snapshot_restores(store.data(), store.data().limit, moment);
}

proof fn lemma_blank(data: Dataset, keys: Seq<Seq<u8>>)
    requires
        data.entries == Map::<Seq<u8>, EntryModel>::empty(),
    ensures
        model::costs_of(data, keys) == 0,
    decreases keys.len(),
{
    if keys.len() > 0 {
        lemma_blank(data, keys.drop_last());
    }
}

} // verus!
