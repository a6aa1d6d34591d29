//! What the commands on hashes are for, told by what is there before and after.

use super::model::{Dataset, EntryModel, Moment};
use super::value::ValueModel;
use crate::buffer;
use crate::command::reply::{ExecutionError, ReplyModel};
use crate::command::types::{Command, HashCommand};
use crate::ordered;
use crate::storage::collections;
use crate::storage::model;
use crate::storage::string_laws;
use crate::storage::value;
use bytes::Bytes;
use vstd::prelude::*;

verus! {

/// A command on the hash of a key.
pub open spec fn on(key: Bytes, operation: HashCommand) -> Command {
    Command::Hash { key, operation }
}

/// Whether the key can be used as a hash: it holds one, or nothing.
pub open spec fn hashed(data: Dataset, key: Seq<u8>, now: u128) -> bool {
    string_laws::live(data, key, now) matches Some(entry) ==> entry.value is Hash
}

/// The fields under a key; there are none where there is no key.
pub open spec fn fields_at(data: Dataset, key: Seq<u8>, now: u128) -> Map<Seq<u8>, Seq<u8>> {
    match string_laws::live(data, key, now) {
        Some(EntryModel { value: ValueModel::Hash(fields), .. }) => fields,
        _ => Map::empty(),
    }
}

/// When the key ends.
pub open spec fn end_of(data: Dataset, key: Seq<u8>, now: u128) -> Option<model::Deadline> {
    match string_laws::live(data, key, now) {
        Some(entry) => entry.deadline,
        None => None,
    }
}

/// Every command on a hash is refused where the key holds something else, and changes
/// nothing there.
pub proof fn law_other_values_are_no_hashes(
    data: Dataset,
    key: Bytes,
    operation: HashCommand,
    moment: Moment,
)
    requires
        !hashed(data, buffer::bytes_content(key), moment.now),
    ensures
        string_laws::answer(data, on(key, operation), moment) == ReplyModel::Error(
            ExecutionError::WrongType,
        ),
        string_laws::left(data, on(key, operation), moment) == data,
{
}

/// HGET answers the value of the field and nothing where there is none, HEXISTS whether
/// there is one, HLEN how many fields there are.
pub proof fn law_fields_are_read(data: Dataset, key: Bytes, field: Bytes, moment: Moment)
    requires
        hashed(data, buffer::bytes_content(key), moment.now),
    ensures
        ({
            let fields = fields_at(data, buffer::bytes_content(key), moment.now);
            let name = buffer::bytes_content(field);
            let got = string_laws::answer(data, on(key, HashCommand::Get { field }), moment);
            let exists = string_laws::answer(data, on(key, HashCommand::Exists { field }), moment);
            &&& fields.contains_key(name) ==> got == ReplyModel::Bulk(Some(fields[name])) && exists
                == ReplyModel::Integer(1)
            &&& !fields.contains_key(name) ==> got == ReplyModel::Bulk(None) && exists
                == ReplyModel::Integer(0)
            &&& string_laws::answer(data, on(key, HashCommand::Len), moment) == ReplyModel::Integer(
                fields.dom().len() as i64,
            )
        }),
{
}

/// Reads of a hash change nothing that has not ended.
pub proof fn law_reads_of_a_hash_keep_it(
    data: Dataset,
    key: Bytes,
    operation: HashCommand,
    moment: Moment,
)
    requires
        !(operation is SetFields) && !(operation is Delete),
    ensures
        string_laws::live(
            string_laws::left(data, on(key, operation), moment),
            buffer::bytes_content(key),
            moment.now,
        ) == string_laws::live(data, buffer::bytes_content(key), moment.now),
{
}

proof fn lemma_listed(keys: Seq<Seq<u8>>, fields: Map<Seq<u8>, Seq<u8>>, index: int)
    ensures
        model::fields_listed(keys, fields).len() == 2 * keys.len(),
        0 <= index < keys.len() ==> {
            &&& model::fields_listed(keys, fields)[2 * index] == ReplyModel::Bulk(Some(keys[index]))
            &&& model::fields_listed(keys, fields)[2 * index + 1] == ReplyModel::Bulk(
                Some(fields[keys[index]]),
            )
        },
    decreases keys.len(),
{
    if keys.len() > 0 {
        lemma_listed(keys.drop_last(), fields, index);
        if index == keys.len() - 1 {
            assert(keys[index] == keys.last());
        }
    }
}

/// HGETALL answers every field once, in the order of their bytes, each with the value
/// that HGET answers behind it: twice as many items as HLEN tells.
pub proof fn law_hgetall_lists_all_fields(data: Dataset, key: Bytes, moment: Moment)
    requires
        hashed(data, buffer::bytes_content(key), moment.now),
        fields_at(data, buffer::bytes_content(key), moment.now).dom().finite(),
    ensures
        ({
            let fields = fields_at(data, buffer::bytes_content(key), moment.now);
            string_laws::answer(data, on(key, HashCommand::GetAll), moment) matches ReplyModel::Array(
                items,
            ) && items.len() == 2 * fields.dom().len() && exists|names: Seq<Seq<u8>>|
                {
                    &&& #[trigger] ordered::is_listing(names, fields.dom())
                    &&& 2 * names.len() == items.len()
                    &&& forall|i: int|
                        0 <= i < names.len() ==> items[2 * i] == ReplyModel::Bulk(
                            Some(#[trigger] names[i]),
                        ) && items[2 * i + 1] == ReplyModel::Bulk(Some(fields[names[i]]))
                }
        }),
{
    let fields = fields_at(data, buffer::bytes_content(key), moment.now);
    let names = ordered::listing(fields.dom());
    let items = model::fields_listed(names, fields);
    collections::lemma_listing_exists(fields.dom());
    collections::lemma_listing_len(names, fields.dom());
    lemma_listed(names, fields, -1);
    assert forall|i: int| 0 <= i < names.len() implies items[2 * i] == ReplyModel::Bulk(
        Some(#[trigger] names[i]),
    ) && items[2 * i + 1] == ReplyModel::Bulk(Some(fields[names[i]])) by {
        lemma_listed(names, fields, i);
    }
}

/// What the pairs of HSET say about a field: the last value that is given for it, or
/// none.
pub open spec fn given(entries: Seq<(Bytes, Bytes)>, field: Seq<u8>, value: Option<Seq<u8>>) -> bool {
    match value {
        None => forall|i: int|
            0 <= i < entries.len() ==> buffer::bytes_content((#[trigger] entries[i]).0) != field,
        Some(text) => exists|i: int|
            {
                &&& 0 <= i < entries.len()
                &&& buffer::bytes_content((#[trigger] entries[i]).0) == field
                &&& buffer::bytes_content(entries[i].1) == text
                &&& forall|later: int|
                    i < later < entries.len() ==> buffer::bytes_content(
                        (#[trigger] entries[later]).0,
                    ) != field
            },
    }
}

proof fn lemma_given(
    fields: Map<Seq<u8>, Seq<u8>>,
    entries: Seq<(Bytes, Bytes)>,
    field: Seq<u8>,
    value: Option<Seq<u8>>,
)
    requires
        given(entries, field, value),
    ensures
        ({
            let after = model::fields_set(fields, entries).0;
            match value {
                Some(text) => after.contains_key(field) && after[field] == text,
                None => after.contains_key(field) == fields.contains_key(field) && (
                fields.contains_key(field) ==> after[field] == fields[field]),
            }
        }),
    decreases entries.len(),
{
    if entries.len() > 0 {
        let front = entries.drop_last();
        assert(entries[entries.len() - 1] == entries.last());
        match value {
            None => {
                assert forall|i: int| 0 <= i < front.len() implies buffer::bytes_content(
                    (#[trigger] front[i]).0,
                ) != field by {
                    assert(front[i] == entries[i]);
                }
                lemma_given(fields, front, field, value);
            },
            Some(text) => {
                if buffer::bytes_content(entries.last().0) != field {
                    let i = choose|i: int|
                        {
                            &&& 0 <= i < entries.len()
                            &&& buffer::bytes_content((#[trigger] entries[i]).0) == field
                            &&& buffer::bytes_content(entries[i].1) == text
                            &&& forall|later: int|
                                i < later < entries.len() ==> buffer::bytes_content(
                                    (#[trigger] entries[later]).0,
                                ) != field
                        };
                    assert(front[i] == entries[i]);
                    assert forall|later: int| i < later < front.len() implies buffer::bytes_content(
                        (#[trigger] front[later]).0,
                    ) != field by {
                        assert(front[later] == entries[later]);
                    }
                    lemma_given(fields, front, field, value);
                }
            },
        }
    }
}

proof fn lemma_set_count(fields: Map<Seq<u8>, Seq<u8>>, entries: Seq<(Bytes, Bytes)>)
    requires
        fields.dom().finite(),
    ensures
        model::fields_set(fields, entries).0.dom().finite(),
        model::fields_set(fields, entries).0.dom().len() == fields.dom().len() + model::fields_set(
            fields,
            entries,
        ).1,
        model::fields_set(fields, entries).1 >= 0,
    decreases entries.len(),
{
    if entries.len() > 0 {
        lemma_set_count(fields, entries.drop_last());
        let before = model::fields_set(fields, entries.drop_last()).0;
        let name = buffer::bytes_content(entries.last().0);
        let text = buffer::bytes_content(entries.last().1);
        assert(before.insert(name, text).dom() =~= before.dom().insert(name));
    }
}

/// After an accepted HSET every field that was named has the last value given for it,
/// and every other field the value that it had. The answer is by how many fields the
/// hash has grown. The deadline stays.
pub proof fn law_hset_sets_the_fields(
    data: Dataset,
    key: Bytes,
    entries: Vec<(Bytes, Bytes)>,
    field: Seq<u8>,
    value: Option<Seq<u8>>,
    moment: Moment,
)
    requires
        hashed(data, buffer::bytes_content(key), moment.now),
        fields_at(data, buffer::bytes_content(key), moment.now).dom().finite(),
        !(string_laws::answer(
            data,
            on(key, HashCommand::SetFields { entries }),
            moment,
        ) is Error),
        given(entries@, field, value),
    ensures
        ({
            let name = buffer::bytes_content(key);
            let before = fields_at(data, name, moment.now);
            let next = string_laws::left(data, on(key, HashCommand::SetFields { entries }), moment);
            let after = fields_at(next, name, moment.now);
            &&& string_laws::answer(data, on(key, HashCommand::SetFields { entries }), moment)
                == ReplyModel::Integer((after.dom().len() - before.dom().len()) as i64)
            &&& after.dom().len() >= before.dom().len()
            &&& match value {
                Some(text) => after.contains_key(field) && after[field] == text,
                None => after.contains_key(field) == before.contains_key(field) && (
                before.contains_key(field) ==> after[field] == before[field]),
            }
            &&& end_of(next, name, moment.now) == end_of(data, name, moment.now)
            &&& hashed(next, name, moment.now)
        }),
{
    let name = buffer::bytes_content(key);
    let before = fields_at(data, name, moment.now);
    lemma_set_count(before, entries@);
    lemma_given(before, entries@, field, value);
    if entries@.len() == 0 {
        assert(model::fields_set(before, entries@) == (before, 0int));
    }
}

/// HSET fails only where the fields that it would leave do not fit the quota, and then
/// changes nothing.
pub proof fn law_hset_fails_for_want_of_room(
    data: Dataset,
    key: Bytes,
    entries: Vec<(Bytes, Bytes)>,
    wanted: Map<Seq<u8>, Seq<u8>>,
    moment: Moment,
)
    requires
        hashed(data, buffer::bytes_content(key), moment.now),
        entries@.len() > 0,
        forall|field: Seq<u8>, value: Option<Seq<u8>>| #[trigger]
            given(entries@, field, value) ==> match value {
                Some(text) => wanted.contains_key(field) && wanted[field] == text,
                None => {
                    let before = fields_at(data, buffer::bytes_content(key), moment.now);
                    wanted.contains_key(field) == before.contains_key(field) && (
                    before.contains_key(field) ==> wanted[field] == before[field])
                },
            },
    ensures
        ({
            let name = buffer::bytes_content(key);
            let command = on(key, HashCommand::SetFields { entries });
            if string_laws::no_room(data, name, ValueModel::Hash(wanted), moment.now) {
                &&& string_laws::answer(data, command, moment) == ReplyModel::Error(
                    ExecutionError::OutOfMemory,
                )
                &&& string_laws::live(string_laws::left(data, command, moment), name, moment.now)
                    == string_laws::live(data, name, moment.now)
            } else {
                string_laws::answer(data, command, moment) is Integer
            }
        }),
{
    let name = buffer::bytes_content(key);
    let before = fields_at(data, name, moment.now);
    let after = model::fields_set(before, entries@).0;
    assert forall|field: Seq<u8>| #[trigger] after.contains_key(field) == wanted.contains_key(field)
        && (after.contains_key(field) ==> after[field] == wanted[field]) by {
        let value = lemma_some_given(entries@, field);
        lemma_given(before, entries@, field, value);
        assert(given(entries@, field, value));
    }
    assert(after =~= wanted);
    lemma_grown(before, entries@);
    assert(value::storable(ValueModel::Hash(after)));
}

proof fn lemma_grown(fields: Map<Seq<u8>, Seq<u8>>, entries: Seq<(Bytes, Bytes)>)
    requires
        entries.len() > 0,
    ensures
        !model::fields_set(fields, entries).0.dom().is_empty(),
{
    let after = model::fields_set(fields, entries).0;
    assert(after.dom().contains(buffer::bytes_content(entries.last().0)));
}

/// Of every field the pairs say something.
proof fn lemma_some_given(entries: Seq<(Bytes, Bytes)>, field: Seq<u8>) -> (value: Option<Seq<u8>>)
    ensures
        given(entries, field, value),
    decreases entries.len(),
{
    if entries.len() == 0 {
        None
    } else if buffer::bytes_content(entries.last().0) == field {
        assert(entries[entries.len() - 1] == entries.last());
        Some(buffer::bytes_content(entries.last().1))
    } else {
        let front = entries.drop_last();
        let value = lemma_some_given(front, field);
        assert(entries[entries.len() - 1] == entries.last());
        match value {
            None => {
                assert forall|i: int| 0 <= i < entries.len() implies buffer::bytes_content(
                    (#[trigger] entries[i]).0,
                ) != field by {
                    if i < front.len() {
                        assert(front[i] == entries[i]);
                    }
                }
            },
            Some(text) => {
                let i = choose|i: int|
                    {
                        &&& 0 <= i < front.len()
                        &&& buffer::bytes_content((#[trigger] front[i]).0) == field
                        &&& buffer::bytes_content(front[i].1) == text
                        &&& forall|later: int|
                            i < later < front.len() ==> buffer::bytes_content(
                                (#[trigger] front[later]).0,
                            ) != field
                    };
                assert(buffer::bytes_content(entries[i].0) == field);
                assert forall|later: int| i < later < entries.len() implies buffer::bytes_content(
                    (#[trigger] entries[later]).0,
                ) != field by {
                    if later < front.len() {
                        assert(front[later] == entries[later]);
                    }
                }
            },
        }
        value
    }
}

proof fn lemma_deleted(fields: Map<Seq<u8>, Seq<u8>>, names: Seq<Bytes>, field: Seq<u8>)
    ensures
        ({
            let after = model::fields_deleted(fields, names).0;
            &&& after.contains_key(field) == (fields.contains_key(field) && !string_laws::mentions(
                names,
                field,
            ))
            &&& after.contains_key(field) ==> after[field] == fields[field]
        }),
    decreases names.len(),
{
    if names.len() > 0 {
        lemma_deleted(fields, names.drop_last(), field);
        string_laws::lemma_mentions(names, field);
    }
}

proof fn lemma_deleted_count(fields: Map<Seq<u8>, Seq<u8>>, names: Seq<Bytes>)
    requires
        fields.dom().finite(),
    ensures
        ({
            let (after, removed) = model::fields_deleted(fields, names);
            &&& after.dom().finite()
            &&& after.dom().len() + removed == fields.dom().len()
            &&& removed >= 0
            &&& removed == 0 ==> after == fields
        }),
    decreases names.len(),
{
    if names.len() > 0 {
        lemma_deleted_count(fields, names.drop_last());
        let before = model::fields_deleted(fields, names.drop_last()).0;
        let name = buffer::bytes_content(names.last());
        assert(before.remove(name).dom() =~= before.dom().remove(name));
        if !before.contains_key(name) {
            assert(before.remove(name) =~= before);
        }
    }
}

/// After HDEL none of the fields that it names is there, and every other field has the
/// value that it had. The answer is by how many fields the hash has shrunk. A hash
/// that is left without fields is gone with its key; otherwise its deadline stays.
pub proof fn law_hdel_removes_the_fields(
    data: Dataset,
    key: Bytes,
    names: Vec<Bytes>,
    moment: Moment,
)
    requires
        hashed(data, buffer::bytes_content(key), moment.now),
        fields_at(data, buffer::bytes_content(key), moment.now).dom().finite(),
    ensures
        ({
            let name = buffer::bytes_content(key);
            let command = on(key, HashCommand::Delete { fields: names });
            let before = fields_at(data, name, moment.now);
            let next = string_laws::left(data, command, moment);
            let after = fields_at(next, name, moment.now);
            &&& string_laws::answer(data, command, moment) == ReplyModel::Integer(
                (before.dom().len() - after.dom().len()) as i64,
            )
            &&& after.dom().len() <= before.dom().len()
            &&& forall|field: Seq<u8>| #[trigger]
                after.contains_key(field) <==> before.contains_key(field) && !string_laws::mentions(
                    names@,
                    field,
                )
            &&& forall|field: Seq<u8>|
                after.contains_key(field) ==> #[trigger] after[field] == before[field]
            &&& before.dom().len() > 0 && after.dom().len() == 0 ==> !next.entries.contains_key(
                name,
            )
            &&& after.dom().len() > 0 ==> end_of(next, name, moment.now) == end_of(
                data,
                name,
                moment.now,
            )
            &&& hashed(next, name, moment.now)
        }),
{
    let name = buffer::bytes_content(key);
    let command = on(key, HashCommand::Delete { fields: names });
    let before = fields_at(data, name, moment.now);
    let (after, removed) = model::fields_deleted(before, names@);
    let next = string_laws::left(data, command, moment);
    lemma_deleted_count(before, names@);
    if after.dom().is_empty() {
        assert(after =~= Map::empty());
        assert(after.dom() =~= Set::empty());
    } else {
        let some = after.dom().choose();
        assert(after.dom().contains(some));
        assert(after.dom().len() > 0);
    }
    if before.dom().len() == 0 {
        assert(before =~= Map::empty());
    }
    assert(fields_at(next, name, moment.now) =~= after);
    assert forall|field: Seq<u8>| #[trigger] after.contains_key(field) <==> before.contains_key(
        field,
    ) && !string_laws::mentions(names@, field) by {
        lemma_deleted(before, names@, field);
    }
    assert forall|field: Seq<u8>| after.contains_key(field) implies #[trigger] after[field]
        == before[field] by {
        lemma_deleted(before, names@, field);
    }
}

} // verus!
