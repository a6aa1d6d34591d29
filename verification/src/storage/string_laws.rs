//! What the commands on texts are for, told by what is there before and after.

use super::model::{Dataset, EntryModel, Moment, Trace};
use super::value::ValueModel;
use crate::buffer;
use crate::command::reply::{ExecutionError, ReplyModel};
use crate::command::types::{Command, ExpiryUnit, SetCondition, SetExpiry, SetOptions};
use crate::numbers;
use crate::ordered;
use crate::storage::changes;
use crate::storage::collections;
use crate::storage::laws;
use crate::storage::model;
use bytes::Bytes;
use vstd::prelude::*;

verus! {

/// What a command answers.
pub open spec fn answer(data: Dataset, command: Command, moment: Moment) -> ReplyModel {
    model::ran(model::begin(data), command, moment).1
}

/// The dataset that a command leaves.
pub open spec fn left(data: Dataset, command: Command, moment: Moment) -> Dataset {
    model::ran(model::begin(data), command, moment).0.data
}

/// The entry of a key that has not ended.
pub open spec fn live(data: Dataset, key: Seq<u8>, now: u128) -> Option<EntryModel> {
    if data.entries.contains_key(key) && !(data.entries[key].deadline matches Some(deadline)
        && deadline.at <= now) {
        Some(data.entries[key])
    } else {
        None
    }
}

/// Bytes in use once an entry of this key that has ended is gone.
pub open spec fn in_use(data: Dataset, key: Seq<u8>, now: u128) -> int {
    if data.entries.contains_key(key) && live(data, key, now) is None {
        data.used - model::cost(key, data.entries[key].value)
    } else {
        data.used
    }
}

/// Bytes in use once the key holds this value instead of what it holds.
pub open spec fn use_with(data: Dataset, key: Seq<u8>, value: ValueModel, now: u128) -> int {
    in_use(data, key, now) + model::cost(key, value) - match live(data, key, now) {
        Some(entry) => model::cost(key, entry.value),
        None => 0,
    }
}

/// Whether there is no room for a value: usage would grow, and past the quota.
pub open spec fn no_room(data: Dataset, key: Seq<u8>, value: ValueModel, now: u128) -> bool {
    use_with(data, key, value, now) > data.limit && use_with(data, key, value, now) > in_use(
        data,
        key,
        now,
    )
}

/// GET answers the text of the key, nothing where there is no key, and an error
/// where the key holds no text. It leaves what has not ended.
pub proof fn law_get_answers_the_text(data: Dataset, key: Bytes, moment: Moment)
    ensures
        answer(data, Command::Get { key }, moment) == match live(
            data,
            buffer::bytes_content(key),
            moment.now,
        ) {
            None => ReplyModel::Bulk(None),
            Some(entry) => match entry.value {
                ValueModel::Text(text) => ReplyModel::Bulk(Some(text)),
                _ => ReplyModel::Error(ExecutionError::WrongType),
            },
        },
        live(left(data, Command::Get { key }, moment), buffer::bytes_content(key), moment.now)
            == live(data, buffer::bytes_content(key), moment.now),
{
}

/// A command leaves the keys that it does not name as they are.
pub proof fn law_other_keys_stay(data: Dataset, command: Command, moment: Moment, other: Seq<u8>)
    requires
        forall|i: int|
            0 <= i < command.key_seq().len() ==> buffer::bytes_content(
                #[trigger] command.key_seq()[i],
            ) != other,
    ensures
        changes::entry_at(left(data, command, moment), other) == changes::entry_at(data, other),
{
    let keys = changes::named(command);
    let part = model::begin(Dataset { entries: data.entries.restrict(keys), ..data });
    changes::lemma_link_begin(data, keys);
    changes::lemma_link_ran(data, model::begin(data), part, keys, command, moment);
    assert(!keys.contains(other));
}

/// The keys of commands on one key are that key.
pub proof fn law_commands_name_their_key(key: Bytes, command: Command)
    requires
        match command {
            Command::Get { key: name } => name == key,
            Command::SetValue { key: name, .. } => name == key,
            Command::SetWithOptions { key: name, .. } => name == key,
            Command::Incr { key: name } => name == key,
            Command::Decr { key: name } => name == key,
            Command::Expire { key: name, .. } => name == key,
            Command::Ttl { key: name, .. } => name == key,
            Command::Persist { key: name } => name == key,
            Command::Hash { key: name, .. } => name == key,
            Command::SortedSet { key: name, .. } => name == key,
            Command::List { key: name, .. } => name == key,
            Command::SetCollection { key: name, .. } => name == key,
            _ => false,
        },
    ensures
        command.key_seq() == seq![key],
{
}

/// The keys of commands on several keys are those, in their order.
pub proof fn law_commands_name_all_their_keys(
    keys: Vec<Bytes>,
    entries: Vec<(Bytes, Bytes)>,
    index: int,
)
    ensures
        (Command::Del { keys }).key_seq() == keys@,
        (Command::Exists { keys }).key_seq() == keys@,
        (Command::MGet { keys }).key_seq() == keys@,
        (Command::Watch { keys }).key_seq() == keys@,
        (Command::MSet { entries }).key_seq().len() == entries@.len(),
        0 <= index < entries@.len() ==> (Command::MSet { entries }).key_seq()[index]
            == entries@[index].0,
{
}

/// The options of SET that let it write what is there now.
pub open spec fn permitted(condition: SetCondition, present: bool) -> bool {
    match condition {
        SetCondition::Always => true,
        SetCondition::Missing => !present,
        SetCondition::Present => present,
    }
}

/// SET with NX writes only a key that is not there, with XX only one that is; with
/// GET it answers what GET would have answered. What it writes ends after the time
/// that was given, keeps the deadline under KEEPTTL, and has none otherwise. Only
/// a time out of reach, GET of a key that holds no text, and a quota that is used
/// up make it fail.
pub proof fn law_set_keeps_its_options(
    data: Dataset,
    key: Bytes,
    value: Bytes,
    options: SetOptions,
    moment: Moment,
)
    ensures
        ({
            let command = Command::SetWithOptions { key, value, options };
            let name = buffer::bytes_content(key);
            let text = ValueModel::Text(buffer::bytes_content(value));
            let before = live(data, name, moment.now);
            let after = left(data, command, moment);
            let earlier = answer(data, Command::Get { key }, moment);
            let out_of_reach = options.expiry matches SetExpiry::After(time) && (time == 0
                || moment.unix_ms + time > i64::MAX || time > i64::MAX || moment.now + time
                * 1_000_000 > u128::MAX);
            let reply = answer(data, command, moment);
            if out_of_reach {
                &&& reply == ReplyModel::Error(ExecutionError::InvalidSetExpiry)
                &&& live(after, name, moment.now) == before
            } else if options.return_previous && earlier is Error {
                &&& reply == earlier
                &&& live(after, name, moment.now) == before
            } else if !permitted(options.condition, before is Some) {
                &&& reply == if options.return_previous {
                    earlier
                } else {
                    ReplyModel::Bulk(None)
                }
                &&& live(after, name, moment.now) == before
            } else if no_room(data, name, text, moment.now) {
                &&& reply == ReplyModel::Error(ExecutionError::OutOfMemory)
                &&& live(after, name, moment.now) == before
            } else {
                &&& reply == if options.return_previous {
                    earlier
                } else {
                    ReplyModel::Okay
                }
                &&& after.entries.contains_key(name)
                &&& after.entries[name].value == text
                &&& match options.expiry {
                    SetExpiry::Persistent => after.entries[name].deadline is None,
                    SetExpiry::Keep => after.entries[name].deadline == match before {
                        Some(entry) => entry.deadline,
                        None => None,
                    },
                    SetExpiry::After(time) => after.entries[name].deadline matches Some(deadline)
                        && deadline.at == moment.now + time * 1_000_000 && deadline.unix_ms
                        == moment.unix_ms + time,
                }
                &&& after.used == use_with(data, name, text, moment.now)
            }
        }),
{
    let command = Command::SetWithOptions { key, value, options };
    let name = buffer::bytes_content(key);
    if let SetExpiry::After(time) = options.expiry {
        assert(time > 0 ==> time * 1_000_000 > 0);
    }
}

/// SET without options is SET that always writes and sets no deadline.
pub proof fn law_plain_set_replaces_everything(data: Dataset, key: Bytes, value: Bytes, moment: Moment)
    ensures
        ({
            let command = Command::SetValue { key, value };
            let name = buffer::bytes_content(key);
            let text = ValueModel::Text(buffer::bytes_content(value));
            let after = left(data, command, moment);
            if no_room(data, name, text, moment.now) {
                &&& answer(data, command, moment) == ReplyModel::Error(ExecutionError::OutOfMemory)
                &&& live(after, name, moment.now) == live(data, name, moment.now)
            } else {
                &&& answer(data, command, moment) is Okay
                &&& changes::entry_at(after, name) == Some(EntryModel { value: text, deadline: None })
                &&& after.used == use_with(data, name, text, moment.now)
            }
        }),
{
}

/// SET with a time leaves the entry that SET and then EXPIRE with that time leave,
/// and PTTL answers the time.
pub proof fn law_set_with_a_time_is_set_and_expire(
    data: Dataset,
    key: Bytes,
    value: Bytes,
    time: u64,
    moment: Moment,
)
    requires
        0 < time <= i64::MAX,
        answer(data, Command::SetValue { key, value }, moment) is Okay,
        moment.unix_ms + time <= i64::MAX,
        moment.now + time * 1_000_000 <= u128::MAX,
    ensures
        ({
            let options = SetOptions {
                condition: SetCondition::Always,
                expiry: SetExpiry::After(time),
                return_previous: false,
            };
            let at_once = left(data, Command::SetWithOptions { key, value, options }, moment);
            let in_two = left(
                left(data, Command::SetValue { key, value }, moment),
                Command::Expire { key, value: time as i64, unit: ExpiryUnit::Milliseconds },
                moment,
            );
            &&& at_once.entries == in_two.entries
            &&& at_once.used == in_two.used
            &&& answer(at_once, Command::Ttl { key, milliseconds: true }, moment)
                == ReplyModel::Integer(time as i64)
        }),
{
    let options = SetOptions {
        condition: SetCondition::Always,
        expiry: SetExpiry::After(time),
        return_previous: false,
    };
    let at_once = left(data, Command::SetWithOptions { key, value, options }, moment);
    let in_two = left(
        left(data, Command::SetValue { key, value }, moment),
        Command::Expire { key, value: time as i64, unit: ExpiryUnit::Milliseconds },
        moment,
    );
    let name = buffer::bytes_content(key);
    assert(time * 1_000_000 > 0);
    assert((time * 1_000_000) as int / 1_000_000 == time);
    assert(at_once.entries =~= in_two.entries);
}

/// What a read of some keys sees of one of them is what is there.
proof fn lemma_seen(data: Dataset, trace: Trace, key: Seq<u8>, now: u128)
    requires
        laws::only_ended(data, trace, now),
    ensures
        changes::entry_at(model::expire(trace, key, now).data, key) == live(data, key, now),
{
    assert(changes::entry_at(trace.data, key) == if trace.touched.contains(key) {
        None
    } else {
        changes::entry_at(data, key)
    });
}

proof fn lemma_mget(data: Dataset, keys: Seq<Bytes>, moment: Moment, index: int)
    requires
        0 <= index < keys.len(),
    ensures
        model::ran_mget(model::begin(data), keys, moment.now).1.len() == keys.len(),
        ({
            let one = answer(data, Command::Get { key: keys[index] }, moment);
            model::ran_mget(model::begin(data), keys, moment.now).1[index] == if one is Error {
                ReplyModel::Bulk(None)
            } else {
                one
            }
        }),
    decreases keys.len(),
{
    let front = keys.drop_last();
    let before = model::ran_mget(model::begin(data), front, moment.now);
    lemma_mget_len(data, front, moment);
    if index < front.len() {
        lemma_mget(data, front, moment, index);
        assert(front[index] == keys[index]);
    } else {
        laws::lemma_ended_exists(data, model::begin(data), front, moment.now);
        lemma_seen(data, before.0, buffer::bytes_content(keys.last()), moment.now);
        law_get_answers_the_text(data, keys.last(), moment);
        assert(keys[index] == keys.last());
        assert(changes::entry_at(
            model::expire(before.0, buffer::bytes_content(keys.last()), moment.now).data,
            buffer::bytes_content(keys.last()),
        ) == live(data, buffer::bytes_content(keys.last()), moment.now));
    }
}

proof fn lemma_mget_len(data: Dataset, keys: Seq<Bytes>, moment: Moment)
    ensures
        model::ran_mget(model::begin(data), keys, moment.now).1.len() == keys.len(),
    decreases keys.len(),
{
    if keys.len() > 0 {
        lemma_mget_len(data, keys.drop_last(), moment);
    }
}

/// MGET answers for each of its keys, in their order, what GET answers; a key
/// that holds no text counts as absent.
pub proof fn law_mget_is_many_gets(data: Dataset, keys: Vec<Bytes>, moment: Moment)
    ensures
        answer(data, Command::MGet { keys }, moment) matches ReplyModel::Array(items)
            && items.len() == keys@.len() && forall|i: int|
            0 <= i < items.len() ==> #[trigger] items[i] == if answer(
                data,
                Command::Get { key: keys@[i] },
                moment,
            ) is Error {
                ReplyModel::Bulk(None)
            } else {
                answer(data, Command::Get { key: keys@[i] }, moment)
            },
{
    let items = model::ran_mget(model::begin(data), keys@, moment.now).1;
    lemma_mget_len(data, keys@, moment);
    assert forall|i: int| 0 <= i < items.len() implies #[trigger] items[i] == (if answer(
        data,
        Command::Get { key: keys@[i] },
        moment,
    ) is Error {
        ReplyModel::Bulk(None)
    } else {
        answer(data, Command::Get { key: keys@[i] }, moment)
    }) by {
        lemma_mget(data, keys@, moment, i);
    }
}

/// How many of the keys are there, each as often as it is named.
pub open spec fn occurrences(data: Dataset, keys: Seq<Bytes>, now: u128) -> nat {
    keys.filter(|key: Bytes| live(data, buffer::bytes_content(key), now) is Some).len()
}

/// Whether a key is among some.
pub open spec fn mentions(keys: Seq<Bytes>, key: Seq<u8>) -> bool {
    exists|i: int| 0 <= i < keys.len() && buffer::bytes_content(#[trigger] keys[i]) == key
}

/// The keys that are named and there.
pub open spec fn found(data: Dataset, keys: Seq<Bytes>, now: u128) -> Set<Seq<u8>> {
    Set::new(
        |key: Seq<u8>|
            live(data, key, now) is Some && mentions(keys, key),
    )
}

proof fn lemma_occurrences(data: Dataset, keys: Seq<Bytes>, moment: Moment)
    ensures
        model::ran_exists(model::begin(data), keys, moment.now).1 == occurrences(
            data,
            keys,
            moment.now,
        ),
    decreases keys.len(),
{
    let there = |key: Bytes| live(data, buffer::bytes_content(key), moment.now) is Some;
    reveal(Seq::filter);
    if keys.len() > 0 {
        let front = keys.drop_last();
        lemma_occurrences(data, front, moment);
        laws::lemma_ended_exists(data, model::begin(data), front, moment.now);
        lemma_seen(
            data,
            model::ran_exists(model::begin(data), front, moment.now).0,
            buffer::bytes_content(keys.last()),
            moment.now,
        );
        assert(there(keys.last()) == (live(data, buffer::bytes_content(keys.last()), moment.now)
            is Some));
    }
}

/// EXISTS counts the keys that are there, each as often as it is named.
pub proof fn law_exists_counts_the_keys(data: Dataset, keys: Vec<Bytes>, moment: Moment)
    ensures
        answer(data, Command::Exists { keys }, moment) == ReplyModel::Integer(
            occurrences(data, keys@, moment.now) as i64,
        ),
{
    lemma_occurrences(data, keys@, moment);
}

/// The last key of some is mentioned among them.
pub proof fn lemma_mentions(keys: Seq<Bytes>, key: Seq<u8>)
    requires
        keys.len() > 0,
    ensures
        mentions(keys, key) <==> (key == buffer::bytes_content(keys.last()) || mentions(
            keys.drop_last(),
            key,
        )),
{
    let front = keys.drop_last();
    assert(keys[keys.len() - 1] == keys.last());
    if mentions(keys, key) {
        let i = choose|i: int|
            0 <= i < keys.len() && buffer::bytes_content(#[trigger] keys[i]) == key;
        if i < front.len() {
            assert(buffer::bytes_content(front[i]) == key);
        }
    }
    if mentions(front, key) {
        let i = choose|i: int|
            0 <= i < front.len() && buffer::bytes_content(#[trigger] front[i]) == key;
        assert(buffer::bytes_content(keys[i]) == key);
    }
}

/// What is there after some keys were removed.
proof fn lemma_removed(data: Dataset, keys: Seq<Bytes>, moment: Moment)
    ensures
        found(data, keys, moment.now).finite(),
        model::ran_del(model::begin(data), keys, moment.now).1 == found(
            data,
            keys,
            moment.now,
        ).len(),
        forall|key: Seq<u8>| #[trigger]
            changes::entry_at(
                model::ran_del(model::begin(data), keys, moment.now).0.data,
                key,
            ) == if mentions(keys, key) {
                None
            } else {
                changes::entry_at(data, key)
            },
    decreases keys.len(),
{
    let start = model::begin(data);
    let now = moment.now;
    if keys.len() == 0 {
        assert(found(data, keys, now) =~= Set::empty());
    } else {
        let front = keys.drop_last();
        let name = buffer::bytes_content(keys.last());
        lemma_removed(data, front, moment);
        let before = model::ran_del(start, front, now);
        let after = model::ran_del(start, keys, now);
        assert(changes::entry_at(before.0.data, name) == if mentions(front, name) {
            None
        } else {
            changes::entry_at(data, name)
        });
        assert forall|key: Seq<u8>| #[trigger] mentions(keys, key) <==> (key == name || mentions(
            front,
            key,
        )) by {
            lemma_mentions(keys, key);
        }
        if live(data, name, now) is Some && !found(data, front, now).contains(name) {
            assert(found(data, keys, now) =~= found(data, front, now).insert(name));
        } else {
            assert(found(data, keys, now) =~= found(data, front, now));
        }
        assert forall|key: Seq<u8>| #[trigger] changes::entry_at(after.0.data, key) == (if mentions(keys, key) {
            None
        } else {
            changes::entry_at(data, key)
        }) by {
            assert(changes::entry_at(before.0.data, key) == if mentions(front, key) {
                None
            } else {
                changes::entry_at(data, key)
            });
        }
    }
}

/// DEL removes the keys that it names and no others, and counts those that were
/// there, each once.
pub proof fn law_del_removes_and_counts_the_keys(data: Dataset, keys: Vec<Bytes>, moment: Moment)
    ensures
        answer(data, Command::Del { keys }, moment) == ReplyModel::Integer(
            found(data, keys@, moment.now).len() as i64,
        ),
        forall|key: Seq<u8>| #[trigger]
            changes::entry_at(left(data, Command::Del { keys }, moment), key) == if mentions(keys@, key) {
                None
            } else {
                changes::entry_at(data, key)
            },
{
    lemma_removed(data, keys@, moment);
}

/// The pair that decides about a key is the last one that names it.
pub proof fn lemma_last_pair(entries: Seq<(Bytes, Bytes)>, index: int)
    requires
        0 <= index < entries.len(),
        forall|later: int|
            index < later < entries.len() ==> buffer::bytes_content((#[trigger] entries[later]).0)
                != buffer::bytes_content(entries[index].0),
    ensures
        model::merged(entries).contains_key(buffer::bytes_content(entries[index].0)),
        model::merged(entries)[buffer::bytes_content(entries[index].0)] == buffer::bytes_content(
            entries[index].1,
        ),
    decreases entries.len(),
{
    let front = entries.drop_last();
    if index < front.len() {
        assert(entries[entries.len() - 1] == entries.last());
        assert forall|later: int| index < later < front.len() implies buffer::bytes_content(
            (#[trigger] front[later]).0,
        ) != buffer::bytes_content(front[index].0) by {
            assert(front[later] == entries[later]);
        }
        lemma_last_pair(front, index);
    }
}

/// After an accepted MSET, GET of each key answers the last value that was given
/// for it, and the key has no deadline.
pub proof fn law_get_answers_what_mset_wrote(
    data: Dataset,
    entries: Vec<(Bytes, Bytes)>,
    index: int,
    moment: Moment,
    later: Moment,
)
    requires
        0 <= index < entries@.len(),
        forall|next: int|
            index < next < entries@.len() ==> buffer::bytes_content((#[trigger] entries@[next]).0)
                != buffer::bytes_content(entries@[index].0),
        answer(data, Command::MSet { entries }, moment) is Okay,
    ensures
        ({
            let after = left(data, Command::MSet { entries }, moment);
            let key = entries@[index].0;
            &&& answer(after, Command::Get { key }, later) == ReplyModel::Bulk(
                Some(buffer::bytes_content(entries@[index].1)),
            )
            &&& answer(after, Command::Ttl { key, milliseconds: true }, later)
                == ReplyModel::Integer(-1i64)
        }),
{
    let key = entries@[index].0;
    lemma_last_pair(entries@, index);
    laws::law_mset_writes_all(data, entries, moment);
    assert(model::merged(entries@).contains_key(buffer::bytes_content(key)));
    assert(changes::entry_at(
        left(data, Command::MSet { entries }, moment),
        buffer::bytes_content(key),
    ) is Some);
}

/// MSET answers OK, or that memory is used up, in which case it has written nothing.
/// With one pair it answers what SET answers, and leaves what SET leaves.
pub proof fn law_mset_of_one_pair_is_set(
    data: Dataset,
    entries: Vec<(Bytes, Bytes)>,
    moment: Moment,
)
    ensures
        answer(data, Command::MSet { entries }, moment) is Okay || answer(
            data,
            Command::MSet { entries },
            moment,
        ) == ReplyModel::Error(ExecutionError::OutOfMemory),
        entries@.len() == 1 ==> {
            let set = Command::SetValue { key: entries@[0].0, value: entries@[0].1 };
            &&& answer(data, Command::MSet { entries }, moment) == answer(data, set, moment)
            &&& left(data, Command::MSet { entries }, moment) == left(data, set, moment)
        },
{
    if entries@.len() == 1 {
        let name = buffer::bytes_content(entries@[0].0);
        let text = buffer::bytes_content(entries@[0].1);
        let texts = model::merged(entries@);
        let set = Command::SetValue { key: entries@[0].0, value: entries@[0].1 };
        reveal_with_fuel(model::merged, 2);
        assert(texts =~= Map::empty().insert(name, text));
        let one = seq![name];
        collections::lemma_listing_exists(texts.dom());
        assert(ordered::is_listing(one, texts.dom())) by {
            assert forall|key: Seq<u8>| #[trigger] texts.dom().contains(key) <==> one.contains(key) by {
                assert(one[0] == name);
            }
        }
        ordered::lemma_listing_unique(one, ordered::listing(texts.dom()), texts.dom());
        assert(one.drop_last() =~= Seq::empty());
        reveal_with_fuel(model::expire_all, 2);
        reveal_with_fuel(model::discard_all, 2);
        reveal_with_fuel(model::write_all, 2);
        reveal_with_fuel(model::costs_of, 2);
        reveal_with_fuel(model::text_costs, 2);
        let seen = model::expire_all(model::begin(data), one, moment.now);
        assert(seen == model::expire(model::begin(data), name, moment.now));
        let after = left(data, Command::MSet { entries }, moment);
        assert(after.entries =~= left(data, set, moment).entries);
        assert(after =~= left(data, set, moment));
    }
}

/// The number that a key counts from: that of its text, zero where there is no key,
/// none where the text is not the decimal text of a number.
pub open spec fn counted_from(data: Dataset, key: Seq<u8>, now: u128, number: i64) -> bool {
    match live(data, key, now) {
        None => number == 0,
        Some(entry) => entry.value == ValueModel::Text(numbers::signed_decimal(number as int)),
    }
}

/// INCR adds one to the number under a key and DECR takes one off; a key that is
/// not there counts as zero. They answer the sum, and GET answers its decimal text.
/// The deadline stays.
pub proof fn law_incr_and_decr_count(
    data: Dataset,
    key: Bytes,
    number: i64,
    up: bool,
    moment: Moment,
)
    requires
        counted_from(data, buffer::bytes_content(key), moment.now, number),
    ensures
        ({
            let command = if up {
                Command::Incr { key }
            } else {
                Command::Decr { key }
            };
            let name = buffer::bytes_content(key);
            let sum = if up {
                number + 1
            } else {
                number - 1
            };
            let text = ValueModel::Text(numbers::signed_decimal(sum));
            let after = left(data, command, moment);
            if sum < i64::MIN || sum > i64::MAX {
                &&& answer(data, command, moment) == ReplyModel::Error(
                    ExecutionError::IntegerOverflow,
                )
                &&& live(after, name, moment.now) == live(data, name, moment.now)
            } else if no_room(data, name, text, moment.now) {
                &&& answer(data, command, moment) == ReplyModel::Error(ExecutionError::OutOfMemory)
                &&& live(after, name, moment.now) == live(data, name, moment.now)
            } else {
                &&& answer(data, command, moment) == ReplyModel::Integer(sum as i64)
                &&& answer(after, Command::Get { key }, moment) == ReplyModel::Bulk(
                    Some(numbers::signed_decimal(sum)),
                )
                &&& live(after, name, moment.now) == Some(
                    EntryModel {
                        value: text,
                        deadline: match live(data, name, moment.now) {
                            Some(entry) => entry.deadline,
                            None => None,
                        },
                    },
                )
            }
        }),
{
    let name = buffer::bytes_content(key);
    if live(data, name, moment.now) is Some {
        let text = numbers::signed_decimal(number as int);
        let read = numbers::canonical_value(text)->Some_0;
        assert(numbers::canonical_value(text) == Some(read));
        numbers::lemma_signed_injective(number, read);
    }
}

/// INCR and DECR of a key that holds something else than a number fail and change
/// nothing.
pub proof fn law_only_numbers_are_counted(data: Dataset, key: Bytes, up: bool, moment: Moment)
    requires
        forall|number: i64|
            !#[trigger] counted_from(data, buffer::bytes_content(key), moment.now, number),
    ensures
        ({
            let command = if up {
                Command::Incr { key }
            } else {
                Command::Decr { key }
            };
            let name = buffer::bytes_content(key);
            &&& live(left(data, command, moment), name, moment.now) == live(data, name, moment.now)
            &&& answer(data, command, moment) == ReplyModel::Error(
                match live(data, name, moment.now) {
                    Some(EntryModel { value: ValueModel::Text(_), .. }) =>
                        ExecutionError::InvalidInteger,
                    _ => ExecutionError::WrongType,
                },
            )
        }),
{
    let name = buffer::bytes_content(key);
    if live(data, name, moment.now) is None {
        assert(counted_from(data, name, moment.now, 0));
    } else {
        let entry = live(data, name, moment.now)->Some_0;
        if entry.value is Text {
            let text = entry.value->Text_0;
            assert forall|value: i64| text != #[trigger] numbers::signed_decimal(value as int) by {
                assert(!counted_from(data, name, moment.now, value));
            }
        }
    }
}

} // verus!
