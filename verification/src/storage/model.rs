//! What commands do to a dataset.

use super::value::{ScoreModel, ValueModel};
use crate::command::reply::{ExecutionError, ReplyModel};
use crate::command::score::Score;
use crate::command::types::{
    Command, ExpiryUnit, HashCommand, SetCondition, SetExpiry, SetOptions, SortedSetCommand,
};
use bytes::Bytes;
use crate::buffer;
use crate::numbers;
use crate::ordered;
use crate::storage::value;
use vstd::prelude::*;

verus! {

/// Logical share of every entry; covers metadata and the deadline index.
pub const ENTRY_OVERHEAD_BYTES: usize = 128;

/// A reading of both clocks.
#[derive(Clone, Copy, Debug, PartialEq, Eq, Structural)]
pub struct Moment {
    /// Nanoseconds on the monotonic clock.
    pub now: u128,
    /// Milliseconds since the Unix epoch.
    pub unix_ms: i64,
}

/// When an entry ends, on both clocks.
#[derive(Clone, Copy, Debug, PartialEq, Eq, Structural)]
pub struct Deadline {
    /// Nanoseconds on the monotonic clock.
    pub at: u128,
    /// Milliseconds since the Unix epoch.
    pub unix_ms: i64,
}

/// An entry by content.
#[verifier::ext_equal]
pub struct EntryModel {
    pub value: ValueModel,
    pub deadline: Option<Deadline>,
}

/// The entries of a dataset with the logical bytes that they take. Some of
/// the bytes may belong to entries that are not in view.
#[verifier::ext_equal]
pub struct Dataset {
    pub entries: Map<Seq<u8>, EntryModel>,
    pub used: int,
    pub limit: int,
}

/// A dataset and the keys that were written or removed on the way to it.
#[verifier::ext_equal]
pub struct Trace {
    pub data: Dataset,
    pub touched: Set<Seq<u8>>,
}

/// Logical bytes of an entry.
pub open spec fn cost(key: Seq<u8>, value: ValueModel) -> int {
    key.len() + value::value_bytes(value) + ENTRY_OVERHEAD_BYTES
}

/// Logical bytes that the key takes now.
pub open spec fn cost_of(data: Dataset, key: Seq<u8>) -> int {
    if data.entries.contains_key(key) {
        cost(key, data.entries[key].value)
    } else {
        0
    }
}

/// The dataset without the key.
pub open spec fn dropped(data: Dataset, key: Seq<u8>) -> Dataset {
    Dataset { entries: data.entries.remove(key), used: data.used - cost_of(data, key), ..data }
}

/// The dataset with this entry under the key.
pub open spec fn placed(data: Dataset, key: Seq<u8>, entry: EntryModel) -> Dataset {
    Dataset {
        entries: data.entries.insert(key, entry),
        used: data.used - cost_of(data, key) + cost(key, entry.value),
        ..data
    }
}

/// No key has been touched yet.
pub open spec fn begin(data: Dataset) -> Trace {
    Trace { data, touched: Set::empty() }
}

/// Removes the key if it is there.
pub open spec fn discard(trace: Trace, key: Seq<u8>) -> Trace {
    if trace.data.entries.contains_key(key) {
        Trace { data: dropped(trace.data, key), touched: trace.touched.insert(key) }
    } else {
        trace
    }
}

/// Writes the entry.
pub open spec fn write(trace: Trace, key: Seq<u8>, entry: EntryModel) -> Trace {
    Trace { data: placed(trace.data, key, entry), touched: trace.touched.insert(key) }
}

/// Whether the entry has ended.
pub open spec fn is_due(entry: EntryModel, now: u128) -> bool {
    entry.deadline matches Some(deadline) && deadline.at <= now
}

/// Removes the key if its entry has ended.
pub open spec fn expire(trace: Trace, key: Seq<u8>, now: u128) -> Trace {
    if trace.data.entries.contains_key(key) && is_due(trace.data.entries[key], now) {
        discard(trace, key)
    } else {
        trace
    }
}

/// Whether the value may stand under the key: the quota holds, or usage does
/// not grow.
pub open spec fn fits(data: Dataset, key: Seq<u8>, value: ValueModel) -> bool {
    let usage = data.used - cost_of(data, key) + cost(key, value);
    value::storable(value) && (usage <= data.limit || usage <= data.used)
}

/// The deadline this many milliseconds from now, if both clocks can show it.
pub open spec fn deadline_in(millis: int, moment: Moment) -> Option<Deadline> {
    if 0 <= millis && moment.unix_ms + millis <= i64::MAX && moment.now + millis * 1_000_000
        <= u128::MAX {
        Some(
            Deadline {
                at: (moment.now + millis * 1_000_000) as u128,
                unix_ms: (moment.unix_ms + millis) as i64,
            },
        )
    } else {
        None
    }
}

/// What reading a key as text gives.
pub open spec fn text_reply(data: Dataset, key: Seq<u8>) -> ReplyModel {
    if data.entries.contains_key(key) {
        match data.entries[key].value {
            ValueModel::Text(text) => ReplyModel::Bulk(Some(text)),
            _ => ReplyModel::Error(ExecutionError::WrongType),
        }
    } else {
        ReplyModel::Bulk(None)
    }
}

/// Reads the value of a key.
pub open spec fn ran_get(trace: Trace, key: Seq<u8>, moment: Moment) -> (Trace, ReplyModel) {
    let seen = expire(trace, key, moment.now);
    (seen, text_reply(seen.data, key))
}

/// Replaces the value of a key under conditions.
pub open spec fn ran_set(
    trace: Trace,
    key: Seq<u8>,
    value: Seq<u8>,
    options: SetOptions,
    moment: Moment,
) -> (Trace, ReplyModel) {
    let deadline = match options.expiry {
        SetExpiry::After(millis) => if millis > 0 && millis <= i64::MAX {
            deadline_in(millis as int, moment)
        } else {
            None
        },
        _ => None,
    };
    if options.expiry is After && deadline is None {
        (trace, ReplyModel::Error(ExecutionError::InvalidSetExpiry))
    } else {
        let seen = expire(trace, key, moment.now);
        let present = seen.data.entries.contains_key(key);
        let previous = text_reply(seen.data, key);
        if options.return_previous && previous is Error {
            (seen, previous)
        } else if (options.condition == SetCondition::Missing && present) || (options.condition
            == SetCondition::Present && !present) {
            (
                seen,
                if options.return_previous {
                    previous
                } else {
                    ReplyModel::Bulk(None)
                },
            )
        } else if !fits(seen.data, key, ValueModel::Text(value)) {
            (seen, ReplyModel::Error(ExecutionError::OutOfMemory))
        } else {
            let kept = if options.expiry == SetExpiry::Keep {
                if present {
                    seen.data.entries[key].deadline
                } else {
                    None
                }
            } else {
                deadline
            };
            (
                write(seen, key, EntryModel { value: ValueModel::Text(value), deadline: kept }),
                if options.return_previous {
                    previous
                } else {
                    ReplyModel::Okay
                },
            )
        }
    }
}

/// Adds to the integer that a key holds; an absent key counts as zero.
pub open spec fn ran_increment(trace: Trace, key: Seq<u8>, delta: int, moment: Moment) -> (
    Trace,
    ReplyModel,
) {
    let seen = expire(trace, key, moment.now);
    let present = seen.data.entries.contains_key(key);
    if present && !(seen.data.entries[key].value is Text) {
        (seen, ReplyModel::Error(ExecutionError::WrongType))
    } else {
        let previous = if present {
            numbers::canonical_value(seen.data.entries[key].value->Text_0)
        } else {
            Some(0i64)
        };
        match previous {
            None => (seen, ReplyModel::Error(ExecutionError::InvalidInteger)),
            Some(number) => {
                let sum = number + delta;
                if sum < i64::MIN || sum > i64::MAX {
                    (seen, ReplyModel::Error(ExecutionError::IntegerOverflow))
                } else if !fits(seen.data, key, ValueModel::Text(numbers::signed_decimal(sum))) {
                    (seen, ReplyModel::Error(ExecutionError::OutOfMemory))
                } else {
                    (
                        write(
                            seen,
                            key,
                            EntryModel {
                                value: ValueModel::Text(numbers::signed_decimal(sum)),
                                deadline: if present {
                                    seen.data.entries[key].deadline
                                } else {
                                    None
                                },
                            },
                        ),
                        ReplyModel::Integer(sum as i64),
                    )
                }
            },
        }
    }
}

/// Removes keys, and counts those that were there.
pub open spec fn ran_del(trace: Trace, keys: Seq<Bytes>, now: u128) -> (Trace, int)
    decreases keys.len(),
{
    if keys.len() == 0 {
        (trace, 0)
    } else {
        let (before, count) = ran_del(trace, keys.drop_last(), now);
        let key = buffer::bytes_content(keys.last());
        let seen = expire(before, key, now);
        if seen.data.entries.contains_key(key) {
            (discard(seen, key), count + 1)
        } else {
            (seen, count)
        }
    }
}

/// Counts the keys that are there.
pub open spec fn ran_exists(trace: Trace, keys: Seq<Bytes>, now: u128) -> (Trace, int)
    decreases keys.len(),
{
    if keys.len() == 0 {
        (trace, 0)
    } else {
        let (before, count) = ran_exists(trace, keys.drop_last(), now);
        let key = buffer::bytes_content(keys.last());
        let seen = expire(before, key, now);
        (
            seen,
            if seen.data.entries.contains_key(key) {
                count + 1
            } else {
                count
            },
        )
    }
}

/// Reads several keys; those that hold no text count as absent.
pub open spec fn ran_mget(trace: Trace, keys: Seq<Bytes>, now: u128) -> (Trace, Seq<ReplyModel>)
    decreases keys.len(),
{
    if keys.len() == 0 {
        (trace, Seq::empty())
    } else {
        let (before, replies) = ran_mget(trace, keys.drop_last(), now);
        let key = buffer::bytes_content(keys.last());
        let seen = expire(before, key, now);
        let reply = text_reply(seen.data, key);
        (
            seen,
            replies.push(
                if reply is Error {
                    ReplyModel::Bulk(None)
                } else {
                    reply
                },
            ),
        )
    }
}

/// The pairs of a batch; the last pair of a key prevails.
pub open spec fn merged(entries: Seq<(Bytes, Bytes)>) -> Map<Seq<u8>, Seq<u8>>
    decreases entries.len(),
{
    if entries.len() == 0 {
        Map::empty()
    } else {
        merged(entries.drop_last()).insert(
            buffer::bytes_content(entries.last().0),
            buffer::bytes_content(entries.last().1),
        )
    }
}

pub open spec fn expire_all(trace: Trace, keys: Seq<Seq<u8>>, now: u128) -> Trace
    decreases keys.len(),
{
    if keys.len() == 0 {
        trace
    } else {
        expire(expire_all(trace, keys.drop_last(), now), keys.last(), now)
    }
}

pub open spec fn discard_all(trace: Trace, keys: Seq<Seq<u8>>) -> Trace
    decreases keys.len(),
{
    if keys.len() == 0 {
        trace
    } else {
        discard(discard_all(trace, keys.drop_last()), keys.last())
    }
}

/// Writes the texts as entries without a deadline.
pub open spec fn write_all(trace: Trace, keys: Seq<Seq<u8>>, texts: Map<Seq<u8>, Seq<u8>>) -> Trace
    decreases keys.len(),
{
    if keys.len() == 0 {
        trace
    } else {
        write(
            write_all(trace, keys.drop_last(), texts),
            keys.last(),
            EntryModel { value: ValueModel::Text(texts[keys.last()]), deadline: None },
        )
    }
}

/// Logical bytes that the keys take now.
pub open spec fn costs_of(data: Dataset, keys: Seq<Seq<u8>>) -> int
    decreases keys.len(),
{
    if keys.len() == 0 {
        0
    } else {
        costs_of(data, keys.drop_last()) + cost_of(data, keys.last())
    }
}

/// Logical bytes that the texts take.
pub open spec fn text_costs(keys: Seq<Seq<u8>>, texts: Map<Seq<u8>, Seq<u8>>) -> int
    decreases keys.len(),
{
    if keys.len() == 0 {
        0
    } else {
        text_costs(keys.drop_last(), texts) + cost(keys.last(), ValueModel::Text(texts[keys.last()]))
    }
}

/// Writes a batch, all of it or nothing.
pub open spec fn ran_mset(trace: Trace, entries: Seq<(Bytes, Bytes)>, now: u128) -> (
    Trace,
    ReplyModel,
) {
    let texts = merged(entries);
    let keys = ordered::listing(texts.dom());
    let seen = expire_all(trace, keys, now);
    let usage = seen.data.used - costs_of(seen.data, keys) + text_costs(keys, texts);
    if usage <= seen.data.limit || usage <= seen.data.used {
        (write_all(discard_all(seen, keys), keys, texts), ReplyModel::Okay)
    } else {
        (seen, ReplyModel::Error(ExecutionError::OutOfMemory))
    }
}

/// Sets a relative deadline.
pub open spec fn ran_expire(
    trace: Trace,
    key: Seq<u8>,
    value: i64,
    unit: ExpiryUnit,
    moment: Moment,
) -> (Trace, ReplyModel) {
    let name = if unit == ExpiryUnit::Seconds {
        "expire"
    } else {
        "pexpire"
    };
    let millis = if unit == ExpiryUnit::Seconds {
        value * 1000
    } else {
        value as int
    };
    if millis < i64::MIN || millis > i64::MAX || (millis > 0 && deadline_in(millis, moment)
        is None) {
        (trace, ReplyModel::Error(ExecutionError::InvalidExpiry(name)))
    } else {
        let seen = expire(trace, key, moment.now);
        if !seen.data.entries.contains_key(key) {
            (seen, ReplyModel::Integer(0))
        } else if millis <= 0 {
            (discard(seen, key), ReplyModel::Integer(1))
        } else {
            (
                write(
                    seen,
                    key,
                    EntryModel {
                        value: seen.data.entries[key].value,
                        deadline: deadline_in(millis, moment),
                    },
                ),
                ReplyModel::Integer(1),
            )
        }
    }
}

/// Time left until a deadline, in the unit asked for.
pub open spec fn time_left(deadline: Deadline, now: u128, milliseconds: bool) -> i64 {
    let millis = if deadline.at >= now {
        (deadline.at - now) as int / 1_000_000
    } else {
        0
    };
    let result = if milliseconds {
        millis
    } else {
        (millis + 500) / 1000
    };
    if result > i64::MAX {
        i64::MAX
    } else {
        result as i64
    }
}

pub open spec fn ran_ttl(trace: Trace, key: Seq<u8>, milliseconds: bool, now: u128) -> (
    Trace,
    ReplyModel,
) {
    let seen = expire(trace, key, now);
    (
        seen,
        ReplyModel::Integer(
            if !seen.data.entries.contains_key(key) {
                -2i64
            } else {
                match seen.data.entries[key].deadline {
                    None => -1i64,
                    Some(deadline) => time_left(deadline, now, milliseconds),
                }
            },
        ),
    )
}

pub open spec fn ran_persist(trace: Trace, key: Seq<u8>, now: u128) -> (Trace, ReplyModel) {
    let seen = expire(trace, key, now);
    if seen.data.entries.contains_key(key) && seen.data.entries[key].deadline is Some {
        (
            write(seen, key, EntryModel { deadline: None, ..seen.data.entries[key] }),
            ReplyModel::Integer(1),
        )
    } else {
        (seen, ReplyModel::Integer(0))
    }
}

/// Fields with new values put in, and how many of them are new.
pub open spec fn fields_set(
    fields: Map<Seq<u8>, Seq<u8>>,
    entries: Seq<(Bytes, Bytes)>,
) -> (Map<Seq<u8>, Seq<u8>>, int)
    decreases entries.len(),
{
    if entries.len() == 0 {
        (fields, 0)
    } else {
        let (before, added) = fields_set(fields, entries.drop_last());
        let field = buffer::bytes_content(entries.last().0);
        (
            before.insert(field, buffer::bytes_content(entries.last().1)),
            if before.contains_key(field) {
                added
            } else {
                added + 1
            },
        )
    }
}

/// Fields without some of them, and how many of those were there.
pub open spec fn fields_deleted(fields: Map<Seq<u8>, Seq<u8>>, names: Seq<Bytes>) -> (
    Map<Seq<u8>, Seq<u8>>,
    int,
)
    decreases names.len(),
{
    if names.len() == 0 {
        (fields, 0)
    } else {
        let (before, removed) = fields_deleted(fields, names.drop_last());
        let field = buffer::bytes_content(names.last());
        (
            before.remove(field),
            if before.contains_key(field) {
                removed + 1
            } else {
                removed
            },
        )
    }
}

/// Fields and values, one after the other, in the order of the fields.
pub open spec fn fields_listed(keys: Seq<Seq<u8>>, fields: Map<Seq<u8>, Seq<u8>>) -> Seq<ReplyModel>
    decreases keys.len(),
{
    if keys.len() == 0 {
        Seq::empty()
    } else {
        fields_listed(keys.drop_last(), fields).push(ReplyModel::Bulk(Some(keys.last()))).push(
            ReplyModel::Bulk(Some(fields[keys.last()])),
        )
    }
}

/// Puts a collection back, or refuses it; an unchanged one is left alone.
pub open spec fn collection_kept(
    seen: Trace,
    key: Seq<u8>,
    value: ValueModel,
    deadline: Option<Deadline>,
    changed: bool,
    count: int,
) -> (Trace, ReplyModel) {
    if !changed {
        (seen, ReplyModel::Integer(count as i64))
    } else if !fits(seen.data, key, value) {
        (seen, ReplyModel::Error(ExecutionError::OutOfMemory))
    } else {
        (write(seen, key, EntryModel { value, deadline }), ReplyModel::Integer(count as i64))
    }
}

/// Puts a collection back after removals; an empty one goes with its key.
pub open spec fn collection_shrunk(
    seen: Trace,
    key: Seq<u8>,
    value: ValueModel,
    deadline: Option<Deadline>,
    count: int,
) -> (Trace, ReplyModel) {
    (
        if count == 0 {
            seen
        } else if !value::storable(value) {
            discard(seen, key)
        } else {
            write(seen, key, EntryModel { value, deadline })
        },
        ReplyModel::Integer(count as i64),
    )
}

pub open spec fn deadline_of(data: Dataset, key: Seq<u8>) -> Option<Deadline> {
    if data.entries.contains_key(key) {
        data.entries[key].deadline
    } else {
        None
    }
}

pub open spec fn ran_hash(trace: Trace, key: Seq<u8>, operation: HashCommand, now: u128) -> (
    Trace,
    ReplyModel,
) {
    let seen = expire(trace, key, now);
    let present = seen.data.entries.contains_key(key);
    if present && !(seen.data.entries[key].value is Hash) {
        (seen, ReplyModel::Error(ExecutionError::WrongType))
    } else {
        let fields = if present {
            seen.data.entries[key].value->Hash_0
        } else {
            Map::empty()
        };
        let deadline = deadline_of(seen.data, key);
        match operation {
            HashCommand::Get { field } => (
                seen,
                ReplyModel::Bulk(
                    if fields.contains_key(buffer::bytes_content(field)) {
                        Some(fields[buffer::bytes_content(field)])
                    } else {
                        None
                    },
                ),
            ),
            HashCommand::Exists { field } => (
                seen,
                ReplyModel::Integer(
                    if fields.contains_key(buffer::bytes_content(field)) {
                        1
                    } else {
                        0
                    },
                ),
            ),
            HashCommand::Len => (seen, ReplyModel::Integer(fields.dom().len() as i64)),
            HashCommand::GetAll => (
                seen,
                ReplyModel::Array(fields_listed(ordered::listing(fields.dom()), fields)),
            ),
            HashCommand::SetFields { entries } => {
                let (next, added) = fields_set(fields, entries@);
                collection_kept(
                    seen,
                    key,
                    ValueModel::Hash(next),
                    deadline,
                    entries@.len() > 0,
                    added,
                )
            },
            HashCommand::Delete { fields: names } => {
                let (next, removed) = fields_deleted(fields, names@);
                collection_shrunk(seen, key, ValueModel::Hash(next), deadline, removed)
            },
        }
    }
}

/// Members with new scores put in, how many of them are new, and whether
/// anything changed.
pub open spec fn members_added(
    members: Map<Seq<u8>, ScoreModel>,
    entries: Seq<(Score, Bytes)>,
) -> (Map<Seq<u8>, ScoreModel>, int, bool)
    decreases entries.len(),
{
    if entries.len() == 0 {
        (members, 0, false)
    } else {
        let (before, added, changed) = members_added(members, entries.drop_last());
        let member = buffer::bytes_content(entries.last().1);
        let score = entries.last().0.model();
        if before.contains_key(member) && before[member].order == score.order {
            (before, added, changed)
        } else {
            (
                before.insert(member, score),
                if before.contains_key(member) {
                    added
                } else {
                    added + 1
                },
                true,
            )
        }
    }
}

/// Members without some of them, and how many of those were there.
pub open spec fn members_removed(members: Map<Seq<u8>, ScoreModel>, names: Seq<Bytes>) -> (
    Map<Seq<u8>, ScoreModel>,
    int,
)
    decreases names.len(),
{
    if names.len() == 0 {
        (members, 0)
    } else {
        let (before, removed) = members_removed(members, names.drop_last());
        let member = buffer::bytes_content(names.last());
        (
            before.remove(member),
            if before.contains_key(member) {
                removed + 1
            } else {
                removed
            },
        )
    }
}

/// The places that a range of ranks covers: from the first up to but without
/// the second. Negative ranks count from the end.
pub open spec fn rank_range(count: int, start: i64, stop: i64) -> (int, int) {
    let from = if start < 0 {
        if count + start < 0 {
            0
        } else {
            count + start
        }
    } else {
        start as int
    };
    let to = if stop < 0 {
        count + stop
    } else if stop >= count {
        count - 1
    } else {
        stop as int
    };
    if from > to || from >= count {
        (0, 0)
    } else {
        (from, to + 1)
    }
}

/// Some members in their order, each with its score if that is asked for.
pub open spec fn members_listed(
    keys: Seq<Seq<u8>>,
    members: Map<Seq<u8>, ScoreModel>,
    with_scores: bool,
) -> Seq<ReplyModel>
    decreases keys.len(),
{
    if keys.len() == 0 {
        Seq::empty()
    } else {
        let before = members_listed(keys.drop_last(), members, with_scores);
        let named = before.push(ReplyModel::Bulk(Some(keys.last())));
        if with_scores {
            named.push(ReplyModel::Bulk(Some(members[keys.last()].text)))
        } else {
            named
        }
    }
}

pub open spec fn ran_sorted_set(
    trace: Trace,
    key: Seq<u8>,
    operation: SortedSetCommand,
    now: u128,
) -> (Trace, ReplyModel) {
    let seen = expire(trace, key, now);
    let present = seen.data.entries.contains_key(key);
    if present && !(seen.data.entries[key].value is SortedSet) {
        (seen, ReplyModel::Error(ExecutionError::WrongType))
    } else {
        let members = if present {
            seen.data.entries[key].value->SortedSet_0
        } else {
            Map::empty()
        };
        let deadline = deadline_of(seen.data, key);
        match operation {
            SortedSetCommand::Card => (seen, ReplyModel::Integer(members.dom().len() as i64)),
            SortedSetCommand::Score { member } => (
                seen,
                ReplyModel::Bulk(
                    if members.contains_key(buffer::bytes_content(member)) {
                        Some(members[buffer::bytes_content(member)].text)
                    } else {
                        None
                    },
                ),
            ),
            SortedSetCommand::Range { start, stop, with_scores } => {
                let order = value::ranking(members);
                let (from, to) = rank_range(order.len() as int, start, stop);
                (
                    seen,
                    ReplyModel::Array(
                        members_listed(order.subrange(from, to), members, with_scores),
                    ),
                )
            },
            SortedSetCommand::Add { entries } => {
                let (next, added, changed) = members_added(members, entries@);
                collection_kept(seen, key, ValueModel::SortedSet(next), deadline, changed, added)
            },
            SortedSetCommand::Remove { members: names } => {
                let (next, removed) = members_removed(members, names@);
                collection_shrunk(seen, key, ValueModel::SortedSet(next), deadline, removed)
            },
        }
    }
}

/// What a command does, and what it answers.
pub open spec fn ran(trace: Trace, command: Command, moment: Moment) -> (Trace, ReplyModel) {
    match command {
        Command::Ping(None) => (trace, ReplyModel::Pong),
        Command::Ping(Some(message)) => (trace, ReplyModel::Bulk(Some(buffer::bytes_content(message)))),
        Command::Echo(message) => (trace, ReplyModel::Bulk(Some(buffer::bytes_content(message)))),
        Command::Get { key } => ran_get(trace, buffer::bytes_content(key), moment),
        Command::SetValue { key, value } => ran_set(
            trace,
            buffer::bytes_content(key),
            buffer::bytes_content(value),
            SetOptions {
                condition: SetCondition::Always,
                expiry: SetExpiry::Persistent,
                return_previous: false,
            },
            moment,
        ),
        Command::SetWithOptions { key, value, options } => ran_set(
            trace,
            buffer::bytes_content(key),
            buffer::bytes_content(value),
            options,
            moment,
        ),
        Command::Del { keys } => {
            let (after, count) = ran_del(trace, keys@, moment.now);
            (after, ReplyModel::Integer(count as i64))
        },
        Command::Exists { keys } => {
            let (after, count) = ran_exists(trace, keys@, moment.now);
            (after, ReplyModel::Integer(count as i64))
        },
        Command::MGet { keys } => {
            let (after, replies) = ran_mget(trace, keys@, moment.now);
            (after, ReplyModel::Array(replies))
        },
        Command::MSet { entries } => ran_mset(trace, entries@, moment.now),
        Command::Incr { key } => ran_increment(trace, buffer::bytes_content(key), 1, moment),
        Command::Decr { key } => ran_increment(trace, buffer::bytes_content(key), -1, moment),
        Command::Expire { key, value, unit } => ran_expire(
            trace,
            buffer::bytes_content(key),
            value,
            unit,
            moment,
        ),
        Command::Ttl { key, milliseconds } => ran_ttl(
            trace,
            buffer::bytes_content(key),
            milliseconds,
            moment.now,
        ),
        Command::Persist { key } => ran_persist(trace, buffer::bytes_content(key), moment.now),
        Command::Hash { key, operation } => ran_hash(
            trace,
            buffer::bytes_content(key),
            operation,
            moment.now,
        ),
        Command::SortedSet { key, operation } => ran_sorted_set(
            trace,
            buffer::bytes_content(key),
            operation,
            moment.now,
        ),
        _ => (trace, ReplyModel::Error(ExecutionError::ConnectionOnly)),
    }
}

/// What a run of commands does, one after the other, and what each answers.
/// UNWATCH inside a run only answers.
pub open spec fn ran_all(trace: Trace, commands: Seq<Command>, moment: Moment) -> (
    Trace,
    Seq<ReplyModel>,
)
    decreases commands.len(),
{
    if commands.len() == 0 {
        (trace, Seq::empty())
    } else {
        let (before, replies) = ran_all(trace, commands.drop_last(), moment);
        if commands.last() is Unwatch {
            (before, replies.push(ReplyModel::Okay))
        } else {
            let (after, reply) = ran(before, commands.last(), moment);
            (after, replies.push(reply))
        }
    }
}

} // verus!
