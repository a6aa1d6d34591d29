//! What holds of commands as a whole: which of them change data, and what a run of
//! them comes to.

use super::model::{Dataset, Moment, Trace};
use crate::buffer;
use crate::command::reply::ReplyModel;
use crate::command::types::{
    Command, ExpiryUnit, HashCommand, ListCommand, SetCommand, SetCondition, SetExpiry, SetOptions,
    SortedSetCommand,
};
use crate::storage::changes;
use crate::storage::laws;
use crate::storage::model;
use crate::storage::mutation;
use crate::storage::string_laws;
use bytes::Bytes;
use vstd::prelude::*;

verus! {

/// A command that does not count as a write changes no entry that has not ended.
/// So whatever can change data counts as a write.
pub proof fn law_only_writes_change_data(data: Dataset, command: Command, moment: Moment)
    requires
        !command.is_write(),
    ensures
        laws::only_ended(data, model::ran(model::begin(data), command, moment).0, moment.now),
        forall|key: Seq<u8>| #[trigger]
            string_laws::live(string_laws::left(data, command, moment), key, moment.now)
                == string_laws::live(data, key, moment.now),
{
    if !mutation::is_read(command) && !(string_laws::answer(data, command, moment) is Error) {
        assert(model::ran(model::begin(data), command, moment).0 == model::begin(data));
        assert(laws::only_ended(data, model::begin(data), moment.now));
    } else {
        laws::law_errors_and_reads_have_no_effect(data, command, moment);
    }
    let after = model::ran(model::begin(data), command, moment).0;
    assert forall|key: Seq<u8>| #[trigger]
        string_laws::live(string_laws::left(data, command, moment), key, moment.now)
            == string_laws::live(data, key, moment.now) by {
        assert(changes::entry_at(after.data, key) == if after.touched.contains(key) {
            None
        } else {
            changes::entry_at(data, key)
        });
    }
}

/// Putting something into a collection and taking something out are writes for every
/// kind of collection alike; looking at one is none.
pub proof fn law_collections_are_written_alike(
    key: Bytes,
    hash: HashCommand,
    list: ListCommand,
    set: SetCommand,
    sorted: SortedSetCommand,
)
    ensures
        (Command::Hash { key, operation: hash }).is_write() == !(hash is Get || hash is Exists
            || hash is Len || hash is GetAll),
        (Command::List { key, operation: list }).is_write() == !(list is Len || list is Range),
        (Command::SetCollection { key, operation: set }).is_write() == !(set is IsMember
            || set is Card || set is Members),
        (Command::SortedSet { key, operation: sorted }).is_write() == !(sorted is Card
            || sorted is Score || sorted is Range),
{
}

/// A command that can only look is not a write, and its upkeep counts as such.
pub proof fn law_reads_are_no_writes(command: Command)
    ensures
        mutation::is_read(command) ==> !command.is_write(),
        command is Get || command is MGet || command is Exists || command is Ttl
            ==> mutation::is_read(command),
        command is Ping || command is Echo || command is Info || command is Publish
            || command is Subscribe || command is Unsubscribe || command is Multi || command is Exec
            || command is Discard || command is Watch || command is Unwatch ==> !command.is_write(),
        command matches Command::Hash { .. } ==> mutation::is_read(command) == !command.is_write(),
        command matches Command::SortedSet { .. } ==> mutation::is_read(command)
            == !command.is_write(),
        command matches Command::List { .. } ==> mutation::is_read(command) == !command.is_write(),
        command matches Command::SetCollection { .. } ==> mutation::is_read(command)
            == !command.is_write(),
{
}

proof fn lemma_alike_many(left: Trace, right: Trace, keys: Seq<Bytes>, now: u128)
    requires
        left.data == right.data,
    ensures
        model::ran_del(left, keys, now).0.data == model::ran_del(right, keys, now).0.data,
        model::ran_del(left, keys, now).1 == model::ran_del(right, keys, now).1,
        model::ran_exists(left, keys, now).0.data == model::ran_exists(right, keys, now).0.data,
        model::ran_exists(left, keys, now).1 == model::ran_exists(right, keys, now).1,
        model::ran_mget(left, keys, now).0.data == model::ran_mget(right, keys, now).0.data,
        model::ran_mget(left, keys, now).1 == model::ran_mget(right, keys, now).1,
    decreases keys.len(),
{
    if keys.len() > 0 {
        lemma_alike_many(left, right, keys.drop_last(), now);
    }
}

proof fn lemma_alike_all(
    left: Trace,
    right: Trace,
    keys: Seq<Seq<u8>>,
    texts: Map<Seq<u8>, Seq<u8>>,
    now: u128,
)
    requires
        left.data == right.data,
    ensures
        model::expire_all(left, keys, now).data == model::expire_all(right, keys, now).data,
        model::discard_all(left, keys).data == model::discard_all(right, keys).data,
        model::write_all(left, keys, texts).data == model::write_all(right, keys, texts).data,
    decreases keys.len(),
{
    if keys.len() > 0 {
        lemma_alike_all(left, right, keys.drop_last(), texts, now);
    }
}

proof fn lemma_alike_expire(left: Trace, right: Trace, key: Seq<u8>, now: u128)
    requires
        left.data == right.data,
    ensures
        model::expire(left, key, now).data == model::expire(right, key, now).data,
{
}

proof fn lemma_alike_hash(
    left: Trace,
    right: Trace,
    key: Seq<u8>,
    operation: HashCommand,
    now: u128,
)
    requires
        left.data == right.data,
    ensures
        model::ran_hash(left, key, operation, now).0.data == model::ran_hash(
            right,
            key,
            operation,
            now,
        ).0.data,
        model::ran_hash(left, key, operation, now).1 == model::ran_hash(
            right,
            key,
            operation,
            now,
        ).1,
{
    lemma_alike_expire(left, right, key, now);
}

proof fn lemma_alike_sorted_set(
    left: Trace,
    right: Trace,
    key: Seq<u8>,
    operation: SortedSetCommand,
    now: u128,
)
    requires
        left.data == right.data,
    ensures
        model::ran_sorted_set(left, key, operation, now).0.data == model::ran_sorted_set(
            right,
            key,
            operation,
            now,
        ).0.data,
        model::ran_sorted_set(left, key, operation, now).1 == model::ran_sorted_set(
            right,
            key,
            operation,
            now,
        ).1,
{
    lemma_alike_expire(left, right, key, now);
}

proof fn lemma_alike_set(
    left: Trace,
    right: Trace,
    key: Seq<u8>,
    value: Seq<u8>,
    options: SetOptions,
    moment: Moment,
)
    requires
        left.data == right.data,
    ensures
        model::ran_set(left, key, value, options, moment).0.data == model::ran_set(
            right,
            key,
            value,
            options,
            moment,
        ).0.data,
        model::ran_set(left, key, value, options, moment).1 == model::ran_set(
            right,
            key,
            value,
            options,
            moment,
        ).1,
{
    lemma_alike_expire(left, right, key, moment.now);
}

proof fn lemma_alike_mset(left: Trace, right: Trace, entries: Seq<(Bytes, Bytes)>, now: u128)
    requires
        left.data == right.data,
    ensures
        model::ran_mset(left, entries, now).0.data == model::ran_mset(right, entries, now).0.data,
        model::ran_mset(left, entries, now).1 == model::ran_mset(right, entries, now).1,
{
    let texts = model::merged(entries);
    let keys = crate::ordered::listing(texts.dom());
    lemma_alike_all(left, right, keys, texts, now);
    let a = model::expire_all(left, keys, now);
    let b = model::expire_all(right, keys, now);
    lemma_alike_all(a, b, keys, texts, now);
    lemma_alike_all(model::discard_all(a, keys), model::discard_all(b, keys), keys, texts, now);
}

proof fn lemma_alike_number(left: Trace, right: Trace, key: Seq<u8>, delta: int, moment: Moment)
    requires
        left.data == right.data,
    ensures
        model::ran_increment(left, key, delta, moment).0.data == model::ran_increment(
            right,
            key,
            delta,
            moment,
        ).0.data,
        model::ran_increment(left, key, delta, moment).1 == model::ran_increment(
            right,
            key,
            delta,
            moment,
        ).1,
{
    lemma_alike_expire(left, right, key, moment.now);
}

proof fn lemma_alike_time(
    left: Trace,
    right: Trace,
    key: Seq<u8>,
    value: i64,
    unit: ExpiryUnit,
    moment: Moment,
)
    requires
        left.data == right.data,
    ensures
        model::ran_expire(left, key, value, unit, moment).0.data == model::ran_expire(
            right,
            key,
            value,
            unit,
            moment,
        ).0.data,
        model::ran_expire(left, key, value, unit, moment).1 == model::ran_expire(
            right,
            key,
            value,
            unit,
            moment,
        ).1,
        model::ran_persist(left, key, moment.now).0.data == model::ran_persist(
            right,
            key,
            moment.now,
        ).0.data,
        model::ran_persist(left, key, moment.now).1 == model::ran_persist(
            right,
            key,
            moment.now,
        ).1,
{
    lemma_alike_expire(left, right, key, moment.now);
}

/// What a command does depends on the data alone, not on what was touched before.
#[verifier::spinoff_prover]
#[verifier::rlimit(40)]
proof fn lemma_alike(trace: Trace, command: Command, moment: Moment)
    ensures
        model::ran(trace, command, moment).0.data == string_laws::left(trace.data, command, moment),
        model::ran(trace, command, moment).1 == string_laws::answer(trace.data, command, moment),
{
    let fresh = model::begin(trace.data);
    match command {
        Command::Del { keys } => lemma_alike_many(trace, fresh, keys@, moment.now),
        Command::Exists { keys } => lemma_alike_many(trace, fresh, keys@, moment.now),
        Command::MGet { keys } => lemma_alike_many(trace, fresh, keys@, moment.now),
        Command::MSet { entries } => lemma_alike_mset(trace, fresh, entries@, moment.now),
        Command::Hash { key, operation } => lemma_alike_hash(
            trace,
            fresh,
            buffer::bytes_content(key),
            operation,
            moment.now,
        ),
        Command::SortedSet { key, operation } => lemma_alike_sorted_set(
            trace,
            fresh,
            buffer::bytes_content(key),
            operation,
            moment.now,
        ),
        Command::SetValue { key, value } => lemma_alike_set(
            trace,
            fresh,
            buffer::bytes_content(key),
            buffer::bytes_content(value),
            SetOptions {
                condition: SetCondition::Always,
                expiry: SetExpiry::Persistent,
                return_previous: false,
            },
            moment,
        ),
        Command::SetWithOptions { key, value, options } => lemma_alike_set(
            trace,
            fresh,
            buffer::bytes_content(key),
            buffer::bytes_content(value),
            options,
            moment,
        ),
        Command::Incr { key } => lemma_alike_number(
            trace,
            fresh,
            buffer::bytes_content(key),
            1,
            moment,
        ),
        Command::Decr { key } => lemma_alike_number(
            trace,
            fresh,
            buffer::bytes_content(key),
            -1,
            moment,
        ),
        Command::Expire { key, value, unit } => lemma_alike_time(
            trace,
            fresh,
            buffer::bytes_content(key),
            value,
            unit,
            moment,
        ),
        Command::Persist { key } => lemma_alike_time(
            trace,
            fresh,
            buffer::bytes_content(key),
            0,
            ExpiryUnit::Seconds,
            moment,
        ),
        Command::Get { key } => lemma_alike_expire(
            trace,
            fresh,
            buffer::bytes_content(key),
            moment.now,
        ),
        Command::Ttl { key, .. } => lemma_alike_expire(
            trace,
            fresh,
            buffer::bytes_content(key),
            moment.now,
        ),
        _ => {},
    }
}

/// Whether the datasets are those before and after each of the commands: each is what
/// the command leaves of the one before. UNWATCH leaves it alone.
pub open spec fn passes(states: Seq<Dataset>, commands: Seq<Command>, moment: Moment) -> bool {
    &&& states.len() == commands.len() + 1
    &&& forall|i: int|
        0 <= i < commands.len() ==> #[trigger] states[i + 1] == if commands[i] is Unwatch {
            states[i]
        } else {
            string_laws::left(states[i], commands[i], moment)
        }
}

/// A transaction is its commands one after the other: each works on what the one before
/// has left, an error of one stops none of the others, and there is one answer for each,
/// in their order, which is what the command answers there.
pub proof fn law_runs_are_commands_in_order(
    data: Dataset,
    commands: Seq<Command>,
    moment: Moment,
) -> (states: Seq<Dataset>)
    ensures
        ({
            let (trace, replies) = model::ran_all(model::begin(data), commands, moment);
            &&& passes(states, commands, moment)
            &&& states[0] == data
            &&& states[commands.len() as int] == trace.data
            &&& replies.len() == commands.len()
            &&& forall|i: int|
                0 <= i < commands.len() ==> #[trigger] replies[i] == if commands[i] is Unwatch {
                    ReplyModel::Okay
                } else {
                    string_laws::answer(states[i], commands[i], moment)
                }
        }),
    decreases commands.len(),
{
    if commands.len() == 0 {
        seq![data]
    } else {
        let front = commands.drop_last();
        let earlier = law_runs_are_commands_in_order(data, front, moment);
        let (before, _) = model::ran_all(model::begin(data), front, moment);
        let (trace, replies) = model::ran_all(model::begin(data), commands, moment);
        lemma_alike(before, commands.last(), moment);
        let states = earlier.push(trace.data);
        let last = commands.len() - 1;
        assert(commands[last] == commands.last());
        assert forall|i: int| 0 <= i < commands.len() implies #[trigger] states[i + 1] == (
        if commands[i] is Unwatch {
            states[i]
        } else {
            string_laws::left(states[i], commands[i], moment)
        }) by {
            if i < last {
                assert(states[i + 1] == earlier[i + 1]);
                assert(front[i] == commands[i]);
            }
        }
        assert forall|i: int| 0 <= i < commands.len() implies #[trigger] replies[i] == (
        if commands[i] is Unwatch {
            ReplyModel::Okay
        } else {
            string_laws::answer(states[i], commands[i], moment)
        }) by {
            if i < last {
                assert(front[i] == commands[i]);
                assert(states[i] == earlier[i]);
            }
        }
        states
    }
}

/// A run of commands that are no writes changes no entry that has not ended.
pub proof fn law_runs_without_writes_keep_the_data(
    data: Dataset,
    commands: Seq<Command>,
    moment: Moment,
    key: Seq<u8>,
)
    requires
        forall|i: int| 0 <= i < commands.len() ==> !(#[trigger] commands[i]).is_write(),
    ensures
        string_laws::live(
            model::ran_all(model::begin(data), commands, moment).0.data,
            key,
            moment.now,
        ) == string_laws::live(data, key, moment.now),
    decreases commands.len(),
{
    if commands.len() > 0 {
        let front = commands.drop_last();
        assert forall|i: int| 0 <= i < front.len() implies !(#[trigger] front[i]).is_write() by {
            assert(front[i] == commands[i]);
        }
        law_runs_without_writes_keep_the_data(data, front, moment, key);
        let before = model::ran_all(model::begin(data), front, moment).0;
        assert(commands[commands.len() - 1] == commands.last());
        if !(commands.last() is Unwatch) {
            lemma_alike(before, commands.last(), moment);
            law_only_writes_change_data(before.data, commands.last(), moment);
            assert(string_laws::live(
                string_laws::left(before.data, commands.last(), moment),
                key,
                moment.now,
            ) == string_laws::live(before.data, key, moment.now));
        }
    }
}

/// PING answers PONG or its message, ECHO its message. Neither touches data.
pub proof fn law_messages_come_back(data: Dataset, message: Bytes, moment: Moment)
    ensures
        string_laws::answer(data, Command::Ping(None), moment) == ReplyModel::Pong,
        string_laws::answer(data, Command::Ping(Some(message)), moment) == ReplyModel::Bulk(
            Some(buffer::bytes_content(message)),
        ),
        string_laws::answer(data, Command::Echo(message), moment) == ReplyModel::Bulk(
            Some(buffer::bytes_content(message)),
        ),
        string_laws::left(data, Command::Ping(Some(message)), moment) == data,
        string_laws::left(data, Command::Echo(message), moment) == data,
{
}

} // verus!
