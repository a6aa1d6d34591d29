//! What transactions of a connection are for.

use super::request::StepModel;
use super::transaction::{ActionModel, TransactionLimits, TransactionModel};
use crate::buffer;
use crate::command::parser;
use crate::command::parser::RequestError;
use crate::command::reply;
use crate::command::reply::{ExecutionError, Reply, ReplyModel};
use crate::command::types::Command;
use crate::connection::exec;
use crate::connection::request;
use crate::connection::transaction;
use crate::ordered;
use crate::pubsub;
use crate::pubsub::{MessageModel, SubscriberModel};
use crate::pubsub_laws;
use crate::resp::frame::FrameModel;
use crate::resp::limits::RespLimits;
use crate::storage::batch_laws;
use crate::storage::changes;
use crate::storage::collections;
use crate::storage::model::{Dataset, Moment};
use crate::storage::routing;
use crate::storage::string_laws;
use crate::storage::store::Store;
use crate::storage::watch::WatchToken;
use crate::storage::watch_laws;
use crate::storage::worker;
use crate::storage::worker::{Accepted, DbError, Pending, Request, Written};
use bytes::Bytes;
use vstd::prelude::*;
use vstd::string::*;

verus! {

/// Whether the token is that of a key that is observed.
pub open spec fn taken(watched: Map<Seq<u8>, WatchToken>, token: WatchToken) -> bool {
    exists|key: Seq<u8>| #[trigger] watched.contains_key(key) && watched[key] == token
}

/// Whether the tokens are those of the observations, one for each key.
pub open spec fn covers(tokens: Seq<WatchToken>, watched: Map<Seq<u8>, WatchToken>) -> bool {
    &&& tokens.len() == watched.dom().len()
    &&& forall|key: Seq<u8>| #[trigger]
        watched.contains_key(key) ==> exists|i: int|
            0 <= i < tokens.len() && #[trigger] tokens[i] == watched[key]
    &&& forall|i: int| 0 <= i < tokens.len() ==> taken(watched, #[trigger] tokens[i])
}

proof fn lemma_tokens(watched: Map<Seq<u8>, WatchToken>)
    requires
        watched.dom().finite(),
    ensures
        covers(transaction::tokens_of(watched), watched),
{
    let keys = ordered::listing(watched.dom());
    let tokens = transaction::tokens_of(watched);
    collections::lemma_listing_exists(watched.dom());
    collections::lemma_listing_len(keys, watched.dom());
    assert forall|key: Seq<u8>| #[trigger] watched.contains_key(key) implies exists|i: int|
        0 <= i < tokens.len() && #[trigger] tokens[i] == watched[key] by {
        assert(watched.dom().contains(key));
        assert(keys.contains(key));
        let i = choose|i: int| 0 <= i < keys.len() && keys[i] == key;
        assert(tokens[i] == watched[key]);
    }
    assert forall|i: int| 0 <= i < tokens.len() implies taken(watched, #[trigger] tokens[i]) by {
        assert(keys.contains(keys[i]));
        assert(watched.dom().contains(keys[i]));
        assert(watched.contains_key(keys[i]));
    }
}

/// EXEC of a queue in which nothing was refused hands over the commands of the queue and
/// one observation for each key that is observed: the one that was taken for it. After
/// that the connection has neither queue nor observations.
pub proof fn law_exec_hands_over_queue_and_observations(
    state: TransactionModel,
    bytes: usize,
    limits: TransactionLimits,
    shards: int,
    readonly: bool,
)
    requires
        state.queue matches Some(queue) && !queue.dirty,
        state.watched.dom().finite(),
    ensures
        ({
            let (after, action) = transaction::handled(
                state,
                Command::Exec,
                bytes,
                limits,
                shards,
                readonly,
                false,
            );
            &&& action matches ActionModel::Exec { commands, watched } && commands
                == state.queue->Some_0.commands && covers(watched, state.watched)
            &&& after.queue is None
            &&& after.watch_shard is None
            &&& after.watched == Map::<Seq<u8>, WatchToken>::empty()
        }),
{
    lemma_tokens(state.watched);
}

/// EXEC of a queue in which something was refused, DISCARD, and UNWATCH outside a queue
/// give every observation back and execute nothing.
pub proof fn law_ended_transactions_give_observations_back(
    state: TransactionModel,
    command: Command,
    bytes: usize,
    limits: TransactionLimits,
    shards: int,
    readonly: bool,
)
    requires
        match command {
            Command::Exec => state.queue matches Some(queue) && queue.dirty,
            Command::Discard => state.queue is Some,
            Command::Unwatch => state.queue is None,
            _ => false,
        },
        state.watched.dom().finite(),
    ensures
        ({
            let (after, action) = transaction::handled(
                state,
                command,
                bytes,
                limits,
                shards,
                readonly,
                false,
            );
            &&& action matches ActionModel::Reply { frame, released } && covers(
                released,
                state.watched,
            ) && (command is Exec <==> frame is Error)
            &&& after.queue is None
            &&& after.watched == Map::<Seq<u8>, WatchToken>::empty()
            &&& after.watch_shard is None
        }),
{
    lemma_tokens(state.watched);
}

/// EXEC and DISCARD without MULTI, MULTI inside a queue and WATCH inside a queue are
/// refused and change nothing, whatever else is there.
pub proof fn law_misplaced_commands_are_refused(
    state: TransactionModel,
    command: Command,
    bytes: usize,
    limits: TransactionLimits,
    shards: int,
    readonly: bool,
)
    requires
        match command {
            Command::Exec => state.queue is None,
            Command::Discard => state.queue is None,
            Command::Multi => state.queue is Some,
            Command::Watch { .. } => state.queue is Some,
            _ => false,
        },
    ensures
        ({
            let (after, action) = transaction::handled(
                state,
                command,
                bytes,
                limits,
                shards,
                readonly,
                false,
            );
            &&& after == state
            &&& action matches ActionModel::Reply { frame, released } && frame is Error && released
                == Seq::<WatchToken>::empty()
        }),
{
}

/// MULTI opens an empty queue and keeps the observations.
pub proof fn law_multi_opens_a_queue(
    state: TransactionModel,
    bytes: usize,
    limits: TransactionLimits,
    shards: int,
    readonly: bool,
)
    requires
        state.queue is None,
    ensures
        ({
            let (after, action) = transaction::handled(
                state,
                Command::Multi,
                bytes,
                limits,
                shards,
                readonly,
                false,
            );
            &&& after.queue matches Some(queue) && queue.commands == Seq::<Command>::empty()
                && queue.bytes == 0 && !queue.dirty && queue.shard == state.watch_shard
            &&& after.watched == state.watched
            &&& after.watch_shard == state.watch_shard
            &&& action matches ActionModel::Reply { frame, .. } && frame == FrameModel::Simple(
                "OK".spec_bytes(),
            )
        }),
{
}

/// Whether a command is about the transaction itself.
pub open spec fn governs(command: Command) -> bool {
    command is Multi || command is Exec || command is Discard || command is Watch
}

/// Between MULTI and EXEC a command is not executed. It goes to the end of the queue, or
/// it is refused, and then EXEC will be refused too. All keys of the queue lie on one shard.
/// Observations stay.
pub proof fn law_queued_commands_wait(
    state: TransactionModel,
    command: Command,
    bytes: usize,
    limits: TransactionLimits,
    shards: int,
    readonly: bool,
)
    requires
        state.queue matches Some(queue) && !queue.dirty,
        !governs(command),
    ensures
        ({
            let queue = state.queue->Some_0;
            let (after, action) = transaction::handled(
                state,
                command,
                bytes,
                limits,
                shards,
                readonly,
                false,
            );
            &&& action matches ActionModel::Reply { frame, released } && released == Seq::<
                WatchToken,
            >::empty() && if frame is Error {
                after.queue matches Some(next) && next.dirty && next.commands == Seq::<
                    Command,
                >::empty()
            } else {
                &&& frame == FrameModel::Simple("QUEUED".spec_bytes())
                &&& after.queue matches Some(next) && !next.dirty && next.commands
                    == queue.commands.push(command) && next.bytes == queue.bytes + bytes
                &&& queue.commands.len() < limits.max_commands
                &&& queue.bytes + bytes <= limits.max_bytes
                &&& forall|i: int|
                    0 <= i < command.key_seq().len() ==> after.queue->Some_0.shard == Some(
                        routing::shard_of(
                            buffer::bytes_content(#[trigger] command.key_seq()[i]),
                            shards,
                        ) as usize,
                    )
                &&& queue.shard is Some || command.key_seq().len() == 0
                    ==> after.queue->Some_0.shard == queue.shard
            }
            &&& after.watched == state.watched
            &&& after.watch_shard == state.watch_shard
        }),
{
}

/// A command is refused for the queue only if it would write on a replica, lies on another
/// shard than the queue, or does not fit the queue.
pub proof fn law_queues_take_what_fits(
    state: TransactionModel,
    command: Command,
    bytes: usize,
    limits: TransactionLimits,
    shards: int,
    readonly: bool,
)
    requires
        state.queue matches Some(queue) && !queue.dirty && queue.commands.len()
            < limits.max_commands && queue.bytes + bytes <= limits.max_bytes,
        !governs(command),
        !(readonly && command.is_write()),
        ({
            let shard = match state.queue->Some_0.shard {
                Some(shard) => Some(shard),
                None => if command.key_seq().len() == 0 {
                    None
                } else {
                    Some(
                        routing::shard_of(
                            buffer::bytes_content(command.key_seq()[0]),
                            shards,
                        ) as usize,
                    )
                },
            };
            forall|i: int|
                0 <= i < command.key_seq().len() ==> shard == Some(
                    routing::shard_of(
                        buffer::bytes_content(#[trigger] command.key_seq()[i]),
                        shards,
                    ) as usize,
                )
        }),
        0 < shards <= usize::MAX,
    ensures
        transaction::handled(state, command, bytes, limits, shards, readonly, false).1
            matches ActionModel::Reply { frame, .. } && frame is Simple,
{
}

/// Without a queue a command is executed at once, as it is.
pub proof fn law_commands_outside_a_queue_are_executed(
    state: TransactionModel,
    command: Command,
    bytes: usize,
    limits: TransactionLimits,
    shards: int,
    readonly: bool,
)
    requires
        state.queue is None,
        !governs(command),
        !(command is Unwatch),
        !(readonly && command.is_write()),
    ensures
        transaction::handled(state, command, bytes, limits, shards, readonly, false) == (
            state,
            ActionModel::Execute(command),
        ),
{
}

/// A replica refuses every command that could change what has not ended, inside and outside
/// a queue, and a queue that it stood in is spoilt. All other commands are treated on a
/// replica as anywhere.
pub proof fn law_replicas_refuse_writes(
    state: TransactionModel,
    command: Command,
    bytes: usize,
    limits: TransactionLimits,
    shards: int,
    data: Dataset,
    moment: Moment,
    key: Seq<u8>,
)
    ensures
        ({
            let (after, action) = transaction::handled(
                state,
                command,
                bytes,
                limits,
                shards,
                true,
                false,
            );
            if string_laws::live(string_laws::left(data, command, moment), key, moment.now)
                != string_laws::live(data, key, moment.now) {
                &&& action matches ActionModel::Reply { frame, released } && frame
                    == FrameModel::Error(
                    "READONLY You can't write against a read only replica.".spec_bytes(),
                ) && released == Seq::<WatchToken>::empty()
                &&& after.queue is Some == state.queue is Some
                &&& after.queue matches Some(queue) ==> queue.dirty && queue.commands == Seq::<
                    Command,
                >::empty()
                &&& after.watched == state.watched
            } else {
                command.is_write() || (after, action) == transaction::handled(
                    state,
                    command,
                    bytes,
                    limits,
                    shards,
                    false,
                    false,
                )
            }
        }),
{
    if !command.is_write() {
        batch_laws::law_only_writes_change_data(data, command, moment);
        assert(string_laws::live(string_laws::left(data, command, moment), key, moment.now)
            == string_laws::live(data, key, moment.now));
    }
}

proof fn lemma_listed_finite(keys: Seq<Bytes>)
    ensures
        crate::pubsub::listed(keys).finite(),
{
    let names = keys.map_values(|key: Bytes| buffer::bytes_content(key));
    assert forall|key: Seq<u8>| #[trigger] crate::pubsub::listed(keys).contains(key)
        == names.to_set().contains(key) by {
        if crate::pubsub::listed(keys).contains(key) {
            let i = choose|i: int|
                0 <= i < keys.len() && buffer::bytes_content(#[trigger] keys[i]) == key;
            assert(names[i] == key);
        }
        if names.contains(key) {
            let i = choose|i: int| 0 <= i < names.len() && names[i] == key;
            assert(buffer::bytes_content(keys[i]) == key);
        }
    }
    assert(crate::pubsub::listed(keys) =~= names.to_set());
}

/// How many of the keys are not observed yet, each counted once.
pub open spec fn fresh_count(state: TransactionModel, keys: Seq<Bytes>) -> nat {
    Set::new(
        |key: Seq<u8>| string_laws::mentions(keys, key) && !state.watched.contains_key(key),
    ).len()
}

/// WATCH outside a queue observes each key that it names and that is not observed yet, once,
/// unless there would be too many or they lie on several shards; then it observes none.
pub proof fn law_watch_observes_new_keys(
    state: TransactionModel,
    keys: Vec<Bytes>,
    bytes: usize,
    limits: TransactionLimits,
    shards: int,
    readonly: bool,
)
    requires
        state.queue is None,
        state.watched.dom().finite(),
    ensures
        ({
            let (after, action) = transaction::handled(
                state,
                Command::Watch { keys },
                bytes,
                limits,
                shards,
                readonly,
                false,
            );
            &&& after == state
            &&& action matches ActionModel::Watch { keys: fresh, .. } ==> {
                &&& ordered::ascending(fresh)
                &&& fresh.len() + state.watched.dom().len() <= limits.max_watched
                &&& forall|key: Seq<u8>| #[trigger]
                    fresh.contains(key) <==> string_laws::mentions(keys@, key)
                        && !state.watched.contains_key(key)
                &&& fresh.len() > 0
                &&& forall|i: int|
                    0 <= i < fresh.len() ==> action->shard == Some(
                        routing::shard_of(#[trigger] fresh[i], shards) as usize,
                    )
                &&& state.watch_shard is Some ==> action->shard == state.watch_shard
            }
            &&& (action matches ActionModel::Reply { frame, .. } && frame is Error) ==> {
                ||| exists|i: int, j: int|
                    0 <= i < keys@.len() && 0 <= j < keys@.len() && routing::shard_of(
                        buffer::bytes_content(#[trigger] keys@[i]),
                        shards,
                    ) as usize != routing::shard_of(
                        buffer::bytes_content(#[trigger] keys@[j]),
                        shards,
                    ) as usize
                ||| exists|i: int|
                    0 <= i < keys@.len() && state.watch_shard is Some && state.watch_shard != Some(
                        routing::shard_of(
                            buffer::bytes_content(#[trigger] keys@[i]),
                            shards,
                        ) as usize,
                    )
                ||| fresh_count(state, keys@) + state.watched.dom().len() > limits.max_watched
            }
            &&& (action matches ActionModel::Reply { frame, .. } && !(frame is Error)) ==> (forall|
                i: int,
            |
                0 <= i < keys@.len() ==> state.watched.contains_key(
                    buffer::bytes_content(#[trigger] keys@[i]),
                ))
            &&& action is Watch || action is Reply
        }),
{
    let fresh_set = transaction::unwatched(state, keys@);
    let fresh = ordered::listing(fresh_set);
    lemma_listed_finite(keys@);
    vstd::set_lib::lemma_len_subset(fresh_set, crate::pubsub::listed(keys@));
    collections::lemma_listing_exists(fresh_set);
    assert forall|key: Seq<u8>| #[trigger] fresh.contains(key) <==> string_laws::mentions(keys@, key)
        && !state.watched.contains_key(key) by {
        assert(fresh_set.contains(key) <==> fresh.contains(key));
        assert(crate::pubsub::listed(keys@).contains(key) <==> string_laws::mentions(keys@, key));
    }
    collections::lemma_listing_len(fresh, fresh_set);
    assert(fresh_set =~= Set::new(
        |key: Seq<u8>| string_laws::mentions(keys@, key) && !state.watched.contains_key(key),
    ));
    if !transaction::gathered(fresh, shards, state.watch_shard) {
        let i = choose|i: int|
            0 <= i < fresh.len() && transaction::chosen(fresh, shards, state.watch_shard) != Some(
                routing::shard_of(#[trigger] fresh[i], shards) as usize,
            );
        assert(fresh.contains(fresh[i]) && fresh.contains(fresh[0]));
        let p = choose|p: int|
            0 <= p < keys@.len() && buffer::bytes_content(#[trigger] keys@[p]) == fresh[i];
        let q = choose|q: int|
            0 <= q < keys@.len() && buffer::bytes_content(#[trigger] keys@[q]) == fresh[0];
        assert(keys@[p] == keys@[p] && keys@[q] == keys@[q]);
    }
    if fresh.len() == 0 {
        assert forall|i: int| 0 <= i < keys@.len() implies state.watched.contains_key(
            buffer::bytes_content(#[trigger] keys@[i]),
        ) by {
            let key = buffer::bytes_content(keys@[i]);
            assert(string_laws::mentions(keys@, key));
            assert(!fresh.contains(key));
        }
    }
}

/// Tokens that the owner gave are kept under their keys, and the observations that were there
/// stay.
pub proof fn law_tokens_are_kept(
    watched: Map<Seq<u8>, WatchToken>,
    tokens: Seq<WatchToken>,
    index: int,
    key: Seq<u8>,
)
    requires
        0 <= index < tokens.len(),
        forall|i: int, j: int|
            0 <= i < j < tokens.len() ==> buffer::bytes_content((#[trigger] tokens[i]).observed())
                != buffer::bytes_content((#[trigger] tokens[j]).observed()),
    ensures
        ({
            let after = transaction::with_tokens(watched, tokens);
            let name = buffer::bytes_content(tokens[index].observed());
            &&& after.contains_key(name) && after[name] == tokens[index]
            &&& (forall|i: int|
                0 <= i < tokens.len() ==> buffer::bytes_content((#[trigger] tokens[i]).observed())
                    != key) ==> after.contains_key(key) == watched.contains_key(key) && (
            watched.contains_key(key) ==> after[key] == watched[key])
        }),
    decreases tokens.len(),
{
    let front = tokens.drop_last();
    assert(tokens[tokens.len() - 1] == tokens.last());
    assert forall|i: int, j: int| 0 <= i < j < front.len() implies buffer::bytes_content(
        (#[trigger] front[i]).observed(),
    ) != buffer::bytes_content((#[trigger] front[j]).observed()) by {
        assert(front[i] == tokens[i] && front[j] == tokens[j]);
    }
    if forall|i: int|
        0 <= i < tokens.len() ==> buffer::bytes_content((#[trigger] tokens[i]).observed()) != key {
        assert forall|i: int| 0 <= i < front.len() implies buffer::bytes_content(
            (#[trigger] front[i]).observed(),
        ) != key by {
            assert(front[i] == tokens[i]);
        }
    }
    if front.len() == 0 {
        reveal_with_fuel(transaction::with_tokens, 2);
    }
    if index < front.len() {
        assert(buffer::bytes_content(tokens[index].observed()) != buffer::bytes_content(
            tokens[tokens.len() - 1].observed(),
        ));
    }
    if front.len() > 0 {
        let inner = if index < front.len() {
            index
        } else {
            0
        };
        law_tokens_are_kept(watched, front, inner, key);
        assert(front[inner] == tokens[inner]);
    }
}

/// A request that could not be understood is answered with what is wrong with it and spoils
/// the queue, so that EXEC will be refused. One that has not the form of a request ends the
/// connection, no other does.
pub proof fn law_refused_requests_spoil_the_queue(
    state: TransactionModel,
    parsed: Result<Command, RequestError>,
    name: Seq<u8>,
    bytes: usize,
    limits: TransactionLimits,
    shards: int,
    readonly: bool,
    subscribed: bool,
)
    ensures
        ({
            let (after, step) = request::stepped(
                state,
                parsed,
                name,
                bytes,
                limits,
                shards,
                readonly,
                subscribed,
            );
            &&& step is Close <==> parsed == Err::<Command, RequestError>(
                RequestError::InvalidFormat,
            )
            &&& parsed matches Err(error) ==> {
                &&& match step {
                    StepModel::Close(frame) => frame == FrameModel::Error(
                        parser::request_error_text(error),
                    ),
                    StepModel::Reply { frame, released } => frame == FrameModel::Error(
                        parser::request_error_text(error),
                    ) && released == Seq::<WatchToken>::empty(),
                    _ => false,
                }
                &&& after.watched == state.watched
                &&& after.queue is Some == state.queue is Some
                &&& after.queue matches Some(queue) ==> queue.dirty && queue.commands == Seq::<
                    Command,
                >::empty()
            }
        }),
{
}

/// A connection that listens to channels may change its subscriptions and ask whether the
/// server is there; all else is refused, and nothing of it is executed or queued.
pub proof fn law_listeners_only_listen(
    state: TransactionModel,
    command: Command,
    name: Seq<u8>,
    bytes: usize,
    limits: TransactionLimits,
    shards: int,
    readonly: bool,
)
    ensures
        ({
            let (after, step) = request::stepped(
                state,
                Ok(command),
                name,
                bytes,
                limits,
                shards,
                readonly,
                true,
            );
            &&& after == state
            &&& match command {
                Command::Subscribe { channels } => step == StepModel::Subscribe(channels@),
                Command::Unsubscribe { channels } => step == StepModel::Unsubscribe(channels@),
                Command::Ping(payload) => step matches StepModel::Reply { frame, .. } && (
                frame matches FrameModel::Array(Some(items)) && items.len() == 2 && items[0]
                    == FrameModel::Bulk(Some("pong".spec_bytes())) && items[1] == FrameModel::Bulk(
                    Some(
                        match payload {
                            Some(payload) => buffer::bytes_content(payload),
                            None => Seq::empty(),
                        },
                    ),
                )),
                _ => step matches StepModel::Reply { frame, .. } && frame is Error,
            }
        }),
{
}

/// Outside a queue, and where nothing forbids it, a connection does what it is told: it
/// changes subscriptions, publishes the message under its channel, and has every other
/// command executed as it is.
pub proof fn law_commands_are_handed_on(
    state: TransactionModel,
    command: Command,
    name: Seq<u8>,
    bytes: usize,
    limits: TransactionLimits,
    shards: int,
    readonly: bool,
)
    requires
        state.queue is None,
        !governs(command),
        !(command is Unwatch),
        !(readonly && command.is_write()),
    ensures
        ({
            let (after, step) = request::stepped(
                state,
                Ok(command),
                name,
                bytes,
                limits,
                shards,
                readonly,
                false,
            );
            &&& after == state
            &&& match command {
                Command::Subscribe { channels } => step == StepModel::Subscribe(channels@),
                Command::Unsubscribe { channels } => step == StepModel::Unsubscribe(channels@),
                Command::Publish { channel, message } => step matches StepModel::Publish(told)
                    && told.channel == buffer::bytes_content(channel) && told.payload
                    == buffer::bytes_content(message),
                _ => step == StepModel::Execute(command),
            }
        }),
{
}

/// What is to be done with the queue, its observations and the keys to be observed reaches
/// the connection as the transaction says.
pub proof fn law_transactions_are_followed(
    state: TransactionModel,
    command: Command,
    name: Seq<u8>,
    bytes: usize,
    limits: TransactionLimits,
    shards: int,
    readonly: bool,
)
    ensures
        ({
            let (after, step) = request::stepped(
                state,
                Ok(command),
                name,
                bytes,
                limits,
                shards,
                readonly,
                false,
            );
            let (next, action) = transaction::handled(
                state,
                command,
                bytes,
                limits,
                shards,
                readonly,
                false,
            );
            &&& after == next
            &&& match action {
                ActionModel::Exec { commands, watched } => step == (StepModel::Exec {
                    commands,
                    watched,
                }),
                ActionModel::Watch { keys, shard } => step == (StepModel::Watch { keys, shard }),
                ActionModel::Reply { frame, released } => step == (StepModel::Reply {
                    frame,
                    released,
                }),
                ActionModel::Execute(executed) => !(step is Exec) && !(step is Watch),
            }
        }),
{
}

proof fn lemma_answers(
    subscribers: Seq<SubscriberModel>,
    commands: Seq<Command>,
    replies: Seq<ReplyModel>,
    texts: Seq<Option<Bytes>>,
    limits: RespLimits,
    count: nat,
    index: int,
)
    requires
        count <= commands.len(),
        replies.len() == commands.len(),
        texts.len() == commands.len(),
    ensures
        ({
            let frames = exec::answers(subscribers, commands, replies, texts, limits, count).1;
            &&& frames.len() == count
            &&& 0 <= index < count ==> {
                &&& !(commands[index] is Publish) && !(commands[index] is Info) ==> frames[index]
                    == reply::frame_of(replies[index])
                &&& commands[index] is Info && texts[index] is Some ==> frames[index]
                    == FrameModel::Bulk(Some(buffer::bytes_content(texts[index]->Some_0)))
                &&& commands[index] is Publish ==> frames[index] is Integer || frames[index] is Error
            }
        }),
    decreases count,
{
    if count > 0 {
        lemma_answers(subscribers, commands, replies, texts, limits, (count - 1) as nat, index);
    }
}

/// EXEC answers each command of the queue, in their order, with what the store answered;
/// an inquiry with its text, and a published message with how many took it.
pub proof fn law_exec_answers_each_command(
    subscribers: Seq<SubscriberModel>,
    commands: Seq<Command>,
    replies: Seq<ReplyModel>,
    texts: Seq<Option<Bytes>>,
    limits: RespLimits,
    index: int,
)
    requires
        replies.len() == commands.len(),
        texts.len() == commands.len(),
        0 <= index < commands.len(),
    ensures
        exec::completed_exec(
            subscribers,
            commands,
            ReplyModel::Array(replies),
            texts,
            limits,
        ).1 matches FrameModel::Array(Some(frames)) && frames.len() == commands.len() && match (
            commands[index],
            texts[index],
        ) {
            (Command::Publish { .. }, _) => frames[index] is Integer || frames[index] is Error,
            (Command::Info(_), Some(text)) => frames[index] == FrameModel::Bulk(
                Some(buffer::bytes_content(text)),
            ),
            (Command::Info(_), None) => true,
            _ => frames[index] == reply::frame_of(replies[index]),
        },
{
    lemma_answers(subscribers, commands, replies, texts, limits, commands.len(), index);
}

/// A message that a transaction publishes reaches the listeners as one that is published
/// alone does, and its answer is how many took it.
pub proof fn law_queued_messages_are_published(
    subscribers: Seq<SubscriberModel>,
    channel: Bytes,
    message: Bytes,
    reply: ReplyModel,
    text: Option<Bytes>,
    limits: RespLimits,
)
    ensures
        ({
            let told = MessageModel {
                channel: buffer::bytes_content(channel),
                payload: buffer::bytes_content(message),
            };
            let (after, frame) = exec::answered(
                subscribers,
                Command::Publish { channel, message },
                reply,
                text,
                limits,
            );
            if request::writable(pubsub::notification(told), limits) {
                &&& after == pubsub::offered(subscribers, told).0
                &&& frame == FrameModel::Integer(
                    subscribers.filter(
                        |subscriber: SubscriberModel| pubsub_laws::takes(subscriber, told),
                    ).len() as i64,
                )
            } else {
                after == subscribers && frame is Error
            }
        }),
{
    let told = MessageModel {
        channel: buffer::bytes_content(channel),
        payload: buffer::bytes_content(message),
    };
    pubsub_laws::law_publish_counts_its_listeners(subscribers, told);
}

/// Where the owner of the keys refuses to observe them, its answer is passed on and nothing
/// changes; otherwise its tokens are kept beside those that were there.
pub proof fn law_observations_begin_with_their_tokens(
    state: TransactionModel,
    shard: Option<usize>,
    answer: ReplyModel,
    tokens: Seq<WatchToken>,
    index: int,
)
    requires
        0 <= index < tokens.len(),
        forall|i: int, j: int|
            0 <= i < j < tokens.len() ==> buffer::bytes_content((#[trigger] tokens[i]).observed())
                != buffer::bytes_content((#[trigger] tokens[j]).observed()),
    ensures
        ({
            let (after, frame) = transaction::watched_step(state, shard, answer, tokens);
            let name = buffer::bytes_content(tokens[index].observed());
            if answer is Error {
                after == state && frame == reply::frame_of(answer)
            } else {
                &&& frame == FrameModel::Simple("OK".spec_bytes())
                &&& after.watched.contains_key(name) && after.watched[name] == tokens[index]
                &&& after.watch_shard == shard
                &&& after.queue == state.queue
            }
        }),
{
    law_tokens_are_kept(state.watched, tokens, index, Seq::empty());
}

/// A key that a connection observes and that is written before EXEC stops the transaction: what
/// EXEC hands to the owner of the keys is answered with the null array (or, on a replica that
/// would write, that it is one), and the data stay as they are. It does not matter what else
/// happened to the store after the write.
pub proof fn law_watched_writes_stop_exec(
    state: TransactionModel,
    key: Seq<u8>,
    bytes: usize,
    limits: TransactionLimits,
    shards: int,
    first: Store,
    pending: Pending,
    written: Result<(Reply, Vec<WatchToken>), DbError>,
    second: Store,
    third: Store,
    commands: Vec<Command>,
    watched: Vec<WatchToken>,
    readonly: bool,
    moment: Moment,
    answer: Accepted,
    last: Store,
)
    requires
        state.queue matches Some(queue) && !queue.dirty,
        state.watched.dom().finite(),
        state.watched.contains_key(key),
        buffer::bytes_content(state.watched[key].observed()) == key,
        state.watched[key].id() matches Some(id) ==> id < first.next_watch(),
        worker::completed(first, pending, false, Written::Recorded, written, second),
        changes::change_keys(pending.prepared.changes()).contains(key),
        watch_laws::follows(second, third),
        transaction::handled(state, Command::Exec, bytes, limits, shards, readonly, false).1 == (
        ActionModel::Exec { commands: commands@, watched: watched@ }),
        worker::accepted(
            third,
            Request::Batch { commands, watched },
            readonly,
            moment,
            answer,
            last,
        ),
    ensures
        last.data() == third.data(),
        answer matches Accepted::Answer(reply) && (reply.model() is NullArray || (readonly
            && reply.model() == ReplyModel::Error(ExecutionError::ReadOnly))),
{
    law_exec_hands_over_queue_and_observations(state, bytes, limits, shards, readonly);
    let index = choose|i: int|
        0 <= i < watched@.len() && #[trigger] watched@[i] == state.watched[key];
    watch_laws::law_written_keys_stop_a_transaction(
        first,
        pending,
        written,
        second,
        third,
        commands,
        watched,
        index,
        readonly,
        moment,
        answer,
        last,
    );
}

} // verus!
