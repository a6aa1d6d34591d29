//! The owner of one part of the data: what it does with each request, before and
//! after the log has recorded what changes.

use super::model::{Dataset, Moment};
use super::mutation::{MutationOrigin, Prepared, ReplayError, ResolvedBatch};
use super::routing::{ShardRouter, MAX_SHARDS};
use super::store::Store;
use super::watch::{Watch, WatchToken};
use crate::clock::reachable;
use crate::clock;
use crate::command::reply::{ExecutionError, Reply, ReplyModel};
use crate::command::types::Command;
use crate::error::ConfigError;
use crate::persistence::config::{max_permits, AofError};
use crate::persistence::format::FormatError;
use crate::storage::changes;
use crate::storage::model;
use crate::storage::mutation;
use crate::storage::routing;
use crate::storage::store;
use crate::storage::watch;
use crate::buffer;
use crate::buffer::as_slice;
use bytes::Bytes;
use vstd::prelude::*;
use vstd::string::*;

verus! {

/// Failure of transport or of the life cycle, other than an answer of the data.
#[derive(Clone, Copy, Debug, PartialEq, Eq, Structural)]
pub enum DbError {
    /// The worker, or the channel of the answer, ended unexpectedly.
    Unavailable,
    /// The total deadline is over; an accepted command may have been applied.
    Timeout,
    /// Stopping began before this request was accepted.
    ShuttingDown,
}

impl DbError {
    pub open spec fn text(self) -> &'static str {
        match self {
            DbError::Unavailable => "worker indisponível",
            DbError::Timeout => "prazo do worker excedido; resultado da operação desconhecido",
            DbError::ShuttingDown => "servidor em encerramento",
        }
    }

    pub fn message(self) -> (result: &'static str)
        ensures
            result == self.text(),
    {
        match self {
            DbError::Unavailable => "worker indisponível",
            DbError::Timeout => "prazo do worker excedido; resultado da operação desconhecido",
            DbError::ShuttingDown => "servidor em encerramento",
        }
    }
}

/// What is wrong with a queue of this capacity and timeout, over some shards.
pub open spec fn channel_fault(capacity: usize, timeout: u128, shards: nat, reached: bool) -> Option<
    &'static str,
> {
    if !(1 <= shards <= MAX_SHARDS) {
        Some("SIDER_SHARDS precisa estar entre 1 e 256")
    } else if capacity == 0 || capacity > usize::MAX / 8 {
        Some("capacidade da fila deve estar entre 1 e Semaphore::MAX_PERMITS")
    } else if timeout == 0 || !reached {
        Some("timeout do worker deve ser positivo e representável pelo relógio")
    } else {
        None
    }
}

/// Holds a queue to its rules, given whether the clock can count the timeout.
pub fn check_channel(capacity: usize, timeout: u128, shards: usize, reached: bool) -> (result:
    Result<ShardRouter, ConfigError>)
    ensures
        match channel_fault(capacity, timeout, shards as nat, reached) {
            None => result matches Ok(router) && router.wf() && router.shards() == shards,
            Some(reason) => result == Err::<ShardRouter, ConfigError>(
                ConfigError::InvalidServerLimits { reason },
            ),
        },
{
    let router = match ShardRouter::new(shards) {
        Err(error) => return Err(error),
        Ok(router) => router,
    };
    if capacity == 0 || capacity > max_permits() {
        return Err(
            ConfigError::InvalidServerLimits {
                reason: "capacidade da fila deve estar entre 1 e Semaphore::MAX_PERMITS",
            },
        );
    }
    if timeout == 0 || !reached {
        return Err(
            ConfigError::InvalidServerLimits {
                reason: "timeout do worker deve ser positivo e representável pelo relógio",
            },
        );
    }
    Ok(router)
}

/// The owners of the stores, with the router over them. Each store goes to one
/// worker; the capacity counts messages, not bytes.
pub fn channel_with_stores(capacity: usize, timeout: u128, stores: Vec<Store>) -> (result: Result<
    (ShardRouter, Vec<Worker>),
    ConfigError,
>)
    requires
        forall|i: int| 0 <= i < stores@.len() ==> (#[trigger] stores@[i]).wf(),
    ensures
        exists|reached: bool|
            clock::answerable(timeout, reached) && match #[trigger] channel_fault(
                capacity,
                timeout,
                stores@.len(),
                reached,
            ) {
                None => {
                    &&& result matches Ok((router, workers))
                    &&& router.wf()
                    &&& router.shards() == stores@.len()
                    &&& workers@.len() == stores@.len()
                    &&& forall|i: int|
                        0 <= i < workers@.len() ==> {
                            &&& (#[trigger] workers@[i]).wf()
                            &&& workers@[i].held() == stores@[i]
                            &&& workers@[i].number() == i
                            &&& workers@[i].count() == stores@.len()
                            &&& workers@[i].threshold() == 0
                        }
                },
                Some(reason) => result == Err::<(ShardRouter, Vec<Worker>), ConfigError>(
                    ConfigError::InvalidServerLimits { reason },
                ),
            },
{
    let ghost all = stores@;
    let count: usize = stores.len();
    let reached = reachable(timeout);
    let router = match check_channel(capacity, timeout, count, reached) {
        Err(error) => {
            assert(channel_fault(capacity, timeout, all.len(), reached) is Some);
            return Err(error);
        },
        Ok(router) => router,
    };
    let mut left = stores;
    let mut backwards: Vec<Store> = Vec::new();
    while left.len() > 0
        invariant
            left@.len() + backwards@.len() == all.len(),
            left@ == all.take(left@.len() as int),
            forall|i: int|
                0 <= i < backwards@.len() ==> #[trigger] backwards@[i] == all[all.len() - 1 - i],
        decreases left@.len(),
    {
        if let Some(store) = left.pop() {
            backwards.push(store);
        }
    }
    let mut workers: Vec<Worker> = Vec::new();
    while backwards.len() > 0
        invariant
            forall|i: int| 0 <= i < all.len() ==> (#[trigger] all[i]).wf(),
            count == all.len(),
            workers@.len() + backwards@.len() == all.len(),
            forall|i: int|
                0 <= i < backwards@.len() ==> #[trigger] backwards@[i] == all[all.len() - 1 - i],
            forall|i: int|
                0 <= i < workers@.len() ==> {
                    &&& (#[trigger] workers@[i]).wf()
                    &&& workers@[i].held() == all[i]
                    &&& workers@[i].number() == i
                    &&& workers@[i].count() == count
                    &&& workers@[i].threshold() == 0
                },
        decreases backwards@.len(),
    {
        if let Some(store) = backwards.pop() {
            let shard: usize = workers.len();
            workers.push(
                Worker { store, shard, shard_count: count, compact_after_bytes: 0 },
            );
        }
    }
    assert(channel_fault(capacity, timeout, all.len(), reached) is None);
    Ok((router, workers))
}

/// What is asked of an owner.
pub enum Request {
    Execute { command: Command },
    /// A whole transaction, and the observations it depends on.
    Batch { commands: Vec<Command>, watched: Vec<WatchToken> },
    /// Observes keys.
    Watch { keys: Vec<Bytes> },
}

/// A validated result that waits for the log.
pub struct Pending {
    pub prepared: Prepared,
    /// Keys to observe once it is done.
    pub observe: Option<Vec<Bytes>>,
}

/// What an owner does with a request.
pub enum Accepted {
    /// It answers at once.
    Answer(Reply),
    /// It has the log record the batch, and goes on with [`Worker::complete`].
    Commit(Pending),
}

/// What became of a batch in the log. Without a log, and where nothing changes,
/// there is nothing to record.
#[derive(Clone, Copy, Debug, PartialEq, Eq, Structural)]
pub enum Written {
    Recorded,
    /// The record would exceed its limit.
    TooLong,
    Failed,
}

/// Whether some of the commands change the dataset.
pub open spec fn some_write(commands: Seq<Command>) -> bool {
    exists|i: int| 0 <= i < commands.len() && (#[trigger] commands[i]).is_write()
}

/// The observations after some were given back.
pub open spec fn released_all(watches: Map<Seq<u8>, Watch>, tokens: Seq<WatchToken>) -> Map<
    Seq<u8>,
    Watch,
>
    decreases tokens.len(),
{
    if tokens.len() == 0 {
        watches
    } else {
        released_all(watch::released(watches, tokens.last()), tokens.drop_last())
    }
}

/// Whether no observed key changed.
pub open spec fn unchanged(watches: Map<Seq<u8>, Watch>, tokens: Seq<WatchToken>, now: u128) -> bool {
    forall|i: int| 0 <= i < tokens.len() ==> !watch::is_changed(watches, #[trigger] tokens[i], now)
}

/// Whether a result is that of one command.
pub open spec fn tells(prepared: Prepared, data: Dataset, command: Command, moment: Moment) -> bool {
    let (trace, reply) = model::ran(model::begin(data), command, moment);
    &&& prepared.reply.model() == reply
    &&& prepared.changes() == changes::changes_of(trace)
    &&& prepared.batch.origin == if mutation::is_read(command) {
        MutationOrigin::Expiration
    } else {
        MutationOrigin::Client
    }
}

/// Whether a result is that of a whole transaction.
pub open spec fn tells_all(
    prepared: Prepared,
    data: Dataset,
    commands: Seq<Command>,
    moment: Moment,
) -> bool {
    let (trace, replies) = model::ran_all(model::begin(data), commands, moment);
    &&& prepared.reply.model() == ReplyModel::Array(replies)
    &&& prepared.changes() == changes::changes_of(trace)
    &&& prepared.batch.origin == MutationOrigin::Client
}

/// The only owner of a part of the data.
pub struct Worker {
    store: Store,
    shard: usize,
    shard_count: usize,
    compact_after_bytes: u64,
}

impl Worker {
    pub closed spec fn held(&self) -> Store {
        self.store
    }

    pub closed spec fn number(&self) -> usize {
        self.shard
    }

    pub closed spec fn count(&self) -> usize {
        self.shard_count
    }

    /// From how many bytes of the log on this owner asks for compaction; zero is
    /// never.
    pub closed spec fn threshold(&self) -> u64 {
        self.compact_after_bytes
    }

    pub closed spec fn wf(&self) -> bool {
        self.store.wf()
    }

    /// Compacting alone is for the only owner; with several shards the whole
    /// snapshot is coordinated.
    pub fn with_aof(self, compact_after_bytes: u64) -> (result: Self)
        requires
            self.wf(),
        ensures
            result.wf(),
            result.held() == self.held(),
            result.number() == self.number(),
            result.count() == self.count(),
            result.threshold() == if self.count() == 1 {
                compact_after_bytes
            } else {
                0
            },
    {
        Worker {
            store: self.store,
            shard: self.shard,
            shard_count: self.shard_count,
            compact_after_bytes: if self.shard_count == 1 {
                compact_after_bytes
            } else {
                0
            },
        }
    }

    /// Whether this owner asks for compaction now.
    pub fn compaction_due(&self, log_bytes: u64, compacting: bool) -> (result: bool)
        ensures
            result == (self.threshold() != 0 && !compacting && log_bytes >= self.threshold()),
    {
        self.compact_after_bytes != 0 && !compacting && log_bytes >= self.compact_after_bytes
    }

    pub fn store(&self) -> (result: &Store)
        requires
            self.wf(),
        ensures
            *result == self.held(),
            result.wf(),
    {
        &self.store
    }

    /// Puts another store in place, as a received snapshot asks for.
    pub fn replace(&mut self, store: Store)
        requires
            old(self).wf(),
            store.wf(),
        ensures
            final(self).wf(),
            final(self).held() == store,
            final(self).number() == old(self).number(),
            final(self).count() == old(self).count(),
            final(self).threshold() == old(self).threshold(),
    {
        self.store = store;
    }

    fn release(&mut self, tokens: Vec<WatchToken>)
        requires
            old(self).wf(),
        ensures
            final(self).wf(),
            final(self).number() == old(self).number(),
            final(self).count() == old(self).count(),
            final(self).threshold() == old(self).threshold(),
            final(self).held().data() == old(self).held().data(),
            final(self).held().watched() == released_all(old(self).held().watched(), tokens@),
            final(self).held().next_watch() == old(self).held().next_watch(),
            final(self).held().version() == old(self).held().version(),
            final(self).held().outside() == old(self).held().outside(),
    {
        let ghost all = tokens@;
        let ghost start = *self;
        let mut left = tokens;
        assert(all.take(all.len() as int) =~= all);
        while left.len() > 0
            invariant
                self.wf(),
                self.shard == start.shard,
                self.shard_count == start.shard_count,
                self.compact_after_bytes == start.compact_after_bytes,
                self.store.data() == start.store.data(),
                self.store.next_watch() == start.store.next_watch(),
                self.store.outside() == start.store.outside(),
                self.store.version() == start.store.version(),
                released_all(self.store.watched(), left@) == released_all(
                    start.store.watched(),
                    all,
                ),
            decreases left@.len(),
        {
            let ghost before = left@;
            if let Some(token) = left.pop() {
                assert(before.drop_last() =~= left@);
                self.store.unwatch(token);
            }
        }
    }

    /// Gives observations back.
    pub fn unwatch(&mut self, tokens: Vec<WatchToken>)
        requires
            old(self).wf(),
        ensures
            final(self).wf(),
            final(self).number() == old(self).number(),
            final(self).count() == old(self).count(),
            final(self).threshold() == old(self).threshold(),
            final(self).held().data() == old(self).held().data(),
            final(self).held().watched() == released_all(old(self).held().watched(), tokens@),
            final(self).held().next_watch() == old(self).held().next_watch(),
            final(self).held().version() == old(self).held().version(),
            final(self).held().outside() == old(self).held().outside(),
    {
        self.release(tokens);
    }

    /// Resolves a request without changing data. A replica refuses writes. A
    /// transaction gives its observations back, and does nothing where one of
    /// them changed.
    pub fn accept(&mut self, request: Request, readonly: bool, moment: Moment) -> (result: Accepted)
        requires
            old(self).wf(),
        ensures
            final(self).wf(),
            final(self).number() == old(self).number(),
            final(self).count() == old(self).count(),
            final(self).threshold() == old(self).threshold(),
            final(self).held().outside() == old(self).held().outside(),
            accepted(old(self).held(), request, readonly, moment, result, final(self).held()),
    {
        match request {
            Request::Execute { command } => {
                if readonly && command.writes_dataset() {
                    return Accepted::Answer(Reply::Error(ExecutionError::ReadOnly));
                }
                Accepted::Commit(
                    Pending { prepared: self.store.prepare(command, moment), observe: None },
                )
            },
            Request::Batch { commands, watched } => {
                if readonly && any_write(&commands) {
                    self.release(watched);
                    return Accepted::Answer(Reply::Error(ExecutionError::ReadOnly));
                }
                let valid = self.store.watches_valid(watched.as_slice(), moment.now);
                self.release(watched);
                if !valid {
                    return Accepted::Answer(Reply::NullArray);
                }
                Accepted::Commit(
                    Pending { prepared: self.store.prepare_batch(commands, moment), observe: None },
                )
            },
            Request::Watch { keys } => {
                let copies = copy_keys(&keys);
                let prepared = self.store.prepare(Command::Exists { keys: copies }, moment);
                assert(tells(
                    prepared,
                    old(self).held().data(),
                    Command::Exists { keys: copies },
                    moment,
                ));
                Accepted::Commit(Pending { prepared, observe: Some(keys) })
            },
        }
    }

    /// Whether a result still fits the store that it was prepared for.
    pub fn is_current(&self, pending: &Pending) -> (result: bool)
        ensures
            result == (pending.prepared.version() == self.held().version()),
    {
        pending.prepared.is_current(&self.store)
    }

    /// Applies a result that the log recorded. A replica only answers. Where the
    /// log refused the record or failed, nothing changes.
    pub fn complete(&mut self, pending: Pending, readonly: bool, written: Written) -> (result: Result<
        (Reply, Vec<WatchToken>),
        DbError,
    >)
        requires
            old(self).wf(),
            pending.prepared.suits(&old(self).held()),
        ensures
            final(self).wf(),
            final(self).number() == old(self).number(),
            final(self).count() == old(self).count(),
            final(self).threshold() == old(self).threshold(),
            final(self).held().outside() == old(self).held().outside(),
            completed(old(self).held(), pending, readonly, written, result, final(self).held()),
    {
        let Pending { prepared, observe } = pending;
        let reply = if readonly {
            prepared.reply
        } else {
            match written {
                Written::Recorded => self.store.apply(prepared),
                Written::TooLong => Reply::Error(ExecutionError::AofRecordLimit),
                Written::Failed => return Err(DbError::Unavailable),
            }
        };
        match observe {
            None => {
                let none: Vec<WatchToken> = Vec::new();
                assert(none@ =~= Seq::empty());
                Ok((reply, none))
            },
            Some(keys) => {
                if let Reply::Error(_) = reply {
                    let none: Vec<WatchToken> = Vec::new();
                    assert(none@ =~= Seq::empty());
                    return Ok((reply, none));
                }
                let tokens = self.store.watch(keys);
                Ok((Reply::Okay, tokens))
            },
        }
    }

    /// A batch of upkeep: entries that have ended, at most this many.
    pub fn expire(&self, budget: usize, now: u128) -> (pending: Pending)
        requires
            self.wf(),
        ensures
            pending.observe is None,
            pending.prepared.suits(&self.held()),
            pending.prepared.batch.origin == MutationOrigin::Expiration,
            pending.prepared.reply.model() == ReplyModel::Integer(
                pending.prepared.changes().len() as i64,
            ),
            mutation::expiring(self.held().data(), pending.prepared.changes(), budget, now),
    {
        Pending { prepared: self.store.prepare_expiration(budget, now), observe: None }
    }

    /// Resolves a batch that another server recorded.
    pub fn prepare_replica(&self, batch: &ResolvedBatch, moment: Moment) -> (result: Result<
        Pending,
        ReplayError,
    >)
        requires
            self.wf(),
            mutation::all_sound(batch.mutations@),
        ensures
            match (
                result,
                mutation::replay_outcome(
                    self.held().data(),
                    mutation::mutation_models(batch.mutations@),
                    moment,
                ),
            ) {
                (Ok(pending), Ok(changes)) => {
                    &&& pending.observe is None
                    &&& pending.prepared.suits(&self.held())
                    &&& pending.prepared.changes() == changes
                    &&& pending.prepared.batch.origin == batch.origin
                    &&& pending.prepared.reply.model() == ReplyModel::Okay
                },
                (Err(error), Err(fault)) => error == fault,
                _ => false,
            },
    {
        match self.store.prepare_replay(batch.mutations.as_slice(), batch.origin, moment) {
            Err(error) => Err(error),
            Ok(prepared) => Ok(Pending { prepared, observe: None }),
        }
    }
}

/// Whether a request was taken as it has to be: `before` and `after` are the store, and
/// the result is the answer, or what is to be recorded.
pub open spec fn accepted(
    before: Store,
    request: Request,
    readonly: bool,
    moment: Moment,
    result: Accepted,
    after: Store,
) -> bool {
    &&& after.data() == before.data()
    &&& after.next_watch() == before.next_watch()
    &&& after.version() == before.version()
    &&& after.watched() == match request {
        Request::Batch { watched, .. } => released_all(before.watched(), watched@),
        _ => before.watched(),
    }
    &&& result matches Accepted::Commit(pending) ==> pending.prepared.suits(&after)
    &&& match request {
        Request::Execute { command } => if readonly && command.is_write() {
            result matches Accepted::Answer(reply) && reply.model() == ReplyModel::Error(
                ExecutionError::ReadOnly,
            )
        } else {
            result matches Accepted::Commit(pending) && pending.observe is None && tells(
                pending.prepared,
                before.data(),
                command,
                moment,
            )
        },
        Request::Batch { commands, watched } => if readonly && some_write(commands@) {
            result matches Accepted::Answer(reply) && reply.model() == ReplyModel::Error(
                ExecutionError::ReadOnly,
            )
        } else if !unchanged(before.watched(), watched@, moment.now) {
            result matches Accepted::Answer(reply) && reply.model() == ReplyModel::NullArray
        } else {
            result matches Accepted::Commit(pending) && pending.observe is None && tells_all(
                pending.prepared,
                before.data(),
                commands@,
                moment,
            )
        },
        Request::Watch { keys } => {
            &&& result matches Accepted::Commit(pending)
            &&& pending.observe matches Some(observed)
            &&& crate::pubsub::contents(observed@) == crate::pubsub::contents(keys@)
            &&& exists|copies: Vec<Bytes>|
                crate::pubsub::contents(copies@) == crate::pubsub::contents(keys@)
                    && #[trigger] tells(
                    pending.prepared,
                    before.data(),
                    Command::Exists { keys: copies },
                    moment,
                )
        },
    }
}

/// Whether a request was brought to its end: `before` and `after` are the store,
/// and the result says what the client gets.
pub open spec fn completed(
    before: Store,
    pending: Pending,
    readonly: bool,
    written: Written,
    result: Result<(Reply, Vec<WatchToken>), DbError>,
    after: Store,
) -> bool {
    let applies = !readonly && written is Recorded;
    let data = if applies {
        changes::applied(before.data(), pending.prepared.changes())
    } else {
        before.data()
    };
    let watched = if applies {
        before.watched().remove_keys(changes::change_keys(pending.prepared.changes()).to_set())
    } else {
        before.watched()
    };
    let reply = if readonly || applies {
        pending.prepared.reply.model()
    } else {
        ReplyModel::Error(ExecutionError::AofRecordLimit)
    };
    &&& after.data() == data
    &&& after.version() == if applies {
        changes::later(
            before.version(),
            changes::moves(before.data(), pending.prepared.changes()),
        )
    } else {
        before.version()
    }
    &&& if !readonly && written is Failed {
        &&& result == Err::<(Reply, Vec<WatchToken>), DbError>(DbError::Unavailable)
        &&& after.watched() == watched
        &&& after.next_watch() == before.next_watch()
    } else {
        &&& result matches Ok((answer, tokens))
        &&& match pending.observe {
            Some(keys) if !(reply is Error) => {
                let (watches, next, ids) = watch::observed_all(
                    watched,
                    before.next_watch(),
                    keys@,
                );
                &&& answer.model() == ReplyModel::Okay
                &&& after.watched() == watches
                &&& after.next_watch() == next
                &&& tokens@.map_values(|token: WatchToken| token.id()) == ids
                &&& tokens@.len() == keys@.len()
                &&& forall|i: int|
                    0 <= i < tokens@.len() ==> store::observes(
                        data,
                        watches,
                        #[trigger] tokens@[i],
                        keys@[i],
                    )
            },
            _ => {
                &&& answer.model() == reply
                &&& tokens@ == Seq::<WatchToken>::empty()
                &&& after.watched() == watched
                &&& after.next_watch() == before.next_watch()
            },
        }
    }
}

fn any_write(commands: &Vec<Command>) -> (result: bool)
    ensures
        result == some_write(commands@),
{
    let mut index: usize = 0;
    while index < commands.len()
        invariant
            index <= commands@.len(),
            forall|i: int| 0 <= i < index ==> !(#[trigger] commands@[i]).is_write(),
        decreases commands@.len() - index,
    {
        if commands[index].writes_dataset() {
            return true;
        }
        index += 1;
    }
    false
}

fn copy_keys(keys: &Vec<Bytes>) -> (result: Vec<Bytes>)
    ensures
        crate::pubsub::contents(result@) == crate::pubsub::contents(keys@),
{
    let mut result: Vec<Bytes> = Vec::new();
    let mut index: usize = 0;
    while index < keys.len()
        invariant
            index <= keys@.len(),
            result@.len() == index,
            forall|i: int|
                0 <= i < index ==> buffer::bytes_content(#[trigger] result@[i])
                    == buffer::bytes_content(keys@[i]),
        decreases keys@.len() - index,
    {
        result.push(keys[index].clone());
        index += 1;
    }
    assert(crate::pubsub::contents(result@) =~= crate::pubsub::contents(keys@));
    result
}

/// What an outcome of the log means for a batch.
pub open spec fn written_as(outcome: Result<(), AofError>) -> Written {
    match outcome {
        Ok(_) => Written::Recorded,
        Err(AofError::Format(FormatError::Limit)) => Written::TooLong,
        Err(_) => Written::Failed,
    }
}

/// A record that is too long is refused and may be retried smaller; any other
/// failure stops the owner.
pub fn write_outcome(outcome: &Result<(), AofError>) -> (result: Written)
    ensures
        result == written_as(*outcome),
{
    match outcome {
        Ok(_) => Written::Recorded,
        Err(AofError::Format(FormatError::Limit)) => Written::TooLong,
        Err(_) => Written::Failed,
    }
}

/// Whether a failure to apply a received batch stops the owner.
pub fn replica_failure_is_fatal(error: &AofError) -> (result: bool)
    ensures
        result == !(*error is Sequence || *error == AofError::Format(FormatError::Limit)),
{
    match error {
        AofError::Sequence => false,
        AofError::Format(FormatError::Limit) => false,
        _ => true,
    }
}

pub const EXPIRATION_BUDGET: usize = 64;

/// The budget of the next round of upkeep: half of the last one where its record
/// was too long, and none otherwise.
pub fn next_budget(budget: usize, reply: &Reply) -> (result: Option<usize>)
    ensures
        result == if reply.model() == ReplyModel::Error(ExecutionError::AofRecordLimit) && budget
            > 1 {
            Some((budget / 2) as usize)
        } else {
            None::<usize>
        },
        result matches Some(smaller) ==> 0 < smaller < budget,
{
    match reply {
        Reply::Error(ExecutionError::AofRecordLimit) => if budget > 1 {
            Some(budget / 2)
        } else {
            None
        },
        _ => None,
    }
}

/// The shard that tokens and commands together select.
pub open spec fn batch_keys(watched: Seq<WatchToken>, commands: Seq<Command>) -> Seq<Bytes>
    decreases commands.len(),
{
    if commands.len() == 0 {
        watched.map_values(|token: WatchToken| token.observed())
    } else {
        batch_keys(watched, commands.drop_last()) + commands.last().key_seq()
    }
}

/// Only one shard may execute a transaction; one without keys goes to the first.
pub fn batch_shard(router: &ShardRouter, commands: &Vec<Command>, watched: &Vec<WatchToken>) -> (result:
    Result<usize, ExecutionError>)
    requires
        router.wf(),
    ensures
        ({
            let keys = batch_keys(watched@, commands@);
            let selected = routing::selection(keys, router.shards(), None);
            result == if routing::together(keys, router.shards(), selected) {
                Ok::<usize, ExecutionError>(
                    match selected {
                        Some(shard) => shard,
                        None => 0,
                    },
                )
            } else {
                Err::<usize, ExecutionError>(ExecutionError::CrossShard)
            }
        }),
{
    let ghost shards = router.shards();
    let ghost observed = watched@.map_values(|token: WatchToken| token.observed());
    let mut selected: Option<usize> = None;
    let mut index: usize = 0;
    assert(observed.take(0) =~= Seq::empty());
    while index < watched.len()
        invariant
            router.wf(),
            shards == router.shards(),
            observed == watched@.map_values(|token: WatchToken| token.observed()),
            index <= watched@.len(),
            selected == routing::selection(observed.take(index as int), shards, None),
            routing::together(observed.take(index as int), shards, selected),
        decreases watched@.len() - index,
    {
        let ghost before = selected;
        assert(observed[index as int] == watched@[index as int].observed());
        let outcome = router.select_key(as_slice(watched[index].key()), &mut selected);
        proof {
            lemma_joined(
                observed.take(index as int),
                seq![observed[index as int]],
                observed.skip(index + 1),
                shards,
            );
            assert(observed.take(index as int) + seq![observed[index as int]] =~= observed.take(
                index + 1,
            ));
            assert(observed.take(index + 1) + observed.skip(index + 1) =~= observed);
            router.lemma_bounds();
            assert(seq![observed[index as int]][0] == observed[index as int]);
        }
        match outcome {
            Err(error) => {
                proof {
                    lemma_batch_prefix(watched@, commands@, 0);
                    let keys = batch_keys(watched@, commands@);
                    assert(keys.take(observed.len() as int) =~= observed);
                    lemma_apart(
                        observed.take(index as int),
                        observed[index as int],
                        keys.skip(index + 1),
                        shards,
                    );
                    assert(observed.take(index as int).push(observed[index as int]) + keys.skip(
                        index + 1,
                    ) =~= keys);
                }
                return Err(error);
            },
            Ok(_) => {},
        }
        index += 1;
    }
    assert(observed.take(index as int) =~= observed);
    assert(commands@.take(0) =~= Seq::empty());
    let mut next: usize = 0;
    while next < commands.len()
        invariant
            router.wf(),
            shards == router.shards(),
            next <= commands@.len(),
            selected == routing::selection(
                batch_keys(watched@, commands@.take(next as int)),
                shards,
                None,
            ),
            routing::together(batch_keys(watched@, commands@.take(next as int)), shards, selected),
        decreases commands@.len() - next,
    {
        let ghost part = batch_keys(watched@, commands@.take(next as int));
        let ghost added = commands@[next as int].key_seq();
        proof {
            assert(commands@.take(next + 1).drop_last() =~= commands@.take(next as int));
            lemma_joined(part, added, Seq::empty(), shards);
        }
        match router.select_command(&commands[next], &mut selected) {
            Err(error) => {
                proof {
                    lemma_batch_prefix(watched@, commands@, next + 1);
                    let keys = batch_keys(watched@, commands@);
                    let more = batch_keys(watched@, commands@.take(next + 1));
                    lemma_joined(more, keys.skip(more.len() as int), Seq::empty(), shards);
                    assert(more + keys.skip(more.len() as int) =~= keys);
                }
                return Err(error);
            },
            Ok(_) => {},
        }
        next += 1;
    }
    assert(commands@.take(next as int) =~= commands@);
    match selected {
        Some(shard) => Ok(shard),
        None => Ok(0),
    }
}

/// The keys of fewer commands come first.
proof fn lemma_batch_prefix(watched: Seq<WatchToken>, commands: Seq<Command>, count: int)
    requires
        0 <= count <= commands.len(),
    ensures
        ({
            let part = batch_keys(watched, commands.take(count));
            let all = batch_keys(watched, commands);
            part.len() <= all.len() && all.take(part.len() as int) == part
        }),
    decreases commands.len() - count,
{
    let part = batch_keys(watched, commands.take(count));
    let all = batch_keys(watched, commands);
    if count < commands.len() {
        lemma_batch_prefix(watched, commands, count + 1);
        let more = batch_keys(watched, commands.take(count + 1));
        assert(commands.take(count + 1).drop_last() =~= commands.take(count));
        assert(more.take(part.len() as int) =~= part);
        assert(all.take(part.len() as int) =~= all.take(more.len() as int).take(
            part.len() as int,
        ));
    } else {
        assert(commands.take(count) =~= commands);
        assert(all.take(part.len() as int) =~= part);
    }
}

/// What two runs of keys select together.
proof fn lemma_joined(first: Seq<Bytes>, second: Seq<Bytes>, rest: Seq<Bytes>, shards: int)
    ensures
        ({
            let both = first + second;
            let selected = routing::selection(first, shards, None);
            &&& routing::selection(both, shards, None) == routing::selection(
                second,
                shards,
                selected,
            )
            &&& routing::together(both, shards, routing::selection(both, shards, None)) == (
            routing::together(first, shards, selected) && routing::together(
                second,
                shards,
                routing::selection(second, shards, selected),
            ))
        }),
{
    let both = first + second;
    let selected = routing::selection(first, shards, None);
    let whole = routing::selection(both, shards, None);
    if first.len() > 0 {
        assert(both[0] == first[0]);
    } else if second.len() > 0 {
        assert(both[0] == second[0]);
    }
    if routing::together(both, shards, whole) {
        assert forall|i: int| 0 <= i < first.len() implies selected == Some(
            routing::shard_of(buffer::bytes_content(#[trigger] first[i]), shards) as usize,
        ) by {
            assert(both[i] == first[i]);
        }
        assert forall|i: int| 0 <= i < second.len() implies whole == Some(
            routing::shard_of(buffer::bytes_content(#[trigger] second[i]), shards) as usize,
        ) by {
            assert(both[first.len() + i] == second[i]);
        }
    }
    if routing::together(first, shards, selected) && routing::together(
        second,
        shards,
        routing::selection(second, shards, selected),
    ) {
        assert forall|i: int| 0 <= i < both.len() implies whole == Some(
            routing::shard_of(buffer::bytes_content(#[trigger] both[i]), shards) as usize,
        ) by {
            if i < first.len() {
                assert(both[i] == first[i]);
            } else {
                assert(both[i] == second[i - first.len()]);
            }
        }
    }
}

/// A key on another shard keeps the whole run apart.
proof fn lemma_apart(first: Seq<Bytes>, key: Bytes, rest: Seq<Bytes>, shards: int)
    requires
        ({
            let selected = routing::selection(first, shards, None);
            selected is Some && selected != Some(
                routing::shard_of(buffer::bytes_content(key), shards) as usize,
            )
        }),
        first.len() > 0,
    ensures
        ({
            let keys = first.push(key) + rest;
            !routing::together(keys, shards, routing::selection(keys, shards, None))
        }),
{
    let keys = first.push(key) + rest;
    assert(keys[0] == first[0]);
    assert(keys[first.len() as int] == key);
}

} // verus!
