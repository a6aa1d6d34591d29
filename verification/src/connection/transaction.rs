//! Queue and observations belong to the connection; a queued command touches no
//! data.

use crate::buffer::{as_slice, from_text, length};
use crate::command::reply::{ExecutionError, Reply, ReplyModel};
use crate::command::types::Command;
use crate::numbers::decimal_text;
use crate::ordered::ByteMap;
use crate::resp::frame::{Frame, FrameModel};
use crate::storage::routing::ShardRouter;
use crate::storage::watch::WatchToken;
use crate::buffer;
use crate::command::reply;
use crate::numbers;
use crate::ordered;
use crate::resp::frame;
use crate::resp::laws;
use crate::storage::routing;
use bytes::Bytes;
use vstd::prelude::*;
use vstd::string::*;

verus! {

/// What a connection may keep between MULTI and EXEC, and observe.
#[derive(Clone, Copy, Debug, PartialEq, Eq, Structural)]
pub struct TransactionLimits {
    pub max_commands: usize,
    pub max_bytes: usize,
    pub max_watched: usize,
}

/// What the connection does next with a command.
pub enum Action {
    /// The command is executed now.
    Execute(Command),
    /// The answer is known. Observations that are no longer needed are given
    /// back.
    Reply { frame: Frame, released: Vec<WatchToken> },
    /// The queue is executed as one batch, unless an observed key changed.
    Exec { commands: Vec<Command>, watched: Vec<WatchToken> },
    /// The keys are observed by their owner, which answers
    /// [`Transaction::watching`].
    Watch { keys: Vec<Bytes>, shard: Option<usize> },
}

/// An action by content.
#[verifier::ext_equal]
pub enum ActionModel {
    Execute(Command),
    Reply { frame: FrameModel, released: Seq<WatchToken> },
    Exec { commands: Seq<Command>, watched: Seq<WatchToken> },
    Watch { keys: Seq<Seq<u8>>, shard: Option<usize> },
}

impl Action {
    pub open spec fn model(self) -> ActionModel {
        match self {
            Action::Execute(command) => ActionModel::Execute(command),
            Action::Reply { frame, released } => ActionModel::Reply {
                frame: frame.model(),
                released: released@,
            },
            Action::Exec { commands, watched } => ActionModel::Exec {
                commands: commands@,
                watched: watched@,
            },
            Action::Watch { keys, shard } => ActionModel::Watch {
                keys: crate::pubsub::contents(keys@),
                shard,
            },
        }
    }
}

struct Queue {
    commands: Vec<Command>,
    bytes: usize,
    shard: Option<usize>,
    dirty: bool,
}

/// The queue by content.
#[verifier::ext_equal]
pub struct QueueModel {
    pub commands: Seq<Command>,
    pub bytes: usize,
    pub shard: Option<usize>,
    /// A queued command was refused; EXEC will be too.
    pub dirty: bool,
}

/// Queue and observations of one connection.
pub struct Transaction {
    queue: Option<Queue>,
    watched: ByteMap<WatchToken>,
    watch_shard: Option<usize>,
}

/// Queue and observations by content.
#[verifier::ext_equal]
pub struct TransactionModel {
    pub queue: Option<QueueModel>,
    pub watched: Map<Seq<u8>, WatchToken>,
    pub watch_shard: Option<usize>,
}

/// The observations, in the order of their keys.
pub open spec fn tokens_of(watched: Map<Seq<u8>, WatchToken>) -> Seq<WatchToken> {
    ordered::listing(watched.dom()).map_values(|key: Seq<u8>| watched[key])
}

pub open spec fn refused(text: &'static str) -> ActionModel {
    ActionModel::Reply { frame: FrameModel::Error(text.spec_bytes()), released: Seq::empty() }
}

pub open spec fn said(text: &'static str) -> ActionModel {
    ActionModel::Reply { frame: FrameModel::Simple(text.spec_bytes()), released: Seq::empty() }
}

/// The state without queue contents, after a queued command was refused.
pub open spec fn poisoned(state: TransactionModel) -> TransactionModel {
    match state.queue {
        None => state,
        Some(queue) => TransactionModel {
            queue: Some(
                QueueModel { commands: Seq::empty(), bytes: 0, dirty: true, ..queue },
            ),
            ..state
        },
    }
}

/// The state without observations.
pub open spec fn unobserved(state: TransactionModel) -> TransactionModel {
    TransactionModel { watched: Map::empty(), watch_shard: None, ..state }
}

/// The keys that are not observed yet.
pub open spec fn unwatched(state: TransactionModel, keys: Seq<Bytes>) -> Set<Seq<u8>> {
    crate::pubsub::listed(keys).difference(state.watched.dom())
}

/// The shard that keys select, given what was selected before.
pub open spec fn chosen(keys: Seq<Seq<u8>>, count: int, before: Option<usize>) -> Option<usize> {
    match before {
        Some(shard) => Some(shard),
        None => if keys.len() == 0 {
            None
        } else {
            Some(routing::shard_of(keys[0], count) as usize)
        },
    }
}

/// Whether all keys lie on that shard.
pub open spec fn gathered(keys: Seq<Seq<u8>>, count: int, before: Option<usize>) -> bool {
    forall|i: int|
        0 <= i < keys.len() ==> chosen(keys, count, before) == Some(
            routing::shard_of(#[trigger] keys[i], count) as usize,
        )
}

/// WATCH outside a queue.
pub open spec fn watch_step(
    state: TransactionModel,
    keys: Seq<Bytes>,
    limits: TransactionLimits,
    shards: int,
) -> ActionModel {
    let fresh = ordered::listing(unwatched(state, keys));
    if fresh.len() + state.watched.dom().len() > limits.max_watched {
        refused("ERR WATCH key limit exceeded")
    } else if !gathered(fresh, shards, state.watch_shard) {
        ActionModel::Reply {
            frame: FrameModel::Error(reply::error_text(ExecutionError::CrossShard)),
            released: Seq::empty(),
        }
    } else if fresh.len() == 0 {
        said("OK")
    } else {
        ActionModel::Watch { keys: fresh, shard: chosen(fresh, shards, state.watch_shard) }
    }
}

/// A command that is queued, or executed where there is no queue.
pub open spec fn queue_step(
    state: TransactionModel,
    command: Command,
    bytes: usize,
    limits: TransactionLimits,
    shards: int,
) -> (TransactionModel, ActionModel) {
    match state.queue {
        None => (state, ActionModel::Execute(command)),
        Some(queue) => {
            let shard = routing::selection(command.key_seq(), shards, queue.shard);
            if queue.dirty {
                (state, said("QUEUED"))
            } else if !routing::together(command.key_seq(), shards, shard) {
                (
                    poisoned(state),
                    ActionModel::Reply {
                        frame: FrameModel::Error(reply::error_text(ExecutionError::CrossShard)),
                        released: Seq::empty(),
                    },
                )
            } else if queue.commands.len() >= limits.max_commands || queue.bytes + bytes
                > limits.max_bytes {
                (poisoned(state), refused("ERR transaction queue limit exceeded"))
            } else {
                (
                    TransactionModel {
                        queue: Some(
                            QueueModel {
                                commands: queue.commands.push(command),
                                bytes: (queue.bytes + bytes) as usize,
                                shard,
                                dirty: false,
                            },
                        ),
                        ..state
                    },
                    said("QUEUED"),
                )
            }
        },
    }
}

/// What a command does to queue and observations, and what comes next.
pub open spec fn handled(
    state: TransactionModel,
    command: Command,
    bytes: usize,
    limits: TransactionLimits,
    shards: int,
    readonly: bool,
    subscribed: bool,
) -> (TransactionModel, ActionModel) {
    if subscribed {
        (state, ActionModel::Execute(command))
    } else if readonly && command.is_write() {
        (
            poisoned(state),
            ActionModel::Reply {
                frame: FrameModel::Error(reply::error_text(ExecutionError::ReadOnly)),
                released: Seq::empty(),
            },
        )
    } else {
        match command {
            Command::Multi => if state.queue is Some {
                (state, refused("ERR MULTI calls can not be nested"))
            } else {
                (
                    TransactionModel {
                        queue: Some(
                            QueueModel {
                                commands: Seq::empty(),
                                bytes: 0,
                                shard: state.watch_shard,
                                dirty: false,
                            },
                        ),
                        ..state
                    },
                    said("OK"),
                )
            },
            Command::Discard => if state.queue is None {
                (state, refused("ERR DISCARD without MULTI"))
            } else {
                (
                    unobserved(TransactionModel { queue: None, ..state }),
                    ActionModel::Reply {
                        frame: FrameModel::Simple("OK".spec_bytes()),
                        released: tokens_of(state.watched),
                    },
                )
            },
            Command::Exec => match state.queue {
                None => (state, refused("ERR EXEC without MULTI")),
                Some(queue) => (
                    unobserved(TransactionModel { queue: None, ..state }),
                    if queue.dirty {
                        ActionModel::Reply {
                            frame: FrameModel::Error(
                                "EXECABORT Transaction discarded because of previous errors.".spec_bytes(),
                            ),
                            released: tokens_of(state.watched),
                        }
                    } else {
                        ActionModel::Exec {
                            commands: queue.commands,
                            watched: tokens_of(state.watched),
                        }
                    },
                ),
            },
            Command::Watch { keys } => if state.queue is Some {
                (state, refused("ERR WATCH inside MULTI is not allowed"))
            } else {
                (state, watch_step(state, keys@, limits, shards))
            },
            Command::Unwatch => if state.queue is None {
                (
                    unobserved(state),
                    ActionModel::Reply {
                        frame: FrameModel::Simple("OK".spec_bytes()),
                        released: tokens_of(state.watched),
                    },
                )
            } else {
                queue_step(state, command, bytes, limits, shards)
            },
            _ => queue_step(state, command, bytes, limits, shards),
        }
    }
}

/// The observations after tokens were added.
pub open spec fn with_tokens(
    watched: Map<Seq<u8>, WatchToken>,
    tokens: Seq<WatchToken>,
) -> Map<Seq<u8>, WatchToken>
    decreases tokens.len(),
{
    if tokens.len() == 0 {
        watched
    } else {
        with_tokens(watched, tokens.drop_last()).insert(
            buffer::bytes_content(tokens.last().observed()),
            tokens.last(),
        )
    }
}

/// What the answer of the owner to WATCH does to the observations, and what the connection
/// answers.
pub open spec fn watched_step(
    state: TransactionModel,
    shard: Option<usize>,
    reply: ReplyModel,
    tokens: Seq<WatchToken>,
) -> (TransactionModel, FrameModel) {
    if reply is Error {
        (state, reply::frame_of(reply))
    } else {
        (
            TransactionModel {
                watched: with_tokens(state.watched, tokens),
                watch_shard: shard,
                ..state
            },
            FrameModel::Simple("OK".spec_bytes()),
        )
    }
}

fn fail(text: &'static str) -> (result: Action)
    ensures
        result.model() == refused(text),
{
    let result = Action::Reply { frame: Frame::Error(from_text(text)), released: Vec::new() };
    assert(result.model() =~= refused(text));
    result
}

fn fail_with(error: ExecutionError) -> (result: Action)
    ensures
        result.model() == (ActionModel::Reply {
            frame: FrameModel::Error(reply::error_text(error)),
            released: Seq::empty(),
        }),
{
    let result = Action::Reply { frame: Frame::Error(error.message()), released: Vec::new() };
    assert(result.model() =~= ActionModel::Reply {
        frame: FrameModel::Error(reply::error_text(error)),
        released: Seq::empty(),
    });
    result
}

fn say(text: &'static str) -> (result: Action)
    ensures
        result.model() == said(text),
{
    let result = Action::Reply { frame: Frame::Simple(from_text(text)), released: Vec::new() };
    assert(result.model() =~= said(text));
    result
}

/// The values of a map, in the order of their keys.
fn into_tokens(watched: ByteMap<WatchToken>) -> (tokens: Vec<WatchToken>)
    requires
        watched.wf(),
    ensures
        tokens@ == tokens_of(watched@),
{
    let ghost items = watched.items@;
    let mut left = watched.items;
    let mut backwards: Vec<WatchToken> = Vec::new();
    while left.len() > 0
        invariant
            left@.len() + backwards@.len() == items.len(),
            left@ == items.take(left@.len() as int),
            forall|i: int|
                0 <= i < backwards@.len() ==> #[trigger] backwards@[i] == items[items.len() - 1
                    - i].1,
        decreases left@.len(),
    {
        if let Some((_, token)) = left.pop() {
            backwards.push(token);
        }
    }
    let mut tokens: Vec<WatchToken> = Vec::new();
    while backwards.len() > 0
        invariant
            tokens@.len() + backwards@.len() == items.len(),
            forall|i: int|
                0 <= i < backwards@.len() ==> #[trigger] backwards@[i] == items[items.len() - 1
                    - i].1,
            forall|i: int| 0 <= i < tokens@.len() ==> #[trigger] tokens@[i] == items[i].1,
        decreases backwards@.len(),
    {
        if let Some(token) = backwards.pop() {
            tokens.push(token);
        }
    }
    proof {
        watched.lemma_keys();
        assert forall|i: int| 0 <= i < items.len() implies watched@[watched.keys()[i]]
            == #[trigger] items[i].1 by {
            watched.lemma_at(i);
        }
        assert(tokens@ =~= tokens_of(watched@));
    }
    tokens
}

/// The keys of a set with the shard that they select.
fn gather(fresh: &ByteMap<()>, router: &ShardRouter, shard: &mut Option<usize>) -> (result: Result<
    Vec<Bytes>,
    ExecutionError,
>)
    requires
        fresh.wf(),
        router.wf(),
    ensures
        match result {
            Ok(keys) => {
                &&& gathered(fresh.keys(), router.shards(), *old(shard))
                &&& crate::pubsub::contents(keys@) == fresh.keys()
                &&& *final(shard) == chosen(fresh.keys(), router.shards(), *old(shard))
            },
            Err(error) => {
                &&& !gathered(fresh.keys(), router.shards(), *old(shard))
                &&& error == ExecutionError::CrossShard
            },
        },
{
    let ghost before = *shard;
    let ghost names = fresh.keys();
    let ghost count = router.shards();
    let mut keys: Vec<Bytes> = Vec::new();
    let mut index: usize = 0;
    while index < fresh.items.len()
        invariant
            router.wf(),
            count == router.shards(),
            names == fresh.keys(),
            before == *old(shard),
            index <= fresh.items@.len(),
            keys@.len() == index,
            forall|i: int|
                0 <= i < index ==> buffer::bytes_content(#[trigger] keys@[i]) == names[i],
            index == 0 ==> *shard == before,
            index > 0 ==> *shard == chosen(names, count, before),
            forall|i: int|
                0 <= i < index ==> *shard == Some(
                    routing::shard_of(#[trigger] names[i], count) as usize,
                ),
        decreases fresh.items@.len() - index,
    {
        let key = &fresh.items[index].0;
        assert(names[index as int] == buffer::bytes_content(*key));
        match router.select_key(as_slice(key), shard) {
            Err(error) => {
                proof {
                    router.lemma_bounds();
                    assert(0 <= routing::shard_of(names[index as int], count) < count);
                    assert(chosen(names, count, before) == *shard);
                }
                return Err(error);
            },
            Ok(_) => {},
        }
        keys.push(key.clone());
        index += 1;
    }
    assert(crate::pubsub::contents(keys@) =~= names);
    Ok(keys)
}

impl Transaction {
    pub closed spec fn model(&self) -> TransactionModel {
        TransactionModel {
            queue: match self.queue {
                None => None,
                Some(queue) => Some(
                    QueueModel {
                        commands: queue.commands@,
                        bytes: queue.bytes,
                        shard: queue.shard,
                        dirty: queue.dirty,
                    },
                ),
            },
            watched: self.watched@,
            watch_shard: self.watch_shard,
        }
    }

    pub closed spec fn wf(&self) -> bool {
        self.watched.wf()
    }

    pub fn new() -> (result: Self)
        ensures
            result.wf(),
            result.model() == (TransactionModel {
                queue: None,
                watched: Map::empty(),
                watch_shard: None,
            }),
    {
        Transaction { queue: None, watched: ByteMap::new(), watch_shard: None }
    }

    /// A queued command was refused: nothing of the queue will be executed.
    pub fn poison(&mut self)
        requires
            old(self).wf(),
        ensures
            final(self).wf(),
            final(self).model() == poisoned(old(self).model()),
    {
        if let Some(queue) = self.queue.take() {
            self.queue = Some(
                Queue { commands: Vec::new(), bytes: 0, shard: queue.shard, dirty: true },
            );
            assert(self.model().queue->Some_0.commands =~= Seq::empty());
        }
    }

    fn take_tokens(&mut self) -> (tokens: Vec<WatchToken>)
        requires
            old(self).wf(),
        ensures
            final(self).wf(),
            final(self).model() == unobserved(old(self).model()),
            tokens@ == tokens_of(old(self).model().watched),
    {
        let mut watched: ByteMap<WatchToken> = ByteMap::new();
        std::mem::swap(&mut watched, &mut self.watched);
        self.watch_shard = None;
        into_tokens(watched)
    }

    /// The keys that are not observed yet, in their order.
    fn fresh_keys(&self, keys: &Vec<Bytes>) -> (fresh: ByteMap<()>)
        requires
            self.wf(),
        ensures
            fresh.wf(),
            fresh@.dom() == unwatched(self.model(), keys@),
    {
        let mut fresh: ByteMap<()> = ByteMap::new();
        let mut index: usize = 0;
        assert(fresh@.dom() =~= unwatched(self.model(), keys@.take(0)));
        while index < keys.len()
            invariant
                self.wf(),
                fresh.wf(),
                index <= keys@.len(),
                fresh@.dom() == unwatched(self.model(), keys@.take(index as int)),
            decreases keys@.len() - index,
        {
            let ghost known = fresh@.dom();
            let watched = self.watched.contains(as_slice(&keys[index]));
            if !watched {
                let _ = fresh.insert(keys[index].clone(), ());
            }
            proof {
                let part = keys@.take(index as int);
                let more = keys@.take(index + 1);
                let key = buffer::bytes_content(keys@[index as int]);
                assert forall|other: Seq<u8>| crate::pubsub::listed(more).contains(other) <==> (
                crate::pubsub::listed(part).contains(other) || other == key) by {
                    if crate::pubsub::listed(part).contains(other) {
                        let i = choose|i: int|
                            0 <= i < part.len() && buffer::bytes_content(#[trigger] part[i])
                                == other;
                        assert(more[i] == part[i]);
                    }
                    if other == key {
                        assert(more[index as int] == keys@[index as int]);
                    }
                    if crate::pubsub::listed(more).contains(other) {
                        let i = choose|i: int|
                            0 <= i < more.len() && buffer::bytes_content(#[trigger] more[i])
                                == other;
                        if i < index {
                            assert(part[i] == more[i]);
                        }
                    }
                }
                assert(fresh@.dom() =~= unwatched(self.model(), more));
            }
            index += 1;
        }
        assert(keys@.take(index as int) =~= keys@);
        fresh
    }

    fn watch(&self, keys: Vec<Bytes>, limits: TransactionLimits, router: &ShardRouter) -> (result:
        Action)
        requires
            self.wf(),
            router.wf(),
        ensures
            result.model() == watch_step(self.model(), keys@, limits, router.shards()),
    {
        let fresh = self.fresh_keys(&keys);
        proof {
            fresh.lemma_keys();
            self.watched.lemma_keys();
        }
        let ghost names = fresh.keys();
        let count: usize = fresh.len();
        if count > limits.max_watched || self.watched.len() > limits.max_watched - count {
            return fail("ERR WATCH key limit exceeded");
        }
        let mut shard = self.watch_shard;
        let wanted = match gather(&fresh, router, &mut shard) {
            Err(error) => return fail_with(error),
            Ok(wanted) => wanted,
        };
        assert(crate::pubsub::contents(wanted@).len() == wanted@.len());
        if wanted.len() == 0 {
            return say("OK");
        }
        let result = Action::Watch { keys: wanted, shard };
        assert(result.model() =~= watch_step(self.model(), keys@, limits, router.shards()));
        result
    }

    fn enqueue(
        &mut self,
        command: Command,
        bytes: usize,
        limits: TransactionLimits,
        router: &ShardRouter,
    ) -> (result: Action)
        requires
            old(self).wf(),
            router.wf(),
        ensures
            final(self).wf(),
            (final(self).model(), result.model()) == queue_step(
                old(self).model(),
                command,
                bytes,
                limits,
                router.shards(),
            ),
    {
        let ghost before = self.model();
        match self.queue.take() {
            None => {
                assert(self.model() =~= before);
                Action::Execute(command)
            },
            Some(queue) => {
                let mut queue = queue;
                if queue.dirty {
                    self.queue = Some(queue);
                    assert(self.model() =~= before);
                    return say("QUEUED");
                }
                let mut shard = queue.shard;
                if let Err(error) = router.select_command(&command, &mut shard) {
                    self.queue = Some(queue);
                    assert(self.model() =~= before);
                    self.poison();
                    return fail_with(error);
                }
                if queue.commands.len() >= limits.max_commands || bytes > limits.max_bytes
                    || queue.bytes > limits.max_bytes - bytes {
                    self.queue = Some(queue);
                    assert(self.model() =~= before);
                    self.poison();
                    return fail("ERR transaction queue limit exceeded");
                }
                queue.shard = shard;
                queue.bytes = queue.bytes + bytes;
                queue.commands.push(command);
                self.queue = Some(queue);
                assert(self.model() =~= queue_step(
                    before,
                    command,
                    bytes,
                    limits,
                    router.shards(),
                ).0);
                say("QUEUED")
            },
        }
    }

    /// Queues a command, or says what to do with it now. In the mode of
    /// subscribers nothing is queued.
    pub fn handle(
        &mut self,
        command: Command,
        bytes: usize,
        limits: TransactionLimits,
        router: &ShardRouter,
        readonly: bool,
        subscribed: bool,
    ) -> (result: Action)
        requires
            old(self).wf(),
            router.wf(),
        ensures
            final(self).wf(),
            (final(self).model(), result.model()) == handled(
                old(self).model(),
                command,
                bytes,
                limits,
                router.shards(),
                readonly,
                subscribed,
            ),
    {
        let ghost before = self.model();
        if subscribed {
            return Action::Execute(command);
        }
        if readonly && command.writes_dataset() {
            self.poison();
            return fail_with(ExecutionError::ReadOnly);
        }
        match command {
            Command::Multi => {
                if self.queue.is_some() {
                    return fail("ERR MULTI calls can not be nested");
                }
                self.queue = Some(
                    Queue {
                        commands: Vec::new(),
                        bytes: 0,
                        shard: self.watch_shard,
                        dirty: false,
                    },
                );
                assert(self.model().queue->Some_0.commands =~= Seq::empty());
                say("OK")
            },
            Command::Discard => {
                if self.queue.is_none() {
                    return fail("ERR DISCARD without MULTI");
                }
                self.queue = None;
                let released = self.take_tokens();
                Action::Reply { frame: Frame::Simple(from_text("OK")), released }
            },
            Command::Exec => match self.queue.take() {
                None => {
                    assert(self.model() =~= before);
                    fail("ERR EXEC without MULTI")
                },
                Some(queue) => {
                    let watched = self.take_tokens();
                    if queue.dirty {
                        Action::Reply {
                            frame: Frame::Error(
                                from_text(
                                    "EXECABORT Transaction discarded because of previous errors.",
                                ),
                            ),
                            released: watched,
                        }
                    } else {
                        Action::Exec { commands: queue.commands, watched }
                    }
                },
            },
            Command::Watch { keys } => {
                if self.queue.is_some() {
                    return fail("ERR WATCH inside MULTI is not allowed");
                }
                self.watch(keys, limits, router)
            },
            Command::Unwatch => {
                if self.queue.is_some() {
                    return self.enqueue(Command::Unwatch, bytes, limits, router);
                }
                let released = self.take_tokens();
                Action::Reply { frame: Frame::Simple(from_text("OK")), released }
            },
            other => self.enqueue(other, bytes, limits, router),
        }
    }

    /// Keeps the observations that the owner of the keys made. Where it refused,
    /// its answer is passed on and nothing changes.
    pub fn watching(&mut self, shard: Option<usize>, reply: &Reply, tokens: Vec<WatchToken>) -> (result:
        Frame)
        requires
            old(self).wf(),
        ensures
            final(self).wf(),
            (final(self).model(), result.model()) == watched_step(
                old(self).model(),
                shard,
                reply.model(),
                tokens@,
            ),
    {
        if let Reply::Error(_) = reply {
            return reply.into_frame();
        }
        let ghost before = self.model();
        let ghost all = tokens@;
        let mut left = tokens;
        let mut backwards: Vec<WatchToken> = Vec::new();
        while left.len() > 0
            invariant
                left@.len() + backwards@.len() == all.len(),
                left@ == all.take(left@.len() as int),
                forall|i: int|
                    0 <= i < backwards@.len() ==> #[trigger] backwards@[i] == all[all.len() - 1
                        - i],
            decreases left@.len(),
        {
            if let Some(token) = left.pop() {
                backwards.push(token);
            }
        }
        assert(all.take(0) =~= Seq::empty());
        while backwards.len() > 0
            invariant
                self.wf(),
                backwards@.len() <= all.len(),
                forall|i: int|
                    0 <= i < backwards@.len() ==> #[trigger] backwards@[i] == all[all.len() - 1
                        - i],
                self.model() == (TransactionModel {
                    watched: with_tokens(
                        before.watched,
                        all.take(all.len() - backwards@.len()),
                    ),
                    ..before
                }),
            decreases backwards@.len(),
        {
            let ghost done = all.len() - backwards@.len();
            if let Some(token) = backwards.pop() {
                proof {
                    assert(token == all[done]);
                    assert(all.take(done + 1).drop_last() =~= all.take(done));
                    assert(all.take(done + 1).last() == token);
                }
                let key = token.key().clone();
                let _ = self.watched.insert(key, token);
            }
        }
        assert(all.take(all.len() as int) =~= all);
        self.watch_shard = shard;
        Frame::Simple(from_text("OK"))
    }
}

/// The encoded size of the bulk strings in a request, with their framing.
pub open spec fn bulks_size(values: Seq<FrameModel>) -> nat
    decreases values.len(),
{
    if values.len() == 0 {
        0
    } else {
        bulks_size(values.drop_last()) + match values.last() {
            FrameModel::Bulk(Some(data)) => data.len() + numbers::decimal(data.len()).len() + 5,
            _ => 0,
        }
    }
}

/// The encoded size of a request: an array of bulk strings.
pub open spec fn request_size(frame: FrameModel) -> nat {
    match frame {
        FrameModel::Array(Some(values)) => numbers::decimal(values.len()).len() + 3 + bulks_size(
            values,
        ),
        _ => 0,
    }
}

fn digits(value: usize) -> (result: usize)
    ensures
        result == numbers::decimal(value as nat).len(),
{
    decimal_text(value as u64).len()
}

fn plus(left: usize, right: usize) -> (result: usize)
    ensures
        result == capped(left + right),
{
    if left > usize::MAX - right {
        usize::MAX
    } else {
        left + right
    }
}

/// A size that counts no further than a `usize`.
pub open spec fn capped(size: int) -> usize {
    if size > usize::MAX {
        usize::MAX
    } else {
        size as usize
    }
}

/// The encoded size of a request in the accepted form.
pub fn request_bytes(frame: &Frame) -> (result: usize)
    ensures
        result == capped(request_size(frame.model()) as int),
{
    match frame {
        Frame::Array(Some(values)) => {
            let ghost models = crate::resp::frame::models(values@, values@.len());
            proof {
                crate::resp::frame::lemma_models(values@, values@.len());
            }
            let mut size: usize = plus(digits(values.len()), 3);
            let ghost start = numbers::decimal(values@.len()).len() + 3;
            let mut index: usize = 0;
            assert(models.take(0) =~= Seq::empty());
            while index < values.len()
                invariant
                    index <= values@.len(),
                    models.len() == values@.len(),
                    forall|i: int|
                        0 <= i < models.len() ==> #[trigger] models[i] == values@[i].model(),
                    size == capped((start + bulks_size(models.take(index as int))) as int),
                decreases values@.len() - index,
            {
                assert(models.take(index + 1).drop_last() =~= models.take(index as int));
                assert(models[index as int] == values@[index as int].model());
                if let Frame::Bulk(Some(data)) = &values[index] {
                    size = plus(plus(size, length(data)), plus(digits(length(data)), 5));
                }
                index += 1;
            }
            assert(models.take(index as int) =~= models);
            size
        },
        _ => 0,
    }
}

/// Whether a frame has the form of a request: an array of bulk strings.
pub open spec fn request_shaped(frame: FrameModel) -> bool {
    frame matches FrameModel::Array(Some(values)) && forall|i: int|
        0 <= i < values.len() ==> #[trigger] values[i] matches FrameModel::Bulk(Some(_))
}

proof fn lemma_bulks_size(values: Seq<FrameModel>)
    requires
        request_shaped(FrameModel::Array(Some(values))),
    ensures
        frame::wire(frame::preorders(values)).len() == bulks_size(values),
    decreases values.len(),
{
    if values.len() > 0 {
        let front = values.drop_last();
        let last = values.last();
        assert forall|i: int| 0 <= i < front.len() implies #[trigger] front[i] matches FrameModel::Bulk(
            Some(_),
        ) by {
            assert(front[i] == values[i]);
        }
        lemma_bulks_size(front);
        assert(values =~= front + seq![last]);
        assert(values[values.len() - 1] == last);
        laws::lemma_preorders_concat(front, seq![last]);
        let one = seq![last];
        reveal_with_fuel(frame::preorders, 2);
        assert(frame::preorder(last) =~= seq![frame::root(last)]);
        assert(frame::preorders(one) =~= seq![frame::root(last)]);
        let nodes = frame::preorders(values);
        assert(nodes.drop_last() =~= frame::preorders(front));
        assert(nodes.last() == frame::root(last));
    }
}

/// The size that is counted for a request is the length of its encoding.
pub proof fn law_requests_count_their_encoding(frame: FrameModel)
    requires
        request_shaped(frame),
    ensures
        request_size(frame) == frame::encoding(frame).len(),
{
    match frame {
        FrameModel::Array(Some(values)) => {
            let head = seq![frame::root(frame)];
            lemma_bulks_size(values);
            frame::lemma_wire_concat(head, frame::preorders(values));
            reveal_with_fuel(frame::wire, 2);
            assert(frame::wire(head) =~= frame::node_bytes(frame::root(frame)));
        },
        _ => {},
    }
}

/// Discarding or executing a queue leaves no queue and no observation behind.
pub proof fn law_transactions_end_clean(
    state: TransactionModel,
    command: Command,
    bytes: usize,
    limits: TransactionLimits,
    shards: int,
    readonly: bool,
)
    requires
        state.queue is Some,
        command is Exec || command is Discard,
    ensures
        ({
            let after = handled(state, command, bytes, limits, shards, readonly, false).0;
            after.queue is None && after.watched == Map::<Seq<u8>, WatchToken>::empty()
                && after.watch_shard is None
        }),
{
}

/// Once a queued command was refused, EXEC executes nothing.
pub proof fn law_poisoned_transactions_abort(
    state: TransactionModel,
    bytes: usize,
    limits: TransactionLimits,
    shards: int,
    readonly: bool,
)
    requires
        state.queue is Some,
    ensures
        handled(poisoned(state), Command::Exec, bytes, limits, shards, readonly, false).1
            == (ActionModel::Reply {
            frame: FrameModel::Error(
                "EXECABORT Transaction discarded because of previous errors.".spec_bytes(),
            ),
            released: tokens_of(state.watched),
        }),
{
}

/// A queue never grows past its limits, whatever is sent.
pub proof fn law_queues_stay_within_limits(
    state: TransactionModel,
    command: Command,
    bytes: usize,
    limits: TransactionLimits,
    shards: int,
    readonly: bool,
    subscribed: bool,
)
    requires
        state.queue matches Some(queue) ==> queue.commands.len() <= limits.max_commands
            && queue.bytes <= limits.max_bytes,
    ensures
        handled(state, command, bytes, limits, shards, readonly, subscribed).0.queue matches Some(
            queue,
        ) ==> queue.commands.len() <= limits.max_commands && queue.bytes <= limits.max_bytes,
{
}

} // verus!
