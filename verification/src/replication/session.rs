//! Full synchronisation and continuation: what each side of a session decides.

use super::cursor::{Cursor, CursorModel};
use super::error::Error;
use super::journal::{Journal, Subscriber};
use super::protocol::{
    encode, Hello, HelloModel, Limits, Message, MessageModel, Reject, HEADER_BYTES,
};
use crate::buffer::{as_slice, length, same_bytes};
use crate::codec::snapshot_digest;
use crate::ordered::{position, Position};
use crate::persistence::format::{Limits as RecordLimits, MAX_RECORD_BYTES, VERSION};
use crate::persistence::layout::DurableLayout;
use crate::storage::mutation::{Mutation, MutationModel, MutationOrigin, ResolvedBatch};
use crate::storage::store::StoreConfig;
use crate::buffer;
use crate::codec;
use crate::ordered;
use crate::persistence::record;
use crate::persistence::writer;
use crate::replication::cursor;
use crate::replication::journal;
use crate::replication::protocol;
use crate::storage::mutation;
use bytes::Bytes;
use vstd::prelude::*;

verus! {

/// What both sides know of themselves.
#[derive(Clone, Debug, PartialEq, Eq)]
pub struct Context {
    /// The version of the program.
    pub version: Bytes,
    pub layout: DurableLayout,
    pub store_config: StoreConfig,
    pub record_limits: RecordLimits,
}

impl Context {
    /// What the configuration of the log makes sure of.
    pub open spec fn wf(&self) -> bool {
        &&& 1 <= self.record_limits.max_record_bytes <= MAX_RECORD_BYTES
        &&& 1 <= self.record_limits.max_mutations <= 1_000_000
    }
}

/// The limits of frames: one record has to fit, and all short messages.
pub open spec fn frame_limits(record: RecordLimits) -> Limits {
    let whole = record.max_record_bytes + HEADER_BYTES + 12;
    Limits {
        max_frame_bytes: if whole < 128 {
            128
        } else {
            whole as usize
        },
        record,
    }
}

pub fn limits(context: &Context) -> (result: Limits)
    requires
        context.wf(),
    ensures
        result == frame_limits(context.record_limits),
        result.is_valid(),
{
    let whole: usize = context.record_limits.max_record_bytes + HEADER_BYTES + 12;
    Limits {
        max_frame_bytes: if whole < 128 {
            128
        } else {
            whole
        },
        record: context.record_limits,
    }
}

/// The greeting of this side.
pub open spec fn greeting(context: Context, cursor: Option<CursorModel>) -> HelloModel {
    HelloModel {
        sider_version: buffer::bytes_content(context.version),
        record_version: VERSION,
        shard_count: context.layout.shard_count,
        routing_version: context.layout.routing_version,
        max_record_bytes: context.record_limits.max_record_bytes as u32,
        max_mutations: context.record_limits.max_mutations as u32,
        max_snapshot_bytes: context.store_config.max_dataset_bytes as u64,
        cursor,
    }
}

pub fn hello(context: &Context, cursor: Option<Cursor>) -> (result: Hello)
    requires
        context.wf(),
    ensures
        result.model() == greeting(*context, protocol::cursor_model(cursor)),
{
    Hello {
        sider_version: context.version.clone(),
        record_version: VERSION,
        shard_count: context.layout.shard_count,
        routing_version: context.layout.routing_version,
        max_record_bytes: context.record_limits.max_record_bytes as u32,
        max_mutations: context.record_limits.max_mutations as u32,
        max_snapshot_bytes: context.store_config.max_dataset_bytes as u64,
        cursor,
    }
}

/// What the first message of a connection asks for.
pub enum Opening {
    /// The state of this server.
    Status,
    /// This replica becomes a primary.
    Promote,
    /// This server is a primary already; it tells its position.
    Position,
    Reject(Reject),
    /// One snapshot, for a backup.
    Export,
    /// Following, from a position on where the peer has one.
    Follow(Option<Cursor>),
}

/// An opening by content.
#[verifier::ext_equal]
pub enum OpeningModel {
    Status,
    Promote,
    Position,
    Reject(Reject),
    Export,
    Follow(Option<CursorModel>),
}

impl Opening {
    pub open spec fn model(self) -> OpeningModel {
        match self {
            Opening::Status => OpeningModel::Status,
            Opening::Promote => OpeningModel::Promote,
            Opening::Position => OpeningModel::Position,
            Opening::Reject(reason) => OpeningModel::Reject(reason),
            Opening::Export => OpeningModel::Export,
            Opening::Follow(cursor) => OpeningModel::Follow(protocol::cursor_model(cursor)),
        }
    }
}

/// How a connection begins. Only a local peer may promote; a replica serves no
/// data; the capacities of the peer have to hold what this side announces.
pub open spec fn opened(request: MessageModel, local: bool, readonly: bool, source: HelloModel)
    -> OpeningModel {
    match request {
        MessageModel::StatusRequest => OpeningModel::Status,
        MessageModel::Promote => if !local {
            OpeningModel::Reject(Reject::Unavailable)
        } else if readonly {
            OpeningModel::Promote
        } else {
            OpeningModel::Position
        },
        _ => if readonly {
            OpeningModel::Reject(Reject::Unavailable)
        } else {
            match request {
                MessageModel::Export { sider_version, max_record_bytes, max_snapshot_bytes } =>
                    if sider_version != source.sider_version {
                    OpeningModel::Reject(Reject::IncompatibleVersion)
                } else if max_record_bytes < source.max_record_bytes || max_snapshot_bytes
                    < source.max_snapshot_bytes {
                    OpeningModel::Reject(Reject::ResourceLimit)
                } else {
                    OpeningModel::Export
                },
                MessageModel::Hello(peer) => match protocol::refusal(peer, source) {
                    Some(reason) => OpeningModel::Reject(reason),
                    None => OpeningModel::Follow(peer.cursor),
                },
                _ => OpeningModel::Reject(Reject::Unavailable),
            }
        },
    }
}

/// Decides how a connection begins.
pub fn open(request: &Message, local: bool, readonly: bool, source: &Hello) -> (result: Opening)
    ensures
        result.model() == opened(request.model(), local, readonly, source.model()),
{
    match request {
        Message::StatusRequest => return Opening::Status,
        Message::Promote => {
            return if !local {
                Opening::Reject(Reject::Unavailable)
            } else if readonly {
                Opening::Promote
            } else {
                Opening::Position
            };
        },
        _ => {},
    }
    if readonly {
        return Opening::Reject(Reject::Unavailable);
    }
    match request {
        Message::Export { sider_version, max_record_bytes, max_snapshot_bytes } => {
            if !same_bytes(as_slice(sider_version), as_slice(&source.sider_version)) {
                return Opening::Reject(Reject::IncompatibleVersion);
            }
            if *max_record_bytes < source.max_record_bytes || *max_snapshot_bytes
                < source.max_snapshot_bytes {
                return Opening::Reject(Reject::ResourceLimit);
            }
            Opening::Export
        },
        Message::Hello(peer) => match peer.accepts(source) {
            Err(reason) => Opening::Reject(reason),
            Ok(_) => Opening::Follow(peer.cursor),
        },
        _ => Opening::Reject(Reject::Unavailable),
    }
}

/// The reader with which a follower goes on, where the history still reaches
/// back to its position; otherwise it needs a whole snapshot.
pub fn resume(journal: &Journal, cursor: Option<Cursor>) -> (result: Option<Subscriber>)
    requires
        journal.wf(),
    ensures
        match cursor {
            None => result is None,
            Some(cursor) => match (
                result,
                journal::following(journal.history(), cursor.model()),
            ) {
                (Some(subscriber), Ok(_)) => subscriber.position() == cursor.model(),
                (None, Err(_)) => true,
                _ => false,
            },
        },
{
    match cursor {
        None => None,
        Some(cursor) => match journal.subscribe(cursor) {
            Ok(subscriber) => Some(subscriber),
            Err(_) => None,
        },
    }
}

/// Whether a message confirms exactly this position.
pub fn acknowledges(message: &Message, cursor: Cursor) -> (result: bool)
    ensures
        result == (message.model() == MessageModel::Ack(cursor.model())),
{
    match message {
        Message::Ack(confirmed) => confirmed.same(&cursor),
        _ => false,
    }
}

/// What a sender has of the history when its wait is over.
#[derive(Clone, Copy, Debug, PartialEq, Eq)]
pub enum Arrival {
    /// The batch that leads to this position.
    Batch(Cursor),
    /// No batch came in time.
    Silence,
    /// The history no longer holds what comes next.
    Lost,
}

/// What a sender does on its line.
#[derive(Clone, Copy, Debug, PartialEq, Eq)]
pub enum Sending {
    /// Tells the newest position.
    Heartbeat,
    /// Sends the frame of the batch.
    Frame,
    /// Waits until exactly this position is confirmed.
    Confirmed(Cursor),
    Reject(Reject),
}

/// What a sender does next, in this order, and the position that the follower has
/// confirmed when all of it is done; without one the session ends. A heartbeat
/// goes before each batch, so the follower confirms its old position first.
pub fn exchange(sent: Cursor, arrival: Arrival) -> (result: (Vec<Sending>, Option<Cursor>))
    ensures
        match arrival {
            Arrival::Batch(cursor) => {
                &&& result.0@ == seq![
                    Sending::Heartbeat,
                    Sending::Frame,
                    Sending::Confirmed(sent),
                    Sending::Confirmed(cursor),
                ]
                &&& result.1 == Some(cursor)
            },
            Arrival::Silence => {
                &&& result.0@ == seq![Sending::Heartbeat, Sending::Confirmed(sent)]
                &&& result.1 == Some(sent)
            },
            Arrival::Lost => {
                &&& result.0@ == seq![Sending::Reject(Reject::FullRequired)]
                &&& result.1 is None
            },
        },
{
    let mut steps: Vec<Sending> = Vec::new();
    let confirmed = match arrival {
        Arrival::Batch(cursor) => {
            steps.push(Sending::Heartbeat);
            steps.push(Sending::Frame);
            steps.push(Sending::Confirmed(sent));
            steps.push(Sending::Confirmed(cursor));
            Some(cursor)
        },
        Arrival::Silence => {
            steps.push(Sending::Heartbeat);
            steps.push(Sending::Confirmed(sent));
            Some(sent)
        },
        Arrival::Lost => {
            steps.push(Sending::Reject(Reject::FullRequired));
            None
        },
    };
    proof {
        match arrival {
            Arrival::Batch(cursor) => assert(steps@ =~= seq![
                Sending::Heartbeat,
                Sending::Frame,
                Sending::Confirmed(sent),
                Sending::Confirmed(cursor),
            ]),
            Arrival::Silence => assert(steps@ =~= seq![
                Sending::Heartbeat,
                Sending::Confirmed(sent),
            ]),
            Arrival::Lost => assert(steps@ =~= seq![Sending::Reject(Reject::FullRequired)]),
        }
    }
    (steps, confirmed)
}

/// How long a sender waits for a batch before it shows that it is alive, in
/// nanoseconds.
pub fn heartbeat(frame_timeout: u128) -> (result: u128)
    ensures
        result == if frame_timeout < 1_000_000_000 {
            frame_timeout / 2
        } else {
            500_000_000
        },
{
    if frame_timeout < 1_000_000_000 {
        frame_timeout / 2
    } else {
        500_000_000
    }
}

/// How long a follower waits before it connects once more, in nanoseconds.
pub fn next_backoff(backoff: u128, most: u128) -> (result: u128)
    ensures
        result == if backoff + backoff > most {
            most as int
        } else {
            backoff + backoff
        },
{
    if backoff > most - backoff.min(most) {
        most
    } else {
        backoff + backoff
    }
}

/// The frames of a snapshot that is being sent.
pub struct SnapshotSender {
    cursor: Cursor,
    entries: u64,
    bytes: usize,
    digest: u32,
}

impl SnapshotSender {
    /// The position that the snapshot stands for.
    pub closed spec fn position(&self) -> CursorModel {
        self.cursor.model()
    }

    pub closed spec fn count(&self) -> u64 {
        self.entries
    }

    /// Bytes of the frames sent so far.
    pub closed spec fn sent(&self) -> usize {
        self.bytes
    }

    /// The digest of the frames sent so far.
    pub closed spec fn summary(&self) -> u32 {
        self.digest
    }

    /// Begins with the announcement of position and entries.
    pub fn begin(cursor: Cursor, entries: usize) -> (result: (SnapshotSender, Message))
        ensures
            result.0.position() == cursor.model(),
            result.0.count() == entries,
            result.0.sent() == 0,
            result.0.summary() == 0,
            result.1.wf(),
            result.1.model() == (MessageModel::FullStart {
                cursor: cursor.model(),
                entries: entries as u64,
            }),
    {
        (
            SnapshotSender { cursor, entries: entries as u64, bytes: 0, digest: 0 },
            Message::FullStart { cursor, entries: entries as u64 },
        )
    }

    /// The frame of one entry. All frames together stay within the budget of
    /// the data.
    pub fn entry(&mut self, mutation: Mutation, limits: Limits, most: usize) -> (result: Result<
        Bytes,
        Error,
    >)
        requires
            mutation.wf(),
        ensures
            final(self).position() == old(self).position(),
            final(self).count() == old(self).count(),
            ({
                let message = MessageModel::SnapshotEntry(mutation.model());
                match protocol::send_fault(message, limits) {
                    Some(fault) => result == Err::<Bytes, Error>(Error::Protocol(fault)),
                    None => {
                        let frame = protocol::frame_wire(message);
                        if old(self).sent() + frame.len() > most {
                            result == Err::<Bytes, Error>(Error::Limit)
                        } else {
                            &&& result matches Ok(bytes)
                            &&& buffer::bytes_content(bytes) == frame
                            &&& final(self).sent() == old(self).sent() + frame.len()
                            &&& final(self).summary() == codec::crc32_after(
                                old(self).summary(),
                                frame,
                            )
                        }
                    },
                }
            }),
    {
        let frame = match encode(&Message::SnapshotEntry(mutation), limits) {
            Err(error) => return Err(Error::Protocol(error)),
            Ok(frame) => frame,
        };
        let size: usize = length(&frame);
        if size > most || self.bytes > most - size {
            return Err(Error::Limit);
        }
        self.bytes = self.bytes + size;
        self.digest = snapshot_digest(self.digest, as_slice(&frame));
        Ok(frame)
    }

    /// Ends with what the receiver has to have got.
    pub fn end(self) -> (result: Message)
        ensures
            result.wf(),
            result.model() == (MessageModel::FullEnd {
                cursor: self.position(),
                entries: self.count(),
                digest: self.summary(),
            }),
    {
        Message::FullEnd { cursor: self.cursor, entries: self.entries, digest: self.digest }
    }
}

/// A snapshot that is being received, by content.
#[verifier::ext_equal]
pub struct Receiving {
    pub cursor: CursorModel,
    pub entries: u64,
    pub mutations: Seq<MutationModel>,
    pub bytes: nat,
    pub digest: u32,
}

/// The key of the last entry.
pub open spec fn last_key(mutations: Seq<MutationModel>) -> Option<Seq<u8>> {
    if mutations.len() == 0 {
        None
    } else {
        Some(mutations.last().key())
    }
}

/// What one more message leads to: the snapshot goes on, or it is whole.
pub open spec fn received(
    state: Receiving,
    frame: Seq<u8>,
    message: MessageModel,
    most: usize,
) -> Result<(Receiving, bool), Error> {
    match message {
        MessageModel::SnapshotEntry(mutation) => if state.mutations.len() >= state.entries {
            Err(Error::Sequence)
        } else if !record::follows(last_key(state.mutations), mutation.key()) {
            Err(Error::Sequence)
        } else if state.bytes + frame.len() > most {
            Err(Error::Limit)
        } else {
            Ok(
                (
                    Receiving {
                        mutations: state.mutations.push(mutation),
                        bytes: state.bytes + frame.len(),
                        digest: codec::crc32_after(state.digest, frame),
                        ..state
                    },
                    false,
                ),
            )
        },
        MessageModel::FullEnd { cursor, entries, digest } => if cursor == state.cursor && entries
            == state.entries && state.mutations.len() == state.entries && digest == state.digest {
            Ok((state, true))
        } else {
            Err(Error::Sequence)
        },
        _ => Err(Error::Sequence),
    }
}

/// Takes a snapshot entry by entry.
pub struct SnapshotReceiver {
    cursor: Cursor,
    entries: u64,
    mutations: Vec<Mutation>,
    bytes: usize,
    digest: u32,
}

impl SnapshotReceiver {
    pub closed spec fn state(&self) -> Receiving {
        Receiving {
            cursor: self.cursor.model(),
            entries: self.entries,
            mutations: mutation::mutation_models(self.mutations@),
            bytes: self.bytes as nat,
            digest: self.digest,
        }
    }

    pub closed spec fn wf(&self) -> bool {
        mutation::all_sound(self.mutations@)
    }

    /// An announcement of more entries than the budget can hold is refused.
    pub fn begin(cursor: Cursor, entries: u64, most: usize) -> (result: Result<Self, Error>)
        ensures
            if entries > most as u64 / 128 {
                result == Err::<Self, Error>(Error::Limit)
            } else {
                &&& result matches Ok(receiver)
                &&& receiver.wf()
                &&& receiver.state() == (Receiving {
                    cursor: cursor.model(),
                    entries,
                    mutations: Seq::empty(),
                    bytes: 0,
                    digest: 0,
                })
            },
    {
        if entries > most as u64 / 128 {
            return Err(Error::Limit);
        }
        let receiver = SnapshotReceiver {
            cursor,
            entries,
            mutations: Vec::new(),
            bytes: 0,
            digest: 0,
        };
        assert(receiver.state().mutations =~= Seq::empty());
        Ok(receiver)
    }

    /// Takes one message with its frame; true says that the snapshot is whole.
    pub fn accept(&mut self, frame: &[u8], message: Message, most: usize) -> (result: Result<
        bool,
        Error,
    >)
        requires
            old(self).wf(),
            message.wf(),
        ensures
            match (result, received(old(self).state(), frame@, message.model(), most)) {
                (Ok(whole), Ok((state, done))) => {
                    &&& final(self).wf()
                    &&& final(self).state() == state
                    &&& whole == done
                },
                (Err(error), Err(fault)) => error == fault,
                _ => false,
            },
    {
        let ghost before = self.state();
        match message {
            Message::SnapshotEntry(mutation) => {
                if self.mutations.len() as u64 >= self.entries {
                    return Err(Error::Sequence);
                }
                let count: usize = self.mutations.len();
                if count > 0 {
                    assert(before.mutations.last() == self.mutations@[count - 1].model());
                    proof {
                        ordered::lemma_precedes_total(
                            self.mutations@[count - 1].model().key(),
                            mutation.model().key(),
                        );
                        ordered::lemma_precedes_irreflexive(mutation.model().key());
                    }
                    match position(
                        as_slice(self.mutations[count - 1].key()),
                        as_slice(mutation.key()),
                    ) {
                        Position::Before => {},
                        _ => return Err(Error::Sequence),
                    }
                }
                if frame.len() > most || self.bytes > most - frame.len() {
                    return Err(Error::Limit);
                }
                let ghost taken = self.mutations@;
                self.bytes = self.bytes + frame.len();
                self.digest = snapshot_digest(self.digest, frame);
                self.mutations.push(mutation);
                assert(mutation::mutation_models(self.mutations@) =~= mutation::mutation_models(
                    taken,
                ).push(mutation.model()));
                Ok(false)
            },
            Message::FullEnd { cursor, entries, digest } => {
                if cursor.same(&self.cursor) && entries == self.entries
                    && self.mutations.len() as u64 == self.entries && digest == self.digest {
                    Ok(true)
                } else {
                    Err(Error::Sequence)
                }
            },
            _ => Err(Error::Sequence),
        }
    }

    /// The entries.
    pub fn finish(self) -> (result: Vec<Mutation>)
        requires
            self.wf(),
        ensures
            mutation::all_sound(result@),
            mutation::mutation_models(result@) == self.state().mutations,
    {
        self.mutations
    }
}

/// How a follower begins.
pub enum Beginning {
    /// It goes on from its position.
    Continue { head: u64 },
    /// It takes a snapshot of this many entries.
    Full { cursor: Cursor, entries: u64 },
}

/// Whether the answer to a greeting lets a follower begin in this way.
pub open spec fn begins(
    own: HelloModel,
    position: CursorModel,
    source: MessageModel,
    answer: MessageModel,
    result: Result<Beginning, Error>,
) -> bool {
    match source {
        MessageModel::Hello(source) => if protocol::refusal(own, source) is Some {
            result == Err::<Beginning, Error>(Error::Limit)
        } else {
            match source.cursor {
                None => result == Err::<Beginning, Error>(Error::Sequence),
                Some(head) => match answer {
                    MessageModel::Continue(cursor) => if cursor == position && head.epoch
                        == position.epoch && head.sequence >= position.sequence {
                        result == Ok::<Beginning, Error>(
                            Beginning::Continue { head: head.sequence },
                        )
                    } else {
                        result == Err::<Beginning, Error>(Error::Sequence)
                    },
                    MessageModel::FullStart { cursor, entries } => if cursor == head {
                        &&& result matches Ok(Beginning::Full { cursor: from, entries: count })
                        &&& from.model() == cursor
                        &&& count == entries
                    } else {
                        result == Err::<Beginning, Error>(Error::Sequence)
                    },
                    _ => result == Err::<Beginning, Error>(Error::Sequence),
                },
            }
        },
        _ => result == Err::<Beginning, Error>(Error::Sequence),
    }
}

/// Decides how a follower begins, from the greeting of its source and the message
/// after it.
pub fn begin(own: &Hello, position: Cursor, source: &Message, answer: &Message) -> (result: Result<
    Beginning,
    Error,
>)
    ensures
        begins(own.model(), position.model(), source.model(), answer.model(), result),
{
    let source = match source {
        Message::Hello(source) => source,
        _ => return Err(Error::Sequence),
    };
    if own.accepts(source).is_err() {
        return Err(Error::Limit);
    }
    let head = match source.cursor {
        None => return Err(Error::Sequence),
        Some(head) => head,
    };
    match answer {
        Message::Continue(cursor) => {
            if cursor.same(&position) && head.same_epoch(&position) && head.sequence
                >= position.sequence {
                Ok(Beginning::Continue { head: head.sequence })
            } else {
                Err(Error::Sequence)
            }
        },
        Message::FullStart { cursor, entries } => {
            if cursor.same(&head) {
                Ok(Beginning::Full { cursor: *cursor, entries: *entries })
            } else {
                Err(Error::Sequence)
            }
        },
        _ => Err(Error::Sequence),
    }
}

/// The position that a follower tells in its greeting: none before its first
/// snapshot.
pub fn known_position(position: Cursor) -> (result: Option<Cursor>)
    ensures
        result == if position.model().epoch == cursor::no_epoch() {
            None::<Cursor>
        } else {
            Some(position)
        },
{
    if position.is_blank() {
        None
    } else {
        Some(position)
    }
}

/// What a follower does with a message once it follows.
pub enum Next {
    /// The source tells how far it is.
    Head(u64),
    /// The last batch once more, byte for byte.
    Again,
    /// A batch to apply, and the position it leads to.
    Apply { cursor: Cursor, batch: ResolvedBatch },
}

/// What a follower does, by content.
#[verifier::ext_equal]
pub enum NextModel {
    Head(u64),
    Again,
    Apply { cursor: CursorModel, origin: MutationOrigin, mutations: Seq<MutationModel> },
}

impl Next {
    pub open spec fn model(self) -> NextModel {
        match self {
            Next::Head(sequence) => NextModel::Head(sequence),
            Next::Again => NextModel::Again,
            Next::Apply { cursor, batch } => NextModel::Apply {
                cursor: cursor.model(),
                origin: batch.origin,
                mutations: mutation::mutation_models(batch.mutations@),
            },
        }
    }
}

/// What follows from a message, given the position and the frame of the last
/// batch.
pub open spec fn followed(
    position: CursorModel,
    previous: Option<Seq<u8>>,
    frame: Seq<u8>,
    message: MessageModel,
) -> Result<NextModel, Error> {
    match message {
        MessageModel::Heartbeat(head) => if head.epoch == position.epoch && head.sequence
            >= position.sequence {
            Ok(NextModel::Head(head.sequence))
        } else {
            Err(Error::Sequence)
        },
        MessageModel::Batch { sequence, origin, mutations } => if sequence == position.sequence
            && previous == Some(frame) {
            Ok(NextModel::Again)
        } else if position.sequence + 1 != sequence {
            Err(Error::Sequence)
        } else {
            Ok(
                NextModel::Apply {
                    cursor: CursorModel { sequence, ..position },
                    origin,
                    mutations,
                },
            )
        },
        _ => Err(Error::Sequence),
    }
}

/// Where a follower is.
pub struct Follower {
    position: Cursor,
    previous: Option<Bytes>,
}

impl Follower {
    pub closed spec fn at(&self) -> CursorModel {
        self.position.model()
    }

    /// The frame of the last batch.
    pub closed spec fn last(&self) -> Option<Seq<u8>> {
        record::content_of(self.previous)
    }

    pub fn new(position: Cursor) -> (result: Self)
        ensures
            result.at() == position.model(),
            result.last() is None,
    {
        Follower { position, previous: None }
    }

    /// The position that is confirmed.
    pub fn position(&self) -> (result: Cursor)
        ensures
            result.model() == self.at(),
    {
        self.position
    }

    pub fn next(&self, frame: &[u8], message: Message) -> (result: Result<Next, Error>)
        requires
            message.wf(),
        ensures
            match (result, followed(self.at(), self.last(), frame@, message.model())) {
                (Ok(next), Ok(model)) => next.model() == model && (next matches Next::Apply {
                    batch,
                    ..
                } ==> mutation::all_sound(batch.mutations@)),
                (Err(error), Err(fault)) => error == fault,
                _ => false,
            },
    {
        match message {
            Message::Heartbeat(head) => {
                if head.same_epoch(&self.position) && head.sequence >= self.position.sequence {
                    Ok(Next::Head(head.sequence))
                } else {
                    Err(Error::Sequence)
                }
            },
            Message::Batch { sequence, batch } => {
                let repeated = match &self.previous {
                    None => false,
                    Some(previous) => same_bytes(as_slice(previous), frame),
                };
                if sequence == self.position.sequence && repeated {
                    return Ok(Next::Again);
                }
                if self.position.sequence == u64::MAX || self.position.sequence + 1 != sequence {
                    return Err(Error::Sequence);
                }
                Ok(
                    Next::Apply {
                        cursor: Cursor { epoch: self.position.epoch, sequence },
                        batch,
                    },
                )
            },
            _ => Err(Error::Sequence),
        }
    }

    /// A batch was applied and recorded.
    pub fn applied(&mut self, cursor: Cursor, frame: Bytes)
        ensures
            final(self).at() == cursor.model(),
            final(self).last() == Some(buffer::bytes_content(frame)),
    {
        self.position = cursor;
        self.previous = Some(frame);
    }
}

/// The frames of the entries of a snapshot.
pub open spec fn entry_frames(mutations: Seq<MutationModel>) -> Seq<Seq<u8>> {
    mutations.map_values(
        |mutation: MutationModel| protocol::frame_wire(MessageModel::SnapshotEntry(mutation)),
    )
}

/// The bytes of frames.
pub open spec fn bytes_of(frames: Seq<Seq<u8>>) -> nat
    decreases frames.len(),
{
    if frames.len() == 0 {
        0
    } else {
        bytes_of(frames.drop_last()) + frames.last().len()
    }
}

/// What a receiver has after some entries, each as it was sent.
pub open spec fn received_all(
    state: Receiving,
    mutations: Seq<MutationModel>,
    most: usize,
) -> Result<Receiving, Error>
    decreases mutations.len(),
{
    if mutations.len() == 0 {
        Ok(state)
    } else {
        match received_all(state, mutations.drop_last(), most) {
            Err(error) => Err(error),
            Ok(before) => {
                let message = MessageModel::SnapshotEntry(mutations.last());
                match received(before, protocol::frame_wire(message), message, most) {
                    Err(error) => Err(error),
                    Ok((after, _)) => Ok(after),
                }
            },
        }
    }
}

proof fn lemma_bytes_grow(frames: Seq<Seq<u8>>, count: int)
    requires
        0 <= count <= frames.len(),
    ensures
        bytes_of(frames.take(count)) <= bytes_of(frames),
    decreases frames.len() - count,
{
    if count < frames.len() {
        lemma_bytes_grow(frames, count + 1);
        assert(frames.take(count + 1).drop_last() =~= frames.take(count));
    } else {
        assert(frames.take(count) =~= frames);
    }
}

proof fn lemma_received_part(
    start: Receiving,
    mutations: Seq<MutationModel>,
    most: usize,
    count: int,
)
    requires
        start.mutations.len() == 0,
        start.bytes == 0,
        start.digest == 0,
        start.entries == mutations.len(),
        0 <= count <= mutations.len(),
        bytes_of(entry_frames(mutations)) <= most,
        forall|i: int, j: int|
            #![trigger mutations[i], mutations[j]]
            0 <= i < j < mutations.len() ==> ordered::precedes(
                mutations[i].key(),
                mutations[j].key(),
            ),
    ensures
        received_all(start, mutations.take(count), most) == Ok::<Receiving, Error>(
            Receiving {
                mutations: mutations.take(count),
                bytes: bytes_of(entry_frames(mutations.take(count))),
                digest: writer::digest_of(entry_frames(mutations.take(count))),
                ..start
            },
        ),
    decreases count,
{
    let part = mutations.take(count);
    if count == 0 {
        assert(part =~= start.mutations);
        assert(entry_frames(part) =~= Seq::empty());
    } else {
        lemma_received_part(start, mutations, most, count - 1);
        let before = mutations.take(count - 1);
        assert(part.drop_last() =~= before);
        assert(part.last() == mutations[count - 1]);
        assert(entry_frames(part).drop_last() =~= entry_frames(before));
        assert(entry_frames(part).last() == protocol::frame_wire(
            MessageModel::SnapshotEntry(part.last()),
        ));
        lemma_bytes_grow(entry_frames(mutations), count);
        assert(entry_frames(mutations).take(count) =~= entry_frames(part));
        if count > 1 {
            assert(before.last() == mutations[count - 2]);
            assert(ordered::precedes(mutations[count - 2].key(), mutations[count - 1].key()));
        }
        assert(before.push(part.last()) =~= part);
    }
}

/// A snapshot in the order of its keys that keeps within the budget arrives as it
/// was sent, and its end confirms it.
pub proof fn law_sent_snapshots_arrive(
    cursor: CursorModel,
    mutations: Seq<MutationModel>,
    most: usize,
)
    requires
        mutations.len() <= u64::MAX,
        bytes_of(entry_frames(mutations)) <= most,
        forall|i: int, j: int|
            #![trigger mutations[i], mutations[j]]
            0 <= i < j < mutations.len() ==> ordered::precedes(
                mutations[i].key(),
                mutations[j].key(),
            ),
    ensures
        ({
            let start = Receiving {
                cursor,
                entries: mutations.len() as u64,
                mutations: Seq::empty(),
                bytes: 0,
                digest: 0,
            };
            let end = MessageModel::FullEnd {
                cursor,
                entries: mutations.len() as u64,
                digest: writer::digest_of(entry_frames(mutations)),
            };
            &&& received_all(start, mutations, most) matches Ok(state)
            &&& state.mutations == mutations
            &&& received(state, protocol::frame_wire(end), end, most) == Ok::<
                (Receiving, bool),
                Error,
            >((state, true))
        }),
{
    let start = Receiving {
        cursor,
        entries: mutations.len() as u64,
        mutations: Seq::empty(),
        bytes: 0,
        digest: 0,
    };
    assert(mutations.take(mutations.len() as int) =~= mutations);
    lemma_received_part(start, mutations, most, mutations.len() as int);
}

/// A follower at the position before a batch applies it once: sent again, byte
/// for byte, it is only confirmed.
pub proof fn law_repeated_batches_are_applied_once(
    position: CursorModel,
    previous: Option<Seq<u8>>,
    frame: Seq<u8>,
    sequence: u64,
    origin: MutationOrigin,
    mutations: Seq<MutationModel>,
)
    requires
        position.sequence + 1 == sequence,
    ensures
        ({
            let message = MessageModel::Batch { sequence, origin, mutations };
            let after = CursorModel { sequence, ..position };
            &&& followed(position, previous, frame, message) == Ok::<NextModel, Error>(
                NextModel::Apply { cursor: after, origin, mutations },
            )
            &&& followed(after, Some(frame), frame, message) == Ok::<NextModel, Error>(
                NextModel::Again,
            )
        }),
{
}

} // verus!
