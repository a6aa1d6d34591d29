//! Bounded binary frames; the payload of data keeps the record format of the log.

use super::cursor::{read_cursor, write_cursor, Cursor, CursorModel};
use crate::buffer::{append, as_slice, from_vec, length, same_bytes, slice};
use crate::codec::{checksum, get, put_u16, put_u32, put_u64, snapshot_digest};
use crate::persistence::format::{FormatError, Next, NextModel, Record, RecordModel, MAX_RECORD_BYTES};
use crate::persistence::record::{encode as encode_record, read_record};
use crate::storage::mutation::{Mutation, MutationModel, MutationOrigin, ResolvedBatch};
use bytes::Bytes;
use crate::buffer;
use crate::codec;
use crate::persistence::record;
use crate::replication::cursor;
use crate::storage::mutation;
use vstd::prelude::*;
use vstd::string::*;

verus! {

pub const VERSION: u16 = 1;

pub const HEADER_BYTES: usize = 24;

pub const MAX_FRAME_BYTES: usize = 67108992;

/// The first bytes of a frame.
pub open spec fn magic() -> Seq<u8> {
    "SIDERREP".spec_bytes()
}

#[derive(Clone, Copy, Debug, PartialEq, Eq, Structural)]
pub struct Limits {
    /// Covers the transport header, the record framing and the payload.
    pub max_frame_bytes: usize,
    pub record: crate::persistence::format::Limits,
}

impl Default for Limits {
    fn default() -> (result: Self)
        ensures
            result == (Limits {
                max_frame_bytes: MAX_FRAME_BYTES,
                record: crate::persistence::format::Limits {
                    max_record_bytes: 8388608,
                    max_mutations: 100000,
                },
            }),
    {
        Limits {
            max_frame_bytes: MAX_FRAME_BYTES,
            record: crate::persistence::format::Limits::default(),
        }
    }
}

impl Limits {
    pub open spec fn is_valid(self) -> bool {
        &&& HEADER_BYTES + 1 <= self.max_frame_bytes <= MAX_FRAME_BYTES
        &&& 1 <= self.record.max_record_bytes <= MAX_RECORD_BYTES
        &&& self.record.max_mutations >= 1
    }

    pub fn validate(self) -> (result: Result<(), Error>)
        ensures
            result == if self.is_valid() {
                Ok::<(), Error>(())
            } else {
                Err(Error::Limit)
            },
    {
        if self.max_frame_bytes < HEADER_BYTES + 1 || self.max_frame_bytes > MAX_FRAME_BYTES
            || self.record.max_record_bytes == 0 || self.record.max_record_bytes > MAX_RECORD_BYTES
            || self.record.max_mutations == 0 {
            return Err(Error::Limit);
        }
        Ok(())
    }
}

#[derive(Clone, Debug, PartialEq, Eq)]
pub struct Hello {
    pub sider_version: Bytes,
    pub record_version: u32,
    pub shard_count: u32,
    pub routing_version: u32,
    pub max_record_bytes: u32,
    pub max_mutations: u32,
    pub max_snapshot_bytes: u64,
    pub cursor: Option<Cursor>,
}

/// A greeting by content.
#[verifier::ext_equal]
pub struct HelloModel {
    pub sider_version: Seq<u8>,
    pub record_version: u32,
    pub shard_count: u32,
    pub routing_version: u32,
    pub max_record_bytes: u32,
    pub max_mutations: u32,
    pub max_snapshot_bytes: u64,
    pub cursor: Option<CursorModel>,
}

pub open spec fn cursor_model(cursor: Option<Cursor>) -> Option<CursorModel> {
    match cursor {
        Some(cursor) => Some(cursor.model()),
        None => None,
    }
}

/// Why a receiver cannot take what a source announces.
pub open spec fn refusal(receiver: HelloModel, source: HelloModel) -> Option<Reject> {
    if receiver.sider_version != source.sider_version || receiver.record_version
        != source.record_version {
        Some(Reject::IncompatibleVersion)
    } else if receiver.shard_count != source.shard_count || receiver.routing_version
        != source.routing_version {
        Some(Reject::IncompatibleLayout)
    } else if receiver.max_record_bytes < source.max_record_bytes || receiver.max_mutations
        < source.max_mutations || receiver.max_snapshot_bytes < source.max_snapshot_bytes {
        Some(Reject::ResourceLimit)
    } else {
        None
    }
}

impl Hello {
    pub open spec fn model(self) -> HelloModel {
        HelloModel {
            sider_version: buffer::bytes_content(self.sider_version),
            record_version: self.record_version,
            shard_count: self.shard_count,
            routing_version: self.routing_version,
            max_record_bytes: self.max_record_bytes,
            max_mutations: self.max_mutations,
            max_snapshot_bytes: self.max_snapshot_bytes,
            cursor: cursor_model(self.cursor),
        }
    }

    /// The capacities of the receiver have to hold what the source announces.
    pub fn accepts(&self, source: &Self) -> (result: Result<(), Reject>)
        ensures
            result == match refusal(self.model(), source.model()) {
                None => Ok::<(), Reject>(()),
                Some(reason) => Err(reason),
            },
    {
        if !same_bytes(as_slice(&self.sider_version), as_slice(&source.sider_version))
            || self.record_version != source.record_version {
            return Err(Reject::IncompatibleVersion);
        }
        if self.shard_count != source.shard_count || self.routing_version
            != source.routing_version {
            return Err(Reject::IncompatibleLayout);
        }
        if self.max_record_bytes < source.max_record_bytes || self.max_mutations
            < source.max_mutations || self.max_snapshot_bytes < source.max_snapshot_bytes {
            return Err(Reject::ResourceLimit);
        }
        Ok(())
    }
}

#[derive(Clone, Copy, Debug, PartialEq, Eq, Structural)]
pub enum Reject {
    IncompatibleVersion,
    IncompatibleLayout,
    ResourceLimit,
    FullRequired,
    InvalidSequence,
    Unavailable,
}

/// The number of a reason.
pub open spec fn reject_code(reject: Reject) -> u8 {
    match reject {
        Reject::IncompatibleVersion => 1,
        Reject::IncompatibleLayout => 2,
        Reject::ResourceLimit => 3,
        Reject::FullRequired => 4,
        Reject::InvalidSequence => 5,
        Reject::Unavailable => 6,
    }
}

/// The reason that a number stands for.
pub open spec fn reject_of(code: u8) -> Option<Reject> {
    if code == 1 {
        Some(Reject::IncompatibleVersion)
    } else if code == 2 {
        Some(Reject::IncompatibleLayout)
    } else if code == 3 {
        Some(Reject::ResourceLimit)
    } else if code == 4 {
        Some(Reject::FullRequired)
    } else if code == 5 {
        Some(Reject::InvalidSequence)
    } else if code == 6 {
        Some(Reject::Unavailable)
    } else {
        None
    }
}

#[derive(Debug, PartialEq)]
pub enum Message {
    Hello(Hello),
    /// A single snapshot for a backup; no subscription, no acknowledgement.
    Export { sider_version: Bytes, max_record_bytes: u32, max_snapshot_bytes: u64 },
    Continue(Cursor),
    FullStart { cursor: Cursor, entries: u64 },
    SnapshotEntry(Mutation),
    FullEnd { cursor: Cursor, entries: u64, digest: u32 },
    Batch { sequence: u64, batch: ResolvedBatch },
    Ack(Cursor),
    Heartbeat(Cursor),
    Reject(Reject),
    StatusRequest,
    Promote,
    Promoted(Cursor),
    Status {
        readonly: bool,
        cursor: Cursor,
        upstream_sequence: Option<u64>,
        connected: bool,
        backlog_bytes: u64,
        full_syncs: u64,
        partial_syncs: u64,
    },
}

/// A message by content.
#[verifier::ext_equal]
pub enum MessageModel {
    Hello(HelloModel),
    Export { sider_version: Seq<u8>, max_record_bytes: u32, max_snapshot_bytes: u64 },
    Continue(CursorModel),
    FullStart { cursor: CursorModel, entries: u64 },
    SnapshotEntry(MutationModel),
    FullEnd { cursor: CursorModel, entries: u64, digest: u32 },
    Batch { sequence: u64, origin: MutationOrigin, mutations: Seq<MutationModel> },
    Ack(CursorModel),
    Heartbeat(CursorModel),
    Reject(Reject),
    StatusRequest,
    Promote,
    Promoted(CursorModel),
    Status {
        readonly: bool,
        cursor: CursorModel,
        upstream_sequence: Option<u64>,
        connected: bool,
        backlog_bytes: u64,
        full_syncs: u64,
        partial_syncs: u64,
    },
}

impl Message {
    pub open spec fn model(self) -> MessageModel {
        match self {
            Message::Hello(hello) => MessageModel::Hello(hello.model()),
            Message::Export { sider_version, max_record_bytes, max_snapshot_bytes } =>
                MessageModel::Export {
                sider_version: buffer::bytes_content(sider_version),
                max_record_bytes,
                max_snapshot_bytes,
            },
            Message::Continue(cursor) => MessageModel::Continue(cursor.model()),
            Message::FullStart { cursor, entries } => MessageModel::FullStart {
                cursor: cursor.model(),
                entries,
            },
            Message::SnapshotEntry(mutation) => MessageModel::SnapshotEntry(mutation.model()),
            Message::FullEnd { cursor, entries, digest } => MessageModel::FullEnd {
                cursor: cursor.model(),
                entries,
                digest,
            },
            Message::Batch { sequence, batch } => MessageModel::Batch {
                sequence,
                origin: batch.origin,
                mutations: mutation::mutation_models(batch.mutations@),
            },
            Message::Ack(cursor) => MessageModel::Ack(cursor.model()),
            Message::Heartbeat(cursor) => MessageModel::Heartbeat(cursor.model()),
            Message::Reject(reject) => MessageModel::Reject(reject),
            Message::StatusRequest => MessageModel::StatusRequest,
            Message::Promote => MessageModel::Promote,
            Message::Promoted(cursor) => MessageModel::Promoted(cursor.model()),
            Message::Status {
                readonly,
                cursor,
                upstream_sequence,
                connected,
                backlog_bytes,
                full_syncs,
                partial_syncs,
            } => MessageModel::Status {
                readonly,
                cursor: cursor.model(),
                upstream_sequence,
                connected,
                backlog_bytes,
                full_syncs,
                partial_syncs,
            },
        }
    }

    /// All mutations are sound.
    pub open spec fn wf(&self) -> bool {
        match self {
            Message::SnapshotEntry(mutation) => mutation.wf(),
            Message::Batch { batch, .. } => mutation::all_sound(batch.mutations@),
            _ => true,
        }
    }
}

#[derive(Clone, Copy, Debug, PartialEq, Eq)]
pub enum Error {
    /// Input or output failed; the cause stays with who performed it.
    Io,
    Timeout,
    Limit,
    Invalid(&'static str),
    Version(u16),
    Record(FormatError),
}

/// Whether a version is a short visible text.
pub open spec fn version_shown(text: Seq<u8>) -> bool {
    &&& 0 < text.len() <= 32
    &&& forall|i: int| 0 <= i < text.len() ==> 33 <= #[trigger] text[i] <= 126
}

/// Whether a greeting says all that it has to.
pub open spec fn hello_complete(hello: HelloModel) -> bool {
    &&& version_shown(hello.sider_version)
    &&& hello.shard_count != 0
    &&& hello.routing_version != 0
    &&& hello.record_version != 0
    &&& hello.max_record_bytes != 0
    &&& hello.max_mutations != 0
    &&& hello.max_snapshot_bytes != 0
}

pub open spec fn flag(value: bool) -> u8 {
    if value {
        1
    } else {
        0
    }
}

pub open spec fn or_zero(value: Option<u64>) -> u64 {
    match value {
        Some(value) => value,
        None => 0,
    }
}

/// What a greeting has after the version.
pub open spec fn hello_numbers(hello: HelloModel) -> Seq<u8> {
    codec::le(hello.record_version as nat, 4) + codec::le(hello.shard_count as nat, 4) + codec::le(
        hello.routing_version as nat,
        4,
    ) + codec::le(hello.max_record_bytes as nat, 4) + codec::le(hello.max_mutations as nat, 4) + codec::le(
        hello.max_snapshot_bytes as nat,
        8,
    )
}

/// The number of the kind of a message.
pub open spec fn kind_of(message: MessageModel) -> u8 {
    match message {
        MessageModel::Hello(_) => 1,
        MessageModel::Continue(_) => 2,
        MessageModel::FullStart { .. } => 3,
        MessageModel::SnapshotEntry(_) => 4,
        MessageModel::FullEnd { .. } => 5,
        MessageModel::Batch { .. } => 6,
        MessageModel::Ack(_) => 7,
        MessageModel::Heartbeat(_) => 8,
        MessageModel::Reject(_) => 9,
        MessageModel::Export { .. } => 10,
        MessageModel::StatusRequest => 11,
        MessageModel::Promote => 12,
        MessageModel::Promoted(_) => 13,
        MessageModel::Status { .. } => 14,
    }
}

/// The record that a message carries.
pub open spec fn record_of(message: MessageModel) -> Option<RecordModel> {
    match message {
        MessageModel::SnapshotEntry(mutation) => Some(RecordModel::Snapshot(mutation)),
        MessageModel::Batch { sequence, origin, mutations } => Some(
            RecordModel::Batch { sequence, origin, mutations },
        ),
        _ => None,
    }
}

/// The payload of a message.
pub open spec fn payload(message: MessageModel) -> Seq<u8> {
    match message {
        MessageModel::Hello(hello) => seq![hello.sider_version.len() as u8] + hello.sider_version
            + hello_numbers(hello) + match hello.cursor {
            None => seq![0u8],
            Some(cursor) => seq![1u8] + cursor::cursor_wire(cursor),
        },
        MessageModel::Export { sider_version, max_record_bytes, max_snapshot_bytes } =>
            seq![sider_version.len() as u8] + sider_version + codec::le(max_record_bytes as nat, 4) + codec::le(
            max_snapshot_bytes as nat,
            8,
        ),
        MessageModel::Continue(cursor) => cursor::cursor_wire(cursor),
        MessageModel::FullStart { cursor, entries } => cursor::cursor_wire(cursor) + codec::le(entries as nat, 8),
        MessageModel::SnapshotEntry(mutation) => record::record_wire(RecordModel::Snapshot(mutation)),
        MessageModel::FullEnd { cursor, entries, digest } => cursor::cursor_wire(cursor) + codec::le(
            entries as nat,
            8,
        ) + codec::le(digest as nat, 4),
        MessageModel::Batch { sequence, origin, mutations } => record::record_wire(
            RecordModel::Batch { sequence, origin, mutations },
        ),
        MessageModel::Ack(cursor) => cursor::cursor_wire(cursor),
        MessageModel::Heartbeat(cursor) => cursor::cursor_wire(cursor),
        MessageModel::Reject(reject) => seq![reject_code(reject)],
        MessageModel::StatusRequest => seq![0u8],
        MessageModel::Promote => seq![0u8],
        MessageModel::Promoted(cursor) => cursor::cursor_wire(cursor),
        MessageModel::Status {
            readonly,
            cursor,
            upstream_sequence,
            connected,
            backlog_bytes,
            full_syncs,
            partial_syncs,
        } => seq![flag(readonly)] + cursor::cursor_wire(cursor) + seq![flag(upstream_sequence is Some)]
            + codec::le(or_zero(upstream_sequence) as nat, 8) + seq![flag(connected)] + codec::le(
            backlog_bytes as nat,
            8,
        ) + codec::le(full_syncs as nat, 8) + codec::le(partial_syncs as nat, 8),
    }
}

/// The budget of a record inside a frame.
pub open spec fn record_limits(limits: Limits) -> crate::persistence::format::Limits {
    let room = if limits.max_frame_bytes >= HEADER_BYTES + 12 {
        limits.max_frame_bytes - (HEADER_BYTES + 12)
    } else {
        0
    };
    crate::persistence::format::Limits {
        max_record_bytes: if limits.record.max_record_bytes <= room {
            limits.record.max_record_bytes
        } else {
            room as usize
        },
        max_mutations: limits.record.max_mutations,
    }
}

/// What is wrong with what a message says.
pub open spec fn content_fault(message: MessageModel, limits: Limits) -> Option<Error> {
    match message {
        MessageModel::Hello(hello) => if hello_complete(hello) {
            None
        } else {
            Some(Error::Invalid("handshake"))
        },
        MessageModel::Export { sider_version, max_record_bytes, max_snapshot_bytes } =>
            if version_shown(sider_version) && max_record_bytes != 0 && max_snapshot_bytes != 0 {
            None
        } else {
            Some(Error::Invalid("pedido de exportação"))
        },
        MessageModel::SnapshotEntry(mutation) => if mutation is Delete {
            Some(Error::Invalid("remoção dentro de snapshot"))
        } else if !record::encodable(RecordModel::Snapshot(mutation), record_limits(limits)) {
            Some(Error::Record(FormatError::Limit))
        } else {
            None
        },
        MessageModel::Batch { sequence, origin, mutations } => if !record::encodable(
            RecordModel::Batch { sequence, origin, mutations },
            record_limits(limits),
        ) {
            Some(Error::Record(FormatError::Limit))
        } else {
            None
        },
        _ => None,
    }
}

/// Why a message cannot be sent.
pub open spec fn send_fault(message: MessageModel, limits: Limits) -> Option<Error> {
    if !limits.is_valid() {
        Some(Error::Limit)
    } else if content_fault(message, limits) is Some {
        content_fault(message, limits)
    } else if payload(message).len() + HEADER_BYTES > limits.max_frame_bytes {
        Some(Error::Limit)
    } else {
        None
    }
}

/// The header of a frame, without its checksum.
pub open spec fn head(kind: u8, size: nat) -> Seq<u8> {
    magic() + codec::le(VERSION as nat, 2) + seq![kind, 0u8] + codec::le(size, 4) + codec::le(
        (0xffff_ffff - size) as nat,
        4,
    )
}

/// The bytes of a message.
pub open spec fn frame_wire(message: MessageModel) -> Seq<u8> {
    let body = payload(message);
    let start = head(kind_of(message), body.len());
    start + codec::le(codec::crc32_after(codec::crc32(start), body) as nat, 4) + body
}

pub proof fn lemma_magic()
    ensures
        magic().len() == 8,
{
    broadcast use is_ascii_spec_bytes;

    reveal_strlit("SIDERREP");
    assert(is_ascii("SIDERREP"));
}

fn shown(text: &[u8]) -> (result: bool)
    ensures
        result == version_shown(text@),
{
    if text.len() == 0 || text.len() > 32 {
        return false;
    }
    let mut index: usize = 0;
    while index < text.len()
        invariant
            index <= text@.len(),
            forall|i: int| 0 <= i < index ==> 33 <= #[trigger] text@[i] <= 126,
        decreases text@.len() - index,
    {
        if text[index] < 33 || text[index] > 126 {
            assert(!(33 <= text@[index as int] <= 126));
            return false;
        }
        index += 1;
    }
    true
}

fn encode_hello(hello: &Hello) -> (result: Result<Vec<u8>, Error>)
    ensures
        if hello_complete(hello.model()) {
            result matches Ok(body) && body@ == payload(MessageModel::Hello(hello.model()))
        } else {
            result == Err::<Vec<u8>, Error>(Error::Invalid("handshake"))
        },
{
    if !shown(as_slice(&hello.sider_version)) || hello.shard_count == 0 || hello.routing_version
        == 0 || hello.record_version == 0 || hello.max_record_bytes == 0 || hello.max_mutations
        == 0 || hello.max_snapshot_bytes == 0 {
        return Err(Error::Invalid("handshake"));
    }
    let mut body: Vec<u8> = Vec::new();
    body.push(length(&hello.sider_version) as u8);
    append(&mut body, as_slice(&hello.sider_version));
    put_u32(&mut body, hello.record_version);
    put_u32(&mut body, hello.shard_count);
    put_u32(&mut body, hello.routing_version);
    put_u32(&mut body, hello.max_record_bytes);
    put_u32(&mut body, hello.max_mutations);
    put_u64(&mut body, hello.max_snapshot_bytes);
    match hello.cursor {
        None => body.push(0),
        Some(cursor) => {
            body.push(1);
            write_cursor(&mut body, cursor);
        },
    }
    assert(body@ =~= payload(MessageModel::Hello(hello.model())));
    Ok(body)
}

fn encode_export(sider_version: &Bytes, max_record_bytes: u32, max_snapshot_bytes: u64) -> (result:
    Result<Vec<u8>, Error>)
    ensures
        ({
            let model = MessageModel::Export {
                sider_version: buffer::bytes_content(*sider_version),
                max_record_bytes,
                max_snapshot_bytes,
            };
            if version_shown(buffer::bytes_content(*sider_version)) && max_record_bytes != 0
                && max_snapshot_bytes != 0 {
                result matches Ok(body) && body@ == payload(model)
            } else {
                result == Err::<Vec<u8>, Error>(Error::Invalid("pedido de exportação"))
            }
        }),
{
    if !shown(as_slice(sider_version)) || max_record_bytes == 0 || max_snapshot_bytes == 0 {
        return Err(Error::Invalid("pedido de exportação"));
    }
    let mut body: Vec<u8> = Vec::new();
    body.push(length(sider_version) as u8);
    append(&mut body, as_slice(sider_version));
    put_u32(&mut body, max_record_bytes);
    put_u64(&mut body, max_snapshot_bytes);
    assert(body@ =~= payload(
        MessageModel::Export {
            sider_version: buffer::bytes_content(*sider_version),
            max_record_bytes,
            max_snapshot_bytes,
        },
    ));
    Ok(body)
}

fn bit(value: bool) -> (result: u8)
    ensures
        result == flag(value),
{
    if value {
        1
    } else {
        0
    }
}

fn reject_number(reject: Reject) -> (result: u8)
    ensures
        result == reject_code(reject),
{
    match reject {
        Reject::IncompatibleVersion => 1,
        Reject::IncompatibleLayout => 2,
        Reject::ResourceLimit => 3,
        Reject::FullRequired => 4,
        Reject::InvalidSequence => 5,
        Reject::Unavailable => 6,
    }
}

/// The payload of a message that carries no record.
fn encode_fixed(message: &Message) -> (body: Vec<u8>)
    requires
        !(*message is Hello) && !(*message is Export) && !(*message is SnapshotEntry) && !(
        *message is Batch),
    ensures
        body@ == payload(message.model()),
{
    let mut body: Vec<u8> = Vec::new();
    match message {
        Message::Continue(cursor) => write_cursor(&mut body, *cursor),
        Message::Ack(cursor) => write_cursor(&mut body, *cursor),
        Message::Heartbeat(cursor) => write_cursor(&mut body, *cursor),
        Message::Promoted(cursor) => write_cursor(&mut body, *cursor),
        Message::FullStart { cursor, entries } => {
            write_cursor(&mut body, *cursor);
            put_u64(&mut body, *entries);
        },
        Message::FullEnd { cursor, entries, digest } => {
            write_cursor(&mut body, *cursor);
            put_u64(&mut body, *entries);
            put_u32(&mut body, *digest);
        },
        Message::Reject(reject) => body.push(reject_number(*reject)),
        Message::StatusRequest => body.push(0),
        Message::Promote => body.push(0),
        Message::Status {
            readonly,
            cursor,
            upstream_sequence,
            connected,
            backlog_bytes,
            full_syncs,
            partial_syncs,
        } => {
            body.push(bit(*readonly));
            write_cursor(&mut body, *cursor);
            body.push(bit(upstream_sequence.is_some()));
            put_u64(
                &mut body,
                match upstream_sequence {
                    Some(sequence) => *sequence,
                    None => 0,
                },
            );
            body.push(bit(*connected));
            put_u64(&mut body, *backlog_bytes);
            put_u64(&mut body, *full_syncs);
            put_u64(&mut body, *partial_syncs);
        },
        _ => {},
    }
    assert(body@ =~= payload(message.model()));
    body
}

fn kind_number(message: &Message) -> (kind: u8)
    ensures
        kind == kind_of(message.model()),
{
    match message {
        Message::Hello(_) => 1,
        Message::Continue(_) => 2,
        Message::FullStart { .. } => 3,
        Message::SnapshotEntry(_) => 4,
        Message::FullEnd { .. } => 5,
        Message::Batch { .. } => 6,
        Message::Ack(_) => 7,
        Message::Heartbeat(_) => 8,
        Message::Reject(_) => 9,
        Message::Export { .. } => 10,
        Message::StatusRequest => 11,
        Message::Promote => 12,
        Message::Promoted(_) => 13,
        Message::Status { .. } => 14,
    }
}

/// A copy of a mutation.
pub fn duplicate_mutation(mutation: &Mutation) -> (result: Mutation)
    requires
        mutation.wf(),
    ensures
        result.wf(),
        result.model() == mutation.model(),
{
    match mutation {
        Mutation::Put { key, value, expires_at_unix_ms } => Mutation::Put {
            key: key.clone(),
            value: value.duplicate(),
            expires_at_unix_ms: *expires_at_unix_ms,
        },
        Mutation::Delete { key } => Mutation::Delete { key: key.clone() },
    }
}

/// A copy of a batch.
pub fn duplicate_batch(batch: &ResolvedBatch) -> (result: ResolvedBatch)
    requires
        mutation::all_sound(batch.mutations@),
    ensures
        mutation::all_sound(result.mutations@),
        result.origin == batch.origin,
        mutation::mutation_models(result.mutations@) == mutation::mutation_models(batch.mutations@),
{
    let mut mutations: Vec<Mutation> = Vec::new();
    let mut index: usize = 0;
    while index < batch.mutations.len()
        invariant
            mutation::all_sound(batch.mutations@),
            mutation::all_sound(mutations@),
            index <= batch.mutations@.len(),
            mutations@.len() == index,
            forall|i: int|
                0 <= i < index ==> (#[trigger] mutations@[i]).model()
                    == batch.mutations@[i].model(),
        decreases batch.mutations@.len() - index,
    {
        mutations.push(duplicate_mutation(&batch.mutations[index]));
        index += 1;
    }
    assert(mutation::mutation_models(mutations@) =~= mutation::mutation_models(batch.mutations@));
    ResolvedBatch { origin: batch.origin, mutations }
}

fn encode_payload(message: &Message, limits: Limits) -> (result: Result<Vec<u8>, Error>)
    requires
        message.wf(),
    ensures
        match content_fault(message.model(), limits) {
            None => result matches Ok(body) && body@ == payload(message.model()),
            Some(fault) => result == Err::<Vec<u8>, Error>(fault),
        },
{
    let room: usize = if limits.max_frame_bytes >= HEADER_BYTES + 12 {
        limits.max_frame_bytes - (HEADER_BYTES + 12)
    } else {
        0
    };
    let budget = crate::persistence::format::Limits {
        max_record_bytes: if limits.record.max_record_bytes <= room {
            limits.record.max_record_bytes
        } else {
            room
        },
        max_mutations: limits.record.max_mutations,
    };
    match message {
        Message::Hello(hello) => encode_hello(hello),
        Message::Export { sider_version, max_record_bytes, max_snapshot_bytes } => encode_export(
            sider_version,
            *max_record_bytes,
            *max_snapshot_bytes,
        ),
        Message::SnapshotEntry(mutation) => {
            if let Mutation::Delete { .. } = mutation {
                return Err(Error::Invalid("remoção dentro de snapshot"));
            }
            match encode_record(&Record::Snapshot(duplicate_mutation(mutation)), budget) {
                Err(error) => Err(Error::Record(error)),
                Ok(body) => Ok(body),
            }
        },
        Message::Batch { sequence, batch } => {
            let record = Record::Batch { sequence: *sequence, batch: duplicate_batch(batch) };
            match encode_record(&record, budget) {
                Err(error) => Err(Error::Record(error)),
                Ok(body) => Ok(body),
            }
        },
        _ => Ok(encode_fixed(message)),
    }
}

/// The bytes of a message.
pub fn encode(message: &Message, limits: Limits) -> (result: Result<Bytes, Error>)
    requires
        message.wf(),
    ensures
        match send_fault(message.model(), limits) {
            None => result matches Ok(frame) && buffer::bytes_content(frame) == frame_wire(message.model()),
            Some(fault) => result == Err::<Bytes, Error>(fault),
        },
{
    match limits.validate() {
        Err(error) => return Err(error),
        Ok(_) => {},
    }
    let body = match encode_payload(message, limits) {
        Err(error) => return Err(error),
        Ok(body) => body,
    };
    if body.len() > limits.max_frame_bytes - HEADER_BYTES {
        return Err(Error::Limit);
    }
    let size: u32 = body.len() as u32;
    let mut frame: Vec<u8> = Vec::new();
    append(&mut frame, "SIDERREP".as_bytes());
    put_u16(&mut frame, VERSION);
    frame.push(kind_number(message));
    frame.push(0);
    put_u32(&mut frame, size);
    put_u32(&mut frame, 0xffff_ffff - size);
    assert(frame@ =~= head(kind_of(message.model()), body@.len()));
    let sum: u32 = checksum(frame.as_slice());
    let digest: u32 = snapshot_digest(sum, body.as_slice());
    put_u32(&mut frame, digest);
    append(&mut frame, body.as_slice());
    assert(frame@ =~= frame_wire(message.model()));
    Ok(from_vec(frame))
}

/// Whether a payload of this size can belong to the kind.
pub open spec fn size_suits(kind: u8, size: nat) -> bool {
    if kind == 1 {
        size <= 86
    } else if kind == 2 || kind == 7 || kind == 8 || kind == 13 {
        size == 24
    } else if kind == 3 {
        size == 32
    } else if kind == 5 {
        size == 36
    } else if kind == 9 || kind == 11 || kind == 12 {
        size == 1
    } else if kind == 10 {
        size <= 45
    } else if kind == 14 {
        size == 59
    } else {
        true
    }
}

/// The kind and the payload size that a header announces.
pub open spec fn header_outcome(header: Seq<u8>, limits: Limits) -> Result<(u8, nat), Error> {
    let version = codec::le_value(header.subrange(8, 10)) as u16;
    let size = codec::le_value(header.subrange(12, 16));
    if !limits.is_valid() {
        Err(Error::Limit)
    } else if header.len() != HEADER_BYTES || header.take(8) != magic() || header[11] != 0 {
        Err(Error::Invalid("cabeçalho"))
    } else if version != VERSION {
        Err(Error::Version(version))
    } else if !(1 <= header[10] <= 14) {
        Err(Error::Invalid("tipo de mensagem"))
    } else if codec::le_value(header.subrange(16, 20)) != 0xffff_ffff - size {
        Err(Error::Invalid("comprimento"))
    } else if size == 0 || size > limits.max_frame_bytes - HEADER_BYTES {
        Err(Error::Limit)
    } else if !size_suits(header[10], size) {
        Err(Error::Invalid("tamanho do tipo de mensagem"))
    } else {
        Ok((header[10], size))
    }
}

/// Reads a header: the kind and the size of the payload that follows.
pub fn read_head(header: &[u8], limits: Limits) -> (result: Result<(u8, usize), Error>)
    ensures
        match (result, header_outcome(header@, limits)) {
            (Ok((kind, size)), Ok((number, count))) => {
                &&& kind == number
                &&& size == count
                &&& 1 <= kind <= 14
                &&& 1 <= size <= limits.max_frame_bytes - HEADER_BYTES
                &&& size_suits(kind, size as nat)
                &&& limits.is_valid()
                &&& header@.len() == HEADER_BYTES
            },
            (Err(error), Err(fault)) => error == fault,
            _ => false,
        },
{
    match limits.validate() {
        Err(error) => return Err(error),
        Ok(_) => {},
    }
    if header.len() != HEADER_BYTES {
        return Err(Error::Invalid("cabeçalho"));
    }
    let start = vstd::slice::slice_subrange(header, 0, 8);
    assert(start@ =~= header@.take(8));
    if !same_bytes(start, "SIDERREP".as_bytes()) || header[11] != 0 {
        return Err(Error::Invalid("cabeçalho"));
    }
    proof {
        codec::lemma_le_bound(header@.subrange(8, 10));
        codec::lemma_le_bound(header@.subrange(12, 16));
        codec::lemma_pow256();
    }
    let version: u16 = get(header, 8, 10) as u16;
    if version != VERSION {
        return Err(Error::Version(version));
    }
    let kind: u8 = header[10];
    if kind < 1 || kind > 14 {
        return Err(Error::Invalid("tipo de mensagem"));
    }
    let size: u64 = get(header, 12, 16);
    if get(header, 16, 20) != 0xffff_ffff - size {
        return Err(Error::Invalid("comprimento"));
    }
    let size: usize = size as usize;
    if size == 0 || size > limits.max_frame_bytes - HEADER_BYTES {
        return Err(Error::Limit);
    }
    let suits = match kind {
        1 => size <= 86,
        2 => size == 24,
        3 => size == 32,
        5 => size == 36,
        7 => size == 24,
        8 => size == 24,
        9 => size == 1,
        10 => size <= 45,
        11 => size == 1,
        12 => size == 1,
        13 => size == 24,
        14 => size == 59,
        _ => true,
    };
    if !suits {
        return Err(Error::Invalid("tamanho do tipo de mensagem"));
    }
    Ok((kind, size))
}

/// The greeting in a payload, before it is held to its rules, and how many
/// bytes it takes.
pub open spec fn parse_hello(body: Seq<u8>) -> Result<(HelloModel, int), Error> {
    let size = body[0] as int;
    let place = 1 + size;
    if body.len() < place + 29 {
        Err(Error::Invalid("payload incompleto"))
    } else {
        let hello = HelloModel {
            sider_version: body.subrange(1, place),
            record_version: codec::le_value(body.subrange(place, place + 4)) as u32,
            shard_count: codec::le_value(body.subrange(place + 4, place + 8)) as u32,
            routing_version: codec::le_value(body.subrange(place + 8, place + 12)) as u32,
            max_record_bytes: codec::le_value(body.subrange(place + 12, place + 16)) as u32,
            max_mutations: codec::le_value(body.subrange(place + 16, place + 20)) as u32,
            max_snapshot_bytes: codec::le_value(body.subrange(place + 20, place + 28)) as u64,
            cursor: None,
        };
        if body[place + 28] == 0 {
            Ok((hello, place + 29))
        } else if body[place + 28] != 1 {
            Err(Error::Invalid("flag do cursor"))
        } else if body.len() < place + 53 {
            Err(Error::Invalid("payload incompleto"))
        } else {
            Ok(
                (
                    HelloModel { cursor: Some(cursor::cursor_at(body, place + 29)), ..hello },
                    place + 53,
                ),
            )
        }
    }
}

/// The export request in a payload, and how many bytes it takes.
pub open spec fn parse_export(body: Seq<u8>) -> Result<(MessageModel, int), Error> {
    let size = body[0] as int;
    let place = 1 + size;
    if body.len() < place + 12 {
        Err(Error::Invalid("payload incompleto"))
    } else {
        Ok(
            (
                MessageModel::Export {
                    sider_version: body.subrange(1, place),
                    max_record_bytes: codec::le_value(body.subrange(place, place + 4)) as u32,
                    max_snapshot_bytes: codec::le_value(
                        body.subrange(place + 4, place + 12),
                    ) as u64,
                },
                place + 12,
            ),
        )
    }
}

/// What a message has to be, that it was read with: nothing follows it.
pub open spec fn held(message: MessageModel, used: int, body: Seq<u8>, limits: Limits) -> Result<
    MessageModel,
    Error,
> {
    if send_fault(message, limits) is Some {
        Err(send_fault(message, limits)->Some_0)
    } else if used != body.len() {
        Err(Error::Invalid("bytes depois da mensagem"))
    } else {
        Ok(message)
    }
}

/// The state in a payload.
pub open spec fn parse_status(body: Seq<u8>) -> Result<MessageModel, Error> {
    let sequence = codec::le_value(body.subrange(26, 34)) as u64;
    if body[0] > 1 || body[25] > 1 {
        Err(Error::Invalid("flag booleana"))
    } else if body[25] == 0 && sequence != 0 {
        Err(Error::Invalid("posição upstream ausente"))
    } else if body[34] > 1 {
        Err(Error::Invalid("flag booleana"))
    } else {
        Ok(
            MessageModel::Status {
                readonly: body[0] == 1,
                cursor: cursor::cursor_at(body, 1),
                upstream_sequence: if body[25] == 1 {
                    Some(sequence)
                } else {
                    None
                },
                connected: body[34] == 1,
                backlog_bytes: codec::le_value(body.subrange(35, 43)) as u64,
                full_syncs: codec::le_value(body.subrange(43, 51)) as u64,
                partial_syncs: codec::le_value(body.subrange(51, 59)) as u64,
            },
        )
    }
}

/// The record in a payload.
pub open spec fn parse_carried(kind: u8, body: Seq<u8>, limits: Limits) -> Result<
    MessageModel,
    Error,
> {
    if body.len() < 12 || codec::le_value(body.subrange(0, 4)) != body.len() - 12 {
        Err(Error::Invalid("comprimento do registro"))
    } else {
        match record::next_outcome(body, limits.record) {
            Err(error) => Err(Error::Record(error)),
            Ok(NextModel::Record(RecordModel::Snapshot(mutation))) => if kind == 4 && mutation
                is Put {
                Ok(MessageModel::SnapshotEntry(mutation))
            } else {
                Err(Error::Invalid("registro incompatível ou incompleto"))
            },
            Ok(NextModel::Record(RecordModel::Batch { sequence, origin, mutations })) => if kind
                == 6 {
                Ok(MessageModel::Batch { sequence, origin, mutations })
            } else {
                Err(Error::Invalid("registro incompatível ou incompleto"))
            },
            Ok(_) => Err(Error::Invalid("registro incompatível ou incompleto")),
        }
    }
}

/// The message in a payload of a kind.
pub open spec fn parse_payload(kind: u8, body: Seq<u8>, limits: Limits) -> Result<
    MessageModel,
    Error,
> {
    if kind == 4 || kind == 6 {
        parse_carried(kind, body, limits)
    } else if kind == 1 {
        match parse_hello(body) {
            Err(error) => Err(error),
            Ok((hello, used)) => held(MessageModel::Hello(hello), used, body, limits),
        }
    } else if kind == 10 {
        match parse_export(body) {
            Err(error) => Err(error),
            Ok((message, used)) => held(message, used, body, limits),
        }
    } else if kind == 2 {
        Ok(MessageModel::Continue(cursor::cursor_at(body, 0)))
    } else if kind == 3 {
        Ok(
            MessageModel::FullStart {
                cursor: cursor::cursor_at(body, 0),
                entries: codec::le_value(body.subrange(24, 32)) as u64,
            },
        )
    } else if kind == 5 {
        Ok(
            MessageModel::FullEnd {
                cursor: cursor::cursor_at(body, 0),
                entries: codec::le_value(body.subrange(24, 32)) as u64,
                digest: codec::le_value(body.subrange(32, 36)) as u32,
            },
        )
    } else if kind == 7 {
        Ok(MessageModel::Ack(cursor::cursor_at(body, 0)))
    } else if kind == 8 {
        Ok(MessageModel::Heartbeat(cursor::cursor_at(body, 0)))
    } else if kind == 9 {
        match reject_of(body[0]) {
            Some(reject) => Ok(MessageModel::Reject(reject)),
            None => Err(Error::Invalid("motivo de rejeição")),
        }
    } else if kind == 11 || kind == 12 {
        if body[0] != 0 {
            Err(Error::Invalid("pedido administrativo"))
        } else if kind == 11 {
            Ok(MessageModel::StatusRequest)
        } else {
            Ok(MessageModel::Promote)
        }
    } else if kind == 13 {
        Ok(MessageModel::Promoted(cursor::cursor_at(body, 0)))
    } else {
        parse_status(body)
    }
}

/// The message of a frame; nothing may follow it.
pub open spec fn decode_outcome(frame: Seq<u8>, limits: Limits) -> Result<MessageModel, Error> {
    if frame.len() < HEADER_BYTES {
        Err(Error::Invalid("cabeçalho incompleto"))
    } else {
        match header_outcome(frame.take(HEADER_BYTES as int), limits) {
            Err(error) => Err(error),
            Ok((kind, size)) => {
                let body = frame.skip(HEADER_BYTES as int);
                if frame.len() != HEADER_BYTES + size {
                    Err(Error::Invalid("comprimento do payload"))
                } else if codec::crc32_after(codec::crc32(frame.take(20)), body)
                    != codec::le_value(frame.subrange(20, 24)) {
                    Err(Error::Invalid("checksum"))
                } else {
                    parse_payload(kind, body, limits)
                }
            },
        }
    }
}

fn decode_hello(body: &Bytes, limits: Limits) -> (result: Result<Message, Error>)
    requires
        1 <= buffer::bytes_content(*body).len() <= 86,
    ensures
        match (result, parse_payload(1, buffer::bytes_content(*body), limits)) {
            (Ok(message), Ok(model)) => message.wf() && message.model() == model,
            (Err(error), Err(fault)) => error == fault,
            _ => false,
        },
{
    let bytes = as_slice(body);
    let place: usize = 1 + bytes[0] as usize;
    if bytes.len() < place + 29 {
        return Err(Error::Invalid("payload incompleto"));
    }
    proof {
        let all = bytes@;
        let p = place as int;
        codec::lemma_pow256();
        codec::lemma_le_bound(all.subrange(p, p + 4));
        codec::lemma_le_bound(all.subrange(p + 4, p + 8));
        codec::lemma_le_bound(all.subrange(p + 8, p + 12));
        codec::lemma_le_bound(all.subrange(p + 12, p + 16));
        codec::lemma_le_bound(all.subrange(p + 16, p + 20));
    }
    let known: u8 = bytes[place + 28];
    let mut used: usize = place + 29;
    let mut cursor: Option<Cursor> = None;
    if known == 1 {
        if bytes.len() < place + 53 {
            return Err(Error::Invalid("payload incompleto"));
        }
        cursor = Some(read_cursor(bytes, place + 29));
        used = place + 53;
    } else if known != 0 {
        return Err(Error::Invalid("flag do cursor"));
    }
    let hello = Hello {
        sider_version: slice(body, 1, place),
        record_version: get(bytes, place, place + 4) as u32,
        shard_count: get(bytes, place + 4, place + 8) as u32,
        routing_version: get(bytes, place + 8, place + 12) as u32,
        max_record_bytes: get(bytes, place + 12, place + 16) as u32,
        max_mutations: get(bytes, place + 16, place + 20) as u32,
        max_snapshot_bytes: get(bytes, place + 20, place + 28),
        cursor,
    };
    let message = Message::Hello(hello);
    match encode(&message, limits) {
        Err(error) => return Err(error),
        Ok(_) => {},
    }
    if used != bytes.len() {
        return Err(Error::Invalid("bytes depois da mensagem"));
    }
    Ok(message)
}

fn decode_export(body: &Bytes, limits: Limits) -> (result: Result<Message, Error>)
    requires
        1 <= buffer::bytes_content(*body).len() <= 45,
    ensures
        match (result, parse_payload(10, buffer::bytes_content(*body), limits)) {
            (Ok(message), Ok(model)) => message.wf() && message.model() == model,
            (Err(error), Err(fault)) => error == fault,
            _ => false,
        },
{
    let bytes = as_slice(body);
    let place: usize = 1 + bytes[0] as usize;
    if bytes.len() < place + 12 {
        return Err(Error::Invalid("payload incompleto"));
    }
    proof {
        codec::lemma_pow256();
        codec::lemma_le_bound(bytes@.subrange(place as int, place + 4));
    }
    let message = Message::Export {
        sider_version: slice(body, 1, place),
        max_record_bytes: get(bytes, place, place + 4) as u32,
        max_snapshot_bytes: get(bytes, place + 4, place + 12),
    };
    match encode(&message, limits) {
        Err(error) => return Err(error),
        Ok(_) => {},
    }
    if place + 12 != bytes.len() {
        return Err(Error::Invalid("bytes depois da mensagem"));
    }
    Ok(message)
}

fn decode_status(bytes: &[u8]) -> (result: Result<Message, Error>)
    requires
        bytes@.len() == 59,
    ensures
        match (result, parse_status(bytes@)) {
            (Ok(message), Ok(model)) => message.wf() && message.model() == model,
            (Err(error), Err(fault)) => error == fault,
            _ => false,
        },
{
    if bytes[0] > 1 || bytes[25] > 1 {
        return Err(Error::Invalid("flag booleana"));
    }
    let sequence: u64 = get(bytes, 26, 34);
    if bytes[25] == 0 && sequence != 0 {
        return Err(Error::Invalid("posição upstream ausente"));
    }
    if bytes[34] > 1 {
        return Err(Error::Invalid("flag booleana"));
    }
    Ok(
        Message::Status {
            readonly: bytes[0] == 1,
            cursor: read_cursor(bytes, 1),
            upstream_sequence: if bytes[25] == 1 {
                Some(sequence)
            } else {
                None
            },
            connected: bytes[34] == 1,
            backlog_bytes: get(bytes, 35, 43),
            full_syncs: get(bytes, 43, 51),
            partial_syncs: get(bytes, 51, 59),
        },
    )
}

/// A forged record prefix cannot ask for more than the frame that was received.
fn decode_carried(kind: u8, bytes: &[u8], limits: Limits) -> (result: Result<Message, Error>)
    requires
        kind == 4 || kind == 6,
    ensures
        match (result, parse_carried(kind, bytes@, limits)) {
            (Ok(message), Ok(model)) => message.wf() && message.model() == model,
            (Err(error), Err(fault)) => error == fault,
            _ => false,
        },
{
    if bytes.len() < 12 || get(bytes, 0, 4) != (bytes.len() - 12) as u64 {
        return Err(Error::Invalid("comprimento do registro"));
    }
    match read_record(bytes, limits.record) {
        Err(error) => Err(Error::Record(error)),
        Ok(Next::Record(Record::Snapshot(mutation))) => {
            let put = match &mutation {
                Mutation::Put { .. } => true,
                Mutation::Delete { .. } => false,
            };
            if kind == 4 && put {
                Ok(Message::SnapshotEntry(mutation))
            } else {
                Err(Error::Invalid("registro incompatível ou incompleto"))
            }
        },
        Ok(Next::Record(Record::Batch { sequence, batch })) => if kind == 6 {
            Ok(Message::Batch { sequence, batch })
        } else {
            Err(Error::Invalid("registro incompatível ou incompleto"))
        },
        Ok(_) => Err(Error::Invalid("registro incompatível ou incompleto")),
    }
}

/// The messages whose payload has one size.
fn decode_fixed(kind: u8, bytes: &[u8], limits: Limits) -> (result: Result<Message, Error>)
    requires
        1 <= kind <= 14,
        kind != 1 && kind != 4 && kind != 6 && kind != 10,
        size_suits(kind, bytes@.len()),
    ensures
        match (result, parse_payload(kind, bytes@, limits)) {
            (Ok(message), Ok(model)) => message.wf() && message.model() == model,
            (Err(error), Err(fault)) => error == fault,
            _ => false,
        },
{
    proof {
        codec::lemma_pow256();
        if kind == 5 {
            codec::lemma_le_bound(bytes@.subrange(32, 36));
        }
    }
    if kind == 2 {
        Ok(Message::Continue(read_cursor(bytes, 0)))
    } else if kind == 3 {
        Ok(
            Message::FullStart { cursor: read_cursor(bytes, 0), entries: get(bytes, 24, 32) },
        )
    } else if kind == 5 {
        Ok(
            Message::FullEnd {
                cursor: read_cursor(bytes, 0),
                entries: get(bytes, 24, 32),
                digest: get(bytes, 32, 36) as u32,
            },
        )
    } else if kind == 7 {
        Ok(Message::Ack(read_cursor(bytes, 0)))
    } else if kind == 8 {
        Ok(Message::Heartbeat(read_cursor(bytes, 0)))
    } else if kind == 9 {
        match bytes[0] {
            1 => Ok(Message::Reject(Reject::IncompatibleVersion)),
            2 => Ok(Message::Reject(Reject::IncompatibleLayout)),
            3 => Ok(Message::Reject(Reject::ResourceLimit)),
            4 => Ok(Message::Reject(Reject::FullRequired)),
            5 => Ok(Message::Reject(Reject::InvalidSequence)),
            6 => Ok(Message::Reject(Reject::Unavailable)),
            _ => Err(Error::Invalid("motivo de rejeição")),
        }
    } else if kind == 11 || kind == 12 {
        if bytes[0] != 0 {
            return Err(Error::Invalid("pedido administrativo"));
        }
        if kind == 11 {
            Ok(Message::StatusRequest)
        } else {
            Ok(Message::Promote)
        }
    } else if kind == 13 {
        Ok(Message::Promoted(read_cursor(bytes, 0)))
    } else {
        decode_status(bytes)
    }
}

/// Takes exactly one frame, and ignores no byte after it.
pub fn decode(frame: Bytes, limits: Limits) -> (result: Result<Message, Error>)
    ensures
        match (result, decode_outcome(buffer::bytes_content(frame), limits)) {
            (Ok(message), Ok(model)) => message.wf() && message.model() == model,
            (Err(error), Err(fault)) => error == fault,
            _ => false,
        },
{
    let ghost all = buffer::bytes_content(frame);
    let total: usize = length(&frame);
    if total < HEADER_BYTES {
        return Err(Error::Invalid("cabeçalho incompleto"));
    }
    let bytes = as_slice(&frame);
    let prefix = vstd::slice::slice_subrange(bytes, 0, HEADER_BYTES);
    assert(prefix@ =~= all.take(HEADER_BYTES as int));
    let (kind, size) = match read_head(prefix, limits) {
        Err(error) => return Err(error),
        Ok(found) => found,
    };
    if total - HEADER_BYTES != size {
        return Err(Error::Invalid("comprimento do payload"));
    }
    let body = slice(&frame, HEADER_BYTES, total);
    assert(all.subrange(HEADER_BYTES as int, total as int) =~= all.skip(HEADER_BYTES as int));
    let start = vstd::slice::slice_subrange(bytes, 0, 20);
    assert(start@ =~= all.take(20));
    if snapshot_digest(checksum(start), as_slice(&body)) as u64 != get(bytes, 20, 24) {
        return Err(Error::Invalid("checksum"));
    }
    if kind == 4 || kind == 6 {
        decode_carried(kind, as_slice(&body), limits)
    } else if kind == 1 {
        decode_hello(&body, limits)
    } else if kind == 10 {
        decode_export(&body, limits)
    } else {
        decode_fixed(kind, as_slice(&body), limits)
    }
}

} // verus!
