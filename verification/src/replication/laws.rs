//! What holds of messages across sending and receiving.

use super::cursor::CursorModel;
use super::protocol::{Error, HelloModel, Limits, Message, MessageModel, HEADER_BYTES, VERSION};
use crate::codec;
use crate::persistence::format::{Record, RecordModel};
use crate::persistence::record;
use crate::replication::cursor;
use crate::replication::protocol;
use vstd::prelude::*;
use vstd::string::*;

verus! {

/// Whether an epoch has its sixteen bytes.
pub open spec fn placed(cursor: CursorModel) -> bool {
    cursor.epoch.len() == 16
}

/// Whether a message can stand for one of the library: its positions have an
/// epoch, its values are whole.
pub open spec fn expressible(message: MessageModel) -> bool {
    match message {
        MessageModel::Hello(hello) => hello.cursor matches Some(cursor) ==> placed(cursor),
        MessageModel::Continue(cursor) => placed(cursor),
        MessageModel::FullStart { cursor, .. } => placed(cursor),
        MessageModel::FullEnd { cursor, .. } => placed(cursor),
        MessageModel::Ack(cursor) => placed(cursor),
        MessageModel::Heartbeat(cursor) => placed(cursor),
        MessageModel::Promoted(cursor) => placed(cursor),
        MessageModel::Status { cursor, .. } => placed(cursor),
        MessageModel::SnapshotEntry(mutation) => record::recordable(mutation),
        MessageModel::Batch { sequence, origin, mutations } => record::recordable_all(
            RecordModel::Batch { sequence, origin, mutations },
        ),
        _ => true,
    }
}

/// Every sound message can be expressed.
pub proof fn lemma_expressible(message: Message)
    requires
        message.wf(),
    ensures
        expressible(message.model()),
{
    match message {
        Message::SnapshotEntry(mutation) => record::lemma_recordable(mutation),
        Message::Batch { sequence, batch } => record::lemma_recordable_all(
            Record::Batch { sequence, batch },
        ),
        _ => {},
    }
}

/// The text of a position, and what is read from it.
proof fn lemma_position(model: CursorModel, all: Seq<u8>, place: int)
    requires
        placed(model),
        0 <= place,
        place + 24 <= all.len(),
        all.subrange(place, place + 24) == cursor::cursor_wire(model),
    ensures
        cursor::cursor_at(all, place) == model,
{
    codec::lemma_le_u64(model.sequence);
    let wire = cursor::cursor_wire(model);
    assert(all.subrange(place, place + 16) =~= wire.subrange(0, 16));
    assert(wire.subrange(0, 16) =~= model.epoch);
    assert(all.subrange(place + 16, place + 24) =~= wire.subrange(16, 24));
    assert(wire.subrange(16, 24) =~= codec::le(model.sequence as nat, 8));
}

proof fn lemma_wire_size(model: CursorModel)
    requires
        placed(model),
    ensures
        cursor::cursor_wire(model).len() == 24,
{
    codec::lemma_le_u64(model.sequence);
}

proof fn lemma_hello(hello: HelloModel, limits: Limits)
    requires
        expressible(MessageModel::Hello(hello)),
        protocol::send_fault(MessageModel::Hello(hello), limits) is None,
    ensures
        protocol::payload(MessageModel::Hello(hello)).len() <= 86,
        protocol::parse_payload(1, protocol::payload(MessageModel::Hello(hello)), limits) == Ok::<
            MessageModel,
            Error,
        >(MessageModel::Hello(hello)),
{
    let message = MessageModel::Hello(hello);
    let body = protocol::payload(message);
    let numbers = protocol::hello_numbers(hello);
    codec::lemma_le_u32(hello.record_version);
    codec::lemma_le_u32(hello.shard_count);
    codec::lemma_le_u32(hello.routing_version);
    codec::lemma_le_u32(hello.max_record_bytes);
    codec::lemma_le_u32(hello.max_mutations);
    codec::lemma_le_u64(hello.max_snapshot_bytes);
    assert(numbers.len() == 28);
    let place = 1 + hello.sider_version.len() as int;
    assert(body[0] as int == hello.sider_version.len());
    assert(body.subrange(1, place) =~= hello.sider_version);
    assert(body.subrange(place, place + 4) =~= codec::le(hello.record_version as nat, 4));
    assert(body.subrange(place + 4, place + 8) =~= codec::le(hello.shard_count as nat, 4));
    assert(body.subrange(place + 8, place + 12) =~= codec::le(hello.routing_version as nat, 4));
    assert(body.subrange(place + 12, place + 16) =~= codec::le(hello.max_record_bytes as nat, 4));
    assert(body.subrange(place + 16, place + 20) =~= codec::le(hello.max_mutations as nat, 4));
    assert(body.subrange(place + 20, place + 28) =~= codec::le(hello.max_snapshot_bytes as nat, 8));
    match hello.cursor {
        None => {
            assert(body.len() == place + 29);
            assert(body[place + 28] == 0);
        },
        Some(cursor) => {
            lemma_wire_size(cursor);
            assert(body.len() == place + 53);
            assert(body[place + 28] == 1);
            assert(body.subrange(place + 29, place + 53) =~= cursor::cursor_wire(cursor));
            lemma_position(cursor, body, place + 29);
        },
    }
    assert(protocol::parse_hello(body) matches Ok((read, used)) && read =~= hello && used
        == body.len());
}

proof fn lemma_export(message: MessageModel, limits: Limits)
    requires
        message is Export,
        protocol::send_fault(message, limits) is None,
    ensures
        protocol::payload(message).len() <= 45,
        protocol::parse_payload(10, protocol::payload(message), limits) == Ok::<
            MessageModel,
            Error,
        >(message),
{
    let body = protocol::payload(message);
    match message {
        MessageModel::Export { sider_version, max_record_bytes, max_snapshot_bytes } => {
            codec::lemma_le_u32(max_record_bytes);
            codec::lemma_le_u64(max_snapshot_bytes);
            let place = 1 + sider_version.len() as int;
            assert(body[0] as int == sider_version.len());
            assert(body.len() == place + 12);
            assert(body.subrange(1, place) =~= sider_version);
            assert(body.subrange(place, place + 4) =~= codec::le(max_record_bytes as nat, 4));
            assert(body.subrange(place + 4, place + 12) =~= codec::le(
                max_snapshot_bytes as nat,
                8,
            ));
            assert(protocol::parse_export(body) == Ok::<(MessageModel, int), Error>(
                (message, place + 12),
            ));
        },
        _ => {},
    }
}

proof fn lemma_status(message: MessageModel)
    requires
        message is Status,
        expressible(message),
    ensures
        protocol::payload(message).len() == 59,
        protocol::parse_status(protocol::payload(message)) == Ok::<MessageModel, Error>(message),
{
    let body = protocol::payload(message);
    match message {
        MessageModel::Status {
            readonly,
            cursor,
            upstream_sequence,
            connected,
            backlog_bytes,
            full_syncs,
            partial_syncs,
        } => {
            lemma_wire_size(cursor);
            codec::lemma_le_u64(protocol::or_zero(upstream_sequence));
            codec::lemma_le_u64(backlog_bytes);
            codec::lemma_le_u64(full_syncs);
            codec::lemma_le_u64(partial_syncs);
            assert(body.subrange(1, 25) =~= cursor::cursor_wire(cursor));
            lemma_position(cursor, body, 1);
            assert(body[0] == protocol::flag(readonly));
            assert(body[25] == protocol::flag(upstream_sequence is Some));
            assert(body[34] == protocol::flag(connected));
            assert(body.subrange(26, 34) =~= codec::le(
                protocol::or_zero(upstream_sequence) as nat,
                8,
            ));
            assert(body.subrange(35, 43) =~= codec::le(backlog_bytes as nat, 8));
            assert(body.subrange(43, 51) =~= codec::le(full_syncs as nat, 8));
            assert(body.subrange(51, 59) =~= codec::le(partial_syncs as nat, 8));
        },
        _ => {},
    }
}

/// A record fits the limits of the receiver when it fits those of a frame.
proof fn lemma_carried(message: MessageModel, limits: Limits)
    requires
        message is SnapshotEntry || message is Batch,
        expressible(message),
        protocol::send_fault(message, limits) is None,
    ensures
        protocol::payload(message).len() >= 1,
        protocol::parse_carried(protocol::kind_of(message), protocol::payload(message), limits)
            == Ok::<MessageModel, Error>(message),
{
    let record = protocol::record_of(message)->Some_0;
    let body = protocol::payload(message);
    assert(body == record::record_wire(record));
    assert(record::encodable(record, limits.record));
    assert(record::recordable_all(record));
    record::law_records_are_read_back(record, limits.record, Seq::empty());
    assert(body + Seq::<u8>::empty() =~= body);
    record::lemma_framed(record::record_body(record), Seq::empty());
}

proof fn lemma_fixed(message: MessageModel, limits: Limits)
    requires
        expressible(message),
        !(message is Hello || message is Export || message is Status || message is SnapshotEntry
            || message is Batch),
    ensures
        protocol::size_suits(protocol::kind_of(message), protocol::payload(message).len()),
        1 <= protocol::payload(message).len() <= 36,
        protocol::parse_payload(protocol::kind_of(message), protocol::payload(message), limits)
            == Ok::<MessageModel, Error>(message),
{
    let body = protocol::payload(message);
    match message {
        MessageModel::Continue(cursor) => {
            lemma_wire_size(cursor);
            assert(body.subrange(0, 24) =~= body);
            lemma_position(cursor, body, 0);
        },
        MessageModel::Ack(cursor) => {
            lemma_wire_size(cursor);
            assert(body.subrange(0, 24) =~= body);
            lemma_position(cursor, body, 0);
        },
        MessageModel::Heartbeat(cursor) => {
            lemma_wire_size(cursor);
            assert(body.subrange(0, 24) =~= body);
            lemma_position(cursor, body, 0);
        },
        MessageModel::Promoted(cursor) => {
            lemma_wire_size(cursor);
            assert(body.subrange(0, 24) =~= body);
            lemma_position(cursor, body, 0);
        },
        MessageModel::FullStart { cursor, entries } => {
            lemma_wire_size(cursor);
            codec::lemma_le_u64(entries);
            assert(body.subrange(0, 24) =~= cursor::cursor_wire(cursor));
            lemma_position(cursor, body, 0);
            assert(body.subrange(24, 32) =~= codec::le(entries as nat, 8));
        },
        MessageModel::FullEnd { cursor, entries, digest } => {
            lemma_wire_size(cursor);
            codec::lemma_le_u64(entries);
            codec::lemma_le_u32(digest);
            assert(body.subrange(0, 24) =~= cursor::cursor_wire(cursor));
            lemma_position(cursor, body, 0);
            assert(body.subrange(24, 32) =~= codec::le(entries as nat, 8));
            assert(body.subrange(32, 36) =~= codec::le(digest as nat, 4));
        },
        _ => {},
    }
}

/// The payload of a message is read back, and has a size that its kind may have.
proof fn lemma_payload(message: MessageModel, limits: Limits)
    requires
        expressible(message),
        protocol::send_fault(message, limits) is None,
    ensures
        protocol::payload(message).len() >= 1,
        protocol::size_suits(protocol::kind_of(message), protocol::payload(message).len()),
        protocol::parse_payload(protocol::kind_of(message), protocol::payload(message), limits)
            == Ok::<MessageModel, Error>(message),
{
    match message {
        MessageModel::Hello(hello) => lemma_hello(hello, limits),
        MessageModel::Export { .. } => lemma_export(message, limits),
        MessageModel::Status { .. } => lemma_status(message),
        MessageModel::SnapshotEntry(_) => lemma_carried(message, limits),
        MessageModel::Batch { .. } => lemma_carried(message, limits),
        _ => lemma_fixed(message, limits),
    }
}

/// The fields of the header of a frame.
proof fn lemma_head(kind: u8, body: Seq<u8>, limits: Limits)
    requires
        1 <= kind <= 14,
        limits.is_valid(),
        1 <= body.len() <= limits.max_frame_bytes - HEADER_BYTES,
        protocol::size_suits(kind, body.len()),
    ensures
        ({
            let start = protocol::head(kind, body.len());
            let digest = codec::crc32_after(codec::crc32(start), body);
            let frame = start + codec::le(digest as nat, 4) + body;
            &&& frame.len() == HEADER_BYTES + body.len()
            &&& frame.take(20) == start
            &&& frame.skip(HEADER_BYTES as int) == body
            &&& codec::le_value(frame.subrange(20, 24)) == digest
            &&& protocol::header_outcome(frame.take(HEADER_BYTES as int), limits) == Ok::<
                (u8, nat),
                Error,
            >((kind, body.len()))
        }),
{
    let size = body.len();
    let start = protocol::head(kind, size);
    let digest = codec::crc32_after(codec::crc32(start), body);
    let frame = start + codec::le(digest as nat, 4) + body;
    protocol::lemma_magic();
    codec::lemma_le_u16(VERSION);
    codec::lemma_le_u32(size as u32);
    codec::lemma_le_u32((0xffff_ffff - size) as u32);
    codec::lemma_le_u32(digest);
    assert(start.len() == 20);
    assert(frame.take(20) =~= start);
    assert(frame.skip(HEADER_BYTES as int) =~= body);
    assert(frame.subrange(20, 24) =~= codec::le(digest as nat, 4));
    let header = frame.take(HEADER_BYTES as int);
    assert(header.take(8) =~= protocol::magic());
    assert(header.subrange(8, 10) =~= codec::le(VERSION as nat, 2));
    assert(header[10] == kind);
    assert(header[11] == 0);
    assert(header.subrange(12, 16) =~= codec::le(size, 4));
    assert(header.subrange(16, 20) =~= codec::le((0xffff_ffff - size) as nat, 4));
}

/// What is sent is what is received.
pub proof fn law_messages_are_read_back(message: MessageModel, limits: Limits)
    requires
        expressible(message),
        protocol::send_fault(message, limits) is None,
    ensures
        protocol::decode_outcome(protocol::frame_wire(message), limits) == Ok::<
            MessageModel,
            Error,
        >(message),
{
    lemma_payload(message, limits);
    lemma_head(protocol::kind_of(message), protocol::payload(message), limits);
}

/// Nothing shorter and nothing longer than a frame is taken for it.
pub proof fn law_other_lengths_are_rejected(message: MessageModel, limits: Limits, other: Seq<u8>)
    requires
        expressible(message),
        protocol::send_fault(message, limits) is None,
        other.is_prefix_of(protocol::frame_wire(message)) || protocol::frame_wire(
            message,
        ).is_prefix_of(other),
        other.len() != protocol::frame_wire(message).len(),
    ensures
        protocol::decode_outcome(other, limits) == Err::<MessageModel, Error>(
            Error::Invalid(
                if other.len() < HEADER_BYTES {
                    "cabeçalho incompleto"
                } else {
                    "comprimento do payload"
                },
            ),
        ),
{
    lemma_payload(message, limits);
    lemma_head(protocol::kind_of(message), protocol::payload(message), limits);
    let frame = protocol::frame_wire(message);
    if other.len() >= HEADER_BYTES {
        assert(other.take(HEADER_BYTES as int) =~= frame.take(HEADER_BYTES as int));
    }
}

/// What is wrong with a frame whose byte at a place was changed: the signature
/// and the reserved byte, the version, the kind, the length against its
/// complement, and then the checksum are held to what they have to be.
pub open spec fn damage(frame: Seq<u8>, place: int, byte: u8) -> Error {
    if place < 8 || place == 11 {
        Error::Invalid("cabeçalho")
    } else if place < 10 {
        Error::Version(codec::le_value(frame.update(place, byte).subrange(8, 10)) as u16)
    } else if place == 10 && !(1 <= byte <= 14) {
        Error::Invalid("tipo de mensagem")
    } else if 12 <= place < 20 {
        Error::Invalid("comprimento")
    } else if place == 10 && !protocol::size_suits(byte, (frame.len() - HEADER_BYTES) as nat) {
        Error::Invalid("tamanho do tipo de mensagem")
    } else {
        Error::Invalid("checksum")
    }
}

/// A header with one changed byte before the checksum is seen as damaged, or
/// is left to the checksum where only the kind is another.
proof fn lemma_changed_header(
    kind: u8,
    body: Seq<u8>,
    frame: Seq<u8>,
    limits: Limits,
    place: int,
    byte: u8,
)
    requires
        1 <= kind <= 14,
        limits.is_valid(),
        1 <= body.len() <= limits.max_frame_bytes - HEADER_BYTES,
        protocol::size_suits(kind, body.len()),
        frame == protocol::head(kind, body.len()) + codec::le(
            codec::crc32_after(codec::crc32(protocol::head(kind, body.len())), body) as nat,
            4,
        ) + body,
        0 <= place < 20,
        frame[place] != byte,
    ensures
        protocol::header_outcome(frame.update(place, byte).take(HEADER_BYTES as int), limits)
            == if place == 10 && 1 <= byte <= 14 && protocol::size_suits(byte, body.len()) {
            Ok::<(u8, nat), Error>((byte, body.len()))
        } else {
            Err(damage(frame, place, byte))
        },
{
    let size = body.len();
    lemma_head(kind, body, limits);
    protocol::lemma_magic();
    let before = frame.take(HEADER_BYTES as int);
    let header = frame.update(place, byte).take(HEADER_BYTES as int);
    assert(header =~= before.update(place, byte));
    assert(frame.update(place, byte).subrange(8, 10) =~= header.subrange(8, 10));
    if place < 8 {
        assert(header.take(8)[place] == byte);
        assert(before.take(8)[place] == frame[place]);
    } else {
        assert(header.take(8) =~= before.take(8));
    }
    if 8 <= place < 10 {
        assert(header.subrange(8, 10) =~= before.subrange(8, 10).update(place - 8, byte));
        codec::lemma_le_changes(before.subrange(8, 10), place - 8, byte);
        codec::lemma_le_bound(before.subrange(8, 10));
        codec::lemma_le_bound(header.subrange(8, 10));
        codec::lemma_pow256();
    } else {
        assert(header.subrange(8, 10) =~= before.subrange(8, 10));
    }
    if 12 <= place < 16 {
        assert(header.subrange(12, 16) =~= before.subrange(12, 16).update(place - 12, byte));
        codec::lemma_le_changes(before.subrange(12, 16), place - 12, byte);
    } else {
        assert(header.subrange(12, 16) =~= before.subrange(12, 16));
    }
    if 16 <= place < 20 {
        assert(header.subrange(16, 20) =~= before.subrange(16, 20).update(place - 16, byte));
        codec::lemma_le_changes(before.subrange(16, 20), place - 16, byte);
    } else {
        assert(header.subrange(16, 20) =~= before.subrange(16, 20));
    }
}

/// A frame with one changed byte is not taken for a message, wherever in it
/// the byte stands.
pub proof fn law_changed_frames_are_rejected(
    message: MessageModel,
    limits: Limits,
    place: int,
    byte: u8,
)
    requires
        expressible(message),
        protocol::send_fault(message, limits) is None,
        0 <= place < protocol::frame_wire(message).len(),
        protocol::frame_wire(message)[place] != byte,
    ensures
        protocol::decode_outcome(protocol::frame_wire(message).update(place, byte), limits) == Err::<
            MessageModel,
            Error,
        >(damage(protocol::frame_wire(message), place, byte)),
{
    let kind = protocol::kind_of(message);
    let body = protocol::payload(message);
    lemma_payload(message, limits);
    lemma_head(kind, body, limits);
    let frame = protocol::frame_wire(message);
    let start = protocol::head(kind, body.len());
    let other = frame.update(place, byte);
    let whole = start + body;
    codec::law_digest_goes_on(start, body);
    if place < 20 {
        let changed = start.update(place, byte);
        lemma_changed_header(kind, body, frame, limits, place, byte);
        assert(other.take(20) =~= changed);
        assert(other.skip(HEADER_BYTES as int) =~= body);
        assert(other.subrange(20, 24) =~= frame.subrange(20, 24));
        codec::law_digest_goes_on(changed, body);
        assert(whole.update(place, byte) =~= changed + body);
        codec::law_checksum_detects_a_changed_byte(whole, place, byte);
    } else {
        assert(other.take(20) =~= start);
        if place < HEADER_BYTES {
            let digest = frame.subrange(20, 24);
            assert(other.subrange(20, 24) =~= digest.update(place - 20, byte));
            assert(other.skip(HEADER_BYTES as int) =~= body);
            codec::lemma_le_changes(digest, place - 20, byte);
        } else {
            let changed = body.update(place - HEADER_BYTES, byte);
            let spot = 20 + place - HEADER_BYTES;
            assert(frame[place] == body[place - HEADER_BYTES]);
            assert(other.subrange(20, 24) =~= frame.subrange(20, 24));
            assert(other.skip(HEADER_BYTES as int) =~= changed);
            assert(whole.update(spot, byte) =~= start + changed);
            codec::law_digest_goes_on(start, changed);
            codec::law_checksum_detects_a_changed_byte(whole, spot, byte);
        }
        let before = frame.take(HEADER_BYTES as int);
        let header = other.take(HEADER_BYTES as int);
        assert(header.take(8) =~= before.take(8));
        assert(header.subrange(8, 10) =~= before.subrange(8, 10));
        assert(header.subrange(12, 16) =~= before.subrange(12, 16));
        assert(header.subrange(16, 20) =~= before.subrange(16, 20));
        assert(header[10] == before[10] && header[11] == before[11]);
    }
}

/// A frame begins with its signature, then come the version, the kind, the length of the payload,
/// the complement of that, and the checksum of all that; the rest is the payload.
pub proof fn law_frames_are_laid_out(message: MessageModel, limits: Limits)
    requires
        expressible(message),
        protocol::send_fault(message, limits) is None,
    ensures
        ({
            let frame = protocol::frame_wire(message);
            let body = protocol::payload(message);
            &&& frame.len() == 24 + body.len()
            &&& frame.take(8) == "SIDERREP".spec_bytes()
            &&& codec::le_value(frame.subrange(8, 10)) == 1
            &&& frame[10] == protocol::kind_of(message)
            &&& frame[11] == 0
            &&& codec::le_value(frame.subrange(12, 16)) == body.len()
            &&& codec::le_value(frame.subrange(16, 20)) == 0xffff_ffff - body.len()
            &&& codec::le_value(frame.subrange(20, 24)) == codec::crc32(frame.take(20) + body)
            &&& frame.skip(24) == body
        }),
{
    let kind = protocol::kind_of(message);
    let body = protocol::payload(message);
    let frame = protocol::frame_wire(message);
    lemma_payload(message, limits);
    lemma_head(kind, body, limits);
    let header = frame.take(HEADER_BYTES as int);
    assert(frame.take(8) =~= header.take(8));
    assert(frame.subrange(8, 10) =~= header.subrange(8, 10));
    assert(frame.subrange(12, 16) =~= header.subrange(12, 16));
    assert(frame.subrange(16, 20) =~= header.subrange(16, 20));
    codec::lemma_le_bound(frame.subrange(8, 10));
    codec::lemma_pow256();
    codec::law_digest_goes_on(frame.take(20), body);
}

} // verus!
