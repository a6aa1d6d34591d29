//! What is received as a message is the one frame of that message.

use super::protocol::{Limits, MessageModel, HEADER_BYTES};
use crate::codec;
use crate::persistence::canonical;
use crate::persistence::record;
use crate::replication::cursor;
use crate::replication::laws;
use crate::replication::protocol;
use vstd::prelude::*;

verus! {

/// The bytes that a number was read from are those of the number.
proof fn lemma_field(bytes: Seq<u8>, from: int, to: int)
    requires
        0 <= from <= to <= bytes.len(),
    ensures
        codec::le(codec::le_value(bytes.subrange(from, to)), (to - from) as nat) == bytes.subrange(
            from,
            to,
        ),
        to - from == 2 ==> codec::le_value(bytes.subrange(from, to)) <= u16::MAX,
        to - from == 4 ==> codec::le_value(bytes.subrange(from, to)) <= u32::MAX,
        to - from == 8 ==> codec::le_value(bytes.subrange(from, to)) <= u64::MAX,
{
    codec::lemma_pow256();
    codec::lemma_le_bytes(bytes.subrange(from, to));
    codec::lemma_le_bound(bytes.subrange(from, to));
}

proof fn lemma_cursor(bytes: Seq<u8>, place: int)
    requires
        0 <= place,
        place + 24 <= bytes.len(),
    ensures
        cursor::cursor_wire(cursor::cursor_at(bytes, place)) == bytes.subrange(place, place + 24),
        laws::placed(cursor::cursor_at(bytes, place)),
{
    lemma_field(bytes, place + 16, place + 24);
    assert(cursor::cursor_wire(cursor::cursor_at(bytes, place)) =~= bytes.subrange(
        place,
        place + 24,
    ));
}

proof fn lemma_hello(body: Seq<u8>)
    requires
        body.len() >= 1,
        protocol::parse_hello(body) matches Ok((_, used)) && used == body.len(),
    ensures
        protocol::parse_hello(body) matches Ok((hello, _)) && protocol::payload(
            MessageModel::Hello(hello),
        ) == body && laws::expressible(MessageModel::Hello(hello)),
{
    let (hello, used) = protocol::parse_hello(body)->Ok_0;
    let place = 1 + body[0] as int;
    lemma_field(body, place, place + 4);
    lemma_field(body, place + 4, place + 8);
    lemma_field(body, place + 8, place + 12);
    lemma_field(body, place + 12, place + 16);
    lemma_field(body, place + 16, place + 20);
    lemma_field(body, place + 20, place + 28);
    assert(hello.sider_version.len() == body[0] as int);
    assert(protocol::hello_numbers(hello) =~= body.subrange(place, place + 28));
    if hello.cursor is Some {
        lemma_cursor(body, place + 29);
    }
    assert(protocol::payload(MessageModel::Hello(hello)) =~= body);
}

proof fn lemma_export(body: Seq<u8>)
    requires
        body.len() >= 1,
        protocol::parse_export(body) matches Ok((_, used)) && used == body.len(),
    ensures
        protocol::parse_export(body) matches Ok((message, _)) && protocol::payload(message) == body,
{
    let (message, used) = protocol::parse_export(body)->Ok_0;
    let place = 1 + body[0] as int;
    lemma_field(body, place, place + 4);
    lemma_field(body, place + 4, place + 12);
    assert(protocol::payload(message) =~= body);
}

proof fn lemma_status(body: Seq<u8>)
    requires
        body.len() == 59,
        protocol::parse_status(body) is Ok,
    ensures
        protocol::parse_status(body) matches Ok(message) && protocol::payload(message) == body
            && laws::expressible(message),
{
    let message = protocol::parse_status(body)->Ok_0;
    lemma_cursor(body, 1);
    lemma_field(body, 26, 34);
    lemma_field(body, 35, 43);
    lemma_field(body, 43, 51);
    lemma_field(body, 51, 59);
    assert(body.subrange(0, 1) =~= seq![body[0]]);
    assert(body.subrange(25, 26) =~= seq![body[25]]);
    assert(body.subrange(34, 35) =~= seq![body[34]]);
    assert(body =~= body.subrange(0, 1) + body.subrange(1, 25) + body.subrange(25, 26)
        + body.subrange(26, 34) + body.subrange(34, 35) + body.subrange(35, 43) + body.subrange(
        43,
        51,
    ) + body.subrange(51, 59));
}

proof fn lemma_carried(kind: u8, body: Seq<u8>, limits: Limits)
    requires
        body.len() <= limits.max_frame_bytes - HEADER_BYTES,
        limits.is_valid(),
        protocol::parse_carried(kind, body, limits) is Ok,
    ensures
        protocol::parse_carried(kind, body, limits) matches Ok(message) && protocol::kind_of(
            message,
        ) == kind && protocol::payload(message) == body && laws::expressible(message)
            && protocol::content_fault(message, limits) is None,
{
    let message = protocol::parse_carried(kind, body, limits)->Ok_0;
    let read = protocol::record_of(message)->Some_0;
    canonical::law_read_records_were_written(body, limits.record);
    record::lemma_framed(record::record_body(read), Seq::empty());
    assert(record::record_wire(read) + Seq::<u8>::empty() =~= record::record_wire(read));
    assert(body.subrange(0, 4) =~= record::record_wire(read).subrange(0, 4));
    assert(record::record_wire(read) =~= body);
}

proof fn lemma_fixed(kind: u8, body: Seq<u8>, limits: Limits)
    requires
        body.len() >= 1,
        1 <= kind <= 13,
        kind != 1 && kind != 4 && kind != 6 && kind != 10,
        protocol::size_suits(kind, body.len()),
        protocol::parse_payload(kind, body, limits) is Ok,
    ensures
        protocol::parse_payload(kind, body, limits) matches Ok(message) && protocol::kind_of(
            message,
        ) == kind && protocol::payload(message) == body && laws::expressible(message)
            && protocol::content_fault(message, limits) is None,
{
    let message = protocol::parse_payload(kind, body, limits)->Ok_0;
    if body.len() >= 24 {
        lemma_cursor(body, 0);
    }
    if kind == 3 || kind == 5 {
        lemma_field(body, 24, 32);
    }
    if kind == 5 {
        lemma_field(body, 32, 36);
    }
    assert(protocol::payload(message) =~= body);
}

proof fn lemma_payload(kind: u8, body: Seq<u8>, limits: Limits)
    requires
        limits.is_valid(),
        1 <= body.len() <= limits.max_frame_bytes - HEADER_BYTES,
        1 <= kind <= 14,
        protocol::size_suits(kind, body.len()),
        protocol::parse_payload(kind, body, limits) is Ok,
    ensures
        protocol::parse_payload(kind, body, limits) matches Ok(message) && protocol::kind_of(
            message,
        ) == kind && protocol::payload(message) == body && laws::expressible(message)
            && protocol::send_fault(message, limits) is None,
{
    if kind == 1 {
        lemma_hello(body);
    } else if kind == 10 {
        lemma_export(body);
    } else if kind == 14 {
        lemma_status(body);
    } else if kind == 4 || kind == 6 {
        lemma_carried(kind, body, limits);
    } else {
        lemma_fixed(kind, body, limits);
    }
}

/// A frame that is taken for a message is the frame of that message, to the
/// last byte, and a message that may be sent. So no two frames are taken for the
/// same message.
pub proof fn law_accepted_frames_are_those_of_their_messages(frame: Seq<u8>, limits: Limits)
    requires
        protocol::decode_outcome(frame, limits) is Ok,
    ensures
        protocol::decode_outcome(frame, limits) matches Ok(message) && laws::expressible(message)
            && protocol::send_fault(message, limits) is None && protocol::frame_wire(message)
            == frame,
{
    let header = frame.take(HEADER_BYTES as int);
    let (kind, size) = protocol::header_outcome(header, limits)->Ok_0;
    let body = frame.skip(HEADER_BYTES as int);
    lemma_payload(kind, body, limits);
    protocol::lemma_magic();
    lemma_field(header, 8, 10);
    lemma_field(header, 12, 16);
    lemma_field(header, 16, 20);
    lemma_field(frame, 20, 24);
    let start = protocol::head(kind, size);
    assert(header =~= header.take(8) + header.subrange(8, 10) + seq![header[10], header[11]]
        + header.subrange(12, 16) + header.subrange(16, 20) + frame.subrange(20, 24));
    assert(start =~= frame.take(20));
    assert(frame =~= start + frame.subrange(20, 24) + body);
}

} // verus!
