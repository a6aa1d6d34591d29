//! What replies look like to a client.

use super::parser::RequestError;
use super::reply::{ExecutionError, ReplyModel};
use crate::command::parser;
use crate::command::reply;
use crate::resp::frame::FrameModel;
use vstd::prelude::*;
use vstd::string::*;

verus! {

/// A reply is framed by its kind, and what it holds stays as it is: numbers as integers,
/// values as bulk strings, nothing as the null bulk, several replies as an array of their
/// frames in their order, a transaction that did not take place as the null array.
pub proof fn law_replies_are_framed_by_kind(reply: ReplyModel)
    ensures
        match reply {
            ReplyModel::Integer(value) => reply::frame_of(reply) == FrameModel::Integer(value),
            ReplyModel::Bulk(data) => reply::frame_of(reply) == FrameModel::Bulk(data),
            ReplyModel::NullArray => reply::frame_of(reply) == FrameModel::Array(None),
            ReplyModel::Array(values) => reply::frame_of(reply) matches FrameModel::Array(
                Some(frames),
            ) && frames.len() == values.len() && forall|i: int|
                0 <= i < frames.len() ==> #[trigger] frames[i] == reply::frame_of(values[i]),
            ReplyModel::Okay => reply::frame_of(reply) == FrameModel::Simple("OK".spec_bytes()),
            ReplyModel::Pong => reply::frame_of(reply) == FrameModel::Simple("PONG".spec_bytes()),
            ReplyModel::Error(_) => reply::frame_of(reply) is Error,
        },
{
    if let ReplyModel::Array(values) = reply {
        reply::lemma_frames_of(values, values.len());
    }
}

/// The word that a client tells errors of execution apart by.
pub open spec fn code(error: ExecutionError) -> &'static str {
    match error {
        ExecutionError::ReadOnly => "READONLY ",
        ExecutionError::CrossShard => "CROSSSLOT ",
        ExecutionError::WrongType => "WRONGTYPE ",
        ExecutionError::OutOfMemory => "OOM ",
        _ => "ERR ",
    }
}

proof fn lemma_prefix(text: &str, start: &str)
    requires
        is_ascii(text),
        is_ascii(start),
        start@.len() <= text@.len(),
        forall|i: int| 0 <= i < start@.len() ==> start@[i] == text@[i],
    ensures
        start.spec_bytes().is_prefix_of(text.spec_bytes()),
{
    broadcast use is_ascii_spec_bytes;

    assert(start.spec_bytes() =~= text.spec_bytes().take(start@.len() as int));
}

/// The text of an error of execution begins with its code.
pub proof fn law_errors_begin_with_their_code(error: ExecutionError)
    ensures
        code(error).spec_bytes().is_prefix_of(reply::error_text(error)),
        reply::frame_of(ReplyModel::Error(error)) == FrameModel::Error(reply::error_text(error)),
{
    reveal_strlit("READONLY ");
    reveal_strlit("CROSSSLOT ");
    reveal_strlit("WRONGTYPE ");
    reveal_strlit("OOM ");
    reveal_strlit("ERR ");
    match error {
        ExecutionError::ReadOnly => {
            reveal_strlit("READONLY You can't write against a read only replica.");
            lemma_prefix("READONLY You can't write against a read only replica.", "READONLY ");
        },
        ExecutionError::CrossShard => {
            reveal_strlit("CROSSSLOT Keys in request don't hash to the same slot");
            lemma_prefix("CROSSSLOT Keys in request don't hash to the same slot", "CROSSSLOT ");
        },
        ExecutionError::WrongType => {
            reveal_strlit("WRONGTYPE Operation against a key holding the wrong kind of value");
            lemma_prefix(
                "WRONGTYPE Operation against a key holding the wrong kind of value",
                "WRONGTYPE ",
            );
        },
        ExecutionError::InvalidInteger => {
            reveal_strlit("ERR value is not an integer or out of range");
            lemma_prefix("ERR value is not an integer or out of range", "ERR ");
        },
        ExecutionError::IntegerOverflow => {
            reveal_strlit("ERR increment or decrement would overflow");
            lemma_prefix("ERR increment or decrement would overflow", "ERR ");
        },
        ExecutionError::InvalidSetExpiry => {
            reveal_strlit("ERR invalid expire time in 'set' command");
            lemma_prefix("ERR invalid expire time in 'set' command", "ERR ");
        },
        ExecutionError::InvalidExpiry(name) => {
            reveal_strlit("ERR invalid expire time in '");
            lemma_prefix("ERR invalid expire time in '", "ERR ");
            let start = "ERR invalid expire time in '".spec_bytes();
            let code = "ERR ".spec_bytes();
            assert(code =~= start.take(code.len() as int));
            assert(code =~= reply::error_text(error).take(code.len() as int));
        },
        ExecutionError::OutOfMemory => {
            reveal_strlit("OOM dataset memory quota exceeded");
            lemma_prefix("OOM dataset memory quota exceeded", "OOM ");
        },
        ExecutionError::AofRecordLimit => {
            reveal_strlit("ERR AOF record limit exceeded");
            lemma_prefix("ERR AOF record limit exceeded", "ERR ");
        },
        ExecutionError::ConnectionOnly => {
            reveal_strlit("ERR command requires connection context");
            lemma_prefix("ERR command requires connection context", "ERR ");
        },
    }
}

/// What is wrong with a number, a time or the words of a request is told the same way before
/// and during execution.
pub proof fn law_errors_of_requests_read_like_those_of_execution(name: &'static str)
    ensures
        parser::request_error_text(RequestError::InvalidInteger) == reply::error_text(
            ExecutionError::InvalidInteger,
        ),
        parser::request_error_text(RequestError::InvalidSetExpiry) == reply::error_text(
            ExecutionError::InvalidSetExpiry,
        ),
        parser::request_error_text(RequestError::InvalidExpiry(name)) == reply::error_text(
            ExecutionError::InvalidExpiry(name),
        ),
{
}

} // verus!
