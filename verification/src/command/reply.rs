//! Reply without socket or channel dependencies.

use crate::buffer::{append, from_text, from_vec};
use crate::resp::frame::{Frame, FrameModel};
use bytes::Bytes;
use crate::buffer;
use crate::resp::frame;
use vstd::prelude::*;
use vstd::string::*;

verus! {

/// Recoverable execution errors that do not close the connection or worker.
#[derive(Clone, Debug, PartialEq, Eq)]
pub enum ExecutionError {
    ReadOnly,
    CrossShard,
    WrongType,
    InvalidInteger,
    IntegerOverflow,
    InvalidSetExpiry,
    InvalidExpiry(&'static str),
    OutOfMemory,
    AofRecordLimit,
    /// The command depends on a connection and does not execute in the map.
    ConnectionOnly,
}

/// The text that the client gets for an execution error.
pub open spec fn error_text(error: ExecutionError) -> Seq<u8> {
    match error {
        ExecutionError::ReadOnly => "READONLY You can't write against a read only replica.".spec_bytes(),
        ExecutionError::CrossShard => "CROSSSLOT Keys in request don't hash to the same slot".spec_bytes(),
        ExecutionError::WrongType => "WRONGTYPE Operation against a key holding the wrong kind of value".spec_bytes(),
        ExecutionError::InvalidInteger => "ERR value is not an integer or out of range".spec_bytes(),
        ExecutionError::IntegerOverflow => "ERR increment or decrement would overflow".spec_bytes(),
        ExecutionError::InvalidSetExpiry => "ERR invalid expire time in 'set' command".spec_bytes(),
        ExecutionError::InvalidExpiry(name) => quoted_text(
            "ERR invalid expire time in '",
            name,
        ),
        ExecutionError::OutOfMemory => "OOM dataset memory quota exceeded".spec_bytes(),
        ExecutionError::AofRecordLimit => "ERR AOF record limit exceeded".spec_bytes(),
        ExecutionError::ConnectionOnly => "ERR command requires connection context".spec_bytes(),
    }
}

/// A message about the command of this name.
pub open spec fn quoted_text(prefix: &str, name: &str) -> Seq<u8> {
    prefix.spec_bytes() + name.spec_bytes() + "' command".spec_bytes()
}

/// Puts a command name into a message.
pub(crate) fn quoted(prefix: &'static str, name: &'static str) -> (result: Bytes)
    ensures
        buffer::bytes_content(result) == quoted_text(prefix, name),
{
    let mut text: Vec<u8> = Vec::new();
    append(&mut text, prefix.as_bytes());
    append(&mut text, name.as_bytes());
    append(&mut text, "' command".as_bytes());
    assert(text@ =~= quoted_text(prefix, name));
    from_vec(text)
}

impl ExecutionError {
    /// The text that the client gets.
    pub fn message(&self) -> (result: Bytes)
        ensures
            buffer::bytes_content(result) == error_text(*self),
    {
        match self {
            ExecutionError::ReadOnly => from_text(
                "READONLY You can't write against a read only replica.",
            ),
            ExecutionError::CrossShard => from_text(
                "CROSSSLOT Keys in request don't hash to the same slot",
            ),
            ExecutionError::WrongType => from_text(
                "WRONGTYPE Operation against a key holding the wrong kind of value",
            ),
            ExecutionError::InvalidInteger => from_text(
                "ERR value is not an integer or out of range",
            ),
            ExecutionError::IntegerOverflow => from_text(
                "ERR increment or decrement would overflow",
            ),
            ExecutionError::InvalidSetExpiry => from_text(
                "ERR invalid expire time in 'set' command",
            ),
            ExecutionError::InvalidExpiry(name) => quoted("ERR invalid expire time in '", name),
            ExecutionError::OutOfMemory => from_text("OOM dataset memory quota exceeded"),
            ExecutionError::AofRecordLimit => from_text("ERR AOF record limit exceeded"),
            ExecutionError::ConnectionOnly => from_text("ERR command requires connection context"),
        }
    }
}

/// Result of synchronous execution in storage.
#[derive(Debug, PartialEq, Eq)]
pub enum Reply {
    /// PING without an argument.
    Pong,
    /// Accepted mutation.
    Okay,
    /// Binary message or value, or missing key.
    Bulk(Option<Bytes>),
    /// Number that the command counts.
    Integer(i64),
    /// Ordered replies from multi-key commands.
    Array(Vec<Reply>),
    /// EXEC invalidated by a watched-key change or expiry.
    NullArray,
    /// Rejection without storage effects.
    Error(ExecutionError),
}

/// A reply by content.
#[verifier::ext_equal]
pub enum ReplyModel {
    Pong,
    Okay,
    Bulk(Option<Seq<u8>>),
    Integer(i64),
    Array(Seq<ReplyModel>),
    NullArray,
    Error(ExecutionError),
}

impl Reply {
    /// What the reply holds.
    pub open spec fn model(self) -> ReplyModel
        decreases self, 0nat,
    {
        match self {
            Reply::Pong => ReplyModel::Pong,
            Reply::Okay => ReplyModel::Okay,
            Reply::Bulk(None) => ReplyModel::Bulk(None),
            Reply::Bulk(Some(data)) => ReplyModel::Bulk(Some(buffer::bytes_content(data))),
            Reply::Integer(value) => ReplyModel::Integer(value),
            Reply::Array(values) => ReplyModel::Array(reply_models(values@, values@.len())),
            Reply::NullArray => ReplyModel::NullArray,
            Reply::Error(error) => ReplyModel::Error(error),
        }
    }
}

/// What the first `count` replies hold.
pub open spec fn reply_models(values: Seq<Reply>, count: nat) -> Seq<ReplyModel>
    decreases values, count,
{
    if count == 0 || count > values.len() {
        Seq::empty()
    } else {
        reply_models(values, (count - 1) as nat).push(values[count - 1].model())
    }
}

pub proof fn lemma_reply_models(values: Seq<Reply>, count: nat)
    requires
        count <= values.len(),
    ensures
        reply_models(values, count).len() == count,
        forall|i: int|
            0 <= i < count ==> #[trigger] reply_models(values, count)[i] == values[i].model(),
    decreases count,
{
    if count > 0 {
        lemma_reply_models(values, (count - 1) as nat);
    }
}

/// The frame that carries a reply.
pub open spec fn frame_of(reply: ReplyModel) -> FrameModel
    decreases reply, 0nat,
{
    match reply {
        ReplyModel::Pong => FrameModel::Simple("PONG".spec_bytes()),
        ReplyModel::Okay => FrameModel::Simple("OK".spec_bytes()),
        ReplyModel::Bulk(data) => FrameModel::Bulk(data),
        ReplyModel::Integer(value) => FrameModel::Integer(value),
        ReplyModel::Array(values) => FrameModel::Array(Some(frames_of(values, values.len()))),
        ReplyModel::NullArray => FrameModel::Array(None),
        ReplyModel::Error(error) => FrameModel::Error(error_text(error)),
    }
}

/// The frames that carry the first `count` replies.
pub open spec fn frames_of(values: Seq<ReplyModel>, count: nat) -> Seq<FrameModel>
    decreases values, count,
{
    if count == 0 || count > values.len() {
        Seq::empty()
    } else {
        frames_of(values, (count - 1) as nat).push(frame_of(values[count - 1]))
    }
}

/// One frame for each reply.
pub proof fn lemma_frames_of(values: Seq<ReplyModel>, count: nat)
    requires
        count <= values.len(),
    ensures
        frames_of(values, count).len() == count,
        forall|i: int|
            0 <= i < count ==> #[trigger] frames_of(values, count)[i] == frame_of(values[i]),
    decreases count,
{
    if count > 0 {
        lemma_frames_of(values, (count - 1) as nat);
    }
}

impl Reply {
    /// The frame that carries the reply.
    pub fn into_frame(&self) -> (result: Frame)
        ensures
            result.model() == frame_of(self.model()),
        decreases *self,
    {
        match self {
            Reply::Pong => Frame::Simple(from_text("PONG")),
            Reply::Okay => Frame::Simple(from_text("OK")),
            Reply::Bulk(None) => Frame::Bulk(None),
            Reply::Bulk(Some(value)) => Frame::Bulk(Some(value.clone())),
            Reply::Integer(value) => Frame::Integer(*value),
            Reply::Array(values) => {
                let mut frames: Vec<Frame> = Vec::new();
                let mut index: usize = 0;
                while index < values.len()
                    invariant
                        *self == Reply::Array(*values),
                        index <= values@.len(),
                        frames@.len() == index,
                        forall|i: int|
                            0 <= i < index ==> (#[trigger] frames@[i]).model() == frame_of(
                                values@[i].model(),
                            ),
                    decreases values@.len() - index,
                {
                    assert(decreases_to!(*self => self->Array_0));
                    assert(decreases_to!(self->Array_0 => values@));
                    assert(decreases_to!(values@ => values@[index as int]));
                    frames.push(values[index].into_frame());
                    index += 1;
                }
                proof {
                    let inner = reply_models(values@, values@.len());
                    lemma_reply_models(values@, values@.len());
                    lemma_frames_of(inner, inner.len());
                    frame::lemma_models(frames@, frames@.len());
                    assert(frame::models(frames@, frames@.len()) =~= frames_of(inner, inner.len()));
                }
                Frame::Array(Some(frames))
            },
            Reply::NullArray => Frame::Array(None),
            Reply::Error(error) => Frame::Error(error.message()),
        }
    }
}

impl Clone for Reply {
    fn clone(&self) -> (result: Self)
        ensures
            result.model() == self.model(),
        decreases *self,
    {
        match self {
            Reply::Pong => Reply::Pong,
            Reply::Okay => Reply::Okay,
            Reply::Bulk(None) => Reply::Bulk(None),
            Reply::Bulk(Some(value)) => Reply::Bulk(Some(value.clone())),
            Reply::Integer(value) => Reply::Integer(*value),
            Reply::Array(values) => {
                let mut copies: Vec<Reply> = Vec::new();
                let mut index: usize = 0;
                while index < values.len()
                    invariant
                        *self == Reply::Array(*values),
                        index <= values@.len(),
                        copies@.len() == index,
                        forall|i: int|
                            0 <= i < index ==> (#[trigger] copies@[i]).model()
                                == values@[i].model(),
                    decreases values@.len() - index,
                {
                    assert(decreases_to!(*self => self->Array_0));
                    assert(decreases_to!(self->Array_0 => values@));
                    assert(decreases_to!(values@ => values@[index as int]));
                    copies.push(values[index].clone());
                    index += 1;
                }
                proof {
                    lemma_reply_models(values@, values@.len());
                    lemma_reply_models(copies@, copies@.len());
                    assert(reply_models(values@, values@.len()) =~= reply_models(
                        copies@,
                        copies@.len(),
                    ));
                }
                Reply::Array(copies)
            },
            Reply::NullArray => Reply::NullArray,
            Reply::Error(error) => Reply::Error(error.duplicate()),
        }
    }
}

impl ExecutionError {
    /// The same error once more.
    pub fn duplicate(&self) -> (result: Self)
        ensures
            result == *self,
    {
        match self {
            ExecutionError::ReadOnly => ExecutionError::ReadOnly,
            ExecutionError::CrossShard => ExecutionError::CrossShard,
            ExecutionError::WrongType => ExecutionError::WrongType,
            ExecutionError::InvalidInteger => ExecutionError::InvalidInteger,
            ExecutionError::IntegerOverflow => ExecutionError::IntegerOverflow,
            ExecutionError::InvalidSetExpiry => ExecutionError::InvalidSetExpiry,
            ExecutionError::InvalidExpiry(name) => ExecutionError::InvalidExpiry(*name),
            ExecutionError::OutOfMemory => ExecutionError::OutOfMemory,
            ExecutionError::AofRecordLimit => ExecutionError::AofRecordLimit,
            ExecutionError::ConnectionOnly => ExecutionError::ConnectionOnly,
        }
    }
}

} // verus!
