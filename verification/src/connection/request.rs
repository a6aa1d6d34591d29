//! What a connection does with each request and with each moment of waiting.

use super::transaction::{Action, ActionModel, Transaction, TransactionLimits, TransactionModel};
use crate::buffer::{append, as_slice, from_text, from_vec};
use crate::command::parser::RequestError;
use crate::command::types::Command;
use crate::config::ServerConfig;
use crate::pubsub::{Hub, HubModel, Message, MessageModel};
use crate::resp::encoder::encoded_size;
use crate::resp::frame::{Frame, FrameModel};
use crate::resp::limits::RespLimits;
use crate::storage::routing::ShardRouter;
use crate::storage::watch::WatchToken;
use crate::buffer;
use crate::command::parser;
use crate::connection::transaction;
use crate::pubsub;
use crate::resp::encoder;
use crate::resp::frame;
use crate::resp::limits;
use bytes::Bytes;
use vstd::prelude::*;
use vstd::string::*;
use vstd::utf8::*;

verus! {

/// What `String::from_utf8_lossy` makes of some bytes, in UTF-8.
pub uninterp spec fn lossy(bytes: Seq<u8>) -> Seq<u8>;

/// `String::from_utf8_lossy`: text that is valid stays as it is, the rest is
/// replaced.
#[verifier::external_body]
fn lossy_text(bytes: &[u8]) -> (result: Vec<u8>)
    ensures
        result@ == lossy(bytes@),
        valid_utf8(bytes@) ==> result@ == bytes@,
{
    String::from_utf8_lossy(bytes).into_owned().into_bytes()
}

/// What a connection does next.
pub enum Step {
    /// Writes an answer and gives observations back.
    Reply { frame: Frame, released: Vec<WatchToken> },
    /// Writes an answer and ends.
    Close(Frame),
    /// Executes a queue.
    Exec { commands: Vec<Command>, watched: Vec<WatchToken> },
    /// Has keys observed.
    Watch { keys: Vec<Bytes>, shard: Option<usize> },
    Subscribe(Vec<Bytes>),
    Unsubscribe(Vec<Bytes>),
    Publish(Message),
    /// Hands a command to the owner of its keys.
    Execute(Command),
}

/// A step by content.
#[verifier::ext_equal]
pub enum StepModel {
    Reply { frame: FrameModel, released: Seq<WatchToken> },
    Close(FrameModel),
    Exec { commands: Seq<Command>, watched: Seq<WatchToken> },
    Watch { keys: Seq<Seq<u8>>, shard: Option<usize> },
    Subscribe(Seq<Bytes>),
    Unsubscribe(Seq<Bytes>),
    Publish(MessageModel),
    Execute(Command),
}

impl Step {
    pub open spec fn model(self) -> StepModel {
        match self {
            Step::Reply { frame, released } => StepModel::Reply {
                frame: frame.model(),
                released: released@,
            },
            Step::Close(frame) => StepModel::Close(frame.model()),
            Step::Exec { commands, watched } => StepModel::Exec {
                commands: commands@,
                watched: watched@,
            },
            Step::Watch { keys, shard } => StepModel::Watch {
                keys: pubsub::contents(keys@),
                shard,
            },
            Step::Subscribe(channels) => StepModel::Subscribe(channels@),
            Step::Unsubscribe(channels) => StepModel::Unsubscribe(channels@),
            Step::Publish(message) => StepModel::Publish(message.model()),
            Step::Execute(command) => StepModel::Execute(command),
        }
    }
}

/// The name of the command in a request, in small letters.
pub open spec fn request_name(frame: FrameModel) -> Seq<u8> {
    match frame {
        FrameModel::Array(Some(values)) => if values.len() > 0 {
            match values[0] {
                FrameModel::Bulk(Some(name)) => buffer::lower(name),
                _ => Seq::empty(),
            }
        } else {
            Seq::empty()
        },
        _ => Seq::empty(),
    }
}

/// The answer to a command that a subscriber may not send.
pub open spec fn out_of_place(name: Seq<u8>) -> FrameModel {
    FrameModel::Error(
        "ERR Can't execute '".spec_bytes() + lossy(name)
            + "': only (P|S)SUBSCRIBE / (P|S)UNSUBSCRIBE / PING / QUIT / RESET are allowed in this context".spec_bytes(),
    )
}

/// The answer to PING of a subscriber.
pub open spec fn subscriber_pong(payload: Option<Bytes>) -> FrameModel {
    FrameModel::Array(
        Some(
            seq![
                FrameModel::Bulk(Some("pong".spec_bytes())),
                FrameModel::Bulk(
                    Some(
                        match payload {
                            Some(payload) => buffer::bytes_content(payload),
                            None => Seq::empty(),
                        },
                    ),
                ),
            ],
        ),
    )
}

/// What a command that is not queued asks for.
pub open spec fn dispatched(command: Command, name: Seq<u8>, subscribed: bool) -> StepModel {
    match command {
        Command::Subscribe { channels } => StepModel::Subscribe(channels@),
        Command::Unsubscribe { channels } => StepModel::Unsubscribe(channels@),
        Command::Ping(payload) if subscribed => StepModel::Reply {
            frame: subscriber_pong(payload),
            released: Seq::empty(),
        },
        _ => if subscribed {
            StepModel::Reply { frame: out_of_place(name), released: Seq::empty() }
        } else {
            match command {
                Command::Publish { channel, message } => StepModel::Publish(
                    MessageModel {
                        channel: buffer::bytes_content(channel),
                        payload: buffer::bytes_content(message),
                    },
                ),
                _ => StepModel::Execute(command),
            }
        },
    }
}

/// What follows from a request: a refused one poisons the queue, and ends the
/// connection where its form is no request.
pub open spec fn stepped(
    state: TransactionModel,
    parsed: Result<Command, RequestError>,
    name: Seq<u8>,
    bytes: usize,
    limits: TransactionLimits,
    shards: int,
    readonly: bool,
    subscribed: bool,
) -> (TransactionModel, StepModel) {
    match parsed {
        Err(error) => {
            let frame = FrameModel::Error(parser::request_error_text(error));
            (
                transaction::poisoned(state),
                if error is InvalidFormat {
                    StepModel::Close(frame)
                } else {
                    StepModel::Reply { frame, released: Seq::empty() }
                },
            )
        },
        Ok(command) => {
            let (after, action) = transaction::handled(
                state,
                command,
                bytes,
                limits,
                shards,
                readonly,
                subscribed,
            );
            (
                after,
                match action {
                    ActionModel::Execute(command) => dispatched(command, name, subscribed),
                    ActionModel::Reply { frame, released } => StepModel::Reply {
                        frame,
                        released,
                    },
                    ActionModel::Exec { commands, watched } => StepModel::Exec {
                        commands,
                        watched,
                    },
                    ActionModel::Watch { keys, shard } => StepModel::Watch { keys, shard },
                },
            )
        },
    }
}

fn lowered(text: &[u8]) -> (result: Vec<u8>)
    ensures
        result@ == buffer::lower(text@),
{
    let mut result: Vec<u8> = Vec::new();
    let mut index: usize = 0;
    while index < text.len()
        invariant
            index <= text@.len(),
            result@ == buffer::lower(text@.take(index as int)),
        decreases text@.len() - index,
    {
        let byte: u8 = text[index];
        let ghost before = result@;
        result.push(
            if byte >= 65 && byte <= 90 {
                byte + 32
            } else {
                byte
            },
        );
        index += 1;
        assert(result@ =~= buffer::lower(text@.take(index as int)));
    }
    assert(text@.take(index as int) =~= text@);
    result
}

/// The name of the command in a request, in small letters.
pub fn command_name(frame: &Frame) -> (result: Vec<u8>)
    ensures
        result@ == request_name(frame.model()),
{
    if let Frame::Array(Some(values)) = frame {
        proof {
            frame::lemma_models(values@, values@.len());
        }
        if values.len() > 0 {
            assert(frame::models(values@, values@.len())[0] == values@[0].model());
            if let Frame::Bulk(Some(name)) = &values[0] {
                return lowered(as_slice(name));
            }
        }
    }
    let result: Vec<u8> = Vec::new();
    assert(result@ =~= Seq::empty());
    result
}

fn dispatch(command: Command, name: &[u8], subscribed: bool) -> (result: Step)
    ensures
        result.model() == dispatched(command, name@, subscribed),
{
    if subscribed {
        match command {
            Command::Subscribe { channels } => Step::Subscribe(channels),
            Command::Unsubscribe { channels } => Step::Unsubscribe(channels),
            Command::Ping(payload) => {
                let mut values: Vec<Frame> = Vec::new();
                values.push(Frame::Bulk(Some(from_text("pong"))));
                values.push(
                    Frame::Bulk(
                        Some(
                            match payload {
                                Some(payload) => payload,
                                None => {
                                    let none: Vec<u8> = Vec::new();
                                    assert(none@ =~= Seq::empty());
                                    from_vec(none)
                                },
                            },
                        ),
                    ),
                );
                proof {
                    frame::lemma_models(values@, values@.len());
                    assert(frame::models(values@, values@.len()) =~= subscriber_pong(
                        payload,
                    )->Array_0->Some_0);
                }
                let step = Step::Reply { frame: Frame::Array(Some(values)), released: Vec::new() };
                assert(step.model() =~= dispatched(command, name@, subscribed));
                step
            },
            _ => {
                let mut text: Vec<u8> = Vec::new();
                append(&mut text, "ERR Can't execute '".as_bytes());
                append(&mut text, lossy_text(name).as_slice());
                append(
                    &mut text,
                    "': only (P|S)SUBSCRIBE / (P|S)UNSUBSCRIBE / PING / QUIT / RESET are allowed in this context".as_bytes(),
                );
                assert(text@ =~= out_of_place(name@)->Error_0);
                let step = Step::Reply { frame: Frame::Error(from_vec(text)), released: Vec::new() };
                assert(step.model() =~= dispatched(command, name@, subscribed));
                step
            },
        }
    } else {
        match command {
            Command::Subscribe { channels } => Step::Subscribe(channels),
            Command::Unsubscribe { channels } => Step::Unsubscribe(channels),
            Command::Publish { channel, message } => Step::Publish(
                Message { channel, payload: message },
            ),
            other => Step::Execute(other),
        }
    }
}

/// Takes a request and says what to do.
pub fn next_step(
    transaction: &mut Transaction,
    parsed: Result<Command, RequestError>,
    name: &[u8],
    bytes: usize,
    limits: TransactionLimits,
    router: &ShardRouter,
    readonly: bool,
    subscribed: bool,
) -> (result: Step)
    requires
        old(transaction).wf(),
        router.wf(),
    ensures
        final(transaction).wf(),
        (final(transaction).model(), result.model()) == stepped(
            old(transaction).model(),
            parsed,
            name@,
            bytes,
            limits,
            router.shards(),
            readonly,
            subscribed,
        ),
{
    match parsed {
        Err(error) => {
            transaction.poison();
            if error.is_fatal() {
                return Step::Close(error.into_frame());
            }
            let step = Step::Reply { frame: error.into_frame(), released: Vec::new() };
            assert(step.model() =~= StepModel::Reply {
                frame: FrameModel::Error(parser::request_error_text(error)),
                released: Seq::empty(),
            });
            step
        },
        Ok(command) => match transaction.handle(
            command,
            bytes,
            limits,
            router,
            readonly,
            subscribed,
        ) {
            Action::Execute(command) => dispatch(command, name, subscribed),
            Action::Reply { frame, released } => Step::Reply { frame, released },
            Action::Exec { commands, watched } => Step::Exec { commands, watched },
            Action::Watch { keys, shard } => Step::Watch { keys, shard },
        },
    }
}

/// The limits of a reply. Those of input lines do not bind output.
pub open spec fn reply_limits(max_response_bytes: usize, limits: RespLimits) -> RespLimits {
    RespLimits {
        max_frame_bytes: max_response_bytes,
        max_bulk_bytes: max_response_bytes,
        max_line_bytes: max_response_bytes,
        ..limits
    }
}

pub fn response_limits(config: &ServerConfig) -> (result: RespLimits)
    ensures
        result == reply_limits(config.max_response_bytes, config.resp_limits),
{
    RespLimits {
        max_frame_bytes: config.max_response_bytes,
        max_bulk_bytes: config.max_response_bytes,
        max_line_bytes: config.max_response_bytes,
        max_nodes: config.resp_limits.max_nodes,
        max_depth: config.resp_limits.max_depth,
    }
}

/// The limits of a transaction.
pub fn transaction_limits(config: &ServerConfig) -> (result: TransactionLimits)
    ensures
        result == (TransactionLimits {
            max_commands: config.transaction_max_commands,
            max_bytes: config.transaction_max_bytes,
            max_watched: config.watch_max_keys,
        }),
{
    TransactionLimits {
        max_commands: config.transaction_max_commands,
        max_bytes: config.transaction_max_bytes,
        max_watched: config.watch_max_keys,
    }
}

/// Whether a frame can be written within limits.
pub open spec fn writable(frame: FrameModel, limits: RespLimits) -> bool {
    limits::limits_fault(limits) is None && encoder::frame_fault(frame, limits) is None
        && frame::encoding(frame).len() <= isize::MAX
}

/// Publishes a message, unless its notification could not be written.
pub fn publish(hub: &mut Hub, message: Message, limits: RespLimits) -> (result: Frame)
    requires
        old(hub).wf(),
    ensures
        final(hub).wf(),
        ({
            let (subscribers, count) = pubsub::offered(
                old(hub).model().subscribers,
                message.model(),
            );
            if writable(pubsub::notification(message.model()), limits) {
                &&& result.model() == FrameModel::Integer(count as i64)
                &&& final(hub).model() == (HubModel { subscribers, ..old(hub).model() })
            } else {
                &&& result.model() == FrameModel::Error(
                    "ERR pubsub message exceeds response limit".spec_bytes(),
                )
                &&& final(hub).model() == old(hub).model()
            }
        }),
{
    let notice = message.duplicate().into_frame();
    let fits = limits.validate().is_ok() && match encoded_size(&notice, limits) {
        Ok(size) => size <= isize::MAX as usize,
        Err(_) => false,
    };
    if !fits {
        return Frame::Error(from_text("ERR pubsub message exceeds response limit"));
    }
    Frame::Integer(hub.publish(&message))
}

/// How the input of a connection ends.
#[derive(Clone, Copy, Debug, PartialEq, Eq, Structural)]
pub enum InputEnd {
    /// Between two requests.
    Clean,
    /// Inside a request, which is lost.
    Truncated,
}

/// How the input ends when this many bytes of it were not taken as a request.
pub fn end_of_input(pending: usize) -> (result: InputEnd)
    ensures
        result == if pending == 0 {
            InputEnd::Clean
        } else {
            InputEnd::Truncated
        },
{
    if pending == 0 {
        InputEnd::Clean
    } else {
        InputEnd::Truncated
    }
}

/// How many bytes a connection may read, or nothing where its buffer is full.
pub fn read_room(max_buffer: usize, buffered: usize, chunk: usize) -> (result: Option<usize>)
    ensures
        result == if buffered >= max_buffer {
            None::<usize>
        } else if max_buffer - buffered < chunk {
            Some((max_buffer - buffered) as usize)
        } else {
            Some(chunk)
        },
{
    if buffered >= max_buffer {
        return None;
    }
    let available: usize = max_buffer - buffered;
    if available < chunk {
        Some(available)
    } else {
        Some(chunk)
    }
}

/// When the frame that is being read began, in nanoseconds of the clock. A frame
/// keeps its age while earlier requests are answered.
#[derive(Clone, Copy, Debug, PartialEq, Eq, Structural)]
pub struct FrameTimer {
    pub started: Option<u128>,
    pub last_read: Option<u128>,
}

impl FrameTimer {
    pub fn new() -> (result: Self)
        ensures
            result.started is None && result.last_read is None,
    {
        FrameTimer { started: None, last_read: None }
    }

    /// A whole frame was taken. Reading goes on only while a frame is
    /// incomplete, so what is left came with the last bytes read.
    pub fn taken(&mut self, nothing_left: bool)
        ensures
            *final(self) == (FrameTimer {
                started: if nothing_left {
                    None
                } else {
                    old(self).last_read
                },
                ..*old(self)
            }),
    {
        self.started = if nothing_left {
            None
        } else {
            self.last_read
        };
    }

    /// Bytes arrived. The first ones start the age of a frame, later ones do not
    /// renew it.
    pub fn arrived(&mut self, now: u128)
        ensures
            *final(self) == (FrameTimer {
                started: match old(self).started {
                    Some(started) => Some(started),
                    None => Some(now),
                },
                last_read: Some(now),
            }),
    {
        if self.started.is_none() {
            self.started = Some(now);
        }
        self.last_read = Some(now);
    }

    /// When the frame has to be complete; a connection without one may idle. A
    /// deadline that the clock cannot count is over.
    pub fn deadline(&self, timeout: u128) -> (result: Result<Option<u128>, ()>)
        ensures
            result == match self.started {
                None => Ok::<Option<u128>, ()>(None),
                Some(started) => if started + timeout > u128::MAX {
                    Err(())
                } else {
                    Ok(Some((started + timeout) as u128))
                },
            },
    {
        match self.started {
            None => Ok(None),
            Some(started) => if started > u128::MAX - timeout {
                Err(())
            } else {
                Ok(Some(started + timeout))
            },
        }
    }
}

} // verus!
