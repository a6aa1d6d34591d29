//! The answer to EXEC, with what depends on the connection filled in.

use super::request::publish;
use crate::command::reply::{Reply, ReplyModel};
use crate::command::types::Command;
use crate::pubsub::{Hub, Message, MessageModel, SubscriberModel};
use crate::resp::frame::{Frame, FrameModel};
use crate::resp::limits::RespLimits;
use crate::buffer;
use crate::command::reply;
use crate::connection::request;
use crate::pubsub;
use crate::resp::frame;
use bytes::Bytes;
use vstd::prelude::*;
use vstd::string::*;

verus! {

/// What one command of a transaction is answered, and the subscribers after it. A
/// message is published, an inquiry gets its text; for the rest the answer of the
/// store stands.
pub open spec fn answered(
    subscribers: Seq<SubscriberModel>,
    command: Command,
    reply: ReplyModel,
    text: Option<Bytes>,
    limits: RespLimits,
) -> (Seq<SubscriberModel>, FrameModel) {
    match (command, text) {
        (Command::Publish { channel, message }, _) => {
            let message = MessageModel {
                channel: buffer::bytes_content(channel),
                payload: buffer::bytes_content(message),
            };
            if request::writable(pubsub::notification(message), limits) {
                let (after, count) = pubsub::offered(subscribers, message);
                (after, FrameModel::Integer(count as i64))
            } else {
                (
                    subscribers,
                    FrameModel::Error("ERR pubsub message exceeds response limit".spec_bytes()),
                )
            }
        },
        (Command::Info(_), Some(text)) => (
            subscribers,
            FrameModel::Bulk(Some(buffer::bytes_content(text))),
        ),
        _ => (subscribers, reply::frame_of(reply)),
    }
}

/// The answers to the first `count` commands of a transaction, in their order.
pub open spec fn answers(
    subscribers: Seq<SubscriberModel>,
    commands: Seq<Command>,
    replies: Seq<ReplyModel>,
    texts: Seq<Option<Bytes>>,
    limits: RespLimits,
    count: nat,
) -> (Seq<SubscriberModel>, Seq<FrameModel>)
    decreases count,
{
    if count == 0 {
        (subscribers, Seq::empty())
    } else {
        let before = answers(subscribers, commands, replies, texts, limits, (count - 1) as nat);
        let (after, frame) = answered(
            before.0,
            commands[count - 1],
            replies[count - 1],
            texts[count - 1],
            limits,
        );
        (after, before.1.push(frame))
    }
}

/// The answer to EXEC. Where the store did not answer command by command, nothing is
/// published and its answer stands.
pub open spec fn completed_exec(
    subscribers: Seq<SubscriberModel>,
    commands: Seq<Command>,
    reply: ReplyModel,
    texts: Seq<Option<Bytes>>,
    limits: RespLimits,
) -> (Seq<SubscriberModel>, FrameModel) {
    match reply {
        ReplyModel::Array(replies) if replies.len() == commands.len() && texts.len()
            == commands.len() => {
            let (after, frames) = answers(
                subscribers,
                commands,
                replies,
                texts,
                limits,
                commands.len(),
            );
            (after, FrameModel::Array(Some(frames)))
        },
        _ => (subscribers, reply::frame_of(reply)),
    }
}

fn answer(
    hub: &mut Hub,
    command: &Command,
    reply: &Reply,
    text: &Option<Bytes>,
    limits: RespLimits,
) -> (frame: Frame)
    requires
        old(hub).wf(),
    ensures
        final(hub).wf(),
        (final(hub).model().subscribers, frame.model()) == answered(
            old(hub).model().subscribers,
            *command,
            reply.model(),
            *text,
            limits,
        ),
        final(hub).model().next_id == old(hub).model().next_id,
{
    match command {
        Command::Publish { channel, message } => publish(
            hub,
            Message { channel: channel.clone(), payload: message.clone() },
            limits,
        ),
        Command::Info(_) => match text {
            Some(text) => Frame::Bulk(Some(text.clone())),
            None => reply.into_frame(),
        },
        _ => reply.into_frame(),
    }
}

/// Makes the answer to EXEC out of what the store answered. `texts` holds the text
/// for each command that asks for one.
pub fn complete_exec(
    hub: &mut Hub,
    commands: &Vec<Command>,
    reply: &Reply,
    texts: &Vec<Option<Bytes>>,
    limits: RespLimits,
) -> (frame: Frame)
    requires
        old(hub).wf(),
    ensures
        final(hub).wf(),
        (final(hub).model().subscribers, frame.model()) == completed_exec(
            old(hub).model().subscribers,
            commands@,
            reply.model(),
            texts@,
            limits,
        ),
        final(hub).model().next_id == old(hub).model().next_id,
{
    let ghost before = hub.model();
    if let Reply::Array(replies) = reply {
        proof {
            reply::lemma_reply_models(replies@, replies@.len());
        }
        if replies.len() == commands.len() && texts.len() == commands.len() {
            let ghost models = reply::reply_models(replies@, replies@.len());
            let mut frames: Vec<Frame> = Vec::new();
            let mut index: usize = 0;
            while index < commands.len()
                invariant
                    hub.wf(),
                    index <= commands@.len(),
                    replies@.len() == commands@.len(),
                    texts@.len() == commands@.len(),
                    models.len() == replies@.len(),
                    forall|i: int|
                        0 <= i < models.len() ==> #[trigger] models[i] == replies@[i].model(),
                    frames@.len() == index,
                    hub.model().next_id == before.next_id,
                    (hub.model().subscribers, frame::models(frames@, frames@.len())) == answers(
                        before.subscribers,
                        commands@,
                        models,
                        texts@,
                        limits,
                        index as nat,
                    ),
                decreases commands@.len() - index,
            {
                let ghost earlier = frames@;
                let frame = answer(hub, &commands[index], &replies[index], &texts[index], limits);
                assert(models[index as int] == replies@[index as int].model());
                frames.push(frame);
                proof {
                    frame::lemma_models(earlier, earlier.len());
                    frame::lemma_models(frames@, frames@.len());
                    assert(frame::models(frames@, frames@.len()) =~= frame::models(
                        earlier,
                        earlier.len(),
                    ).push(frame.model()));
                }
                index += 1;
            }
            return Frame::Array(Some(frames));
        }
    }
    reply.into_frame()
}

/// A transaction that did not take place publishes nothing.
pub proof fn law_refused_transactions_publish_nothing(
    subscribers: Seq<SubscriberModel>,
    commands: Seq<Command>,
    reply: ReplyModel,
    texts: Seq<Option<Bytes>>,
    limits: RespLimits,
)
    requires
        reply is NullArray || reply is Error,
    ensures
        completed_exec(subscribers, commands, reply, texts, limits) == (
            subscribers,
            reply::frame_of(reply),
        ),
{
}

} // verus!
