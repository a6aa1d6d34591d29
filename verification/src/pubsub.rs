//! Short-lived register of binary channels, independent of the store and of the
//! log. The order in which messages are published is the order in which every
//! subscriber gets them.

use crate::buffer::{as_slice, from_text};
use crate::ordered::ByteMap;
use crate::resp::frame::{Frame, FrameModel};
use crate::buffer;
use crate::ordered;
use crate::resp::frame;
use bytes::Bytes;
use std::collections::VecDeque;
use vstd::prelude::*;
use vstd::string::*;

verus! {

#[derive(Clone, Debug, PartialEq, Eq)]
pub struct Message {
    pub channel: Bytes,
    pub payload: Bytes,
}

/// A message by content.
#[verifier::ext_equal]
pub struct MessageModel {
    pub channel: Seq<u8>,
    pub payload: Seq<u8>,
}

/// The frame that a subscriber gets.
pub open spec fn notification(message: MessageModel) -> FrameModel {
    FrameModel::Array(
        Some(
            seq![
                FrameModel::Bulk(Some("message".spec_bytes())),
                FrameModel::Bulk(Some(message.channel)),
                FrameModel::Bulk(Some(message.payload)),
            ],
        ),
    )
}

/// The frame that answers a change of subscriptions.
pub open spec fn confirmation(kind: &'static str, channel: Option<Seq<u8>>, count: nat) -> FrameModel {
    FrameModel::Array(
        Some(
            seq![
                FrameModel::Bulk(Some(kind.spec_bytes())),
                FrameModel::Bulk(channel),
                FrameModel::Integer(count as i64),
            ],
        ),
    )
}

fn triple(first: Frame, second: Frame, third: Frame) -> (result: Frame)
    ensures
        result.model() == FrameModel::Array(Some(seq![first.model(), second.model(), third.model()])),
{
    let mut values: Vec<Frame> = Vec::new();
    values.push(first);
    values.push(second);
    values.push(third);
    proof {
        frame::lemma_models(values@, values@.len());
        assert(frame::models(values@, values@.len()) =~= seq![
            first.model(),
            second.model(),
            third.model(),
        ]);
    }
    Frame::Array(Some(values))
}

impl Message {
    pub open spec fn model(self) -> MessageModel {
        MessageModel {
            channel: buffer::bytes_content(self.channel),
            payload: buffer::bytes_content(self.payload),
        }
    }

    pub fn duplicate(&self) -> (result: Message)
        ensures
            result.model() == self.model(),
    {
        Message { channel: self.channel.clone(), payload: self.payload.clone() }
    }

    pub fn into_frame(self) -> (result: Frame)
        ensures
            result.model() == notification(self.model()),
    {
        triple(
            Frame::Bulk(Some(from_text("message"))),
            Frame::Bulk(Some(self.channel)),
            Frame::Bulk(Some(self.payload)),
        )
    }
}

/// Confirms a change of subscriptions.
pub fn confirm(kind: &'static str, channel: Option<Bytes>, count: usize) -> (result: Frame)
    ensures
        result.model() == confirmation(kind, content_of(channel), count as nat),
{
    triple(Frame::Bulk(Some(from_text(kind))), Frame::Bulk(channel), Frame::Integer(count as i64))
}

pub open spec fn content_of(channel: Option<Bytes>) -> Option<Seq<u8>> {
    match channel {
        Some(channel) => Some(buffer::bytes_content(channel)),
        None => None,
    }
}

#[derive(Clone, Copy, Debug, PartialEq, Eq, Structural)]
pub enum PubSubError {
    ChannelLimit,
    /// The subscriber ended, or its queue of notifications was full.
    Closed,
}

impl PubSubError {
    pub open spec fn text(self) -> &'static str {
        match self {
            PubSubError::ChannelLimit => "ERR pubsub channel limit exceeded",
            PubSubError::Closed => "assinante encerrado ou fila de notificações cheia",
        }
    }

    pub fn message(self) -> (result: &'static str)
        ensures
            result == self.text(),
    {
        match self {
            PubSubError::ChannelLimit => "ERR pubsub channel limit exceeded",
            PubSubError::Closed => "assinante encerrado ou fila de notificações cheia",
        }
    }
}

struct Subscriber {
    id: u64,
    channels: ByteMap<()>,
    queue: VecDeque<Message>,
    capacity: usize,
}

/// A subscriber by content: the channels it listens to, and the messages that
/// wait for it.
#[verifier::ext_equal]
pub struct SubscriberModel {
    pub id: u64,
    pub channels: Set<Seq<u8>>,
    pub queue: Seq<MessageModel>,
    pub capacity: nat,
}

pub open spec fn message_models(messages: Seq<Message>) -> Seq<MessageModel> {
    messages.map_values(|message: Message| message.model())
}

impl Subscriber {
    spec fn model(&self) -> SubscriberModel {
        SubscriberModel {
            id: self.id,
            channels: self.channels@.dom(),
            queue: message_models(self.queue@),
            capacity: self.capacity as nat,
        }
    }
}

/// All subscribers, the oldest connection first.
pub struct Hub {
    next_id: u64,
    subscribers: Vec<Subscriber>,
}

/// The register by content.
#[verifier::ext_equal]
pub struct HubModel {
    pub next_id: u64,
    pub subscribers: Seq<SubscriberModel>,
}

spec fn subscriber_models(subscribers: Seq<Subscriber>) -> Seq<SubscriberModel> {
    subscribers.map_values(|subscriber: Subscriber| subscriber.model())
}

/// Numbers grow with each connection, so none is given twice.
pub open spec fn numbered(hub: HubModel) -> bool {
    &&& forall|i: int, j: int|
        #![trigger hub.subscribers[i], hub.subscribers[j]]
        0 <= i < j < hub.subscribers.len() ==> hub.subscribers[i].id < hub.subscribers[j].id
    &&& forall|i: int|
        0 <= i < hub.subscribers.len() ==> (#[trigger] hub.subscribers[i]).id < hub.next_id
}

/// Whether a connection is still registered.
pub open spec fn present(hub: HubModel, id: u64) -> bool {
    exists|i: int| 0 <= i < hub.subscribers.len() && (#[trigger] hub.subscribers[i]).id == id
}

/// Where a connection is registered.
pub open spec fn place(hub: HubModel, id: u64) -> int {
    choose|i: int| 0 <= i < hub.subscribers.len() && (#[trigger] hub.subscribers[i]).id == id
}

/// What a connection listens to.
pub open spec fn subscriber(hub: HubModel, id: u64) -> SubscriberModel {
    hub.subscribers[place(hub, id)]
}

/// The register with another state of one connection.
pub open spec fn replaced(hub: HubModel, id: u64, subscriber: SubscriberModel) -> HubModel {
    HubModel { subscribers: hub.subscribers.update(place(hub, id), subscriber), ..hub }
}

/// The register without a connection.
pub open spec fn without(hub: HubModel, id: u64) -> HubModel {
    if present(hub, id) {
        HubModel { subscribers: hub.subscribers.remove(place(hub, id)), ..hub }
    } else {
        hub
    }
}

/// The subscribers after a message was offered to all that listen to its
/// channel, and how many took it. One whose queue is full is dropped.
pub open spec fn offered(subscribers: Seq<SubscriberModel>, message: MessageModel) -> (
    Seq<SubscriberModel>,
    nat,
)
    decreases subscribers.len(),
{
    if subscribers.len() == 0 {
        (subscribers, 0)
    } else {
        let (before, count) = offered(subscribers.drop_last(), message);
        let last = subscribers.last();
        if !last.channels.contains(message.channel) {
            (before.push(last), count)
        } else if last.queue.len() < last.capacity {
            (
                before.push(SubscriberModel { queue: last.queue.push(message), ..last }),
                count + 1,
            )
        } else {
            (before, count)
        }
    }
}

/// All channels that somebody listens to.
pub open spec fn all_channels(subscribers: Seq<SubscriberModel>) -> Set<Seq<u8>>
    decreases subscribers.len(),
{
    if subscribers.len() == 0 {
        Set::empty()
    } else {
        all_channels(subscribers.drop_last()).union(subscribers.last().channels)
    }
}

/// How many connections listen to a channel.
pub open spec fn listening(subscribers: Seq<SubscriberModel>) -> nat
    decreases subscribers.len(),
{
    if subscribers.len() == 0 {
        0
    } else {
        listening(subscribers.drop_last()) + if subscribers.last().channels.len() > 0 {
            1nat
        } else {
            0
        }
    }
}

/// How many subscriptions there are.
pub open spec fn subscriptions(subscribers: Seq<SubscriberModel>) -> nat
    decreases subscribers.len(),
{
    if subscribers.len() == 0 {
        0
    } else {
        subscriptions(subscribers.drop_last()) + subscribers.last().channels.len()
    }
}

/// How many channels, listening connections and subscriptions there are.
#[derive(Clone, Copy, Debug, PartialEq, Eq, Structural)]
pub struct Census {
    pub channels: usize,
    pub subscribers: usize,
    pub subscriptions: u64,
}

/// The channels in a list.
pub open spec fn listed(channels: Seq<Bytes>) -> Set<Seq<u8>> {
    Set::new(
        |channel: Seq<u8>|
            exists|i: int|
                0 <= i < channels.len() && buffer::bytes_content(#[trigger] channels[i]) == channel,
    )
}

/// Frames by content.
pub open spec fn shown(frames: Seq<Frame>) -> Seq<FrameModel> {
    frames.map_values(|frame: Frame| frame.model())
}

/// The notifications of waiting messages.
pub open spec fn notifications(queue: Seq<MessageModel>) -> Seq<FrameModel> {
    queue.map_values(|message: MessageModel| notification(message))
}

/// The confirmations of subscriptions, one for each channel in the list.
pub open spec fn subscribed(held: Set<Seq<u8>>, channels: Seq<Bytes>) -> Seq<FrameModel> {
    Seq::new(
        channels.len(),
        |i: int|
            confirmation(
                "subscribe",
                Some(buffer::bytes_content(channels[i])),
                held.union(listed(channels.take(i + 1))).len(),
            ),
    )
}

/// The confirmations of ended subscriptions, one for each channel in the list.
pub open spec fn unsubscribed(held: Set<Seq<u8>>, channels: Seq<Seq<u8>>) -> Seq<FrameModel> {
    Seq::new(
        channels.len(),
        |i: int|
            confirmation(
                "unsubscribe",
                Some(channels[i]),
                held.difference(channels.take(i + 1).to_set()).len(),
            ),
    )
}

pub open spec fn contents(channels: Seq<Bytes>) -> Seq<Seq<u8>> {
    channels.map_values(|channel: Bytes| buffer::bytes_content(channel))
}

/// The channels that UNSUBSCRIBE means: those named, or all that are held.
pub open spec fn ended(held: Set<Seq<u8>>, channels: Seq<Bytes>) -> Seq<Seq<u8>> {
    if channels.len() == 0 {
        ordered::listing(held)
    } else {
        contents(channels)
    }
}

/// What UNSUBSCRIBE answers, waiting messages first.
pub open spec fn unsubscribe_answer(
    subscriber: SubscriberModel,
    channels: Seq<Bytes>,
) -> Seq<FrameModel> {
    let ended = ended(subscriber.channels, channels);
    notifications(subscriber.queue) + if ended.len() == 0 {
        seq![confirmation("unsubscribe", None, 0)]
    } else {
        unsubscribed(subscriber.channels, ended)
    }
}

/// The register after a connection asked for channels, and what it is answered, waiting
/// messages first. All channels are added or none.
pub open spec fn subscribing(before: HubModel, id: u64, limit: usize, channels: Seq<Bytes>) -> Result<
    (HubModel, Seq<FrameModel>),
    PubSubError,
> {
    let held = subscriber(before, id);
    let wanted = held.channels.union(listed(channels));
    if !present(before, id) {
        Err(PubSubError::Closed)
    } else if wanted.len() > limit {
        Err(PubSubError::ChannelLimit)
    } else {
        Ok(
            (
                replaced(
                    before,
                    id,
                    SubscriberModel { channels: wanted, queue: Seq::empty(), ..held },
                ),
                notifications(held.queue) + subscribed(held.channels, channels),
            ),
        )
    }
}

/// The register after a connection left channels, and what it is answered.
pub open spec fn unsubscribing(before: HubModel, id: u64, channels: Seq<Bytes>) -> Result<
    (HubModel, Seq<FrameModel>),
    PubSubError,
> {
    let held = subscriber(before, id);
    if !present(before, id) {
        Err(PubSubError::Closed)
    } else {
        Ok(
            (
                replaced(
                    before,
                    id,
                    SubscriberModel {
                        channels: held.channels.difference(ended(held.channels, channels).to_set()),
                        queue: Seq::empty(),
                        ..held
                    },
                ),
                unsubscribe_answer(held, channels),
            ),
        )
    }
}

/// The message that a connection takes, if one waits for it, and the register after that.
pub open spec fn handed(before: HubModel, id: u64) -> Option<(HubModel, MessageModel)> {
    let waiting = subscriber(before, id);
    if present(before, id) && waiting.queue.len() > 0 {
        Some(
            (
                replaced(before, id, SubscriberModel { queue: waiting.queue.skip(1), ..waiting }),
                waiting.queue[0],
            ),
        )
    } else {
        None
    }
}

fn copy_channels(channels: &ByteMap<()>) -> (result: ByteMap<()>)
    requires
        channels.wf(),
    ensures
        result.wf(),
        result@ == channels@,
{
    let mut items: Vec<(Bytes, ())> = Vec::new();
    let mut index: usize = 0;
    while index < channels.items.len()
        invariant
            index <= channels.items@.len(),
            items@.len() == index,
            forall|i: int|
                0 <= i < index ==> buffer::bytes_content((#[trigger] items@[i]).0)
                    == channels.key_at(i),
        decreases channels.items@.len() - index,
    {
        items.push((channels.items[index].0.clone(), ()));
        index += 1;
    }
    let result = ByteMap { items };
    proof {
        assert forall|i: int| 0 <= i < result.items@.len() implies #[trigger] result.key_at(i)
            == channels.key_at(i) by {}
        assert(result.wf());
        assert forall|key: Seq<u8>| result@.contains_key(key) <==> channels@.contains_key(key) by {
            if result.holds(key) {
                let i = result.place(key);
                assert(channels.key_at(i) == key);
            }
            if channels.holds(key) {
                let i = channels.place(key);
                assert(result.key_at(i) == key);
            }
        }
        assert(result@ =~= channels@);
    }
    result
}

/// The notifications of waiting messages, which leave the queue.
fn drain(queue: &mut VecDeque<Message>) -> (frames: Vec<Frame>)
    ensures
        shown(frames@) == notifications(message_models(old(queue)@)),
        final(queue)@.len() == 0,
{
    let ghost all = queue@;
    let mut frames: Vec<Frame> = Vec::new();
    let mut more: bool = true;
    while more
        invariant
            frames@.len() + queue@.len() == all.len(),
            queue@ == all.skip(frames@.len() as int),
            forall|i: int|
                0 <= i < frames@.len() ==> (#[trigger] frames@[i]).model() == notification(
                    all[i].model(),
                ),
            !more ==> queue@.len() == 0,
        decreases queue@.len() + if more {
            1int
        } else {
            0
        },
    {
        match queue.pop_front() {
            Some(message) => {
                frames.push(message.into_frame());
                assert(queue@ =~= all.skip(frames@.len() as int));
            },
            None => {
                more = false;
            },
        }
    }
    assert(shown(frames@) =~= notifications(message_models(all)));
    frames
}

impl Hub {
    pub closed spec fn model(&self) -> HubModel {
        HubModel { next_id: self.next_id, subscribers: subscriber_models(self.subscribers@) }
    }

    pub closed spec fn wf(&self) -> bool {
        &&& numbered(self.model())
        &&& forall|i: int|
            0 <= i < self.subscribers@.len() ==> (#[trigger] self.subscribers@[i]).channels.wf()
    }

    pub fn new() -> (result: Hub)
        ensures
            result.wf(),
            result.model() == (HubModel { next_id: 0, subscribers: Seq::empty() }),
    {
        let result = Hub { next_id: 0, subscribers: Vec::new() };
        assert(result.model().subscribers =~= Seq::empty());
        result
    }

    /// How many connections are registered.
    pub fn len(&self) -> (result: usize)
        ensures
            result == self.model().subscribers.len(),
    {
        self.subscribers.len()
    }

    /// Registers a connection without subscriptions.
    pub fn connect(&mut self, max_channels: usize, capacity: usize) -> (result: Result<
        Subscription,
        PubSubError,
    >)
        requires
            old(self).wf(),
        ensures
            final(self).wf(),
            match result {
                Ok(subscription) => {
                    &&& old(self).model().next_id < u64::MAX
                    &&& subscription.number() == old(self).model().next_id
                    &&& subscription.limit() == max_channels
                    &&& final(self).model() == (HubModel {
                        next_id: (old(self).model().next_id + 1) as u64,
                        subscribers: old(self).model().subscribers.push(
                            SubscriberModel {
                                id: subscription.number(),
                                channels: Set::empty(),
                                queue: Seq::empty(),
                                capacity: capacity as nat,
                            },
                        ),
                    })
                },
                Err(error) => {
                    &&& old(self).model().next_id == u64::MAX
                    &&& error == PubSubError::Closed
                    &&& final(self).model() == old(self).model()
                },
            },
    {
        let id: u64 = self.next_id;
        if id == u64::MAX {
            return Err(PubSubError::Closed);
        }
        let ghost before = self.model().subscribers;
        let entry = Subscriber {
            id,
            channels: ByteMap::new(),
            queue: VecDeque::new(),
            capacity,
        };
        self.next_id = id + 1;
        assert(entry.model() =~= SubscriberModel {
            id,
            channels: Set::empty(),
            queue: Seq::empty(),
            capacity: capacity as nat,
        });
        self.subscribers.push(entry);
        proof {
            assert(self.model().subscribers =~= before.push(entry.model()));
        }
        Ok(Subscription { id, max_channels })
    }

    /// Counts the queues that took the message; that says nothing of reading. A
    /// full queue ends all subscriptions of its connection.
    pub fn publish(&mut self, message: &Message) -> (accepted: i64)
        requires
            old(self).wf(),
        ensures
            final(self).wf(),
            ({
                let (subscribers, count) = offered(old(self).model().subscribers, message.model());
                &&& final(self).model() == (HubModel { subscribers, ..old(self).model() })
                &&& accepted == count as i64
            }),
    {
        let ghost all = self.model().subscribers;
        let ghost start = *self;
        let mut accepted: usize = 0;
        let mut index: usize = 0;
        let ghost mut seen: int = 0;
        assert(all.take(0) =~= Seq::empty());
        while index < self.subscribers.len()
            invariant
                self.wf(),
                self.next_id == start.next_id,
                0 <= seen <= all.len(),
                index <= self.subscribers@.len(),
                self.subscribers@.len() - index == all.len() - seen,
                accepted <= index,
                offered(all.take(seen), message.model()) == (
                    self.model().subscribers.take(index as int),
                    accepted as nat,
                ),
                self.model().subscribers.skip(index as int) == all.skip(seen),
            decreases self.subscribers@.len() - index,
        {
            let ghost models = self.model().subscribers;
            proof {
                assert(models.skip(index as int)[0] == all.skip(seen)[0]);
                assert(models[index as int] == all[seen]);
                assert(all.take(seen + 1).drop_last() =~= all.take(seen));
                assert(all.skip(seen).skip(1) =~= all.skip(seen + 1));
                assert(models.skip(index as int).skip(1) =~= models.skip(index + 1));
                assert(self.subscribers@[index as int].model() == models[index as int]);
            }
            let room: usize = self.subscribers[index].capacity;
            if !self.subscribers[index].channels.contains(as_slice(&message.channel)) {
                index += 1;
                assert(self.model().subscribers.take(index as int) =~= models.take(
                    index - 1,
                ).push(models[index - 1]));
            } else if self.subscribers[index].queue.len() < room {
                let ghost older = self.subscribers@[index as int].queue@;
                let copied = message.duplicate();
                self.subscribers[index].queue.push_back(copied);
                accepted += 1;
                index += 1;
                proof {
                    let subscriber = self.subscribers@[index - 1];
                    assert(subscriber.queue@ == older.push(copied));
                    assert(message_models(subscriber.queue@) =~= message_models(older).push(
                        message.model(),
                    ));
                    let now = self.model().subscribers;
                    assert(now =~= models.update(index - 1, subscriber.model()));
                    assert(now.take(index as int) =~= models.take(index - 1).push(
                        subscriber.model(),
                    ));
                    assert(now.skip(index as int) =~= models.skip(index as int));
                }
            } else {
                let _ = self.subscribers.remove(index);
                proof {
                    let now = self.model().subscribers;
                    assert(now =~= models.remove(index as int));
                    assert(now.take(index as int) =~= models.take(index as int));
                    assert(now.skip(index as int) =~= models.skip(index + 1));
                }
            }
            proof {
                seen = seen + 1;
                assert(self.model().subscribers.skip(index as int) =~= all.skip(seen));
            }
        }
        proof {
            assert(all.take(seen) =~= all);
            assert(self.model().subscribers.take(index as int) =~= self.model().subscribers);
        }
        accepted as i64
    }

    /// Counts what is registered.
    pub fn census(&self) -> (result: Census)
        requires
            self.wf(),
        ensures
            ({
                let subscribers = self.model().subscribers;
                &&& result.channels == all_channels(subscribers).len()
                &&& result.subscribers == listening(subscribers)
                &&& result.subscriptions == if subscriptions(subscribers) > u64::MAX {
                    u64::MAX as int
                } else {
                    subscriptions(subscribers) as int
                }
            }),
    {
        let ghost models = self.model().subscribers;
        let mut channels: ByteMap<()> = ByteMap::new();
        let mut subscribers: usize = 0;
        let mut count: u64 = 0;
        let mut index: usize = 0;
        assert(models.take(0) =~= Seq::empty());
        assert(channels@.dom() =~= Set::empty());
        while index < self.subscribers.len()
            invariant
                self.wf(),
                models == self.model().subscribers,
                index <= self.subscribers@.len(),
                channels.wf(),
                channels@.dom() == all_channels(models.take(index as int)),
                subscribers == listening(models.take(index as int)),
                subscribers <= index,
                count == if subscriptions(models.take(index as int)) > u64::MAX {
                    u64::MAX as int
                } else {
                    subscriptions(models.take(index as int)) as int
                },
            decreases self.subscribers@.len() - index,
        {
            let held = &self.subscribers[index].channels;
            let ghost known = channels@.dom();
            proof {
                assert(models.take(index + 1).drop_last() =~= models.take(index as int));
                assert(models[index as int] == self.subscribers@[index as int].model());
                held.lemma_keys();
            }
            let mut next: usize = 0;
            while next < held.items.len()
                invariant
                    held.wf(),
                    channels.wf(),
                    next <= held.items@.len(),
                    forall|channel: Seq<u8>| #[trigger]
                        channels@.contains_key(channel) <==> known.contains(channel) || exists|
                            i: int,
                        | 0 <= i < next && #[trigger] held.key_at(i) == channel,
                decreases held.items@.len() - next,
            {
                let ghost before = channels@;
                let _ = channels.insert(held.items[next].0.clone(), ());
                proof {
                    let fresh = held.key_at(next as int);
                    assert forall|channel: Seq<u8>| #[trigger]
                        channels@.contains_key(channel) <==> known.contains(channel) || exists|
                            i: int,
                        | 0 <= i < next + 1 && #[trigger] held.key_at(i) == channel by {
                        if channel == fresh {
                            assert(held.key_at(next as int) == channel);
                        }
                    }
                }
                next += 1;
            }
            proof {
                assert(channels@.dom() =~= known.union(held@.dom())) by {
                    assert forall|channel: Seq<u8>| channels@.dom().contains(channel)
                        <==> known.union(held@.dom()).contains(channel) by {
                        if held@.contains_key(channel) {
                            held.lemma_place(channel);
                        }
                        if exists|i: int| 0 <= i < next && #[trigger] held.key_at(i) == channel {
                            let i = choose|i: int|
                                0 <= i < next && #[trigger] held.key_at(i) == channel;
                            held.lemma_at(i);
                        }
                    }
                }
            }
            if held.len() > 0 {
                subscribers += 1;
            }
            let size: u64 = held.len() as u64;
            count = if count > u64::MAX - size {
                u64::MAX
            } else {
                count + size
            };
            index += 1;
        }
        proof {
            assert(models.take(index as int) =~= models);
            channels.lemma_keys();
        }
        Census { channels: channels.len(), subscribers, subscriptions: count }
    }

    /// Where a connection is registered.
    fn find(&self, id: u64) -> (result: Option<usize>)
        requires
            self.wf(),
        ensures
            match result {
                Some(index) => present(self.model(), id) && index == place(self.model(), id)
                    && index < self.subscribers@.len(),
                None => !present(self.model(), id),
            },
    {
        let mut index: usize = 0;
        let ghost models = self.model().subscribers;
        while index < self.subscribers.len()
            invariant
                self.wf(),
                models == self.model().subscribers,
                index <= self.subscribers@.len(),
                forall|i: int| 0 <= i < index ==> (#[trigger] models[i]).id != id,
            decreases self.subscribers@.len() - index,
        {
            assert(models[index as int] == self.subscribers@[index as int].model());
            if self.subscribers[index].id == id {
                return Some(index);
            }
            index += 1;
        }
        None
    }
}

/// The subscriptions of one connection. It is closed when the connection ends.
pub struct Subscription {
    id: u64,
    max_channels: usize,
}

impl Subscription {
    /// The number of the connection.
    pub closed spec fn number(&self) -> u64 {
        self.id
    }

    /// How many channels the connection may listen to.
    pub closed spec fn limit(&self) -> usize {
        self.max_channels
    }

    /// Ends all subscriptions of the connection.
    pub fn close(self, hub: &mut Hub)
        requires
            old(hub).wf(),
        ensures
            final(hub).wf(),
            final(hub).model() == without(old(hub).model(), self.number()),
    {
        let ghost models = hub.model().subscribers;
        if let Some(index) = hub.find(self.id) {
            let _ = hub.subscribers.remove(index);
            assert(hub.model().subscribers =~= models.remove(index as int));
        }
    }

    /// Whether the connection listens to a channel.
    pub fn active(&self, hub: &Hub) -> (result: bool)
        requires
            hub.wf(),
        ensures
            result == (present(hub.model(), self.number()) && subscriber(
                hub.model(),
                self.number(),
            ).channels.len() > 0),
    {
        match hub.find(self.id) {
            None => false,
            Some(index) => {
                proof {
                    hub.subscribers@[index as int].channels.lemma_keys();
                    assert(hub.model().subscribers[index as int]
                        == hub.subscribers@[index as int].model());
                }
                hub.subscribers[index].channels.len() > 0
            },
        }
    }

    /// Whether a full queue ended the connection.
    pub fn is_evicted(&self, hub: &Hub) -> (result: bool)
        requires
            hub.wf(),
        ensures
            result == !present(hub.model(), self.number()),
    {
        hub.find(self.id).is_none()
    }

    /// Takes the message that waits longest.
    pub fn try_message(&self, hub: &mut Hub) -> (result: Option<Message>)
        requires
            old(hub).wf(),
        ensures
            final(hub).wf(),
            match (result, handed(old(hub).model(), self.number())) {
                (Some(message), Some((after, waiting))) => {
                    &&& message.model() == waiting
                    &&& final(hub).model() == after
                },
                (None, None) => final(hub).model() == old(hub).model(),
                _ => false,
            },
    {
        let ghost models = hub.model().subscribers;
        match hub.find(self.id) {
            None => None,
            Some(index) => {
                let ghost older = hub.subscribers@[index as int];
                assert(models[index as int] == older.model());
                let result = hub.subscribers[index].queue.pop_front();
                proof {
                    let now = hub.subscribers@[index as int];
                    if result is Some {
                        assert(message_models(now.queue@) =~= message_models(older.queue@).skip(1));
                    }
                    assert(hub.model().subscribers =~= models.update(index as int, now.model()));
                    if result is None {
                        assert(hub.model().subscribers =~= models);
                    }
                }
                result
            },
        }
    }

    /// Adds channels, all of them or none. Messages that wait come before the
    /// confirmations.
    pub fn subscribe(&self, hub: &mut Hub, channels: Vec<Bytes>) -> (result: Result<
        Vec<Frame>,
        PubSubError,
    >)
        requires
            old(hub).wf(),
        ensures
            final(hub).wf(),
            match (
                result,
                subscribing(old(hub).model(), self.number(), self.limit(), channels@),
            ) {
                (Ok(frames), Ok((after, answer))) => {
                    &&& shown(frames@) == answer
                    &&& final(hub).model() == after
                },
                (Err(error), Err(fault)) => {
                    &&& error == fault
                    &&& final(hub).model() == old(hub).model()
                },
                _ => false,
            },
    {
        let ghost models = hub.model().subscribers;
        let index: usize = match hub.find(self.id) {
            None => return Err(PubSubError::Closed),
            Some(index) => index,
        };
        let ghost older = hub.subscribers@[index as int];
        let ghost held = older.channels@.dom();
        assert(models[index as int] == older.model());
        let mut joined = copy_channels(&hub.subscribers[index].channels);
        let mut counts: Vec<usize> = Vec::new();
        let mut next: usize = 0;
        assert(listed(channels@.take(0)) =~= Set::empty());
        assert(joined@.dom() =~= held.union(listed(channels@.take(0))));
        while next < channels.len()
            invariant
                next <= channels@.len(),
                joined.wf(),
                counts@.len() == next,
                joined@.dom() == held.union(listed(channels@.take(next as int))),
                forall|i: int|
                    0 <= i < next ==> #[trigger] counts@[i] == held.union(
                        listed(channels@.take(i + 1)),
                    ).len(),
            decreases channels@.len() - next,
        {
            let ghost known = joined@.dom();
            let _ = joined.insert(channels[next].clone(), ());
            proof {
                let part = channels@.take(next as int);
                let more = channels@.take(next + 1);
                let fresh = buffer::bytes_content(channels@[next as int]);
                assert(listed(more) =~= listed(part).insert(fresh)) by {
                    assert forall|channel: Seq<u8>| listed(more).contains(channel)
                        <==> listed(part).insert(fresh).contains(channel) by {
                        if listed(part).contains(channel) {
                            let i = choose|i: int|
                                0 <= i < part.len() && buffer::bytes_content(#[trigger] part[i])
                                    == channel;
                            assert(more[i] == part[i]);
                        }
                        if channel == fresh {
                            assert(more[next as int] == channels@[next as int]);
                        }
                        if listed(more).contains(channel) {
                            let i = choose|i: int|
                                0 <= i < more.len() && buffer::bytes_content(#[trigger] more[i])
                                    == channel;
                            if i < next {
                                assert(part[i] == more[i]);
                            }
                        }
                    }
                }
                assert(joined@.dom() =~= held.union(listed(more)));
                joined.lemma_keys();
            }
            counts.push(joined.len());
            next += 1;
        }
        proof {
            joined.lemma_keys();
            assert(channels@.take(next as int) =~= channels@);
        }
        if joined.len() > self.max_channels {
            return Err(PubSubError::ChannelLimit);
        }
        let mut frames = drain(&mut hub.subscribers[index].queue);
        let ghost waiting = shown(frames@);
        hub.subscribers[index].channels = joined;
        let mut done: usize = 0;
        let ghost answer = subscribed(held, channels@);
        assert(waiting + answer.take(0) =~= waiting);
        while done < channels.len()
            invariant
                done <= channels@.len(),
                counts@.len() == channels@.len(),
                answer == subscribed(held, channels@),
                forall|i: int|
                    0 <= i < counts@.len() ==> #[trigger] counts@[i] == held.union(
                        listed(channels@.take(i + 1)),
                    ).len(),
                shown(frames@) == waiting + answer.take(done as int),
            decreases channels@.len() - done,
        {
            let ghost earlier = frames@;
            frames.push(confirm("subscribe", Some(channels[done].clone()), counts[done]));
            done += 1;
            proof {
                let last = frames@.last();
                assert(last.model() == answer[done - 1]);
                assert(shown(frames@) =~= shown(earlier).push(last.model()));
                assert(answer.take(done as int) =~= answer.take(done - 1).push(answer[done - 1]));
                assert(shown(frames@) =~= waiting + answer.take(done as int));
            }
        }
        proof {
            assert(answer.take(done as int) =~= answer);
            let now = hub.subscribers@[index as int];
            assert(now.model() =~= SubscriberModel {
                channels: held.union(listed(channels@)),
                queue: Seq::empty(),
                ..older.model()
            });
            assert(hub.model().subscribers =~= models.update(index as int, now.model()));
        }
        Ok(frames)
    }

    /// Removes channels, or all of them where none is named. Messages that wait
    /// come before the confirmations.
    pub fn unsubscribe(&self, hub: &mut Hub, channels: Vec<Bytes>) -> (result: Result<
        Vec<Frame>,
        PubSubError,
    >)
        requires
            old(hub).wf(),
        ensures
            final(hub).wf(),
            match (result, unsubscribing(old(hub).model(), self.number(), channels@)) {
                (Ok(frames), Ok((after, answer))) => {
                    &&& shown(frames@) == answer
                    &&& final(hub).model() == after
                },
                (Err(error), Err(fault)) => {
                    &&& error == fault
                    &&& final(hub).model() == old(hub).model()
                },
                _ => false,
            },
    {
        let ghost models = hub.model().subscribers;
        let index: usize = match hub.find(self.id) {
            None => return Err(PubSubError::Closed),
            Some(index) => index,
        };
        let ghost older = hub.subscribers@[index as int];
        let ghost held = older.channels@.dom();
        assert(models[index as int] == older.model());
        let ghost named = channels@;
        let leaving = if channels.len() == 0 {
            list_channels(&hub.subscribers[index].channels)
        } else {
            channels
        };
        let ghost gone = contents(leaving@);
        assert(gone =~= ended(held, named));
        let mut frames = drain(&mut hub.subscribers[index].queue);
        let ghost waiting = shown(frames@);
        if leaving.len() == 0 {
            frames.push(confirm("unsubscribe", None, 0));
            assert(shown(frames@) =~= waiting + seq![confirmation("unsubscribe", None, 0)]);
        }
        let ghost answer = unsubscribed(held, gone);
        let mut left = copy_channels(&hub.subscribers[index].channels);
        let mut done: usize = 0;
        proof {
            assert(gone.take(0).to_set() =~= Set::empty());
            assert(left@.dom() =~= held.difference(gone.take(0).to_set()));
            if leaving@.len() > 0 {
                assert(waiting + answer.take(0) =~= waiting);
            }
        }
        while done < leaving.len()
            invariant
                done <= leaving@.len(),
                left.wf(),
                gone == contents(leaving@),
                answer == unsubscribed(held, gone),
                left@.dom() == held.difference(gone.take(done as int).to_set()),
                leaving@.len() > 0 ==> shown(frames@) == waiting + answer.take(done as int),
                leaving@.len() == 0 ==> shown(frames@) == waiting + seq![
                    confirmation("unsubscribe", None, 0),
                ],
            decreases leaving@.len() - done,
        {
            let ghost earlier = frames@;
            let ghost known = left@.dom();
            let _ = left.remove(as_slice(&leaving[done]));
            proof {
                let part = gone.take(done as int);
                let more = gone.take(done + 1);
                assert(more =~= part.push(gone[done as int]));
                assert(more.to_set() =~= part.to_set().insert(gone[done as int])) by {
                    broadcast use vstd::seq_lib::group_seq_properties;

                    assert forall|channel: Seq<u8>| more.to_set().contains(channel)
                        <==> part.to_set().insert(gone[done as int]).contains(channel) by {
                        if part.contains(channel) {
                            let i = choose|i: int| 0 <= i < part.len() && part[i] == channel;
                            assert(more[i] == channel);
                        }
                        if channel == gone[done as int] {
                            assert(more[done as int] == channel);
                        }
                    }
                }
                assert(left@.dom() =~= held.difference(more.to_set()));
                left.lemma_keys();
            }
            frames.push(confirm("unsubscribe", Some(leaving[done].clone()), left.len()));
            done += 1;
            proof {
                let last = frames@.last();
                assert(last.model() == answer[done - 1]);
                assert(shown(frames@) =~= shown(earlier).push(last.model()));
                assert(answer.take(done as int) =~= answer.take(done - 1).push(answer[done - 1]));
                assert(shown(frames@) =~= waiting + answer.take(done as int));
            }
        }
        hub.subscribers[index].channels = left;
        proof {
            assert(answer.take(done as int) =~= answer);
            assert(gone.take(done as int) =~= gone);
            let now = hub.subscribers@[index as int];
            assert(now.model() =~= SubscriberModel {
                channels: held.difference(gone.to_set()),
                queue: Seq::empty(),
                ..older.model()
            });
            assert(hub.model().subscribers =~= models.update(index as int, now.model()));
        }
        Ok(frames)
    }
}

fn list_channels(channels: &ByteMap<()>) -> (result: Vec<Bytes>)
    requires
        channels.wf(),
    ensures
        contents(result@) == ordered::listing(channels@.dom()),
{
    let mut result: Vec<Bytes> = Vec::new();
    let mut index: usize = 0;
    while index < channels.items.len()
        invariant
            index <= channels.items@.len(),
            result@.len() == index,
            forall|i: int|
                0 <= i < index ==> buffer::bytes_content(#[trigger] result@[i])
                    == channels.key_at(i),
        decreases channels.items@.len() - index,
    {
        result.push(channels.items[index].0.clone());
        index += 1;
    }
    proof {
        channels.lemma_keys();
        assert(contents(result@) =~= channels.keys());
    }
    result
}

/// Offering a message makes no subscriber up.
proof fn lemma_offered_from(subscribers: Seq<SubscriberModel>, message: MessageModel, j: int)
    requires
        0 <= j < offered(subscribers, message).0.len(),
    ensures
        exists|i: int|
            0 <= i < subscribers.len() && (#[trigger] subscribers[i]).id == offered(
                subscribers,
                message,
            ).0[j].id && (subscribers[i].channels.contains(message.channel) ==> subscribers[i].queue.len()
                < subscribers[i].capacity),
    decreases subscribers.len(),
{
    if subscribers.len() > 0 {
        let before = subscribers.drop_last();
        let kept = offered(before, message).0;
        if j < kept.len() {
            lemma_offered_from(before, message, j);
            let i = choose|i: int|
                0 <= i < before.len() && (#[trigger] before[i]).id == kept[j].id
                    && (before[i].channels.contains(message.channel) ==> before[i].queue.len()
                    < before[i].capacity);
            assert(subscribers[i] == before[i]);
        } else {
            assert(subscribers[subscribers.len() - 1] == subscribers.last());
        }
    }
}

/// A message reaches every subscriber that listens to its channel and has room,
/// at the end of its queue; one without room loses its place; all others stay
/// as they were.
pub proof fn law_messages_reach_their_listeners(hub: HubModel, message: MessageModel, i: int)
    requires
        numbered(hub),
        0 <= i < hub.subscribers.len(),
    ensures
        ({
            let before = hub.subscribers[i];
            let after = offered(hub.subscribers, message).0;
            if !before.channels.contains(message.channel) {
                after.contains(before)
            } else if before.queue.len() < before.capacity {
                after.contains(SubscriberModel { queue: before.queue.push(message), ..before })
            } else {
                !present(HubModel { subscribers: after, ..hub }, before.id)
            }
        }),
    decreases hub.subscribers.len(),
{
    let subscribers = hub.subscribers;
    let before = subscribers[i];
    let (after, count) = offered(subscribers, message);
    let earlier = offered(subscribers.drop_last(), message).0;
    if before.channels.contains(message.channel) && before.queue.len() >= before.capacity {
        let later = HubModel { subscribers: after, ..hub };
        if present(later, before.id) {
            let j = place(later, before.id);
            lemma_offered_from(subscribers, message, j);
            let origin = choose|k: int|
                0 <= k < subscribers.len() && (#[trigger] subscribers[k]).id == after[j].id && (
                subscribers[k].channels.contains(message.channel) ==> subscribers[k].queue.len()
                    < subscribers[k].capacity);
            assert(origin == i);
        }
    } else if i == subscribers.len() - 1 {
        assert(after.last() == after[after.len() - 1]);
    } else {
        let shorter = HubModel { subscribers: subscribers.drop_last(), ..hub };
        law_messages_reach_their_listeners(shorter, message, i);
        let wanted = if before.channels.contains(message.channel) {
            SubscriberModel { queue: before.queue.push(message), ..before }
        } else {
            before
        };
        let j = choose|j: int| 0 <= j < earlier.len() && earlier[j] == wanted;
        assert(after[j] == wanted);
    }
}

} // verus!
