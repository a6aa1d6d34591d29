//! What channels are for.

use crate::buffer;
use crate::pubsub;
use crate::pubsub::{HubModel, MessageModel, PubSubError, SubscriberModel};
use crate::resp::frame::FrameModel;
use crate::storage::collections;
use bytes::Bytes;
use vstd::prelude::*;
use vstd::string::*;

verus! {

/// Whether a subscriber takes a message: it listens to the channel and has room.
pub open spec fn takes(subscriber: SubscriberModel, message: MessageModel) -> bool {
    subscriber.channels.contains(message.channel) && subscriber.queue.len() < subscriber.capacity
}

/// PUBLISH answers how many subscribers took the message, and makes nobody listen.
pub proof fn law_publish_counts_its_listeners(
    subscribers: Seq<SubscriberModel>,
    message: MessageModel,
)
    ensures
        pubsub::offered(subscribers, message).1 == subscribers.filter(
            |subscriber: SubscriberModel| takes(subscriber, message),
        ).len(),
        pubsub::offered(subscribers, message).0.len() <= subscribers.len(),
    decreases subscribers.len(),
{
    reveal(Seq::filter);
    let chosen = |subscriber: SubscriberModel| takes(subscriber, message);
    if subscribers.len() > 0 {
        law_publish_counts_its_listeners(subscribers.drop_last(), message);
        assert(chosen(subscribers.last()) == takes(subscribers.last(), message));
    }
}

/// Two messages on one channel reach a subscriber in the order in which they were
/// published.
pub proof fn law_messages_keep_their_order(
    subscriber: SubscriberModel,
    first: MessageModel,
    second: MessageModel,
)
    requires
        subscriber.channels.contains(first.channel),
        subscriber.channels.contains(second.channel),
        subscriber.queue.len() + 2 <= subscriber.capacity,
    ensures
        ({
            let one = pubsub::offered(seq![subscriber], first).0;
            let two = pubsub::offered(one, second).0;
            two == seq![
                SubscriberModel { queue: subscriber.queue.push(first).push(second), ..subscriber },
            ]
        }),
{
    reveal_with_fuel(pubsub::offered, 3);
    let start = seq![subscriber];
    let one = pubsub::offered(start, first).0;
    assert(start.drop_last() =~= Seq::empty());
    assert(one =~= seq![SubscriberModel { queue: subscriber.queue.push(first), ..subscriber }]);
    assert(one.drop_last() =~= Seq::empty());
    let two = pubsub::offered(one, second).0;
    assert(two =~= seq![
        SubscriberModel { queue: subscriber.queue.push(first).push(second), ..subscriber },
    ]);
}

/// A notification is the word for it, the channel and the message, unchanged.
pub proof fn law_notifications_carry_the_message(message: MessageModel)
    ensures
        pubsub::notification(message) matches FrameModel::Array(Some(items)) && items.len() == 3
            && items[0] == FrameModel::Bulk(Some("message".spec_bytes())) && items[1]
            == FrameModel::Bulk(Some(message.channel)) && items[2] == FrameModel::Bulk(
            Some(message.payload),
        ),
{
}

/// What a confirmation says: its word, its channel and a number.
pub open spec fn confirms(
    frame: FrameModel,
    word: &'static str,
    channel: Seq<u8>,
    count: int,
) -> bool {
    frame matches FrameModel::Array(Some(items)) && items.len() == 3 && items[0]
        == FrameModel::Bulk(Some(word.spec_bytes())) && items[1] == FrameModel::Bulk(Some(channel))
        && items[2] == FrameModel::Integer(count as i64)
}

proof fn lemma_listed(channels: Seq<Bytes>, count: int)
    requires
        0 <= count < channels.len(),
    ensures
        pubsub::listed(channels.take(count + 1)) == pubsub::listed(channels.take(count)).insert(
            buffer::bytes_content(channels[count]),
        ),
{
    let less = channels.take(count);
    let more = channels.take(count + 1);
    let last = buffer::bytes_content(channels[count]);
    assert forall|channel: Seq<u8>| #[trigger] pubsub::listed(more).contains(channel)
        == pubsub::listed(less).insert(last).contains(channel) by {
        assert(more[count] == channels[count]);
        if pubsub::listed(less).contains(channel) {
            let i = choose|i: int|
                0 <= i < less.len() && buffer::bytes_content(#[trigger] less[i]) == channel;
            assert(more[i] == less[i]);
        }
        if pubsub::listed(more).contains(channel) && channel != last {
            let i = choose|i: int|
                0 <= i < more.len() && buffer::bytes_content(#[trigger] more[i]) == channel;
            assert(less[i] == more[i]);
        }
    }
    assert(pubsub::listed(more) =~= pubsub::listed(less).insert(last));
}

/// SUBSCRIBE confirms each channel, in the order in which they were named, with the number of
/// channels that the connection then listens to: one more for each that is new.
pub proof fn law_subscriptions_are_counted(held: Set<Seq<u8>>, channels: Seq<Bytes>, index: int)
    requires
        held.finite(),
        0 <= index < channels.len(),
    ensures
        ({
            let frames = pubsub::subscribed(held, channels);
            let earlier = held.union(pubsub::listed(channels.take(index)));
            let channel = buffer::bytes_content(channels[index]);
            &&& frames.len() == channels.len()
            &&& earlier.finite()
            &&& index == 0 ==> earlier == held
            &&& confirms(
                frames[index],
                "subscribe",
                channel,
                earlier.len() + if earlier.contains(channel) {
                    0int
                } else {
                    1
                },
            )
        }),
    decreases index,
{
    let earlier = held.union(pubsub::listed(channels.take(index)));
    let channel = buffer::bytes_content(channels[index]);
    lemma_listed(channels, index);
    if index == 0 {
        assert(pubsub::listed(channels.take(0)) =~= Set::empty());
        assert(earlier =~= held);
    } else {
        law_subscriptions_are_counted(held, channels, index - 1);
        lemma_listed(channels, index - 1);
        assert(earlier =~= held.union(pubsub::listed(channels.take(index - 1))).insert(
            buffer::bytes_content(channels[index - 1]),
        ));
    }
    assert(held.union(pubsub::listed(channels.take(index + 1))) =~= earlier.insert(channel));
}

/// UNSUBSCRIBE confirms each channel with the number of those that are left: one less for
/// each that was held.
pub proof fn law_ended_subscriptions_are_counted(
    held: Set<Seq<u8>>,
    channels: Seq<Seq<u8>>,
    index: int,
)
    requires
        held.finite(),
        0 <= index < channels.len(),
    ensures
        ({
            let frames = pubsub::unsubscribed(held, channels);
            let earlier = held.difference(channels.take(index).to_set());
            &&& frames.len() == channels.len()
            &&& index == 0 ==> earlier == held
            &&& confirms(
                frames[index],
                "unsubscribe",
                channels[index],
                earlier.len() - if earlier.contains(channels[index]) {
                    1int
                } else {
                    0
                },
            )
        }),
{
    let earlier = held.difference(channels.take(index).to_set());
    let channel = channels[index];
    if index == 0 {
        assert(earlier =~= held);
    }
    let less = channels.take(index);
    let more = channels.take(index + 1);
    assert(more =~= less.push(channel));
    assert forall|other: Seq<u8>| more.to_set().contains(other) == #[trigger] less.to_set().insert(
        channel,
    ).contains(other) by {
        assert(more[index] == channel);
        if less.contains(other) {
            let i = choose|i: int| 0 <= i < less.len() && less[i] == other;
            assert(more[i] == other);
        }
        if more.contains(other) && other != channel {
            let i = choose|i: int| 0 <= i < more.len() && more[i] == other;
            assert(less[i] == other);
        }
    }
    assert(more.to_set() =~= less.to_set().insert(channel));
    assert(held.difference(channels.take(index + 1).to_set()) =~= earlier.remove(channel));
}

/// UNSUBSCRIBE without channels ends all subscriptions, each once; with channels it ends
/// those and no others.
pub proof fn law_unsubscribe_means_all_or_the_named(
    held: Set<Seq<u8>>,
    channels: Seq<Bytes>,
    channel: Seq<u8>,
)
    requires
        held.finite(),
    ensures
        channels.len() == 0 ==> held.difference(pubsub::ended(held, channels).to_set())
            == Set::<Seq<u8>>::empty() && pubsub::ended(held, channels).len() == held.len(),
        channels.len() > 0 ==> (held.difference(pubsub::ended(held, channels).to_set()).contains(
            channel,
        ) <==> held.contains(channel) && forall|i: int|
            0 <= i < channels.len() ==> buffer::bytes_content(#[trigger] channels[i]) != channel),
{
    let ended = pubsub::ended(held, channels);
    if channels.len() == 0 {
        collections::lemma_listing_exists(held);
        collections::lemma_listing_len(ended, held);
        assert(held.difference(ended.to_set()) =~= Set::empty());
    } else {
        if ended.contains(channel) {
            let i = choose|i: int| 0 <= i < ended.len() && ended[i] == channel;
            assert(buffer::bytes_content(channels[i]) == channel);
        }
        if exists|i: int|
            0 <= i < channels.len() && buffer::bytes_content(#[trigger] channels[i]) == channel {
            let i = choose|i: int|
                0 <= i < channels.len() && buffer::bytes_content(#[trigger] channels[i]) == channel;
            assert(ended[i] == channel);
        }
    }
}

/// A channel exists as long as somebody listens to it.
pub proof fn law_channels_live_by_their_listeners(
    subscribers: Seq<SubscriberModel>,
    channel: Seq<u8>,
)
    ensures
        pubsub::all_channels(subscribers).contains(channel) <==> exists|i: int|
            0 <= i < subscribers.len() && (#[trigger] subscribers[i]).channels.contains(channel),
    decreases subscribers.len(),
{
    if subscribers.len() > 0 {
        let front = subscribers.drop_last();
        law_channels_live_by_their_listeners(front, channel);
        assert(subscribers[subscribers.len() - 1] == subscribers.last());
        if pubsub::all_channels(front).contains(channel) {
            let i = choose|i: int|
                0 <= i < front.len() && (#[trigger] front[i]).channels.contains(channel);
            assert(subscribers[i].channels.contains(channel));
        }
        if exists|i: int|
            0 <= i < subscribers.len() && (#[trigger] subscribers[i]).channels.contains(channel) {
            let i = choose|i: int|
                0 <= i < subscribers.len() && (#[trigger] subscribers[i]).channels.contains(channel);
            if i < front.len() {
                assert(front[i].channels.contains(channel));
            }
        }
    }
}

/// A connection that joins or leaves changes the counts by what it listens to.
pub proof fn law_connections_are_counted_once(
    subscribers: Seq<SubscriberModel>,
    subscriber: SubscriberModel,
)
    ensures
        pubsub::subscriptions(subscribers.push(subscriber)) == pubsub::subscriptions(subscribers)
            + subscriber.channels.len(),
        pubsub::listening(subscribers.push(subscriber)) == pubsub::listening(subscribers) + (
        if subscriber.channels.len() > 0 {
            1int
        } else {
            0
        }),
        pubsub::subscriptions(Seq::empty()) == 0,
        pubsub::listening(Seq::empty()) == 0,
{
    assert(subscribers.push(subscriber).drop_last() =~= subscribers);
}

/// A connection that subscribes listens to what it listened to and to all channels that it named,
/// unless these are too many; then it listens to no more than before. It is first answered the
/// messages that waited, and nobody else is touched.
pub proof fn law_subscriptions_are_all_or_none(
    hub: HubModel,
    id: u64,
    limit: usize,
    channels: Seq<Bytes>,
    channel: Seq<u8>,
    other: int,
)
    requires
        pubsub::numbered(hub),
        pubsub::present(hub, id),
        0 <= other < hub.subscribers.len(),
    ensures
        ({
            let held = hub.subscribers[pubsub::place(hub, id)];
            let wanted = held.channels.union(pubsub::listed(channels));
            match pubsub::subscribing(hub, id, limit, channels) {
                Err(error) => error == PubSubError::ChannelLimit && wanted.len() > limit,
                Ok((after, frames)) => {
                    let now = after.subscribers[pubsub::place(hub, id)];
                    &&& wanted.len() <= limit
                    &&& now.channels.contains(channel) <==> held.channels.contains(channel)
                        || exists|i: int|
                        0 <= i < channels.len() && buffer::bytes_content(#[trigger] channels[i])
                            == channel
                    &&& now.queue == Seq::<MessageModel>::empty() && now.id == id
                    &&& frames.len() == held.queue.len() + channels.len()
                    &&& forall|i: int|
                        0 <= i < held.queue.len() ==> #[trigger] frames[i] == pubsub::notification(
                            held.queue[i],
                        )
                    &&& after.subscribers.len() == hub.subscribers.len()
                    &&& hub.subscribers[other].id != id ==> after.subscribers[other]
                        == hub.subscribers[other]
                },
            }
        }),
{
    assert(0 <= pubsub::place(hub, id) < hub.subscribers.len());
}

/// A connection that takes a message takes the one that waits longest, and the others stay in
/// their order.
pub proof fn law_messages_are_taken_in_their_order(hub: HubModel, id: u64)
    requires
        pubsub::present(hub, id),
    ensures
        ({
            let before = hub.subscribers[pubsub::place(hub, id)];
            match pubsub::handed(hub, id) {
                Some((after, message)) => {
                    let now = after.subscribers[pubsub::place(hub, id)];
                    &&& before.queue == seq![message] + now.queue
                    &&& now.channels == before.channels
                },
                None => before.queue.len() == 0,
            }
        }),
{
    let before = hub.subscribers[pubsub::place(hub, id)];
    if let Some((after, message)) = pubsub::handed(hub, id) {
        let now = after.subscribers[pubsub::place(hub, id)];
        assert(before.queue =~= seq![message] + now.queue);
    }
}

/// UNSUBSCRIBE of a connection that listens to nothing, without channels, is confirmed once,
/// without a channel; all other answers are one for each channel, behind what waited.
pub proof fn law_unsubscribe_is_always_answered(
    subscriber: SubscriberModel,
    channels: Seq<Bytes>,
)
    requires
        subscriber.channels.finite(),
    ensures
        ({
            let frames = pubsub::unsubscribe_answer(subscriber, channels);
            let left = pubsub::ended(subscriber.channels, channels).len();
            &&& frames.len() == subscriber.queue.len() + if left == 0 {
                1
            } else {
                left
            }
            &&& left == 0 <==> channels.len() == 0 && subscriber.channels.len() == 0
            &&& left == 0 ==> (frames.last() matches FrameModel::Array(Some(items)) && items.len()
                == 3 && items[0] == FrameModel::Bulk(Some("unsubscribe".spec_bytes())) && items[1]
                == FrameModel::Bulk(None) && items[2] == FrameModel::Integer(0))
        }),
{
    if channels.len() == 0 {
        collections::lemma_listing_exists(subscriber.channels);
        collections::lemma_listing_len(
            pubsub::ended(subscriber.channels, channels),
            subscriber.channels,
        );
    }
}

} // verus!
