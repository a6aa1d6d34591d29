use bytes::Bytes;
use sider::pubsub::{confirm, Census, Hub, Message, PubSubError};

fn message(channel: &'static [u8], payload: &'static [u8]) -> Message {
    Message {
        channel: Bytes::from_static(channel),
        payload: Bytes::from_static(payload),
    }
}

#[test]
fn pubsub_binary_channels_duplicates_and_atomic_limit() {
    let mut hub = Hub::new();
    let subscriber = hub.connect(2, 4).ok().unwrap();
    let channels = vec![Bytes::new(), Bytes::from_static(b"\xff\0")];
    assert_eq!(
        subscriber.subscribe(&mut hub, channels.clone()).unwrap(),
        vec![
            confirm("subscribe", Some(channels[0].clone()), 1),
            confirm("subscribe", Some(channels[1].clone()), 2),
        ]
    );
    assert_eq!(
        subscriber
            .subscribe(&mut hub, vec![channels[1].clone()])
            .unwrap(),
        vec![confirm("subscribe", Some(channels[1].clone()), 2)]
    );
    assert_eq!(
        subscriber.subscribe(
            &mut hub,
            vec![Bytes::from_static(b"other"), channels[0].clone()]
        ),
        Err(PubSubError::ChannelLimit)
    );
    assert_eq!(hub.publish(&message(b"other", b"")), 0);
    assert_eq!(hub.publish(&message(b"", b"\xff\0")), 1);
    let responses = subscriber.unsubscribe(&mut hub, vec![]).unwrap();
    assert_eq!(
        responses,
        vec![
            message(b"", b"\xff\0").into_frame(),
            confirm("unsubscribe", Some(channels[0].clone()), 1),
            confirm("unsubscribe", Some(channels[1].clone()), 0)
        ]
    );
    assert!(!subscriber.active(&hub));
    assert_eq!(
        subscriber.unsubscribe(&mut hub, vec![]).unwrap(),
        vec![confirm("unsubscribe", None, 0)]
    );
    assert_eq!(
        subscriber
            .unsubscribe(&mut hub, vec![Bytes::from_static(b"missing")])
            .unwrap(),
        vec![confirm(
            "unsubscribe",
            Some(Bytes::from_static(b"missing")),
            0
        )]
    );
}

#[test]
fn pubsub_slow_subscriber_is_removed_without_delaying_fast_subscriber() {
    let mut hub = Hub::new();
    let slow = hub.connect(2, 1).ok().unwrap();
    let fast = hub.connect(2, 1).ok().unwrap();
    for subscriber in [&slow, &fast] {
        subscriber
            .subscribe(
                &mut hub,
                vec![Bytes::from_static(b"a"), Bytes::from_static(b"b")],
            )
            .unwrap();
    }
    assert_eq!(hub.publish(&message(b"a", b"one")), 2);
    assert_eq!(fast.try_message(&mut hub), Some(message(b"a", b"one")));
    assert_eq!(hub.publish(&message(b"a", b"two")), 1);
    assert!(slow.is_evicted(&hub));
    assert_eq!(fast.try_message(&mut hub), Some(message(b"a", b"two")));
    assert_eq!(hub.publish(&message(b"b", b"three")), 1);
    assert_eq!(fast.try_message(&mut hub), Some(message(b"b", b"three")));
    fast.close(&mut hub);
    assert_eq!(hub.publish(&message(b"b", b"four")), 0);
    slow.close(&mut hub);
    assert_eq!(
        hub.census(),
        Census {
            channels: 0,
            subscribers: 0,
            subscriptions: 0
        }
    );
    assert_eq!(hub.len(), 0);
}

#[test]
fn messages_come_in_the_order_of_publication() {
    let mut hub = Hub::new();
    let listener = hub.connect(1, 8).ok().unwrap();
    listener
        .subscribe(&mut hub, vec![Bytes::from_static(b"c")])
        .unwrap();
    for payload in [b"1".as_slice(), b"2", b"3"] {
        hub.publish(&Message {
            channel: Bytes::from_static(b"c"),
            payload: Bytes::copy_from_slice(payload),
        });
    }
    for payload in [b"1".as_slice(), b"2", b"3"] {
        let found = listener.try_message(&mut hub).unwrap();
        assert_eq!(found.payload.as_ref(), payload);
    }
    assert_eq!(listener.try_message(&mut hub), None);
}

#[test]
fn evicted_subscribers_cannot_subscribe_again() {
    let mut hub = Hub::new();
    let slow = hub.connect(1, 1).ok().unwrap();
    slow.subscribe(&mut hub, vec![Bytes::from_static(b"c")])
        .unwrap();
    hub.publish(&message(b"c", b"1"));
    hub.publish(&message(b"c", b"2"));
    assert_eq!(
        slow.subscribe(&mut hub, vec![Bytes::from_static(b"d")]),
        Err(PubSubError::Closed)
    );
    assert_eq!(
        PubSubError::ChannelLimit.message(),
        "ERR pubsub channel limit exceeded"
    );
}
