use bytes::Bytes;
use sider::persistence::format::Limits as RecordLimits;
use sider::persistence::{DurableLayout, Role, ROUTING_VERSION};
use sider::replication::config::{Config as ReplicationConfig, Reach};
use sider::replication::epoch::{epoch_from, EpochError};
use sider::replication::journal::{Error as JournalError, Journal, Limits as JournalLimits};
use sider::replication::protocol::{
    decode, encode, read_head, Error as ProtocolError, Hello, Limits, Message, Reject,
    HEADER_BYTES,
};
use sider::replication::session::{
    acknowledges, begin, exchange, heartbeat, hello, known_position, limits, next_backoff, open,
    resume, Arrival, Beginning, Context, Follower, Next, Opening, Sending, SnapshotReceiver,
    SnapshotSender,
};
use sider::replication::state::Runtime;
use sider::replication::{new_epoch, Cursor, Error};
use sider::storage::{Mutation, MutationOrigin, ResolvedBatch, StoreConfig, Value};

fn cursor(sequence: u64) -> Cursor {
    Cursor {
        epoch: [3; 16],
        sequence,
    }
}

fn put(key: &'static [u8]) -> Mutation {
    Mutation::Put {
        key: Bytes::from_static(key),
        value: Value::String(Bytes::from_static(b"v\0")),
        expires_at_unix_ms: Some(-7),
    }
}

fn batch(key: &'static [u8]) -> ResolvedBatch {
    ResolvedBatch {
        origin: MutationOrigin::Client,
        mutations: vec![put(key)],
    }
}

fn context() -> Context {
    Context {
        version: Bytes::from_static(b"0.1.0"),
        layout: DurableLayout {
            shard_count: 2,
            routing_version: ROUTING_VERSION,
        },
        store_config: StoreConfig::default(),
        record_limits: RecordLimits {
            max_record_bytes: 4096,
            max_mutations: 16,
        },
    }
}

fn messages() -> Vec<Message> {
    let context = context();
    vec![
        Message::Hello(hello(&context, None)),
        Message::Hello(hello(&context, Some(cursor(4)))),
        Message::Export {
            sider_version: Bytes::from_static(b"0.1.0"),
            max_record_bytes: 5,
            max_snapshot_bytes: 6,
        },
        Message::Continue(cursor(1)),
        Message::FullStart {
            cursor: cursor(2),
            entries: 3,
        },
        Message::SnapshotEntry(put(b"k")),
        Message::FullEnd {
            cursor: cursor(2),
            entries: 3,
            digest: 9,
        },
        Message::Batch {
            sequence: 8,
            batch: batch(b"k"),
        },
        Message::Ack(cursor(8)),
        Message::Heartbeat(cursor(8)),
        Message::Reject(Reject::IncompatibleLayout),
        Message::StatusRequest,
        Message::Promote,
        Message::Promoted(cursor(9)),
        Message::Status {
            readonly: true,
            cursor: cursor(1),
            upstream_sequence: Some(2),
            connected: true,
            backlog_bytes: 3,
            full_syncs: 4,
            partial_syncs: 5,
        },
        Message::Status {
            readonly: false,
            cursor: cursor(1),
            upstream_sequence: None,
            connected: false,
            backlog_bytes: 0,
            full_syncs: 0,
            partial_syncs: 0,
        },
    ]
}

#[test]
fn every_message_is_read_back_and_every_changed_byte_is_seen() {
    for message in messages() {
        let frame = encode(&message, Limits::default()).unwrap();
        let (_, size) = read_head(&frame[..HEADER_BYTES], Limits::default()).unwrap();
        assert_eq!(size + HEADER_BYTES, frame.len());
        assert_eq!(decode(frame.clone(), Limits::default()).unwrap(), message);
        for place in 0..frame.len() {
            let mut changed = frame.to_vec();
            changed[place] ^= 0x40;
            assert!(
                decode(Bytes::from(changed), Limits::default()).is_err(),
                "{message:?} at {place}"
            );
        }
        for count in 0..frame.len() {
            assert!(decode(frame.slice(..count), Limits::default()).is_err());
        }
    }
}

#[test]
fn messages_that_say_too_little_or_too_much_are_not_sent() {
    let mut greeting = hello(&context(), None);
    greeting.max_mutations = 0;
    assert_eq!(
        encode(&Message::Hello(greeting), Limits::default()),
        Err(ProtocolError::Invalid("handshake"))
    );
    assert_eq!(
        encode(
            &Message::SnapshotEntry(Mutation::Delete {
                key: Bytes::from_static(b"k")
            }),
            Limits::default()
        ),
        Err(ProtocolError::Invalid("remoção dentro de snapshot"))
    );
    let small = Limits {
        max_frame_bytes: 30,
        ..Limits::default()
    };
    assert!(encode(&Message::Ack(cursor(1)), small).is_err());
    let nothing = Limits {
        max_frame_bytes: 1,
        ..Limits::default()
    };
    assert_eq!(
        encode(&Message::Promote, nothing),
        Err(ProtocolError::Limit)
    );
}

#[test]
fn greetings_are_compared_by_version_layout_and_capacity() {
    let own = hello(&context(), None);
    let with = |change: fn(&mut Hello)| {
        let mut source = hello(&context(), Some(cursor(1)));
        change(&mut source);
        own.accepts(&source)
    };
    assert_eq!(with(|_| {}), Ok(()));
    assert_eq!(
        with(|source| source.record_version += 1),
        Err(Reject::IncompatibleVersion)
    );
    assert_eq!(
        with(|source| source.shard_count += 1),
        Err(Reject::IncompatibleLayout)
    );
    assert_eq!(
        with(|source| source.max_record_bytes += 1),
        Err(Reject::ResourceLimit)
    );
}

#[test]
fn the_first_message_decides_what_a_session_is() {
    let source = hello(&context(), Some(cursor(5)));
    assert!(matches!(
        open(&Message::StatusRequest, true, false, &source),
        Opening::Status
    ));
    assert!(matches!(
        open(&Message::Promote, false, true, &source),
        Opening::Reject(_)
    ));
    assert!(matches!(
        open(&Message::Promote, true, true, &source),
        Opening::Promote
    ));
    assert!(matches!(
        open(&Message::Promote, true, false, &source),
        Opening::Position
    ));
    let follower = Message::Hello(hello(&context(), Some(cursor(4))));
    assert!(matches!(
        open(&follower, false, false, &source),
        Opening::Follow(Some(found)) if found == cursor(4)
    ));
    assert!(matches!(
        open(&follower, false, true, &source),
        Opening::Reject(_)
    ));
    assert!(matches!(
        open(&Message::Ack(cursor(1)), true, false, &source),
        Opening::Reject(_)
    ));
}

fn journal(max_batches: usize) -> Journal {
    Journal::new(
        cursor(10),
        JournalLimits {
            max_bytes: 10,
            max_batches,
            max_frame_bytes: 6,
        },
    )
    .ok()
    .unwrap()
}

#[test]
fn published_frames_come_in_order_until_the_history_is_too_short() {
    let mut journal = journal(3);
    let mut subscriber = journal.subscribe(cursor(10)).ok().unwrap();
    assert_eq!(subscriber.next(&journal), Ok(None));
    journal.publish(11, Bytes::from_static(b"aaaa")).unwrap();
    journal.publish(12, Bytes::from_static(b"bbbb")).unwrap();
    let entry = subscriber.next(&journal).unwrap().unwrap();
    assert_eq!(entry.cursor, cursor(11));
    assert_eq!(entry.frame.as_ref(), b"aaaa");
    let status = journal.status().unwrap();
    assert_eq!(status.head, cursor(12));
    assert_eq!((status.bytes, status.batches), (8, 2));
    journal.publish(13, Bytes::from_static(b"cccc")).unwrap();
    assert_eq!(journal.status().unwrap().oldest_sequence, Some(12));
    assert_eq!(
        journal.next(cursor(10)),
        Err(JournalError::Lagged)
    );
    assert_eq!(subscriber.next(&journal).unwrap().unwrap().cursor, cursor(12));
}

#[test]
fn the_journal_refuses_what_does_not_belong_to_it() {
    let mut journal = journal(3);
    assert_eq!(
        journal.publish(12, Bytes::from_static(b"a")),
        Err(JournalError::Sequence)
    );
    assert_eq!(
        journal.publish(11, Bytes::from_static(b"toolong")),
        Err(JournalError::Limit)
    );
    let other = Cursor {
        epoch: [4; 16],
        sequence: 10,
    };
    assert_eq!(journal.next(other), Err(JournalError::Epoch));
    assert_eq!(journal.next(cursor(11)), Err(JournalError::Sequence));
    assert!(resume(&journal, Some(other)).is_none());
    assert!(resume(&journal, Some(cursor(10))).is_some());
    assert!(resume(&journal, None).is_none());
    journal.close();
    assert_eq!(journal.next(cursor(10)), Err(JournalError::Closed));
    assert_eq!(
        JournalError::Lagged.message(),
        "histórico insuficiente; sincronização completa necessária"
    );
    assert!(Journal::new(
        cursor(0),
        JournalLimits {
            max_bytes: 1,
            max_batches: 1,
            max_frame_bytes: 2
        }
    )
    .is_err());
}

#[test]
fn snapshots_arrive_as_they_were_sent() {
    let limits = limits(&context());
    let (mut sender, start) = SnapshotSender::begin(cursor(5), 2);
    let Message::FullStart {
        cursor: at,
        entries,
    } = start
    else {
        panic!("a snapshot starts with its announcement");
    };
    let mut receiver = SnapshotReceiver::begin(at, entries, 10_000).ok().unwrap();
    for key in [b"a", b"b"] {
        let frame = sender.entry(put(key), limits, 10_000).ok().unwrap();
        let message = decode(frame.clone(), limits).unwrap();
        assert_eq!(receiver.accept(&frame, message, 10_000).ok(), Some(false));
    }
    let end = sender.end();
    let frame = encode(&end, limits).unwrap();
    assert_eq!(receiver.accept(&frame, end, 10_000).ok(), Some(true));
    assert_eq!(receiver.finish(), vec![put(b"a"), put(b"b")]);
}

#[test]
fn snapshots_out_of_order_or_over_budget_are_refused() {
    let limits = limits(&context());
    let mut receiver = SnapshotReceiver::begin(cursor(5), 2, 10_000).ok().unwrap();
    for (key, fine) in [(b"b", true), (b"a", false)] {
        let message = Message::SnapshotEntry(put(key));
        let frame = encode(&message, limits).unwrap();
        assert_eq!(receiver.accept(&frame, message, 10_000).is_ok(), fine);
    }
    assert!(matches!(
        SnapshotReceiver::begin(cursor(5), 2, 128),
        Err(Error::Limit)
    ));
    let (mut sender, _) = SnapshotSender::begin(cursor(5), 1);
    assert!(sender.entry(put(b"a"), limits, 10).is_err());
}

#[test]
fn followers_apply_each_batch_once() {
    let limits = limits(&context());
    let mut follower = Follower::new(cursor(4));
    let message = || Message::Batch {
        sequence: 5,
        batch: batch(b"k"),
    };
    let frame = encode(&message(), limits).unwrap();
    let Ok(Next::Apply { cursor: at, .. }) = follower.next(&frame, message()) else {
        panic!("the next batch is applied");
    };
    assert_eq!(at, cursor(5));
    follower.applied(at, frame.clone());
    assert!(matches!(
        follower.next(&frame, message()),
        Ok(Next::Again)
    ));
    let skipped = Message::Batch {
        sequence: 7,
        batch: batch(b"k"),
    };
    let frame = encode(&skipped, limits).unwrap();
    assert!(follower.next(&frame, skipped).is_err());
    let head = Message::Heartbeat(cursor(9));
    let frame = encode(&head, limits).unwrap();
    assert!(matches!(follower.next(&frame, head), Ok(Next::Head(9))));
    assert_eq!(follower.position(), cursor(5));
}

#[test]
fn the_answer_to_a_greeting_says_how_a_follower_begins() {
    let own = hello(&context(), Some(cursor(4)));
    let source = Message::Hello(hello(&context(), Some(cursor(6))));
    assert!(matches!(
        begin(&own, cursor(4), &source, &Message::Continue(cursor(4))),
        Ok(Beginning::Continue { head: 6 })
    ));
    assert!(matches!(
        begin(
            &own,
            cursor(4),
            &source,
            &Message::FullStart {
                cursor: cursor(6),
                entries: 2
            }
        ),
        Ok(Beginning::Full { entries: 2, .. })
    ));
    assert!(begin(&own, cursor(4), &source, &Message::Promote).is_err());
}

#[test]
fn small_rules_of_sessions() {
    assert!(acknowledges(&Message::Ack(cursor(3)), cursor(3)));
    assert!(!acknowledges(&Message::Ack(cursor(2)), cursor(3)));
    assert_eq!(known_position(cursor(3)), Some(cursor(3)));
    assert_eq!(
        known_position(Cursor {
            epoch: [0; 16],
            sequence: 3
        }),
        None
    );
    assert_eq!(next_backoff(3, 10), 6);
    assert_eq!(next_backoff(8, 10), 10);
    assert!(heartbeat(9_000_000_000) < 9_000_000_000);
}

#[test]
fn stale_sessions_change_nothing() {
    let mut runtime = Runtime::new(Role::Replica, cursor(1));
    let old = runtime.begin_session();
    let new = runtime.begin_session();
    assert!(!runtime.accepts(old));
    assert!(runtime.accepts(new));
    let before = runtime.status();
    runtime.connected(old, 50, true);
    runtime.upstream_head(old, 60);
    runtime.disconnected(old);
    assert_eq!(runtime.status(), before);
    assert!(runtime.readonly());
}

#[test]
fn epochs_are_never_the_reserved_one() {
    assert_eq!(epoch_from(None), Err(EpochError::Unavailable));
    assert_eq!(epoch_from(Some([0; 16])), Err(EpochError::Reserved));
    assert_eq!(epoch_from(Some([1; 16])), Ok([1; 16]));
    let first = new_epoch().unwrap();
    let second = new_epoch().unwrap();
    assert_ne!(first, [0; 16]);
    assert_ne!(first, second);
}

#[test]
fn a_changed_byte_of_a_frame_is_told_by_its_place() {
    let frame = encode(&Message::Ack(cursor(9)), Limits::default()).unwrap();
    let changed = |place: usize, byte: u8| {
        let mut other = frame.to_vec();
        other[place] = byte;
        decode(Bytes::from(other), Limits::default())
    };
    for place in 0..frame.len() {
        let fault = match place {
            0..=7 | 11 => ProtocolError::Invalid("cabeçalho"),
            8 => ProtocolError::Version(u16::from(!frame[8])),
            9 => ProtocolError::Version(u16::from_le_bytes([frame[8], !frame[9]])),
            10 => ProtocolError::Invalid("tipo de mensagem"),
            12..=19 => ProtocolError::Invalid("comprimento"),
            _ => ProtocolError::Invalid("checksum"),
        };
        assert_eq!(changed(place, !frame[place]), Err(fault), "byte {place}");
    }
    assert_eq!(frame[10], 7);
    // A heartbeat has the size of an acknowledgement, the start of a snapshot has not.
    assert_eq!(changed(10, 8), Err(ProtocolError::Invalid("checksum")));
    assert_eq!(
        changed(10, 3),
        Err(ProtocolError::Invalid("tamanho do tipo de mensagem"))
    );
}

#[test]
fn a_frame_that_is_read_is_sent_with_the_same_bytes() {
    for message in messages() {
        let frame = encode(&message, Limits::default()).unwrap();
        let read = decode(frame.clone(), Limits::default()).unwrap();
        assert_eq!(encode(&read, Limits::default()).unwrap(), frame);
    }
}

#[test]
fn answers_of_the_clock_go_to_their_timeouts() {
    let config = ReplicationConfig::default();
    assert_eq!(
        config.spans(),
        vec![
            config.frame_timeout,
            config.sync_timeout,
            config.reconnect_min,
            config.reconnect_max
        ]
    );
    let reach = Reach::from_answers(&vec![true, false, true, false]);
    assert!(reach.frame && !reach.sync && reach.reconnect_min && !reach.reconnect_max);
}

#[test]
fn a_sender_shows_that_it_is_alive_before_each_batch() {
    let (steps, confirmed) = exchange(cursor(4), Arrival::Batch(cursor(5)));
    assert_eq!(
        steps,
        vec![
            Sending::Heartbeat,
            Sending::Frame,
            Sending::Confirmed(cursor(4)),
            Sending::Confirmed(cursor(5)),
        ]
    );
    assert_eq!(confirmed, Some(cursor(5)));
    assert_eq!(
        exchange(cursor(4), Arrival::Silence),
        (
            vec![Sending::Heartbeat, Sending::Confirmed(cursor(4))],
            Some(cursor(4))
        )
    );
    assert_eq!(
        exchange(cursor(4), Arrival::Lost),
        (vec![Sending::Reject(Reject::FullRequired)], None)
    );
}
