use bytes::{Bytes, BytesMut};
use sider::command::{Command, ExecutionError, InfoSections, Reply};
use sider::config::ServerConfig;
use sider::connection::exec::complete_exec;
use sider::connection::request::{publish, read_room, response_limits};
use sider::metrics::{Counter, DatasetStats, Metrics};
use sider::persistence::format::Limits;
use sider::persistence::writer::snapshot_image;
use sider::persistence::{recover_log, AofConfig, DurableLayout};
use sider::pubsub::{Hub, Message};
use sider::replication::protocol::{decode, encode as encode_message, Message as Sent};
use sider::replication::Cursor;
use sider::resp::{encode, Frame, RespLimits};
use sider::settings::NativeText;
use sider::storage::snapshot::merge_snapshots;
use sider::storage::worker::{
    batch_shard, channel_with_stores, Accepted, DbError, Request, Written,
};
use sider::storage::{
    Moment, Mutation, MutationOrigin, ResolvedBatch, ShardRouter, Store, StoreConfig, Value,
};

const MOMENT: Moment = Moment { now: 1, unix_ms: 1 };
const SECOND: u128 = 1_000_000_000;

fn set(key: &'static [u8], value: &[u8]) -> Command {
    Command::SetValue {
        key: Bytes::from_static(key),
        value: Bytes::copy_from_slice(value),
    }
}

#[test]
fn transactions_cross_shard_batch_is_rejected_without_enqueuing_any_part() {
    let (router, owners) =
        channel_with_stores(2, 5 * SECOND, vec![Store::new(), Store::new()]).unwrap();
    assert_ne!(router.shard_for(b"a"), router.shard_for(b"b"));
    assert_eq!(
        batch_shard(&router, &vec![set(b"a", b"1"), set(b"b", b"2")], &vec![]),
        Err(ExecutionError::CrossShard)
    );
    assert!(owners.iter().all(|owner| owner.store().is_empty()));
}

#[test]
fn cross_shard_commands_are_rejected_before_any_enqueue() {
    let (router, _) = channel_with_stores(1, 5 * SECOND, vec![Store::new(), Store::new()]).unwrap();
    let keys = vec![Bytes::from_static(b"a"), Bytes::from_static(b"b")];
    for command in [
        Command::Del { keys: keys.clone() },
        Command::Exists { keys: keys.clone() },
        Command::MGet { keys: keys.clone() },
        Command::MSet {
            entries: keys.iter().map(|key| (key.clone(), Bytes::new())).collect(),
        },
    ] {
        assert_eq!(router.route(&command), Err(ExecutionError::CrossShard));
    }
}

#[test]
fn every_read_is_bounded_by_the_remaining_input_budget() {
    let prefix = b"*2\r\n$4\r\nECHO\r\n$16\r\n";
    assert_eq!(read_room(64, 0, 8192), Some(64));
    assert_eq!(read_room(64, 1, 8192), Some(63));
    assert_eq!(read_room(64, prefix.len(), 8192), Some(64 - prefix.len()));
    assert_eq!(read_room(64, 64, 8192), None);
}

#[test]
fn response_encoding_uses_output_limits_independent_of_input_line_limits() {
    let config = ServerConfig {
        resp_limits: RespLimits {
            max_line_bytes: 3,
            ..RespLimits::default()
        },
        ..ServerConfig::default()
    };
    let mut output = BytesMut::new();
    let frame = Frame::Error(Bytes::from_static(b"ERR invalid protocol"));
    encode(&frame, &mut output, response_limits(&config)).unwrap();
    assert_eq!(&output[..], b"-ERR invalid protocol\r\n");
    assert!(encode(&frame, &mut BytesMut::new(), config.resp_limits).is_err());
}

#[test]
fn pubsub_oversized_notification_is_rejected_before_fanout() {
    let config = ServerConfig {
        resp_limits: RespLimits {
            max_bulk_bytes: 64,
            ..RespLimits::default()
        },
        max_response_bytes: 128,
        ..ServerConfig::default()
    };
    let mut hub = Hub::new();
    let channel = Bytes::from(vec![b'c'; 64]);
    let subscriber = hub.connect(1, 1).unwrap();
    subscriber.subscribe(&mut hub, vec![channel.clone()]).unwrap();
    let message = Message {
        channel,
        payload: Bytes::from(vec![0xff; 64]),
    };
    assert_eq!(
        publish(&mut hub, message, response_limits(&config)),
        Frame::Error(Bytes::from_static(b"ERR pubsub message exceeds response limit"))
    );
    assert!(subscriber.try_message(&mut hub).is_none());
    assert!(subscriber.active(&hub));
}

#[test]
fn transactions_aof_failures_and_record_limit_have_no_data_or_pubsub_effects() {
    for written in [Written::Failed, Written::TooLong] {
        let (_, mut owners) = channel_with_stores(2, 5 * SECOND, vec![Store::new()]).unwrap();
        let mut owner = owners.remove(0).with_aof(0);
        let mut hub = Hub::new();
        let listener = hub.connect(1, 4).unwrap();
        listener
            .subscribe(&mut hub, vec![Bytes::from_static(b"a")])
            .unwrap();
        let commands = vec![
            set(b"k", &[b'x'; 80]),
            Command::Publish {
                channel: Bytes::from_static(b"a"),
                message: Bytes::from_static(b"not-delivered"),
            },
            Command::Subscribe {
                channels: vec![Bytes::from_static(b"b")],
            },
        ];
        let request = Request::Batch {
            commands: commands.clone(),
            watched: vec![],
        };
        let Accepted::Commit(pending) = owner.accept(request, false, MOMENT) else {
            panic!("a valid batch waits for the log");
        };
        let result = owner.complete(pending, false, written);
        assert!(owner.store().is_empty());
        match written {
            Written::TooLong => {
                let (reply, _) = result.unwrap();
                let texts = vec![None, None, None];
                let limits = RespLimits::default();
                assert_eq!(
                    complete_exec(&mut hub, &commands, &reply, &texts, limits),
                    Frame::Error(Bytes::from_static(b"ERR AOF record limit exceeded"))
                );
            }
            _ => assert!(matches!(result, Err(DbError::Unavailable))),
        }
        assert!(listener.try_message(&mut hub).is_none());
        let unheard = Message {
            channel: Bytes::from_static(b"b"),
            payload: Bytes::new(),
        };
        assert_eq!(hub.publish(&unheard), 0);
    }
}

#[test]
fn metrics_info_exec_observes_applied_state_and_error_counts_once() {
    let (_, mut owners) = channel_with_stores(4, 5 * SECOND, vec![Store::new()]).unwrap();
    let mut owner = owners.remove(0);
    let mut metrics = Metrics::new(1, 4);
    let memory = InfoSections::from_names(&[b"memory".as_slice()]);
    let commands = vec![
        set(b"key", b"not-integer"),
        Command::Incr {
            key: Bytes::from_static(b"key"),
        },
        Command::Info(memory),
    ];
    let request = Request::Batch {
        commands: commands.clone(),
        watched: vec![],
    };
    let Accepted::Commit(pending) = owner.accept(request, false, MOMENT) else {
        panic!("a valid batch is committed");
    };
    let (reply, _) = owner.complete(pending, false, Written::Recorded).unwrap();
    metrics.dataset(
        0,
        DatasetStats {
            keys: owner.store().len(),
            expiring: owner.store().expiring(),
            used_bytes: owner.store().used_bytes(),
            quota: owner.store().config().max_dataset_bytes,
        },
    );
    let text = metrics.render(memory, b"0", 0, None);
    let texts = vec![None, None, Some(text)];
    let frame = complete_exec(
        &mut Hub::new(),
        &commands,
        &reply,
        &texts,
        RespLimits::default(),
    );
    metrics.response(&frame);
    let Frame::Array(Some(replies)) = frame else {
        panic!("one answer for each command");
    };
    assert!(matches!(&replies[1], Frame::Error(_)));
    let Frame::Bulk(Some(info)) = &replies[2] else {
        panic!("the text of the section");
    };
    let info = String::from_utf8(info.to_vec()).unwrap();
    assert!(info.contains("dataset_keys:1\r\n"), "{info}");
    assert_eq!(metrics.count(Counter::ErrorReplies), 1);
}

fn put(key: &'static [u8], value: &'static [u8]) -> Mutation {
    Mutation::Put {
        key: Bytes::from_static(key),
        value: Value::String(Bytes::from_static(value)),
        expires_at_unix_ms: None,
    }
}

#[test]
fn the_snapshots_of_two_shards_are_the_snapshot_of_the_whole() {
    let router = ShardRouter::new(2).unwrap();
    let mut whole = Store::new();
    let mut shards = [Store::new(), Store::new()];
    for key in [b"e".as_slice(), b"a", b"d", b"b", b"c"] {
        let command = || Command::SetValue {
            key: Bytes::copy_from_slice(key),
            value: Bytes::copy_from_slice(key),
        };
        assert_eq!(whole.execute(command(), MOMENT), Reply::Okay);
        assert_eq!(
            shards[router.shard_for(key)].execute(command(), MOMENT),
            Reply::Okay
        );
    }
    assert!(shards.iter().all(|shard| !shard.is_empty()));
    let parts = shards.iter().map(|shard| shard.snapshot()).collect();
    assert_eq!(merge_snapshots(parts), whole.snapshot());
}

#[test]
fn appended_batches_are_recovered_after_the_snapshot() {
    let config = AofConfig::new(NativeText::Text("log".to_string()));
    let store_config = StoreConfig::default();
    let layout = DurableLayout::default();
    let limits = Limits::default();
    let snapshot = vec![put(b"a", b"1")];
    let mut image = snapshot_image(snapshot, 5, layout, limits).unwrap();
    let mut writer = sider::persistence::writer::Writer::resume(&config, 0, 5, image.len() as u64);
    for mutation in [put(b"b", b"2"), put(b"a", b"3")] {
        let batch = ResolvedBatch {
            origin: MutationOrigin::Client,
            mutations: vec![mutation],
        };
        let (sequence, record) = writer.next_record(batch).unwrap();
        image.extend_from_slice(&record);
        writer.appended(sequence, record);
    }
    let recovered = recover_log(&image, &config, store_config, MOMENT).unwrap();
    assert_eq!(recovered.metadata.sequence, 7);
    assert_eq!(
        recovered.store.snapshot(),
        vec![put(b"a", b"3"), put(b"b", b"2")]
    );
}

#[test]
fn a_changed_byte_in_a_payload_is_rejected() {
    let limits = sider::replication::protocol::Limits::default();
    let cursor = Cursor {
        epoch: [3; 16],
        sequence: 9,
    };
    let frame = encode_message(&Sent::Ack(cursor), limits).unwrap();
    assert_eq!(decode(frame.clone(), limits), Ok(Sent::Ack(cursor)));
    for place in 24..frame.len() {
        let mut changed = frame.to_vec();
        changed[place] ^= 0x40;
        assert_eq!(
            decode(Bytes::from(changed), limits),
            Err(sider::replication::protocol::Error::Invalid("checksum"))
        );
    }
}
