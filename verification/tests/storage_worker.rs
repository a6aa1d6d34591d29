use bytes::Bytes;
use sider::command::{Command, ExecutionError, Reply, SetExpiry, SetOptions};
use sider::persistence::{AofError, DurableLayout, ROUTING_VERSION};
use sider::replication::state::Runtime;
use sider::replication::Cursor;
use sider::persistence::Role;
use sider::storage::replica::{replica_shard, replica_stores};
use sider::storage::snapshot::{compaction_due, merge_snapshots};
use sider::storage::worker::{
    batch_shard, channel_with_stores, check_channel, next_budget, replica_failure_is_fatal,
    write_outcome, Accepted, DbError, Request, Worker, Written,
};
use sider::storage::{
    Moment, Mutation, MutationOrigin, ReplayError, ResolvedBatch, ShardRouter, Store,
    StoreConfig, Value,
};
use sider::ConfigError;

const NOW: Moment = Moment {
    now: 5_000_000_000,
    unix_ms: 1000,
};

const SECOND: u128 = 1_000_000_000;

fn set(key: &'static [u8], value: &'static [u8]) -> Command {
    Command::SetValue {
        key: Bytes::from_static(key),
        value: Bytes::from_static(value),
    }
}

fn get(key: &'static [u8]) -> Command {
    Command::Get {
        key: Bytes::from_static(key),
    }
}

fn worker() -> Worker {
    let (_, mut workers) = channel_with_stores(1, SECOND, vec![Store::new()]).unwrap();
    workers.pop().unwrap()
}

fn execute(worker: &mut Worker, command: Command, written: Written) -> Result<Reply, DbError> {
    match worker.accept(Request::Execute { command }, false, NOW) {
        Accepted::Answer(reply) => Ok(reply),
        Accepted::Commit(pending) => worker
            .complete(pending, false, written)
            .map(|(reply, _)| reply),
    }
}

#[test]
fn rejects_invalid_capacity_and_timeout_without_runtime() {
    for capacity in [0, usize::MAX / 8 + 1, usize::MAX] {
        assert!(matches!(
            channel_with_stores(capacity, SECOND, vec![Store::new()]),
            Err(ConfigError::InvalidServerLimits { .. })
        ));
    }
    for duration in [0, u64::MAX as u128 * SECOND + 999_999_999] {
        assert!(matches!(
            channel_with_stores(1, duration, vec![Store::new()]),
            Err(ConfigError::InvalidServerLimits { .. })
        ));
    }
    assert!(channel_with_stores(1, 1, vec![Store::new()]).is_ok());
}

#[test]
fn the_capacity_reaches_as_far_as_the_queues_of_the_runtime() {
    let most = tokio::sync::Semaphore::MAX_PERMITS;
    assert!(check_channel(most, 1, 1, true).is_ok());
    assert!(check_channel(most + 1, 1, 1, true).is_err());
    assert!(check_channel(1, 1, 1, false).is_err());
    assert!(check_channel(1, 1, 257, true).is_err());
}

#[test]
fn batches_that_the_log_did_not_record_have_no_effect() {
    let mut worker = worker();
    assert_eq!(
        execute(&mut worker, set(b"k", b"1"), Written::Failed),
        Err(DbError::Unavailable)
    );
    assert_eq!(
        execute(&mut worker, set(b"k", b"1"), Written::TooLong),
        Ok(Reply::Error(ExecutionError::AofRecordLimit))
    );
    assert!(worker.store().is_empty());
    assert_eq!(
        execute(&mut worker, set(b"k", b"1"), Written::Recorded),
        Ok(Reply::Okay)
    );
    assert_eq!(worker.store().len(), 1);
}

#[test]
fn replicas_refuse_writes_and_answer_reads() {
    let mut worker = worker();
    execute(&mut worker, set(b"k", b"1"), Written::Recorded).unwrap();
    let refused = Request::Execute {
        command: set(b"k", b"2"),
    };
    assert!(matches!(
        worker.accept(refused, true, NOW),
        Accepted::Answer(Reply::Error(ExecutionError::ReadOnly))
    ));
    let Accepted::Commit(pending) = worker.accept(
        Request::Execute {
            command: get(b"k"),
        },
        true,
        NOW,
    ) else {
        panic!("a read goes through");
    };
    let (reply, tokens) = worker.complete(pending, true, Written::Recorded).unwrap();
    assert_eq!(reply, Reply::Bulk(Some(Bytes::from_static(b"1"))));
    assert!(tokens.is_empty());
}

#[test]
fn a_changed_observation_undoes_the_transaction() {
    let mut worker = worker();
    let watch = |worker: &mut Worker| {
        let Accepted::Commit(pending) = worker.accept(
            Request::Watch {
                keys: vec![Bytes::from_static(b"k")],
            },
            false,
            NOW,
        ) else {
            panic!("observing goes through the log");
        };
        worker.complete(pending, false, Written::Recorded).unwrap().1
    };
    let watched = watch(&mut worker);
    execute(&mut worker, set(b"k", b"1"), Written::Recorded).unwrap();
    assert!(matches!(
        worker.accept(
            Request::Batch {
                commands: vec![set(b"other", b"2")],
                watched,
            },
            false,
            NOW
        ),
        Accepted::Answer(Reply::NullArray)
    ));
    let watched = watch(&mut worker);
    let Accepted::Commit(pending) = worker.accept(
        Request::Batch {
            commands: vec![set(b"other", b"2"), get(b"k")],
            watched,
        },
        false,
        NOW,
    ) else {
        panic!("nothing changed");
    };
    let (reply, _) = worker.complete(pending, false, Written::Recorded).unwrap();
    assert_eq!(
        reply,
        Reply::Array(vec![
            Reply::Okay,
            Reply::Bulk(Some(Bytes::from_static(b"1")))
        ])
    );
    assert_eq!(worker.store().watch_count(), 0);
}

#[test]
fn upkeep_goes_on_with_a_smaller_budget_where_the_record_was_too_long() {
    assert_eq!(next_budget(64, &Reply::Okay), None);
    assert_eq!(
        next_budget(64, &Reply::Error(ExecutionError::AofRecordLimit)),
        Some(32)
    );
    assert_eq!(
        next_budget(1, &Reply::Error(ExecutionError::AofRecordLimit)),
        None
    );
}

#[test]
fn errors_of_the_log_decide_what_an_owner_does() {
    assert_eq!(write_outcome(&Ok(())), Written::Recorded);
    assert_eq!(
        write_outcome(&Err(AofError::Format(
            sider::persistence::format::FormatError::Limit
        ))),
        Written::TooLong
    );
    assert_eq!(write_outcome(&Err(AofError::Unavailable)), Written::Failed);
    assert!(replica_failure_is_fatal(&AofError::Unavailable));
    assert!(!compaction_due(0, 100, false));
    assert!(!compaction_due(100, 100, true));
    assert!(compaction_due(100, 100, false));
    assert!(!compaction_due(100, 99, false));
}

#[test]
fn a_batch_belongs_to_one_shard() {
    let router = ShardRouter::new(256).unwrap();
    let together = vec![set(b"{tag}a", b""), get(b"{tag}b")];
    assert_eq!(
        batch_shard(&router, &together, &vec![]),
        Ok(router.shard_for(b"tag"))
    );
    let apart = vec![set(b"a", b""), get(b"b")];
    assert_eq!(
        batch_shard(&router, &apart, &vec![]),
        Err(ExecutionError::CrossShard)
    );
}

fn put(key: &'static [u8]) -> Mutation {
    Mutation::Put {
        key: Bytes::from_static(key),
        value: Value::String(Bytes::from_static(b"v")),
        expires_at_unix_ms: None,
    }
}

#[test]
fn snapshots_of_shards_are_merged_in_the_order_of_their_keys() {
    let merged = merge_snapshots(vec![
        vec![put(b"b"), put(b"d")],
        vec![],
        vec![put(b"e"), put(b"a"), put(b"c")],
    ]);
    let keys: Vec<&[u8]> = merged.iter().map(|entry| entry.key().as_ref()).collect();
    assert_eq!(keys, [b"a", b"b", b"c", b"d", b"e"]);
}

#[test]
fn received_snapshots_fill_their_shards_or_none() {
    let layout = DurableLayout {
        shard_count: 2,
        routing_version: ROUTING_VERSION,
    };
    let config = StoreConfig {
        max_dataset_bytes: 1000,
    };
    let stores = replica_stores(layout, config, &vec![put(b"a"), put(b"b")], NOW)
        .ok()
        .unwrap();
    assert_eq!(stores.len(), 2);
    assert_eq!(stores[0].len() + stores[1].len(), 2);
    assert!(replica_stores(layout, config, &vec![put(b"b"), put(b"a")], NOW).is_err());
    let small = StoreConfig {
        max_dataset_bytes: 100,
    };
    assert!(replica_stores(layout, small, &vec![put(b"a")], NOW).is_err());
}

#[test]
fn received_batches_have_to_follow_what_was_applied() {
    let layout = DurableLayout {
        shard_count: 1,
        routing_version: ROUTING_VERSION,
    };
    let cursor = |sequence: u64| Cursor {
        epoch: [7; 16],
        sequence,
    };
    let mut runtime = Runtime::new(Role::Replica, cursor(4));
    let batch = ResolvedBatch {
        origin: MutationOrigin::Client,
        mutations: vec![put(b"a")],
    };
    let generation = runtime.begin_session();
    assert!(matches!(
        replica_shard(&runtime, generation, cursor(5), &batch, layout),
        Ok(0)
    ));
    assert!(replica_shard(&runtime, generation, cursor(6), &batch, layout).is_err());
    let next = runtime.begin_session();
    assert!(replica_shard(&runtime, generation, cursor(5), &batch, layout).is_err());
    assert!(replica_shard(&runtime, next, cursor(5), &batch, layout).is_ok());
}

#[test]
fn a_recorded_batch_of_another_server_is_applied_as_it_is() {
    let mut worker = worker();
    let batch = ResolvedBatch {
        origin: MutationOrigin::Client,
        mutations: vec![put(b"a"), put(b"b")],
    };
    let pending = worker.prepare_replica(&batch, NOW).ok().unwrap();
    worker.complete(pending, false, Written::Recorded).unwrap();
    assert_eq!(worker.store().len(), 2);
    let twice = ResolvedBatch {
        origin: MutationOrigin::Client,
        mutations: vec![put(b"a"), put(b"a")],
    };
    assert!(matches!(
        worker.prepare_replica(&twice, NOW),
        Err(ReplayError::DuplicateKey)
    ));
}

#[test]
fn upkeep_removes_the_earliest_entries_and_counts_them() {
    let mut worker = worker();
    for (key, milliseconds) in [(b"c", 3), (b"a", 2), (b"b", 1), (b"d", 9)] {
        let command = Command::SetWithOptions {
            key: Bytes::from_static(key),
            value: Bytes::new(),
            options: SetOptions {
                expiry: SetExpiry::After(milliseconds),
                ..SetOptions::default()
            },
        };
        assert_eq!(
            execute(&mut worker, command, Written::Recorded),
            Ok(Reply::Okay)
        );
    }
    let now = NOW.now + 5_000_000;
    let pending = worker.expire(2, now);
    assert_eq!(pending.prepared.reply, Reply::Integer(2));
    assert_eq!(pending.prepared.batch.origin, MutationOrigin::Expiration);
    let removal = |key: &'static [u8]| Mutation::Delete {
        key: Bytes::from_static(key),
    };
    assert_eq!(
        pending.prepared.batch.mutations,
        vec![removal(b"b"), removal(b"a")]
    );
    let all = worker.expire(10, now);
    assert_eq!(all.prepared.reply, Reply::Integer(3));
    assert_eq!(
        all.prepared.batch.mutations,
        vec![removal(b"b"), removal(b"a"), removal(b"c")]
    );
}
