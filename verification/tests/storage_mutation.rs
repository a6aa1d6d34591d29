use bytes::Bytes;
use sider::command::{Command, ExecutionError, Reply, SetExpiry, SetOptions};
use sider::storage::watch::Registry;
use sider::storage::{
    Moment, Mutation, MutationOrigin, ReplayError, Store, StoreConfig, Value,
};

const NOW: Moment = Moment {
    now: 5_000_000_000,
    unix_ms: 1000,
};

fn set(key: &'static [u8], value: &'static [u8]) -> Command {
    Command::SetValue {
        key: Bytes::from_static(key),
        value: Bytes::from_static(value),
    }
}

fn set_for(milliseconds: u64) -> Command {
    Command::SetWithOptions {
        key: Bytes::from_static(b"k"),
        value: Bytes::from_static(b"v"),
        options: SetOptions {
            expiry: SetExpiry::After(milliseconds),
            ..SetOptions::default()
        },
    }
}

fn get_k() -> Command {
    Command::Get {
        key: Bytes::from_static(b"k"),
    }
}

#[test]
fn preparation_keeps_real_state_and_uses_total_dataset_quota() {
    let mut store = Store::with_config(StoreConfig {
        max_dataset_bytes: 270,
    })
    .unwrap();
    store.execute(set(b"unrelated", b"long"), NOW);
    let prepared = store.prepare(set(b"key", b"value"), NOW);
    assert_eq!(prepared.reply, Reply::Error(ExecutionError::OutOfMemory));
    assert!(prepared.batch.mutations.is_empty());
    assert_eq!(store.len(), 1);
    let prepared = store.prepare(
        Command::MSet {
            entries: vec![
                (Bytes::from_static(b"unrelated"), Bytes::new()),
                (Bytes::from_static(b"k"), Bytes::new()),
            ],
        },
        NOW,
    );
    assert_eq!(prepared.reply, Reply::Okay);
    assert_eq!(store.len(), 1);
    store.apply(prepared);
    assert_eq!(store.len(), 2);
    assert_eq!(store.used_bytes(), 266);
}

#[test]
fn apply_keeps_prepared_deadline_and_expiration_is_resolved_tombstone() {
    let mut store = Store::new();
    let prepared = store.prepare(
        Command::SetWithOptions {
            key: Bytes::from_static(b"k"),
            value: Bytes::from_static(b"1"),
            options: SetOptions {
                expiry: SetExpiry::After(10),
                ..SetOptions::default()
            },
        },
        NOW,
    );
    assert!(matches!(
        prepared.batch.mutations[0],
        Mutation::Put {
            expires_at_unix_ms: Some(1010),
            ..
        }
    ));
    store.apply(prepared);
    let later = Moment {
        now: NOW.now + 20_000_000,
        unix_ms: 500,
    };
    let passive = store.prepare(get_k(), later);
    assert_eq!(passive.batch.origin, MutationOrigin::Expiration);
    assert_eq!(passive.reply, Reply::Bulk(None));
    assert_eq!(store.len(), 1);
    let expiration = store.prepare_expiration(1, later.now);
    assert_eq!(expiration.batch.origin, MutationOrigin::Expiration);
    assert_eq!(
        expiration.batch.mutations,
        vec![Mutation::Delete {
            key: Bytes::from_static(b"k")
        }]
    );
    assert_eq!(store.len(), 1);
    store.apply(expiration);
    assert!(store.is_empty());
}

#[test]
fn replay_is_atomic_and_expired_replacement_removes_previous_value() {
    let mut store = Store::with_config(StoreConfig {
        max_dataset_bytes: 140,
    })
    .unwrap();
    store.execute(set(b"k", b"before"), NOW);
    let invalid = vec![
        Mutation::Delete {
            key: Bytes::from_static(b"k"),
        },
        Mutation::Put {
            key: Bytes::from_static(b"other"),
            value: Value::String(Bytes::from_static(b"too big for quota")),
            expires_at_unix_ms: None,
        },
    ];
    assert!(matches!(
        store.replay(&invalid, NOW),
        Err(ReplayError::Quota)
    ));
    assert_eq!(
        store.execute(get_k(), NOW),
        Reply::Bulk(Some(Bytes::from_static(b"before")))
    );
    store
        .replay(
            &[Mutation::Put {
                key: Bytes::from_static(b"k"),
                value: Value::String(Bytes::new()),
                expires_at_unix_ms: Some(900),
            }],
            NOW,
        )
        .unwrap();
    assert!(store.is_empty());
}

#[test]
fn replay_refuses_a_key_that_comes_twice_and_a_deadline_out_of_reach() {
    let mut store = Store::new();
    let put = |expires_at_unix_ms: Option<i64>| Mutation::Put {
        key: Bytes::from_static(b"k"),
        value: Value::String(Bytes::from_static(b"v")),
        expires_at_unix_ms,
    };
    assert!(matches!(
        store.replay(&[put(None), put(None)], NOW),
        Err(ReplayError::DuplicateKey)
    ));
    let last = Moment {
        now: u128::MAX,
        unix_ms: 0,
    };
    assert!(matches!(
        store.replay(&[put(Some(1))], last),
        Err(ReplayError::Deadline)
    ));
    assert!(store.is_empty());
    assert_eq!(
        ReplayError::DuplicateKey.message(),
        "lote contém chaves duplicadas"
    );
}

#[test]
fn replaying_a_snapshot_gives_the_dataset_back() {
    let mut store = Store::new();
    store.execute(set(b"b", b"2"), NOW);
    store.execute(set(b"a", b"1"), NOW);
    store.execute(set_for(1000), NOW);
    let snapshot = store.snapshot();
    assert_eq!(snapshot.len(), 3);
    assert_eq!(snapshot[0].key().as_ref(), b"a");
    assert_eq!(snapshot[2].key().as_ref(), b"k");
    let mut copy = Store::new();
    copy.replay(&snapshot, NOW).unwrap();
    assert_eq!(copy.snapshot(), snapshot);
    assert_eq!(copy.used_bytes(), store.used_bytes());
}

#[test]
fn transactions_prepare_resolves_one_batch_without_rollback_or_early_effects() {
    let mut store = Store::new();
    let prepared = store.prepare_batch(
        vec![
            set(b"a", b"bad"),
            Command::Incr {
                key: Bytes::from_static(b"a"),
            },
            set(b"b", b"2"),
        ],
        NOW,
    );
    assert_eq!(
        prepared.reply,
        Reply::Array(vec![
            Reply::Okay,
            Reply::Error(ExecutionError::InvalidInteger),
            Reply::Okay
        ])
    );
    assert_eq!(prepared.batch.mutations.len(), 2);
    assert!(store.is_empty());
    store.apply(prepared);
    assert_eq!(store.len(), 2);
}

#[test]
fn transactions_absent_created_deleted_key_still_invalidates_watch() {
    let mut store = Store::new();
    let tokens = store.watch(vec![Bytes::from_static(b"k")]);
    let prepared = store.prepare_batch(
        vec![
            set(b"k", b"1"),
            Command::Del {
                keys: vec![Bytes::from_static(b"k")],
            },
        ],
        NOW,
    );
    assert_eq!(
        prepared.batch.mutations,
        vec![Mutation::Delete {
            key: Bytes::from_static(b"k")
        }]
    );
    assert!(store.watches_valid(&tokens, NOW.now));
    store.apply(prepared);
    assert!(store.is_empty());
    assert!(!store.watches_valid(&tokens, NOW.now));
}

#[test]
fn transactions_watch_expiration_invalidates_before_active_or_passive_cleanup() {
    let later = Moment {
        now: NOW.now + 1_000_000_000,
        unix_ms: 2000,
    };
    for cleanup in [0, 1, 2] {
        let mut store = Store::new();
        store.execute(set_for(1000), NOW);
        let watched = store.watch(vec![Bytes::from_static(b"k")]);
        assert!(store.watches_valid(&watched, NOW.now));
        if cleanup == 1 {
            let prepared = store.prepare_expiration(64, later.now);
            store.apply(prepared);
        } else if cleanup == 2 {
            store.execute(get_k(), later);
        }
        assert!(!store.watches_valid(&watched, later.now));
        for token in watched {
            store.unwatch(token);
        }
        // A new observation starts after clearing the expired tombstone.
        store.execute(get_k(), later);
        let tokens = store.watch(vec![Bytes::from_static(b"k")]);
        assert!(store.watches_valid(&tokens, later.now));
    }
}

#[test]
fn transactions_read_expiration_is_recorded_but_failed_command_has_no_phantom_write() {
    let later = Moment {
        now: NOW.now + 1_000_000_000,
        unix_ms: 2000,
    };
    let mut store = Store::new();
    store.execute(set_for(1000), NOW);
    let failed = store.prepare_batch(
        vec![Command::SetWithOptions {
            key: Bytes::from_static(b"k"),
            value: Bytes::new(),
            options: SetOptions {
                expiry: SetExpiry::After(0),
                ..SetOptions::default()
            },
        }],
        later,
    );
    assert!(
        matches!(failed.reply, Reply::Array(ref replies) if matches!(replies[0], Reply::Error(_)))
    );
    assert!(failed.batch.mutations.is_empty());
    let read = store.prepare_batch(vec![get_k()], later);
    assert_eq!(read.reply, Reply::Array(vec![Reply::Bulk(None)]));
    assert_eq!(
        read.batch.mutations,
        vec![Mutation::Delete {
            key: Bytes::from_static(b"k")
        }]
    );
}

#[test]
fn transactions_watch_tokens_release_and_do_not_reuse_invalid_generations() {
    let mut registry = Registry::new();
    let first = registry.token(Bytes::from_static(b"k"), None);
    let second = registry.token(Bytes::from_static(b"k"), None);
    assert_eq!(registry.len(), 1);
    registry.release(first);
    assert_eq!(registry.len(), 1);
    registry.invalidate(b"k");
    assert!(registry.changed(&second, NOW.now));
    let next = registry.token(Bytes::from_static(b"k"), None);
    registry.release(second);
    assert!(!registry.changed(&next, NOW.now));
    assert_eq!(registry.len(), 1);
    registry.release(next);
    assert_eq!(registry.len(), 0);
    for index in 0..1024 {
        let token = registry.token(Bytes::from(index.to_string()), None);
        registry.release(token);
    }
    assert_eq!(registry.len(), 0);
}

#[test]
fn a_change_leaves_another_version_and_a_read_the_same() {
    let mut store = Store::new();
    let first = store.prepare(set(b"k", b"v"), NOW);
    let second = store.prepare(get_k(), NOW);
    assert!(first.is_current(&store) && second.is_current(&store));
    store.apply(first);
    assert!(!second.is_current(&store));
    let third = store.prepare(get_k(), NOW);
    store.execute(get_k(), NOW);
    assert!(third.is_current(&store));
    store.execute(
        Command::Del {
            keys: vec![Bytes::from_static(b"k")],
        },
        NOW,
    );
    assert!(!third.is_current(&store));
    assert!(!second.is_current(&store));
}

#[test]
fn a_snapshot_tells_each_entry_once_and_is_restored_as_it_is() {
    let mut store = Store::new();
    store.execute(set(b"b", b"2"), NOW);
    store.execute(set_for(1000), NOW);
    store.execute(set(b"a", b"1"), NOW);
    let snapshot = store.snapshot();
    let put = |key: &'static [u8], value: &'static [u8], deadline: Option<i64>| Mutation::Put {
        key: Bytes::from_static(key),
        value: Value::String(Bytes::from_static(value)),
        expires_at_unix_ms: deadline,
    };
    assert_eq!(
        snapshot,
        vec![
            put(b"a", b"1", None),
            put(b"b", b"2", None),
            put(b"k", b"v", Some(2000)),
        ]
    );
    let before = Moment {
        now: 9_000_000_000,
        unix_ms: 1999,
    };
    let mut copy = Store::new();
    copy.replay(&snapshot, before).unwrap();
    assert_eq!(copy.snapshot(), snapshot);
    assert_eq!(copy.used_bytes(), store.used_bytes());
    let due = Moment {
        unix_ms: 2000,
        ..before
    };
    let mut shorter = Store::new();
    shorter.replay(&snapshot, due).unwrap();
    assert_eq!(shorter.snapshot(), snapshot[..2]);
    assert!(shorter.used_bytes() < store.used_bytes());
}
