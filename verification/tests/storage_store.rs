use bytes::Bytes;
use sider::command::{
    Command, ExecutionError, ExpiryUnit, HashCommand, Reply, Score, SetCondition, SetExpiry,
    SetOptions, SortedSetCommand,
};
use sider::storage::{Moment, Store, StoreConfig};

const NOW: Moment = Moment {
    now: 5_000_000_000,
    unix_ms: 1000,
};

fn later(milliseconds: u64) -> Moment {
    Moment {
        now: NOW.now + milliseconds as u128 * 1_000_000,
        unix_ms: NOW.unix_ms + milliseconds as i64,
    }
}

#[test]
fn expiration_index_stays_bounded_during_repeated_rewrites() {
    let mut store = Store::new();
    for _ in 0..1000 {
        let reply = store.execute(Command::SetWithOptions {
            key: Bytes::from_static(b"key"),
            value: Bytes::from_static(b"value"),
            options: SetOptions {
                expiry: SetExpiry::After(60000),
                ..SetOptions::default()
            },
        }, NOW);
        assert_eq!(reply, Reply::Okay);
        assert_eq!(store.expiring(), 1);
    }
    store.execute(Command::Persist {
        key: Bytes::from_static(b"key"),
    }, NOW);
    assert_eq!(store.expiring(), 0);
}

fn set(store: &mut Store, key: &'static [u8], value: &'static [u8]) {
    assert_eq!(
        store.execute(Command::SetValue {
            key: Bytes::from_static(key),
            value: Bytes::from_static(value),
        }, NOW),
        Reply::Okay
    );
}

fn get(store: &mut Store, key: &'static [u8]) -> Reply {
    store.execute(Command::Get {
        key: Bytes::from_static(key),
    }, NOW)
}

#[test]
fn new_and_default_start_without_keys() {
    for mut store in [Store::new(), Store::default()] {
        assert_eq!(get(&mut store, b"missing"), Reply::Bulk(None));
        assert_eq!(get(&mut store, b""), Reply::Bulk(None));
    }
}

#[test]
fn ping_and_echo_preserve_binary_messages_and_state() {
    let mut store = Store::new();
    set(&mut store, b"kept", b"value");

    assert_eq!(store.execute(Command::Ping(None), NOW), Reply::Pong);
    for message in [Bytes::new(), Bytes::from_static(b"\xff\0\r\n\x80")] {
        assert_eq!(
            store.execute(Command::Ping(Some(message.clone())), NOW),
            Reply::Bulk(Some(message.clone()))
        );
        assert_eq!(
            store.execute(Command::Echo(message.clone()), NOW),
            Reply::Bulk(Some(message))
        );
    }
    assert_eq!(
        get(&mut store, b"kept"),
        Reply::Bulk(Some(Bytes::from_static(b"value")))
    );
}

#[test]
fn empty_key_and_empty_value_are_not_missing() {
    let mut store = Store::new();
    set(&mut store, b"", b"");
    set(&mut store, b"nonempty", b"");

    assert_eq!(get(&mut store, b""), Reply::Bulk(Some(Bytes::new())));
    assert_eq!(
        get(&mut store, b"nonempty"),
        Reply::Bulk(Some(Bytes::new()))
    );
    assert_eq!(get(&mut store, b"absent"), Reply::Bulk(None));
}

#[test]
fn binary_keys_and_values_keep_every_byte() {
    let mut store = Store::new();
    set(&mut store, b"\xff\0\r\n\x80", b"\0\xff\x80\r\n");
    set(&mut store, b"\xff", b"prefix only");

    assert_eq!(
        get(&mut store, b"\xff\0\r\n\x80"),
        Reply::Bulk(Some(Bytes::from_static(b"\0\xff\x80\r\n")))
    );
    assert_eq!(
        get(&mut store, b"\xff"),
        Reply::Bulk(Some(Bytes::from_static(b"prefix only")))
    );
    assert_eq!(get(&mut store, b"\xff\0"), Reply::Bulk(None));
}

#[test]
fn set_overwrites_without_changing_other_keys() {
    let mut store = Store::new();
    set(&mut store, b"key", b"first");
    set(&mut store, b"other", b"retained");
    set(&mut store, b"key", b"second");

    assert_eq!(
        get(&mut store, b"key"),
        Reply::Bulk(Some(Bytes::from_static(b"second")))
    );
    assert_eq!(
        get(&mut store, b"other"),
        Reply::Bulk(Some(Bytes::from_static(b"retained")))
    );
    set(&mut store, b"key", b"");
    assert_eq!(get(&mut store, b"key"), Reply::Bulk(Some(Bytes::new())));
}

#[test]
fn key_comparison_is_case_sensitive() {
    let mut store = Store::new();
    set(&mut store, b"key", b"lower");
    set(&mut store, b"KEY", b"upper");

    assert_eq!(
        get(&mut store, b"key"),
        Reply::Bulk(Some(Bytes::from_static(b"lower")))
    );
    assert_eq!(
        get(&mut store, b"KEY"),
        Reply::Bulk(Some(Bytes::from_static(b"upper")))
    );
    assert_eq!(get(&mut store, b"Key"), Reply::Bulk(None));
}

#[test]
fn del_counts_only_actual_removals_and_preserves_other_keys() {
    let mut store = Store::new();
    set(&mut store, b"a", b"first");
    set(&mut store, b"b", b"second");
    set(&mut store, b"c", b"kept");

    let keys = ["a", "a", "missing", "b", "b", "missing"]
        .into_iter()
        .map(|key| Bytes::from_static(key.as_bytes()))
        .collect();
    assert_eq!(store.execute(Command::Del { keys }, NOW), Reply::Integer(2));
    assert_eq!(get(&mut store, b"a"), Reply::Bulk(None));
    assert_eq!(get(&mut store, b"b"), Reply::Bulk(None));
    assert_eq!(
        get(&mut store, b"c"),
        Reply::Bulk(Some(Bytes::from_static(b"kept")))
    );
    assert_eq!(
        store.execute(Command::Del {
            keys: vec![Bytes::from_static(b"a"), Bytes::from_static(b"missing")],
        }, NOW),
        Reply::Integer(0)
    );
}

#[test]
fn del_accepts_empty_and_binary_keys_and_counts_empty_values() {
    let mut store = Store::new();
    set(&mut store, b"", b"");
    set(&mut store, b"\xff\0\r\n", b"");

    assert_eq!(
        store.execute(Command::Del {
            keys: vec![
                Bytes::new(),
                Bytes::from_static(b"\xff\0\r\n"),
                Bytes::new(),
            ],
        }, NOW),
        Reply::Integer(2)
    );
    assert_eq!(get(&mut store, b""), Reply::Bulk(None));
    assert_eq!(get(&mut store, b"\xff\0\r\n"), Reply::Bulk(None));
}

#[test]
fn directly_constructed_empty_del_is_a_noop() {
    let mut store = Store::new();
    set(&mut store, b"kept", b"value");

    assert_eq!(
        store.execute(Command::Del { keys: Vec::new() }, NOW),
        Reply::Integer(0)
    );
    assert_eq!(
        get(&mut store, b"kept"),
        Reply::Bulk(Some(Bytes::from_static(b"value")))
    );
}

#[test]
fn get_shares_immutable_bytes_and_reply_survives_overwrite_and_removal() {
    let mut store = Store::new();
    let value = Bytes::from(vec![0xff, 0, b'\r', b'\n', 0x80]);
    let original_pointer = value.as_ptr();
    assert_eq!(
        store.execute(Command::SetValue {
            key: Bytes::from_static(b"key"),
            value,
        }, NOW),
        Reply::Okay
    );

    let Reply::Bulk(Some(first)) = get(&mut store, b"key") else {
        panic!("GET deve devolver o valor armazenado");
    };
    let Reply::Bulk(Some(second)) = get(&mut store, b"key") else {
        panic!("GET repetido deve devolver o mesmo conteúdo");
    };
    assert_eq!(first.as_ptr(), original_pointer);
    assert_eq!(second.as_ptr(), original_pointer);

    set(&mut store, b"key", b"replacement");
    assert_eq!(
        store.execute(Command::Del {
            keys: vec![Bytes::from_static(b"key")],
        }, NOW),
        Reply::Integer(1)
    );
    drop(store);
    assert_eq!(first.as_ref(), &[0xff, 0, b'\r', b'\n', 0x80]);
    assert_eq!(second, first);
}

#[test]
fn pubsub_commands_cannot_execute_in_the_store() {
    let mut store = Store::new();
    for command in [
        Command::Subscribe {
            channels: vec![Bytes::new()],
        },
        Command::Unsubscribe { channels: vec![] },
        Command::Publish {
            channel: Bytes::new(),
            message: Bytes::new(),
        },
    ] {
        assert_eq!(
            store.execute(command, NOW),
            Reply::Error(ExecutionError::ConnectionOnly)
        );
    }
}

#[test]
fn deadlines_end_entries_without_a_cleanup() {
    let mut store = Store::new();
    set(&mut store, b"kept", b"1");
    let reply = store.execute(
        Command::SetWithOptions {
            key: Bytes::from_static(b"short"),
            value: Bytes::from_static(b"2"),
            options: SetOptions {
                expiry: SetExpiry::After(10),
                ..SetOptions::default()
            },
        },
        NOW,
    );
    assert_eq!(reply, Reply::Okay);
    let ttl = |milliseconds: bool| Command::Ttl {
        key: Bytes::from_static(b"short"),
        milliseconds,
    };
    assert_eq!(store.execute(ttl(true), later(3)), Reply::Integer(7));
    assert_eq!(store.execute(ttl(false), later(3)), Reply::Integer(0));
    assert_eq!(store.execute(ttl(true), later(10)), Reply::Integer(-2));
    assert_eq!(store.len(), 1);
    assert_eq!(
        store.execute(
            Command::Ttl {
                key: Bytes::from_static(b"kept"),
                milliseconds: true
            },
            later(10)
        ),
        Reply::Integer(-1)
    );
}

#[test]
fn deadlines_are_set_removed_and_collected_within_a_budget() {
    let mut store = Store::new();
    for key in [b"a".as_slice(), b"b", b"c"] {
        assert_eq!(
            store.execute(
                Command::SetValue {
                    key: Bytes::copy_from_slice(key),
                    value: Bytes::from_static(b"v"),
                },
                NOW
            ),
            Reply::Okay
        );
        assert_eq!(
            store.execute(
                Command::Expire {
                    key: Bytes::copy_from_slice(key),
                    value: 1,
                    unit: ExpiryUnit::Seconds,
                },
                NOW
            ),
            Reply::Integer(1)
        );
    }
    assert_eq!(store.expiring(), 3);
    assert_eq!(
        store.execute(
            Command::Persist {
                key: Bytes::from_static(b"b")
            },
            NOW
        ),
        Reply::Integer(1)
    );
    assert_eq!(store.expire_due(1, later(999).now), 0);
    assert_eq!(store.expire_due(1, later(1000).now), 1);
    assert_eq!(store.expire_due(8, later(1000).now), 1);
    assert_eq!(store.len(), 1);
    assert_eq!(store.expiring(), 0);
}

#[test]
fn conditions_decide_before_a_value_is_replaced() {
    let mut store = Store::new();
    let put = |value: &'static [u8], condition: SetCondition| Command::SetWithOptions {
        key: Bytes::from_static(b"k"),
        value: Bytes::from_static(value),
        options: SetOptions {
            condition,
            return_previous: false,
            expiry: SetExpiry::Persistent,
        },
    };
    assert_eq!(
        store.execute(put(b"1", SetCondition::Present), NOW),
        Reply::Bulk(None)
    );
    assert!(store.is_empty());
    assert_eq!(
        store.execute(put(b"1", SetCondition::Missing), NOW),
        Reply::Okay
    );
    assert_eq!(
        store.execute(put(b"2", SetCondition::Missing), NOW),
        Reply::Bulk(None)
    );
    assert_eq!(get(&mut store, b"k"), Reply::Bulk(Some(Bytes::from_static(b"1"))));
}

#[test]
fn counters_keep_to_the_range_of_their_type() {
    let mut store = Store::new();
    let incr = || Command::Incr {
        key: Bytes::from_static(b"n"),
    };
    assert_eq!(store.execute(incr(), NOW), Reply::Integer(1));
    set(&mut store, b"n", b"9223372036854775807");
    assert!(matches!(store.execute(incr(), NOW), Reply::Error(_)));
    assert_eq!(
        get(&mut store, b"n"),
        Reply::Bulk(Some(Bytes::from_static(b"9223372036854775807")))
    );
    set(&mut store, b"n", b"01");
    assert_eq!(
        store.execute(incr(), NOW),
        Reply::Error(ExecutionError::InvalidInteger)
    );
}

#[test]
fn the_quota_counts_keys_values_and_a_fixed_charge() {
    let mut store = Store::with_config(StoreConfig {
        max_dataset_bytes: 140,
    })
    .unwrap();
    set(&mut store, b"key", b"value");
    assert_eq!(store.used_bytes(), 3 + 5 + 128);
    assert_eq!(
        store.execute(
            Command::SetValue {
                key: Bytes::from_static(b"key"),
                value: Bytes::from_static(b"0123456789"),
            },
            NOW
        ),
        Reply::Error(ExecutionError::OutOfMemory)
    );
    assert_eq!(store.used_bytes(), 136);
    assert!(Store::with_config(StoreConfig {
        max_dataset_bytes: 0
    })
    .is_err());
}

#[test]
fn values_of_another_type_are_left_alone() {
    let mut store = Store::new();
    assert_eq!(
        store.execute(
            Command::Hash {
                key: Bytes::from_static(b"h"),
                operation: HashCommand::SetFields {
                    entries: vec![
                        (Bytes::from_static(b"f"), Bytes::from_static(b"1")),
                        (Bytes::from_static(b"f"), Bytes::from_static(b"2")),
                        (Bytes::from_static(b"g"), Bytes::from_static(b"3")),
                    ],
                },
            },
            NOW
        ),
        Reply::Integer(2)
    );
    assert_eq!(
        get(&mut store, b"h"),
        Reply::Error(ExecutionError::WrongType)
    );
    assert_eq!(
        store.execute(
            Command::Hash {
                key: Bytes::from_static(b"h"),
                operation: HashCommand::Get {
                    field: Bytes::from_static(b"f")
                },
            },
            NOW
        ),
        Reply::Bulk(Some(Bytes::from_static(b"2")))
    );
}

#[test]
fn members_come_in_the_order_of_their_scores_and_names() {
    let mut store = Store::new();
    let score = |order: i64, text: &'static [u8]| Score {
        order,
        text: Bytes::from_static(text),
    };
    assert_eq!(
        store.execute(
            Command::SortedSet {
                key: Bytes::from_static(b"z"),
                operation: SortedSetCommand::Add {
                    entries: vec![
                        (score(2, b"2"), Bytes::from_static(b"b")),
                        (score(1, b"1"), Bytes::from_static(b"c")),
                        (score(2, b"2"), Bytes::from_static(b"a")),
                    ],
                },
            },
            NOW
        ),
        Reply::Integer(3)
    );
    assert_eq!(
        store.execute(
            Command::SortedSet {
                key: Bytes::from_static(b"z"),
                operation: SortedSetCommand::Range {
                    start: 0,
                    stop: -1,
                    with_scores: false,
                },
            },
            NOW
        ),
        Reply::Array(vec![
            Reply::Bulk(Some(Bytes::from_static(b"c"))),
            Reply::Bulk(Some(Bytes::from_static(b"a"))),
            Reply::Bulk(Some(Bytes::from_static(b"b"))),
        ])
    );
}

#[test]
fn outdated_expiration_generation_cannot_remove_replacement() {
    let mut store = Store::new();
    let key = Bytes::from_static(b"key");
    store.execute(
        Command::SetWithOptions {
            key: key.clone(),
            value: Bytes::from_static(b"old"),
            options: SetOptions {
                expiry: SetExpiry::After(1),
                ..SetOptions::default()
            },
        },
        NOW,
    );
    set(&mut store, b"key", b"new");
    assert_eq!(store.expire_due(1, later(1).now), 0);
    assert_eq!(
        store.execute(Command::Get { key }, later(1)),
        Reply::Bulk(Some(Bytes::from_static(b"new")))
    );
}
