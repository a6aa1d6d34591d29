use bytes::Bytes;
use sider::clock::{reachable_all, split};
use sider::config::ServerConfig;
use sider::resp::RespLimits;
use sider::settings::{Address, Ip, NativeText, Settings};
use sider::ConfigError;

const NUMERIC_NAMES: [&str; 20] = [
    "SIDER_TRANSACTION_MAX_COMMANDS",
    "SIDER_TRANSACTION_MAX_BYTES",
    "SIDER_WATCH_MAX_KEYS",
    "SIDER_SHARDS",
    "SIDER_MAX_DATASET_BYTES",
    "SIDER_PUBSUB_MAX_CHANNELS",
    "SIDER_PUBSUB_QUEUE_CAPACITY",
    "SIDER_MAX_CONNECTIONS",
    "SIDER_WORKER_QUEUE_CAPACITY",
    "SIDER_MAX_FRAME_BYTES",
    "SIDER_MAX_BULK_BYTES",
    "SIDER_MAX_LINE_BYTES",
    "SIDER_MAX_NODES",
    "SIDER_MAX_DEPTH",
    "SIDER_MAX_INPUT_BUFFER_BYTES",
    "SIDER_MAX_RESPONSE_BYTES",
    "SIDER_FRAME_TIMEOUT_MS",
    "SIDER_REQUEST_TIMEOUT_MS",
    "SIDER_WRITE_TIMEOUT_MS",
    "SIDER_SHUTDOWN_TIMEOUT_MS",
];

fn address(text: &str) -> Option<Address> {
    let loopback = Ip::V6 {
        bits: 1,
        flow: 0,
        scope: 0,
    };
    match text {
        "127.0.0.1:6380" => Some(Address {
            ip: Ip::V4(127, 0, 0, 1),
            port: 6380,
        }),
        "127.0.0.1:0" => Some(Address {
            ip: Ip::V4(127, 0, 0, 1),
            port: 0,
        }),
        "127.0.0.1:9123" => Some(Address {
            ip: Ip::V4(127, 0, 0, 1),
            port: 9123,
        }),
        "[::1]:6380" => Some(Address {
            ip: loopback,
            port: 6380,
        }),
        "[::1]:0" => Some(Address {
            ip: loopback,
            port: 0,
        }),
        _ => None,
    }
}

fn config_with(values: &[(&str, &str)]) -> Result<ServerConfig, ConfigError> {
    let mut settings = Settings::new();
    for (name, value) in values {
        settings
            .values
            .push((name.to_string(), NativeText::Text(value.to_string())));
        if let Some(found) = address(value) {
            settings.addresses.push((name.to_string(), found));
        }
    }
    ServerConfig::from_lookup(&settings)
}

#[test]
fn defaults_match_the_documented_resource_contract() {
    let config = ServerConfig::from_lookup(&Settings::new()).unwrap();
    assert_eq!(config, ServerConfig::default());
    assert_eq!(config.bind_addr, Address { ip: Ip::V4(127, 0, 0, 1), port: 6379 });
    assert_eq!(config.resp_limits, RespLimits::default());
    assert_eq!(config.max_connections, 32);
    assert_eq!(config.worker_queue_capacity, 32);
    assert_eq!(config.shards, 1);
    assert_eq!(config.pubsub_max_channels, 32);
    assert_eq!(config.pubsub_queue_capacity, 32);
    assert_eq!(config.max_input_buffer_bytes, 4 * 1024 * 1024);
    assert_eq!(config.max_response_bytes, 4 * 1024 * 1024);
    assert_eq!(config.max_dataset_bytes, 64 * 1024 * 1024);
    assert_eq!(config.frame_timeout, 10 * 1_000_000_000);
    assert_eq!(config.request_timeout, 5 * 1_000_000_000);
    assert_eq!(config.write_timeout, 5 * 1_000_000_000);
    assert_eq!(config.shutdown_timeout, 5 * 1_000_000_000);
    assert_eq!(config.ready_file, None);
    config.validate().unwrap();
}

#[test]
fn shard_count_is_bounded_and_has_a_positive_partition_budget() {
    for count in [1, 2, 3, 256] {
        let count = count.to_string();
        assert_eq!(
            config_with(&[("SIDER_SHARDS", &count)])
                .unwrap()
                .shards
                .to_string(),
            count
        );
    }
    assert!(config_with(&[("SIDER_SHARDS", "257")]).is_err());
    assert!(config_with(&[("SIDER_SHARDS", "4"), ("SIDER_MAX_DATASET_BYTES", "3")]).is_err());
    assert!(config_with(&[("SIDER_SHARDS", "4"), ("SIDER_MAX_DATASET_BYTES", "4")]).is_ok());
}

#[test]
fn pubsub_limits_are_read_from_injected_configuration() {
    let config = config_with(&[
        ("SIDER_PUBSUB_MAX_CHANNELS", "4"),
        ("SIDER_PUBSUB_QUEUE_CAPACITY", "7"),
    ])
    .unwrap();
    assert_eq!(config.pubsub_max_channels, 4);
    assert_eq!(config.pubsub_queue_capacity, 7);
}

#[test]
fn transactions_limits_are_bounded_and_read_without_global_environment() {
    let config = config_with(&[
        ("SIDER_TRANSACTION_MAX_COMMANDS", "3"),
        ("SIDER_TRANSACTION_MAX_BYTES", "256"),
        ("SIDER_WATCH_MAX_KEYS", "5"),
    ])
    .unwrap();
    assert_eq!(config.transaction_max_commands, 3);
    assert_eq!(config.transaction_max_bytes, 256);
    assert_eq!(config.watch_max_keys, 5);
    assert_eq!(ServerConfig::default().transaction_max_commands, 128);
    assert_eq!(ServerConfig::default().transaction_max_bytes, 1_048_576);
    assert_eq!(ServerConfig::default().watch_max_keys, 128);
}

#[test]
fn accepts_ipv4_ipv6_and_ephemeral_port() {
    for addr in ["127.0.0.1:6380", "[::1]:6380", "127.0.0.1:0"] {
        assert_eq!(
            config_with(&[("SIDER_ADDR", addr)]).unwrap().bind_addr,
            address(addr).unwrap()
        );
    }
}

#[test]
fn reads_every_resource_option_without_requiring_an_address_override() {
    let config = config_with(&[
        ("SIDER_MAX_CONNECTIONS", "2"),
        ("SIDER_WORKER_QUEUE_CAPACITY", "3"),
        ("SIDER_MAX_FRAME_BYTES", "768"),
        ("SIDER_MAX_BULK_BYTES", "256"),
        ("SIDER_MAX_LINE_BYTES", "128"),
        ("SIDER_MAX_NODES", "7"),
        ("SIDER_MAX_DEPTH", "3"),
        ("SIDER_MAX_INPUT_BUFFER_BYTES", "1024"),
        ("SIDER_MAX_RESPONSE_BYTES", "512"),
        ("SIDER_MAX_DATASET_BYTES", "2048"),
        ("SIDER_FRAME_TIMEOUT_MS", "1001"),
        ("SIDER_REQUEST_TIMEOUT_MS", "1002"),
        ("SIDER_WRITE_TIMEOUT_MS", "1003"),
        ("SIDER_SHUTDOWN_TIMEOUT_MS", "1004"),
        ("SIDER_READY_FILE", "target/prontidão teste.json"),
    ])
    .unwrap();
    assert_eq!(config.bind_addr, ServerConfig::default().bind_addr);
    assert_eq!(config.max_connections, 2);
    assert_eq!(config.worker_queue_capacity, 3);
    assert_eq!(
        config.resp_limits,
        RespLimits {
            max_frame_bytes: 768,
            max_bulk_bytes: 256,
            max_line_bytes: 128,
            max_nodes: 7,
            max_depth: 3
        }
    );
    assert_eq!(config.max_input_buffer_bytes, 1024);
    assert_eq!(config.max_response_bytes, 512);
    assert_eq!(config.max_dataset_bytes, 2048);
    assert_eq!(config.frame_timeout, 1001 * 1_000_000);
    assert_eq!(config.request_timeout, 1002 * 1_000_000);
    assert_eq!(config.write_timeout, 1003 * 1_000_000);
    assert_eq!(config.shutdown_timeout, 1004 * 1_000_000);
    assert_eq!(
        config.ready_file,
        Some(NativeText::Text("target/prontidão teste.json".to_string()))
    );
}

#[test]
fn rejects_malformed_addresses_without_using_the_default() {
    for value in [
        "",
        "localhost:6379",
        "127.0.0.1",
        "127.0.0.1:65536",
        "127.0.0.1:-1",
        " 127.0.0.1:6379",
        "127.0.0.1:6379 ",
        "::1:6379",
    ] {
        match config_with(&[("SIDER_ADDR", value)]) {
            Err(ConfigError::InvalidAddress { value: actual, .. }) => assert_eq!(actual, value),
            result => panic!("expected invalid address for {value:?}, got {result:?}"),
        }
    }
}

#[test]
fn numeric_options_reject_non_decimal_or_unrepresentable_values() {
    for name in NUMERIC_NAMES {
        for value in [
            "",
            " 1",
            "1 ",
            "+1",
            "-1",
            "1.0",
            "1_000",
            "0x10",
            "１",
            "1\n",
            "184467440737095516160000",
        ] {
            assert!(
                matches!(config_with(&[(name, value)]), Err(ConfigError::InvalidInteger {
                name: actual_name, value: actual_value }) if actual_name == name && actual_value == value),
                "{name}={value:?}"
            );
        }
    }
}

#[test]
fn every_numeric_option_rejects_zero() {
    for name in NUMERIC_NAMES {
        assert!(config_with(&[(name, "0")]).is_err(), "{name}");
    }
}

#[test]
fn decimal_leading_zeroes_are_unambiguous_and_accepted() {
    let config = config_with(&[
        ("SIDER_MAX_CONNECTIONS", "0002"),
        ("SIDER_FRAME_TIMEOUT_MS", "0001"),
    ])
    .unwrap();
    assert_eq!(config.max_connections, 2);
    assert_eq!(config.frame_timeout, 1 * 1_000_000);
}

#[test]
fn validates_relations_after_reading_all_overrides() {
    for values in [
        vec![("SIDER_MAX_INPUT_BUFFER_BYTES", "1024")],
        vec![("SIDER_MAX_FRAME_BYTES", "128")],
        vec![("SIDER_MAX_RESPONSE_BYTES", "1048576")],
        vec![("SIDER_MAX_DEPTH", "129")],
    ] {
        assert!(config_with(&values).is_err(), "{values:?}");
    }
}

#[test]
fn response_capacity_includes_the_exact_bulk_framing() {
    for bulk in [123usize, 999, 1000, 9999, 10000] {
        let response = bulk + bulk.ilog10() as usize + 1 + 5;
        let mut config = ServerConfig {
            resp_limits: RespLimits {
                max_bulk_bytes: bulk,
                ..RespLimits::default()
            },
            max_response_bytes: response,
            ..ServerConfig::default()
        };
        config.validate().unwrap();
        config.max_response_bytes -= 1;
        assert!(matches!(
            config.validate(),
            Err(ConfigError::InvalidServerLimits { .. })
        ));
    }
}

#[test]
fn small_input_lines_do_not_prevent_internal_error_responses() {
    let mut config = ServerConfig {
        resp_limits: RespLimits {
            max_frame_bytes: 16,
            max_bulk_bytes: 1,
            max_line_bytes: 1,
            max_nodes: 1,
            max_depth: 1,
        },
        max_input_buffer_bytes: 16,
        max_response_bytes: 128,
        ..ServerConfig::default()
    };
    config.validate().unwrap();
    config.max_response_bytes = 127;
    assert!(matches!(
        config.validate(),
        Err(ConfigError::InvalidServerLimits { .. })
    ));
}

#[test]
fn technical_channel_capacity_boundaries_are_validated_without_allocating() {
    let max = tokio::sync::Semaphore::MAX_PERMITS;
    let mut config = ServerConfig {
        max_connections: max,
        worker_queue_capacity: max,
        ..ServerConfig::default()
    };
    config.validate().unwrap();
    config.max_connections = max + 1;
    assert!(config.validate().is_err());
    config.max_connections = 1;
    config.worker_queue_capacity = max + 1;
    assert!(config.validate().is_err());
    config.worker_queue_capacity = 1;
    config.pubsub_max_channels = max + 1;
    assert!(config.validate().is_err());
    config.pubsub_max_channels = 1;
    config.pubsub_queue_capacity = max + 1;
    assert!(config.validate().is_err());
}

#[test]
fn byte_limits_cannot_exceed_the_technical_allocation_boundary() {
    let excessive = isize::MAX as usize + 1;
    let input = ServerConfig {
        max_input_buffer_bytes: excessive,
        ..ServerConfig::default()
    };
    let response = ServerConfig {
        max_response_bytes: excessive,
        ..ServerConfig::default()
    };
    let frame = ServerConfig {
        resp_limits: RespLimits {
            max_frame_bytes: excessive,
            ..RespLimits::default()
        },
        max_input_buffer_bytes: excessive,
        ..ServerConfig::default()
    };
    for config in [input, response, frame] {
        assert!(matches!(
            config.validate(),
            Err(ConfigError::InvalidServerLimits { .. })
        ));
    }
}

#[test]
fn direct_configuration_rejects_zero_or_unrepresentable_timeouts() {
    for timeout in [0, u64::MAX as u128 * 1_000_000_000 + 999_999_999] {
        for index in 0..4 {
            let mut config = ServerConfig::default();
            match index {
                0 => config.frame_timeout = timeout,
                1 => config.request_timeout = timeout,
                2 => config.write_timeout = timeout,
                _ => config.shutdown_timeout = timeout,
            }
            assert!(matches!(
                config.validate(),
                Err(ConfigError::InvalidServerLimits { .. })
            ));
        }
    }
}

#[test]
fn empty_ready_path_is_rejected_in_both_constructors() {
    assert!(config_with(&[("SIDER_READY_FILE", "")]).is_err());
    let config = ServerConfig {
        ready_file: Some(NativeText::Text(String::new())),
        ..ServerConfig::default()
    };
    assert!(config.validate().is_err());
}

fn non_unicode() -> NativeText {
    NativeText::Raw(Bytes::from_static(b"\xff"))
}

#[test]
fn non_unicode_options_are_rejected_except_native_file_paths() {
    let only = |name: &str| Settings {
        values: vec![(name.to_string(), non_unicode())],
        addresses: vec![],
    };
    let result = ServerConfig::from_lookup(&only("SIDER_ADDR"));
    assert!(matches!(result, Err(ConfigError::NonUnicodeAddress)));
    for name in NUMERIC_NAMES {
        let result = ServerConfig::from_lookup(&only(name));
        assert!(
            matches!(result, Err(ConfigError::NonUnicodeValue { name: actual }) if actual == name)
        );
    }
    let config = ServerConfig::from_lookup(&only("SIDER_READY_FILE")).unwrap();
    assert_eq!(config.ready_file, Some(non_unicode()));
}

#[test]
fn replication_config_requires_aof_and_parses_injected_addresses_limits_and_paths() {
    assert!(config_with(&[("SIDER_REPLICATION_ADDR", "127.0.0.1:0")]).is_err());
    let actual = config_with(&[
        ("SIDER_AOF_DIR", "aof"),
        ("SIDER_REPLICATION_ADDR", "[::1]:0"),
        ("SIDER_REPLICA_OF", "127.0.0.1:9123"),
        ("SIDER_REPLICATION_READY_FILE", "replica.json"),
        ("SIDER_REPLICATION_MAX_CONNECTIONS", "2"),
    ])
    .unwrap()
    .replication
    .unwrap();
    assert_eq!(actual.listen, address("[::1]:0").unwrap());
    assert_eq!(actual.upstream, address("127.0.0.1:9123"));
    assert_eq!(actual.ready_file, Some(NativeText::Text("replica.json".to_string())));
    assert_eq!(actual.max_connections, 2);
}

#[test]
fn replication_config_rejects_unbounded_incoherent_and_malformed_values() {
    for (key, value) in [
        ("SIDER_REPLICA_OF", "127.0.0.1:0"),
        ("SIDER_REPLICA_OF", "localhost:1234"),
        ("SIDER_REPLICATION_MAX_CONNECTIONS", "0"),
        ("SIDER_REPLICATION_MAX_CONNECTIONS", "18446744073709551615"),
        ("SIDER_REPLICATION_BACKLOG_BYTES", "100"),
        ("SIDER_REPLICATION_BACKLOG_BATCHES", "0"),
        ("SIDER_REPLICATION_FRAME_TIMEOUT_MS", "0"),
        ("SIDER_REPLICATION_FRAME_TIMEOUT_MS", "30001"),
        ("SIDER_REPLICATION_SYNC_TIMEOUT_MS", "1"),
        ("SIDER_REPLICATION_RECONNECT_MIN_MS", "5001"),
        ("SIDER_REPLICATION_RECONNECT_MAX_MS", "60001"),
        ("SIDER_REPLICATION_RECONNECT_MAX_MS", " 10"),
    ] {
        assert!(
            config_with(&[
                ("SIDER_AOF_DIR", "aof"),
                ("SIDER_REPLICATION_ADDR", "127.0.0.1:0"),
                (key, value)
            ])
            .is_err(),
            "{key}={value}"
        );
    }
}

#[test]
fn unreachable_timeouts_are_told_apart_from_other_limits() {
    let config = ServerConfig::default();
    let mut reach = config.reach();
    assert!(config.check(reach).is_ok());
    reach.write = false;
    match config.check(reach) {
        Err(ConfigError::InvalidServerLimits { reason }) => assert_eq!(
            reason,
            "write_timeout precisa ser positivo e representável por Instant"
        ),
        other => panic!("{other:?}"),
    }
}

#[test]
fn spans_are_split_into_whole_seconds_and_the_rest() {
    assert_eq!(split(0), Some((0, 0)));
    assert_eq!(split(999_999_999), Some((0, 999_999_999)));
    assert_eq!(split(1_000_000_000), Some((1, 0)));
    assert_eq!(split(61_500_000_001), Some((61, 500_000_001)));
    let last = u128::from(u64::MAX) * 1_000_000_000 + 999_999_999;
    assert_eq!(split(last), Some((u64::MAX, 999_999_999)));
    assert_eq!(split(last + 1), None);
    assert_eq!(
        reachable_all(&vec![0, 1_000_000_000, last + 1, u128::MAX]),
        vec![true, true, false, false]
    );
}

#[test]
fn the_clock_is_asked_about_every_timeout() {
    let mut config = ServerConfig::default();
    config.frame_timeout = 1;
    config.request_timeout = 2;
    config.write_timeout = 3;
    config.shutdown_timeout = 4;
    assert_eq!(config.spans(), vec![1, 2, 3, 4]);
    let reach = config.reach_from(&vec![true, false, true, true]);
    assert!(reach.frame && !reach.request && reach.write && reach.shutdown);
    match config.check(reach) {
        Err(ConfigError::InvalidServerLimits { reason }) => assert_eq!(
            reason,
            "request_timeout precisa ser positivo e representável por Instant"
        ),
        other => panic!("{other:?}"),
    }
}
