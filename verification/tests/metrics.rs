use bytes::{Bytes, BytesMut};
use sider::command::{parse, Command, ExecutionError, InfoSections, Reply};
use sider::config::ServerConfig;
use sider::metrics::{configuration, errors, Counter, DatasetStats, Metrics};
use sider::persistence::{AofDiagnostics, AofError, Role};
use sider::pubsub::{Hub, Message};
use sider::replication::journal::{Journal, Limits};
use sider::replication::state::Runtime;
use sider::replication::Cursor;
use sider::resp::{encode, Decoder, Frame, RespLimits};
use sider::storage::{Moment, Store};
use std::collections::BTreeMap;

const NOW: Moment = Moment {
    now: 5_000_000_000,
    unix_ms: 1000,
};

fn fields(bytes: &[u8]) -> BTreeMap<String, String> {
    std::str::from_utf8(bytes)
        .unwrap()
        .lines()
        .filter_map(|line| line.split_once(':'))
        .map(|(key, value)| (key.to_owned(), value.to_owned()))
        .collect()
}

fn metric(metrics: &Metrics, name: &str) -> u64 {
    fields(&metrics.render(InfoSections::all(), b"0.1.0", 7, None))[name]
        .parse()
        .unwrap()
}

fn request(args: &[&[u8]]) -> BytesMut {
    let mut out = BytesMut::new();
    encode(
        &Frame::Array(Some(
            args.iter()
                .map(|arg| Frame::Bulk(Some(Bytes::copy_from_slice(arg))))
                .collect(),
        )),
        &mut out,
        RespLimits::default(),
    )
    .unwrap();
    out
}

#[test]
fn metrics_info_parser_filters_sections_without_retaining_binary_labels() {
    let decode = |args: &[&[u8]]| {
        let frame = Decoder::new(RespLimits::default())
            .unwrap()
            .decode(&mut request(args))
            .unwrap()
            .unwrap();
        let Command::Info(sections) = parse(frame, vec![]).unwrap() else {
            panic!()
        };
        sections
    };
    let metrics = Metrics::new(1, 32);
    assert_eq!(decode(&[b"INFO"]), InfoSections::all());
    assert!(decode(&[b"INFO", b"RePlIcAtIoN"]).contains(InfoSections::REPLICATION));
    assert_eq!(
        decode(&[b"info", b"all", b"everything"]),
        InfoSections::all()
    );
    let selected = decode(&[b"iNfO", b"MeMoRy", b"memory", b"\xff\0secret"]);
    let output = metrics.render(selected, b"0.1.0", 7, None);
    assert!(output.starts_with(b"# Memory\r\n"));
    assert!(!output.windows(6).any(|bytes| bytes == b"secret"));
    assert!(!selected.contains(InfoSections::SERVER));
    assert!(metrics
        .render(decode(&[b"INFO", b"\xffsecret"]), b"0.1.0", 7, None)
        .is_empty());
    assert_eq!(
        Store::new().execute(Command::Info(selected), NOW),
        Reply::Error(ExecutionError::ConnectionOnly)
    );
}

#[test]
fn metrics_replication_reports_only_observed_positions_and_guards_stale_sessions() {
    let metrics = Metrics::new(1, 32);
    let section = InfoSections::from_names(&[b"replication".as_slice()]);
    assert_eq!(
        fields(&metrics.render(section, b"0.1.0", 7, None)),
        BTreeMap::from([("replication_enabled".into(), "0".into())])
    );
    let read = |runtime: &Runtime| fields(&metrics.render(section, b"0.1.0", 7, Some(runtime)));
    let mut runtime = Runtime::new(
        Role::Replica,
        Cursor {
            epoch: [0; 16],
            sequence: 0,
        },
    );
    assert_eq!(read(&runtime)["replication_epoch_known"], "0");
    assert!(!read(&runtime).contains_key("replication_applied_sequence"));
    assert!(!read(&runtime).contains_key("replication_lag_batches"));
    let generation = runtime.begin_session();
    runtime.applied(Cursor {
        epoch: [1; 16],
        sequence: 7,
    });
    runtime.connected(generation, 10, true);
    assert_eq!(read(&runtime)["replication_lag_batches"], "3");
    assert_eq!(read(&runtime)["replication_full_syncs_total"], "1");
    runtime.applied(Cursor {
        epoch: [1; 16],
        sequence: 11,
    });
    assert_eq!(read(&runtime)["replication_lag_known"], "0");
    assert!(
        !read(&runtime).contains_key("replication_lag_batches"),
        "do not saturate a stale observation at zero"
    );
    runtime.disconnected(generation);
    assert_eq!(read(&runtime)["replication_connected"], "0");
    assert_eq!(read(&runtime)["replication_upstream_sequence"], "10");
    let next = runtime.begin_session();
    runtime.connected(next, 11, false);
    runtime.disconnected(generation);
    runtime.upstream_head(generation, 999);
    assert_eq!(read(&runtime)["replication_connected"], "1");
    assert_eq!(read(&runtime)["replication_lag_batches"], "0");
    assert_eq!(read(&runtime)["replication_partial_syncs_total"], "1");
    assert_eq!(read(&runtime)["replication_reconnects_total"], "2");
    let cursor = Cursor {
        epoch: [2; 16],
        sequence: 11,
    };
    let journal = Journal::new(
        cursor,
        Limits {
            max_bytes: 100,
            max_batches: 2,
            max_frame_bytes: 100,
        },
    )
    .ok()
    .unwrap();
    runtime.primary(cursor, journal);
    runtime
        .publish(12, Bytes::from_static(b"resolved-frame"))
        .unwrap();
    let primary = read(&runtime);
    assert_eq!(primary["replication_role"], "primary");
    assert_eq!(primary["replication_head_sequence"], "12");
    assert_eq!(primary["replication_backlog_bytes"], "14");
    assert_eq!(primary["replication_backlog_batches"], "1");
    assert_eq!(primary["replication_oldest_sequence"], "12");
    for absent in [
        "replication_applied_sequence",
        "replication_upstream_sequence",
        "replication_lag_batches",
    ] {
        assert!(!primary.contains_key(absent));
    }
}

#[test]
fn metrics_pubsub_counts_delivery_eviction_and_raii_cleanup_without_labels() {
    let mut metrics = Metrics::new(1, 32);
    let mut hub = Hub::new();
    let slow = hub.connect(2, 1).ok().unwrap();
    let fast = hub.connect(2, 1).ok().unwrap();
    let channel = Bytes::from_static(b"\xff\0secret-channel");
    slow.subscribe(&mut hub, vec![channel.clone(), channel.clone()])
        .unwrap();
    fast.subscribe(&mut hub, vec![channel.clone()]).unwrap();
    metrics.pubsub(hub.census());
    assert_eq!(metric(&metrics, "pubsub_channels"), 1);
    assert_eq!(metric(&metrics, "pubsub_subscribers"), 2);
    assert_eq!(metric(&metrics, "pubsub_subscriptions"), 2);
    let message = Message {
        channel,
        payload: Bytes::from_static(b"secret-payload"),
    };
    let publish = |hub: &mut Hub, metrics: &mut Metrics| {
        let before = hub.len();
        let accepted = hub.publish(&message);
        metrics.add(Counter::PubSubDeliveries, accepted as u64);
        metrics.add(Counter::PubSubEvictions, (before - hub.len()) as u64);
        metrics.pubsub(hub.census());
        accepted
    };
    assert_eq!(publish(&mut hub, &mut metrics), 2);
    fast.try_message(&mut hub).unwrap();
    assert_eq!(publish(&mut hub, &mut metrics), 1);
    assert!(slow.is_evicted(&hub));
    assert_eq!(metric(&metrics, "pubsub_deliveries_total"), 3);
    assert_eq!(metric(&metrics, "pubsub_evictions_total"), 1);
    assert_eq!(metric(&metrics, "pubsub_subscribers"), 1);
    fast.unsubscribe(&mut hub, vec![]).unwrap();
    slow.close(&mut hub);
    fast.close(&mut hub);
    metrics.pubsub(hub.census());
    assert_eq!(metric(&metrics, "pubsub_channels"), 0);
    assert_eq!(metric(&metrics, "pubsub_subscriptions"), 0);
    assert!(!metrics
        .render(InfoSections::all(), b"0.1.0", 7, None)
        .windows(6)
        .any(|bytes| bytes == b"secret"));
}

#[test]
fn counters_and_gauges_are_told_under_their_names() {
    let mut metrics = Metrics::new(2, 16);
    metrics.connection();
    metrics.connection();
    metrics.disconnection();
    metrics.add(Counter::Requests, 5);
    metrics.dataset(
        1,
        DatasetStats {
            keys: 3,
            expiring: 1,
            used_bytes: 400,
            quota: 1000,
        },
    );
    metrics.queue(0, 4);
    assert_eq!(metric(&metrics, "connected_clients"), 1);
    assert_eq!(metrics.count(Counter::Requests), 5);
    assert_eq!(metrics.count(Counter::Connections), 2);
    metrics.add(Counter::Requests, u64::MAX);
    assert_eq!(metrics.count(Counter::Requests), u64::MAX);
    let text = metrics.render(
        InfoSections::from_names(&[b"server".as_slice()]),
        b"9.8.7",
        12,
        None,
    );
    assert!(text.starts_with(b"# Server\r\n"));
    assert!(text.windows(5).any(|bytes| bytes == b"9.8.7"));
}

#[test]
fn errors_inside_replies_are_counted() {
    let error = || Frame::Error(Bytes::from_static(b"ERR"));
    assert_eq!(errors(&error()), 1);
    assert_eq!(errors(&Frame::Integer(1)), 0);
    assert_eq!(
        errors(&Frame::Array(Some(vec![
            error(),
            Frame::Array(Some(vec![error(), Frame::Bulk(None)])),
        ]))),
        2
    );
    let mut metrics = Metrics::new(1, 1);
    metrics.response(&Frame::Array(Some(vec![error(), error()])));
    assert_eq!(metrics.count(Counter::ErrorReplies), 2);
}

#[test]
fn the_state_of_the_log_and_the_configuration_are_told() {
    let mut metrics = Metrics::new(1, 1);
    let mut state = AofDiagnostics::default();
    state.error(&AofError::Io);
    assert_eq!(state.last_error, Some("io"));
    metrics.aof(state);
    let text = fields(&metrics.render(
        InfoSections::from_names(&[b"persistence".as_slice()]),
        b"1",
        1,
        None,
    ));
    assert_eq!(text["aof_last_error"], "io");
    let config = ServerConfig::default();
    let shown = configuration(&config);
    assert!(shown
        .windows(6)
        .any(|bytes| bytes == config.max_dataset_bytes.to_string()[..6].as_bytes()));
    metrics.configure(config, 6379);
    let section = InfoSections::from_names(&[b"config".as_slice()]);
    assert!(metrics
        .render(section, b"1", 1, None)
        .starts_with(b"# Config\r\n"));
}
