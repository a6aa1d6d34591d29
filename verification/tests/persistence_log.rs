use bytes::Bytes;
use sider::command::Command;
use sider::persistence::config::SyncPolicy;
use sider::persistence::format::{FormatError, Limits, Record};
use sider::persistence::generations::{generation_name, read_generation, select_generation};
use sider::persistence::migration::{migrate_offline, options_from_args, MigrationOptions};
use sider::persistence::options::OptionError;
use sider::persistence::record::encode;
use sider::persistence::recovery::batch_shard;
use sider::persistence::usage::{Quotas, UsageError};
use sider::persistence::writer::{append_failure_is_fatal, snapshot_image, Writer};
use sider::persistence::{
    recover_log, AofConfig, AofDiagnostics, AofError, DurableLayout, ROUTING_VERSION,
};
use sider::settings::NativeText;
use sider::storage::{
    Moment, Mutation, MutationOrigin, ResolvedBatch, Store, StoreConfig, Value,
};

const NOW: Moment = Moment {
    now: 5_000_000_000,
    unix_ms: 1000,
};

fn text(value: &str) -> NativeText {
    NativeText::Text(value.to_string())
}

fn config() -> AofConfig {
    AofConfig::new(text("log"))
}

fn store() -> Store {
    let mut store = Store::new();
    for (key, value) in [(b"a", b"1"), (b"b", b"2")] {
        store.execute(
            Command::SetValue {
                key: Bytes::copy_from_slice(key),
                value: Bytes::copy_from_slice(value),
            },
            NOW,
        );
    }
    store
}

fn batch(key: &'static [u8]) -> ResolvedBatch {
    ResolvedBatch {
        origin: MutationOrigin::Client,
        mutations: vec![Mutation::Put {
            key: Bytes::from_static(key),
            value: Value::String(Bytes::from_static(b"3")),
            expires_at_unix_ms: None,
        }],
    }
}

fn image(store: &Store) -> Vec<u8> {
    let config = config();
    snapshot_image(store.snapshot(), 4, config.layout, config.limits).unwrap()
}

#[test]
fn a_log_is_recovered_with_the_batches_behind_its_snapshot() {
    let store = store();
    let mut log = image(&store);
    let recovered = recover_log(&log, &config(), StoreConfig::default(), NOW).unwrap();
    assert_eq!(recovered.store.snapshot(), store.snapshot());
    assert_eq!(recovered.metadata.sequence, 4);
    assert_eq!(recovered.metadata.shard_usage, vec![store.used_bytes()]);
    let record = encode(
        &Record::Batch {
            sequence: 5,
            batch: batch(b"c"),
        },
        Limits::default(),
    )
    .unwrap();
    log.extend_from_slice(&record);
    let whole = log.len();
    log.extend_from_slice(&record[..7]);
    let recovered = recover_log(&log, &config(), StoreConfig::default(), NOW).unwrap();
    assert_eq!(recovered.store.len(), 3);
    assert_eq!(recovered.metadata.sequence, 5);
    assert_eq!(recovered.metadata.valid_bytes, whole as u64);
    assert_eq!(recovered.metadata.incomplete_tail_bytes, 7);
}

#[test]
fn logs_with_gaps_or_of_another_layout_are_refused() {
    let mut log = image(&store());
    log.extend_from_slice(
        &encode(
            &Record::Batch {
                sequence: 7,
                batch: batch(b"c"),
            },
            Limits::default(),
        )
        .unwrap(),
    );
    assert!(matches!(
        recover_log(&log, &config(), StoreConfig::default(), NOW),
        Err(AofError::Sequence)
    ));
    let mut other = config();
    other.layout.shard_count = 2;
    assert!(matches!(
        recover_log(&image(&store()), &other, StoreConfig::default(), NOW),
        Err(AofError::LayoutMismatch { .. })
    ));
    let small = StoreConfig {
        max_dataset_bytes: 200,
    };
    assert!(recover_log(&image(&store()), &config(), small, NOW).is_err());
    assert!(matches!(
        recover_log(b"short", &config(), StoreConfig::default(), NOW),
        Err(AofError::Format(FormatError::Header))
    ));
}

#[test]
fn the_writer_numbers_records_and_carries_them_over_a_compaction() {
    let config = config();
    let mut writer = Writer::resume(&config, 3, 10, 100);
    let (sequence, record) = writer.next_record(batch(b"c")).unwrap();
    assert_eq!(sequence, 11);
    assert!(writer.appended(sequence, record));
    writer.synced();
    assert_eq!(writer.begin_compaction().ok(), Some(4));
    assert!(matches!(
        writer.begin_compaction(),
        Err(AofError::Compacting)
    ));
    let (sequence, record) = writer.next_record(batch(b"d")).unwrap();
    writer.appended(sequence, record.clone());
    assert_eq!(writer.take_delta().unwrap(), vec![record]);
    assert_eq!(writer.published(), Some(2));
    assert_eq!(writer.generation, 4);
}

#[test]
fn the_writer_syncs_when_its_policy_says_so() {
    let mut config = config();
    config.sync = SyncPolicy::Periodic(50);
    let mut writer = Writer::resume(&config, 0, 0, 0);
    assert!(!writer.sync_due(1000));
    let (sequence, record) = writer.next_record(batch(b"c")).unwrap();
    assert!(!writer.appended(sequence, record));
    assert!(!writer.sync_due(49));
    assert!(writer.sync_due(50));
    writer.synced();
    assert!(!writer.sync_due(50));
    assert!(append_failure_is_fatal(&AofError::Io));
    assert!(!append_failure_is_fatal(&AofError::Format(
        FormatError::Limit
    )));
}

#[test]
fn a_delta_beyond_its_limit_ends_the_compaction() {
    let mut config = config();
    config.max_delta_bytes = 8;
    let mut writer = Writer::resume(&config, 0, 0, 0);
    writer.begin_compaction().unwrap();
    let (sequence, record) = writer.next_record(batch(b"c")).unwrap();
    writer.appended(sequence, record);
    assert!(matches!(writer.take_delta(), Err(AofError::DeltaLimit)));
    assert!(matches!(writer.take_delta(), Err(AofError::Unavailable)));
}

#[test]
fn batches_that_cross_shards_are_refused() {
    let layout = DurableLayout {
        shard_count: 256,
        routing_version: ROUTING_VERSION,
    };
    let put = |key: &'static [u8]| Mutation::Delete {
        key: Bytes::from_static(key),
    };
    assert!(batch_shard(&[put(b"{t}a"), put(b"{t}b")], layout).is_ok());
    assert!(matches!(
        batch_shard(&[put(b"a"), put(b"b")], layout),
        Err(AofError::CrossShard)
    ));
}

#[test]
fn the_newest_generation_is_chosen() {
    let name = generation_name(42);
    assert_eq!(name, b"generation-00000000000000000042.aof");
    assert_eq!(read_generation(&name).ok(), Some(Some(42)));
    assert_eq!(read_generation(b"writer.lock").ok(), Some(None));
    assert_eq!(
        select_generation(&vec![generation_name(3), b"x".to_vec(), generation_name(7)]).ok(),
        Some(Some(7))
    );
    assert_eq!(select_generation(&vec![]).ok(), Some(None));
    assert!(read_generation(b"generation-7.aof").is_err());
}

#[test]
fn diagnostics_name_the_kind_of_an_error() {
    let mut state = AofDiagnostics::default();
    assert_eq!(state.last_error, None);
    state.error(&AofError::Format(FormatError::Limit));
    assert_eq!(state.last_error, Some("record_limit"));
    state.stopped(Some(&AofError::Io));
    assert_eq!(state.last_error, Some("io"));
}

fn options() -> MigrationOptions {
    let arguments: Vec<NativeText> = [
        "--source",
        "from",
        "--source-shards",
        "1",
        "--source-routing",
        "1",
        "--destination",
        "to",
        "--shards",
        "4",
        "--routing",
        "1",
        "--max-dataset-bytes",
        "10000",
    ]
    .into_iter()
    .map(text)
    .collect();
    options_from_args(&arguments).unwrap()
}

#[test]
fn options_of_a_migration_are_read_and_checked() {
    let read = options();
    assert_eq!(read.source.directory, text("from"));
    assert_eq!(read.destination.layout.shard_count, 4);
    assert_eq!(read.destination_store.max_dataset_bytes, 10000);
    assert_eq!(read.source_store.max_dataset_bytes, 64 * 1024 * 1024);
    let fails = |words: &[&str]| {
        let arguments: Vec<NativeText> = words.iter().map(|word| text(word)).collect();
        options_from_args(&arguments).unwrap_err()
    };
    assert!(matches!(fails(&["--nope", "1"]), OptionError::Unknown(name) if name == "--nope"));
    assert!(matches!(fails(&["--source"]), OptionError::NoValue(_)));
    assert!(matches!(
        fails(&["--source", "a", "--source", "b"]),
        OptionError::Repeated(_)
    ));
    assert!(matches!(fails(&[]), OptionError::Missing("--source")));
    assert!(matches!(
        fails(&["--source", "a", "--destination", "b", "--source-shards", "x"]),
        OptionError::NotNumber("--source-shards")
    ));
    assert!(matches!(
        fails(&["--source", "a", "--destination", "b", "--source-shards", "4294967296"]),
        OptionError::TooGreatForLayout("--source-shards")
    ));
    assert!(matches!(
        options_from_args(&[NativeText::Raw(Bytes::from_static(b"\xff"))]),
        Err(OptionError::NameNotText)
    ));
}

#[test]
fn a_log_moves_to_another_layout_and_keeps_its_sequence() {
    let source = image(&store());
    let options = options();
    let (copied, report) = migrate_offline(&options, &source, NOW).unwrap();
    assert_eq!(report.sequence, 4);
    assert_eq!(report.entries, 2);
    assert_eq!(report.destination_shard_usage.len(), 4);
    let read = recover_log(&source, &options.source, options.source_store, NOW).unwrap();
    assert_eq!(report.source.layout, options.source.layout);
    assert_eq!(report.source.sequence, 4);
    assert_eq!(report.source.format_version, read.metadata.format_version);
    assert_eq!(report.source.valid_bytes, source.len() as u64);
    assert_eq!(report.source.incomplete_tail_bytes, 0);
    assert_eq!(report.source.shard_usage, read.metadata.shard_usage);
    assert_eq!(report.source.shard_usage, vec![read.store.used_bytes()]);
    let recovered = recover_log(
        &copied,
        &options.destination,
        options.destination_store,
        NOW,
    )
    .unwrap();
    assert_eq!(recovered.store.snapshot(), store().snapshot());
    assert_eq!(
        recovered.metadata.shard_usage,
        report.destination_shard_usage
    );
    let mut broken = source;
    broken[40] ^= 1;
    assert!(migrate_offline(&options, &broken, NOW).is_err());
}

#[test]
fn entries_are_counted_against_the_share_of_their_shard() {
    let layout = DurableLayout {
        shard_count: 1,
        routing_version: ROUTING_VERSION,
    };
    let mut quotas = Quotas::new(layout, 300).unwrap();
    let entries = batch(b"k").mutations;
    quotas.add(&entries, NOW).unwrap();
    quotas.add(&entries, NOW).unwrap();
    assert!(matches!(
        quotas.add(&entries, NOW),
        Err(UsageError::Quota {
            shard: 0,
            used: 390,
            quota: 300
        })
    ));
    assert_eq!(quotas.finish(), (vec![260], 2));
    assert!(Quotas::new(layout, 0).is_err());
}
