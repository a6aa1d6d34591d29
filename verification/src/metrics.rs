//! Indicators of one instance: fixed names, short observations and no data of
//! clients.

use crate::buffer::{append, from_vec};
use crate::command::info::InfoSections;
use crate::config::{ServerConfig, ServerModel};
use crate::numbers::{decimal_text, wide_decimal_text};
use crate::persistence::config::{AofModel, SyncPolicy};
use crate::persistence::diagnostics::AofDiagnostics;
use crate::pubsub::Census;
use crate::replication::journal::History;
use crate::replication::state::{Runtime, Status};
use crate::resp::frame::{Frame, FrameModel};
use crate::buffer;
use crate::numbers;
use crate::replication::cursor;
use crate::replication::journal;
use crate::resp::frame;
use bytes::Bytes;
use vstd::prelude::*;
use vstd::string::*;

verus! {

#[derive(Clone, Copy, Debug, PartialEq, Eq, Structural)]
pub enum Counter {
    Connections,
    RejectedConnections,
    Requests,
    ErrorReplies,
    ProtocolErrors,
    ConnectionFailures,
    WriteTimeouts,
    ResponseLimitFailures,
    WorkerAccepted,
    WorkerTimeouts,
    WorkerFailures,
    PubSubEvictions,
    PubSubDeliveries,
    ExpirationBatches,
    ExpirationKeys,
}

pub const COUNTERS: usize = 15;

/// The place of a counter.
pub open spec fn slot(counter: Counter) -> int {
    match counter {
        Counter::Connections => 0,
        Counter::RejectedConnections => 1,
        Counter::Requests => 2,
        Counter::ErrorReplies => 3,
        Counter::ProtocolErrors => 4,
        Counter::ConnectionFailures => 5,
        Counter::WriteTimeouts => 6,
        Counter::ResponseLimitFailures => 7,
        Counter::WorkerAccepted => 8,
        Counter::WorkerTimeouts => 9,
        Counter::WorkerFailures => 10,
        Counter::PubSubEvictions => 11,
        Counter::PubSubDeliveries => 12,
        Counter::ExpirationBatches => 13,
        Counter::ExpirationKeys => 14,
    }
}

fn place(counter: Counter) -> (result: usize)
    ensures
        result == slot(counter),
        result < COUNTERS,
{
    match counter {
        Counter::Connections => 0,
        Counter::RejectedConnections => 1,
        Counter::Requests => 2,
        Counter::ErrorReplies => 3,
        Counter::ProtocolErrors => 4,
        Counter::ConnectionFailures => 5,
        Counter::WriteTimeouts => 6,
        Counter::ResponseLimitFailures => 7,
        Counter::WorkerAccepted => 8,
        Counter::WorkerTimeouts => 9,
        Counter::WorkerFailures => 10,
        Counter::PubSubEvictions => 11,
        Counter::PubSubDeliveries => 12,
        Counter::ExpirationBatches => 13,
        Counter::ExpirationKeys => 14,
    }
}

/// What is observed of the data of one shard.
#[derive(Clone, Copy, Debug, PartialEq, Eq, Structural)]
pub struct DatasetStats {
    pub keys: usize,
    pub expiring: usize,
    pub used_bytes: usize,
    pub quota: usize,
}

/// What is observed of the queue of one shard.
#[derive(Clone, Copy, Debug, PartialEq, Eq, Structural)]
pub struct QueueStats {
    pub used: usize,
    pub capacity: usize,
}

/// All observations of an instance.
pub struct Metrics {
    counters: [u64; 15],
    connections: u64,
    pubsub_channels: u64,
    pubsub_subscribers: u64,
    pubsub_subscriptions: u64,
    datasets: Vec<DatasetStats>,
    queues: Vec<QueueStats>,
    config: Option<ServerConfig>,
    bound_port: u16,
    aof: Option<AofDiagnostics>,
}

/// The observations by content.
#[verifier::ext_equal]
pub struct MetricsModel {
    pub counters: Seq<u64>,
    pub connections: u64,
    pub pubsub_channels: u64,
    pub pubsub_subscribers: u64,
    pub pubsub_subscriptions: u64,
    pub datasets: Seq<DatasetStats>,
    pub queues: Seq<QueueStats>,
    pub config: Option<ServerModel>,
    pub bound_port: u16,
    pub aof: Option<AofDiagnostics>,
}

/// A sum that stays at the greatest number once it would exceed it.
pub open spec fn plus(left: nat, right: nat) -> u64 {
    if left + right > u64::MAX {
        u64::MAX
    } else {
        (left + right) as u64
    }
}

fn saturating(left: u64, right: u64) -> (result: u64)
    ensures
        result == plus(left as nat, right as nat),
{
    if left > u64::MAX - right {
        u64::MAX
    } else {
        left + right
    }
}

/// The counters after one went up.
pub open spec fn counted(counters: Seq<u64>, counter: Counter, count: u64) -> Seq<u64> {
    counters.update(slot(counter), plus(counters[slot(counter)] as nat, count as nat))
}

/// The sum of some sizes.
pub open spec fn summed(sizes: Seq<usize>) -> u64
    decreases sizes.len(),
{
    if sizes.len() == 0 {
        0
    } else {
        plus(summed(sizes.drop_last()) as nat, sizes.last() as nat)
    }
}

/// One line with a number.
pub open spec fn field(name: &'static str, value: nat) -> Seq<u8> {
    name.spec_bytes() + ":".spec_bytes() + numbers::decimal(value) + "\r\n".spec_bytes()
}

/// One line with a word.
pub open spec fn word(name: &'static str, value: Seq<u8>) -> Seq<u8> {
    name.spec_bytes() + ":".spec_bytes() + value + "\r\n".spec_bytes()
}

pub open spec fn bit(value: bool) -> nat {
    if value {
        1
    } else {
        0
    }
}

fn put(text: &mut Vec<u8>, name: &'static str, value: u64)
    ensures
        final(text)@ == old(text)@ + field(name, value as nat),
{
    let ghost before = text@;
    append(text, name.as_bytes());
    append(text, ":".as_bytes());
    append(text, decimal_text(value).as_slice());
    append(text, "\r\n".as_bytes());
    assert(text@ =~= before + field(name, value as nat));
}

fn put_wide(text: &mut Vec<u8>, name: &'static str, value: u128)
    ensures
        final(text)@ == old(text)@ + field(name, value as nat),
{
    let ghost before = text@;
    append(text, name.as_bytes());
    append(text, ":".as_bytes());
    append(text, wide_decimal_text(value).as_slice());
    append(text, "\r\n".as_bytes());
    assert(text@ =~= before + field(name, value as nat));
}

fn put_bit(text: &mut Vec<u8>, name: &'static str, value: bool)
    ensures
        final(text)@ == old(text)@ + field(name, bit(value)),
{
    put(
        text,
        name,
        if value {
            1
        } else {
            0
        },
    );
}

fn put_word(text: &mut Vec<u8>, name: &'static str, value: &[u8])
    ensures
        final(text)@ == old(text)@ + word(name, value@),
{
    let ghost before = text@;
    append(text, name.as_bytes());
    append(text, ":".as_bytes());
    append(text, value);
    append(text, "\r\n".as_bytes());
    assert(text@ =~= before + word(name, value@));
}

fn title(text: &'static str) -> (result: Vec<u8>)
    ensures
        result@ == text.spec_bytes(),
{
    let mut result: Vec<u8> = Vec::new();
    append(&mut result, text.as_bytes());
    assert(result@ =~= text.spec_bytes());
    result
}

/// An amount of a dataset.
#[derive(Clone, Copy, Debug, PartialEq, Eq, Structural)]
pub enum Amount {
    Keys,
    Expiring,
    Used,
    Quota,
}

pub open spec fn amount(stats: DatasetStats, which: Amount) -> usize {
    match which {
        Amount::Keys => stats.keys,
        Amount::Expiring => stats.expiring,
        Amount::Used => stats.used_bytes,
        Amount::Quota => stats.quota,
    }
}

/// An amount over all shards.
pub open spec fn dataset_sum(datasets: Seq<DatasetStats>, which: Amount) -> u64 {
    summed(datasets.map_values(|stats: DatasetStats| amount(stats, which)))
}

/// What is used, or can be, over all queues.
pub open spec fn queue_sum(queues: Seq<QueueStats>, whole: bool) -> u64 {
    summed(
        queues.map_values(
            |stats: QueueStats|
                if whole {
                    stats.capacity
                } else {
                    stats.used
                },
        ),
    )
}

pub open spec fn server_text(m: MetricsModel, version: Seq<u8>, uptime: u64) -> Seq<u8> {
    "# Server\r\n".spec_bytes() + word("sider_version", version) + field("metrics_schema_version", 1) + field("uptime_seconds", uptime as nat) + field("tcp_port", m.bound_port as nat)
}

pub open spec fn clients_text(m: MetricsModel) -> Seq<u8> {
    "# Clients\r\n".spec_bytes() + field("connected_clients", m.connections as nat) + field("total_connections_received", m.counters[slot(Counter::Connections)] as nat) + field("rejected_connections", m.counters[slot(Counter::RejectedConnections)] as nat) + field("pubsub_channels", m.pubsub_channels as nat) + field("pubsub_subscribers", m.pubsub_subscribers as nat) + field("pubsub_subscriptions", m.pubsub_subscriptions as nat)
}

pub open spec fn stats_text(m: MetricsModel) -> Seq<u8> {
    "# Stats\r\n".spec_bytes() + field("commands_received_total", m.counters[slot(Counter::Requests)] as nat) + field("command_error_replies_total", m.counters[slot(Counter::ErrorReplies)] as nat) + field("protocol_errors_total", m.counters[slot(Counter::ProtocolErrors)] as nat) + field("connection_failures_total", m.counters[slot(Counter::ConnectionFailures)] as nat) + field("worker_requests_accepted_total", m.counters[slot(Counter::WorkerAccepted)] as nat) + field("client_write_timeouts_total", m.counters[slot(Counter::WriteTimeouts)] as nat) + field("response_encoding_failures_total", m.counters[slot(Counter::ResponseLimitFailures)] as nat) + field("worker_timeouts_total", m.counters[slot(Counter::WorkerTimeouts)] as nat) + field("worker_failures_total", m.counters[slot(Counter::WorkerFailures)] as nat) + field("pubsub_evictions_total", m.counters[slot(Counter::PubSubEvictions)] as nat) + field("pubsub_deliveries_total", m.counters[slot(Counter::PubSubDeliveries)] as nat) + field("worker_queue_used", queue_sum(m.queues, false) as nat) + field("worker_queue_capacity", queue_sum(m.queues, true) as nat)
}

pub open spec fn memory_text(m: MetricsModel) -> Seq<u8> {
    "# Memory\r\n".spec_bytes() + field("dataset_keys", dataset_sum(m.datasets, Amount::Keys) as nat) + field("dataset_expiring_keys", dataset_sum(m.datasets, Amount::Expiring) as nat) + field("dataset_logical_bytes", dataset_sum(m.datasets, Amount::Used) as nat) + field("dataset_quota_bytes", dataset_sum(m.datasets, Amount::Quota) as nat) + field("expiration_batches_total", m.counters[slot(Counter::ExpirationBatches)] as nat) + field("expiration_batch_keys_removed_total", m.counters[slot(Counter::ExpirationKeys)] as nat)
}

pub open spec fn error_word(state: AofDiagnostics) -> Seq<u8> {
    match state.last_error {
        Some(error) => error.spec_bytes(),
        None => "none".spec_bytes(),
    }
}

pub open spec fn persistence_text(m: MetricsModel) -> Seq<u8> {
    let start = "# Persistence\r\n".spec_bytes() + field("aof_enabled", bit(m.aof is Some));
    match m.aof {
        None => start,
        Some(state) => start
            + field("aof_running", bit(state.running))
            + field("aof_failed", bit(state.failed))
            + field("aof_written_sequence", state.written_sequence as nat)
            + field("aof_synced_sequence", state.synced_sequence as nat)
            + field("aof_generation", state.generation as nat)
            + field("aof_bytes_since_compaction", state.bytes_since_compaction as nat)
            + field("aof_dirty", bit(state.dirty))
            + field("aof_compacting", bit(state.compacting))
            + field("aof_queue_used", state.queue_depth as nat)
            + field("aof_queue_capacity", state.queue_capacity as nat)
            + field("aof_records_written_total", state.records_written_total as nat)
            + field("aof_active_file_syncs_total", state.syncs_total as nat)
            + field("aof_fatal_failures_total", state.fatal_failures_total as nat)
            + field("aof_record_rejections_total", state.record_rejections_total as nat)
            + field("aof_compactions_total", state.compactions_total as nat)
            + field("aof_compaction_failures_total", state.compaction_failures_total as nat)
            + word("aof_last_error", error_word(state)),
    }
}

/// How far a replica is behind, where both positions are known and agree.
pub open spec fn lag(status: Status) -> Option<nat> {
    match status.upstream_sequence {
        Some(upstream) if status.applied.model().epoch != cursor::no_epoch() && upstream
            >= status.applied.sequence => Some((upstream - status.applied.sequence) as nat),
        _ => None,
    }
}

pub open spec fn optional(name: &'static str, value: Option<nat>) -> Seq<u8> {
    match value {
        None => Seq::empty(),
        Some(value) => field(name, value),
    }
}

pub open spec fn natural(value: Option<u64>) -> Option<nat> {
    match value {
        None => None,
        Some(value) => Some(value as nat),
    }
}

/// What a replica observes of its upstream.
pub open spec fn replica_text(status: Status) -> Seq<u8> {
    let known = status.applied.model().epoch != cursor::no_epoch();
    "# Replication\r\n".spec_bytes() + field("replication_enabled", 1) + word(
        "replication_role",
        "replica".spec_bytes(),
    ) + field("replication_epoch_known", bit(known)) + field(
        "replication_connected",
        bit(status.connected),
    ) + optional(
        "replication_applied_sequence",
        if known {
            Some(status.applied.sequence as nat)
        } else {
            None
        },
    ) + optional("replication_upstream_sequence", natural(status.upstream_sequence)) + field(
        "replication_lag_known",
        bit(lag(status) is Some),
    ) + optional("replication_lag_batches", lag(status)) + field(
        "replication_full_syncs_total",
        status.full_syncs as nat,
    ) + field("replication_partial_syncs_total", status.partial_syncs as nat) + field(
        "replication_reconnects_total",
        status.reconnects as nat,
    )
}

/// What a primary keeps for its replicas.
pub open spec fn primary_text(status: Status, history: Option<History>) -> Seq<u8> {
    let start = "# Replication\r\n".spec_bytes() + field("replication_enabled", 1) + word(
        "replication_role",
        "primary".spec_bytes(),
    ) + field("replication_epoch_known", bit(status.applied.model().epoch != cursor::no_epoch()));
    match history {
        Some(history) if !history.closed => start + field(
            "replication_head_sequence",
            history.head.sequence as nat,
        ) + field("replication_backlog_bytes", journal::total(history.frames)) + field(
            "replication_backlog_batches",
            history.frames.len(),
        ) + optional(
            "replication_oldest_sequence",
            if history.frames.len() == 0 {
                None
            } else {
                Some(journal::oldest(history) as nat)
            },
        ),
        _ => start,
    }
}

/// Whether a text tells the state of replication.
pub open spec fn tells_replication(runtime: Option<Runtime>, text: Seq<u8>) -> bool {
    match runtime {
        None => text == "# Replication\r\n".spec_bytes() + field("replication_enabled", 0),
        Some(runtime) => exists|status: Status|
            runtime.applies(status.applied.model()) && status == (Status {
                applied: status.applied,
                ..runtime.state()
            }) && text == #[trigger] role_text(status, runtime),
    }
}

pub open spec fn role_text(status: Status, runtime: Runtime) -> Seq<u8> {
    if status.role is Replica {
        replica_text(status)
    } else {
        primary_text(
            status,
            match runtime.kept() {
                Some(journal) => Some(journal.history()),
                None => None,
            },
        )
    }
}

pub open spec fn aof_text(aof: AofModel) -> Seq<u8> {
    let start = field("aof_queue_capacity_configured", aof.queue_capacity as nat) + field(
        "aof_max_mutations",
        aof.limits.max_mutations as nat,
    );
    let policy = match aof.sync {
        SyncPolicy::Always => start + word("aof_sync_policy", "always".spec_bytes()),
        SyncPolicy::Periodic(period) => start + word(
            "aof_sync_policy",
            "periodic".spec_bytes(),
        ) + field("aof_sync_period_ms", period as nat),
    };
    policy + field("aof_max_record_bytes", aof.limits.max_record_bytes as nat) + field(
        "aof_max_delta_bytes",
        aof.max_delta_bytes as nat,
    ) + field("aof_compact_after_bytes", aof.compact_after_bytes as nat)
}

/// The limits that are in force.
pub open spec fn configuration_text(config: ServerModel) -> Seq<u8> {
    let start = "# Config\r\n".spec_bytes()
        + field("max_frame_bytes", config.resp_limits.max_frame_bytes as nat)
        + field("max_bulk_bytes", config.resp_limits.max_bulk_bytes as nat)
        + field("max_line_bytes", config.resp_limits.max_line_bytes as nat)
        + field("max_nodes", config.resp_limits.max_nodes as nat)
        + field("max_depth", config.resp_limits.max_depth as nat)
        + field("shards", config.shards as nat)
        + field("max_connections", config.max_connections as nat)
        + field("worker_queue_capacity_per_shard", config.worker_queue_capacity as nat)
        + field("pubsub_max_channels", config.pubsub_max_channels as nat)
        + field("pubsub_queue_capacity", config.pubsub_queue_capacity as nat)
        + field("transaction_max_commands", config.transaction_max_commands as nat)
        + field("transaction_max_bytes", config.transaction_max_bytes as nat)
        + field("watch_max_keys", config.watch_max_keys as nat)
        + field("max_input_buffer_bytes", config.max_input_buffer_bytes as nat)
        + field("max_response_bytes", config.max_response_bytes as nat)
        + field("max_dataset_bytes", config.max_dataset_bytes as nat)
        + field("frame_timeout_ms", (config.frame_timeout / 1_000_000) as nat)
        + field("request_timeout_ms", (config.request_timeout / 1_000_000) as nat)
        + field("write_timeout_ms", (config.write_timeout / 1_000_000) as nat)
        + field("shutdown_timeout_ms", (config.shutdown_timeout / 1_000_000) as nat)
        + field("ready_file_enabled", bit(config.ready_file is Some))
        + field("aof_configured", bit(config.aof is Some));
    match config.aof {
        None => start,
        Some(aof) => start + aof_text(aof),
    }
}

pub open spec fn selected(sections: InfoSections, section: u8) -> bool {
    sections.0 & section != 0
}

pub open spec fn when(chosen: bool, text: Seq<u8>) -> Seq<u8> {
    if chosen {
        text
    } else {
        Seq::empty()
    }
}

/// Whether a text is what the selected sections tell.
pub open spec fn tells(
    m: MetricsModel,
    runtime: Option<Runtime>,
    version: Seq<u8>,
    uptime: u64,
    sections: InfoSections,
    text: Seq<u8>,
) -> bool {
    exists|replication: Seq<u8>| #[trigger]
        tells_replication(runtime, replication) && text == when(
            selected(sections, 1),
            server_text(m, version, uptime),
        ) + when(selected(sections, 2), clients_text(m)) + when(
            selected(sections, 4),
            stats_text(m),
        ) + when(selected(sections, 8), memory_text(m)) + when(
            selected(sections, 16),
            persistence_text(m),
        ) + when(selected(sections, 64), replication) + when(
            selected(sections, 32) && m.config is Some,
            configuration_text(m.config->Some_0),
        )
}

/// How many errors a reply holds.
pub open spec fn error_count(frame: FrameModel) -> nat
    decreases frame, 0nat,
{
    match frame {
        FrameModel::Error(_) => 1,
        FrameModel::Array(Some(values)) => errors_in(values, values.len()),
        _ => 0,
    }
}

/// How many errors the first frames hold.
pub open spec fn errors_in(values: Seq<FrameModel>, count: nat) -> nat
    decreases values, count,
{
    if count == 0 || count > values.len() {
        0
    } else {
        errors_in(values, (count - 1) as nat) + error_count(values[count - 1])
    }
}

/// Counts the errors that a reply holds.
pub fn errors(frame: &Frame) -> (result: u64)
    ensures
        result == plus(error_count(frame.model()), 0),
    decreases *frame,
{
    match frame {
        Frame::Error(_) => 1,
        Frame::Array(Some(values)) => {
            let ghost models = frame::models(values@, values@.len());
            proof {
                frame::lemma_models(values@, values@.len());
            }
            let mut total: u64 = 0;
            let mut index: usize = 0;
            while index < values.len()
                invariant
                    *frame == Frame::Array(Some(*values)),
                    models.len() == values@.len(),
                    forall|i: int|
                        0 <= i < models.len() ==> #[trigger] models[i] == values@[i].model(),
                    index <= values@.len(),
                    total == plus(errors_in(models, index as nat), 0),
                decreases values@.len() - index,
            {
                assert(decreases_to!(*frame => frame->Array_0));
                assert(decreases_to!(frame->Array_0 => frame->Array_0->Some_0));
                assert(decreases_to!(frame->Array_0->Some_0 => values@));
                assert(decreases_to!(values@ => values@[index as int]));
                assert(models[index as int] == values@[index as int].model());
                total = saturating(total, errors(&values[index]));
                index += 1;
            }
            total
        },
        _ => 0,
    }
}

impl Metrics {
    pub closed spec fn model(&self) -> MetricsModel {
        MetricsModel {
            counters: self.counters@,
            connections: self.connections,
            pubsub_channels: self.pubsub_channels,
            pubsub_subscribers: self.pubsub_subscribers,
            pubsub_subscriptions: self.pubsub_subscriptions,
            datasets: self.datasets@,
            queues: self.queues@,
            config: match self.config {
                Some(config) => Some(config.model()),
                None => None,
            },
            bound_port: self.bound_port,
            aof: self.aof,
        }
    }

    /// Observations of as many shards.
    pub fn new(shards: usize, capacity: usize) -> (result: Self)
        ensures
            result.model() == (MetricsModel {
                counters: Seq::new(15, |i: int| 0u64),
                connections: 0,
                pubsub_channels: 0,
                pubsub_subscribers: 0,
                pubsub_subscriptions: 0,
                datasets: Seq::new(
                    shards as nat,
                    |i: int| DatasetStats { keys: 0, expiring: 0, used_bytes: 0, quota: 0 },
                ),
                queues: Seq::new(shards as nat, |i: int| QueueStats { used: 0, capacity }),
                config: None,
                bound_port: 0,
                aof: None,
            }),
    {
        let mut datasets: Vec<DatasetStats> = Vec::new();
        let mut queues: Vec<QueueStats> = Vec::new();
        let mut shard: usize = 0;
        while shard < shards
            invariant
                shard <= shards,
                datasets@.len() == shard,
                queues@.len() == shard,
                forall|i: int|
                    0 <= i < shard ==> #[trigger] datasets@[i] == (DatasetStats {
                        keys: 0,
                        expiring: 0,
                        used_bytes: 0,
                        quota: 0,
                    }),
                forall|i: int|
                    0 <= i < shard ==> #[trigger] queues@[i] == (QueueStats { used: 0, capacity }),
            decreases shards - shard,
        {
            datasets.push(DatasetStats { keys: 0, expiring: 0, used_bytes: 0, quota: 0 });
            queues.push(QueueStats { used: 0, capacity });
            shard += 1;
        }
        let result = Metrics {
            counters: [0u64; 15],
            connections: 0,
            pubsub_channels: 0,
            pubsub_subscribers: 0,
            pubsub_subscriptions: 0,
            datasets,
            queues,
            config: None,
            bound_port: 0,
            aof: None,
        };
        proof {
            let model = result.model();
            assert(model.counters =~= Seq::new(15, |i: int| 0u64));
            assert(model.datasets =~= Seq::new(
                shards as nat,
                |i: int| DatasetStats { keys: 0, expiring: 0, used_bytes: 0, quota: 0 },
            ));
            assert(model.queues =~= Seq::new(
                shards as nat,
                |i: int| QueueStats { used: 0, capacity },
            ));
        }
        result
    }

    pub fn add(&mut self, counter: Counter, count: u64)
        ensures
            final(self).model() == (MetricsModel {
                counters: counted(old(self).model().counters, counter, count),
                ..old(self).model()
            }),
    {
        let ghost before = self.counters@;
        let index: usize = place(counter);
        let value: u64 = saturating(self.counters[index], count);
        self.counters[index] = value;
        assert(self.counters@ =~= counted(before, counter, count));
    }

    pub fn count(&self, counter: Counter) -> (result: u64)
        ensures
            result == self.model().counters[slot(counter)],
    {
        self.counters[place(counter)]
    }

    /// A connection was admitted.
    pub fn connection(&mut self)
        requires
            old(self).model().connections < u64::MAX,
        ensures
            final(self).model() == (MetricsModel {
                counters: counted(old(self).model().counters, Counter::Connections, 1),
                connections: (old(self).model().connections + 1) as u64,
                ..old(self).model()
            }),
    {
        self.add(Counter::Connections, 1);
        self.connections = self.connections + 1;
    }

    /// A connection ended.
    pub fn disconnection(&mut self)
        requires
            old(self).model().connections > 0,
        ensures
            final(self).model() == (MetricsModel {
                connections: (old(self).model().connections - 1) as u64,
                ..old(self).model()
            }),
    {
        self.connections = self.connections - 1;
    }

    pub fn configure(&mut self, config: ServerConfig, port: u16)
        ensures
            final(self).model() == (MetricsModel {
                config: Some(config.model()),
                bound_port: port,
                ..old(self).model()
            }),
    {
        self.config = Some(config);
        self.bound_port = port;
    }

    pub fn dataset(&mut self, shard: usize, value: DatasetStats)
        requires
            shard < old(self).model().datasets.len(),
        ensures
            final(self).model() == (MetricsModel {
                datasets: old(self).model().datasets.update(shard as int, value),
                ..old(self).model()
            }),
    {
        self.datasets.set(shard, value);
    }

    pub fn queue(&mut self, shard: usize, used: usize)
        requires
            shard < old(self).model().queues.len(),
        ensures
            final(self).model() == (MetricsModel {
                queues: old(self).model().queues.update(
                    shard as int,
                    QueueStats { used, ..old(self).model().queues[shard as int] },
                ),
                ..old(self).model()
            }),
    {
        let capacity: usize = self.queues[shard].capacity;
        self.queues.set(shard, QueueStats { used, capacity });
    }

    pub fn aof(&mut self, state: AofDiagnostics)
        ensures
            final(self).model() == (MetricsModel { aof: Some(state), ..old(self).model() }),
    {
        self.aof = Some(state);
    }

    pub fn pubsub(&mut self, census: Census)
        ensures
            final(self).model() == (MetricsModel {
                pubsub_channels: census.channels as u64,
                pubsub_subscribers: census.subscribers as u64,
                pubsub_subscriptions: census.subscriptions,
                ..old(self).model()
            }),
    {
        self.pubsub_channels = census.channels as u64;
        self.pubsub_subscribers = census.subscribers as u64;
        self.pubsub_subscriptions = census.subscriptions;
    }

    /// Counts the errors of a reply.
    pub fn response(&mut self, frame: &Frame)
        ensures
            final(self).model() == (MetricsModel {
                counters: counted(
                    old(self).model().counters,
                    Counter::ErrorReplies,
                    plus(error_count(frame.model()), 0),
                ),
                ..old(self).model()
            }),
    {
        self.add(Counter::ErrorReplies, errors(frame));
    }

    fn dataset_total(&self, which: Amount) -> (result: u64)
        ensures
            result == dataset_sum(self.model().datasets, which),
    {
        let ghost sizes = self.datasets@.map_values(|stats: DatasetStats| amount(stats, which));
        let mut total: u64 = 0;
        let mut index: usize = 0;
        assert(sizes.take(0) =~= Seq::empty());
        while index < self.datasets.len()
            invariant
                sizes == self.datasets@.map_values(|stats: DatasetStats| amount(stats, which)),
                index <= self.datasets@.len(),
                total == summed(sizes.take(index as int)),
            decreases self.datasets@.len() - index,
        {
            assert(sizes.take(index + 1).drop_last() =~= sizes.take(index as int));
            assert(sizes[index as int] == amount(self.datasets@[index as int], which));
            let stats = self.datasets[index];
            let size: usize = match which {
                Amount::Keys => stats.keys,
                Amount::Expiring => stats.expiring,
                Amount::Used => stats.used_bytes,
                Amount::Quota => stats.quota,
            };
            total = saturating(total, size as u64);
            index += 1;
        }
        assert(sizes.take(index as int) =~= sizes);
        total
    }

    fn queue_total(&self, whole: bool) -> (result: u64)
        ensures
            result == queue_sum(self.model().queues, whole),
    {
        let ghost sizes = self.queues@.map_values(
            |stats: QueueStats|
                if whole {
                    stats.capacity
                } else {
                    stats.used
                },
        );
        let mut total: u64 = 0;
        let mut index: usize = 0;
        assert(sizes.take(0) =~= Seq::empty());
        while index < self.queues.len()
            invariant
                sizes == self.queues@.map_values(
                    |stats: QueueStats|
                        if whole {
                            stats.capacity
                        } else {
                            stats.used
                        },
                ),
                index <= self.queues@.len(),
                total == summed(sizes.take(index as int)),
            decreases self.queues@.len() - index,
        {
            assert(sizes.take(index + 1).drop_last() =~= sizes.take(index as int));
            let stats = self.queues[index];
            let size: usize = if whole {
                stats.capacity
            } else {
                stats.used
            };
            assert(sizes[index as int] == size);
            total = saturating(total, size as u64);
            index += 1;
        }
        assert(sizes.take(index as int) =~= sizes);
        total
    }

    fn server_section(&self, version: &[u8], uptime: u64) -> (text: Vec<u8>)
        ensures
            text@ == server_text(self.model(), version@, uptime),
    {
        let mut text = title("# Server\r\n");
        put_word(&mut text, "sider_version", version);
        put(&mut text, "metrics_schema_version", 1);
        put(&mut text, "uptime_seconds", uptime);
        put(&mut text, "tcp_port", self.bound_port as u64);
        text
    }

    fn clients_section(&self) -> (text: Vec<u8>)
        ensures
            text@ == clients_text(self.model()),
    {
        let mut text = title("# Clients\r\n");
        put(&mut text, "connected_clients", self.connections);
        put(&mut text, "total_connections_received", self.count(Counter::Connections));
        put(&mut text, "rejected_connections", self.count(Counter::RejectedConnections));
        put(&mut text, "pubsub_channels", self.pubsub_channels);
        put(&mut text, "pubsub_subscribers", self.pubsub_subscribers);
        put(&mut text, "pubsub_subscriptions", self.pubsub_subscriptions);
        text
    }

    fn stats_section(&self) -> (text: Vec<u8>)
        ensures
            text@ == stats_text(self.model()),
    {
        let mut text = title("# Stats\r\n");
        put(&mut text, "commands_received_total", self.count(Counter::Requests));
        put(&mut text, "command_error_replies_total", self.count(Counter::ErrorReplies));
        put(&mut text, "protocol_errors_total", self.count(Counter::ProtocolErrors));
        put(&mut text, "connection_failures_total", self.count(Counter::ConnectionFailures));
        put(&mut text, "worker_requests_accepted_total", self.count(Counter::WorkerAccepted));
        put(&mut text, "client_write_timeouts_total", self.count(Counter::WriteTimeouts));
        put(&mut text, "response_encoding_failures_total", self.count(Counter::ResponseLimitFailures));
        put(&mut text, "worker_timeouts_total", self.count(Counter::WorkerTimeouts));
        put(&mut text, "worker_failures_total", self.count(Counter::WorkerFailures));
        put(&mut text, "pubsub_evictions_total", self.count(Counter::PubSubEvictions));
        put(&mut text, "pubsub_deliveries_total", self.count(Counter::PubSubDeliveries));
        put(&mut text, "worker_queue_used", self.queue_total(false));
        put(&mut text, "worker_queue_capacity", self.queue_total(true));
        text
    }

    fn memory_section(&self) -> (text: Vec<u8>)
        ensures
            text@ == memory_text(self.model()),
    {
        let mut text = title("# Memory\r\n");
        put(&mut text, "dataset_keys", self.dataset_total(Amount::Keys));
        put(&mut text, "dataset_expiring_keys", self.dataset_total(Amount::Expiring));
        put(&mut text, "dataset_logical_bytes", self.dataset_total(Amount::Used));
        put(&mut text, "dataset_quota_bytes", self.dataset_total(Amount::Quota));
        put(&mut text, "expiration_batches_total", self.count(Counter::ExpirationBatches));
        put(&mut text, "expiration_batch_keys_removed_total", self.count(Counter::ExpirationKeys));
        text
    }

    fn persistence_section(&self) -> (text: Vec<u8>)
        ensures
            text@ == persistence_text(self.model()),
    {
        let mut text = title("# Persistence\r\n");
        put_bit(&mut text, "aof_enabled", self.aof.is_some());
        if let Some(state) = &self.aof {
            put_bit(&mut text, "aof_running", state.running);
            put_bit(&mut text, "aof_failed", state.failed);
            put(&mut text, "aof_written_sequence", state.written_sequence as u64);
            put(&mut text, "aof_synced_sequence", state.synced_sequence as u64);
            put(&mut text, "aof_generation", state.generation as u64);
            put(&mut text, "aof_bytes_since_compaction", state.bytes_since_compaction as u64);
            put_bit(&mut text, "aof_dirty", state.dirty);
            put_bit(&mut text, "aof_compacting", state.compacting);
            put(&mut text, "aof_queue_used", state.queue_depth as u64);
            put(&mut text, "aof_queue_capacity", state.queue_capacity as u64);
            put(&mut text, "aof_records_written_total", state.records_written_total as u64);
            put(&mut text, "aof_active_file_syncs_total", state.syncs_total as u64);
            put(&mut text, "aof_fatal_failures_total", state.fatal_failures_total as u64);
            put(&mut text, "aof_record_rejections_total", state.record_rejections_total as u64);
            put(&mut text, "aof_compactions_total", state.compactions_total as u64);
            put(&mut text, "aof_compaction_failures_total", state.compaction_failures_total as u64);
            put_word(
                &mut text,
                "aof_last_error",
                match state.last_error {
                    Some(error) => error.as_bytes(),
                    None => "none".as_bytes(),
                },
            );
        }
        text
    }

    /// The text of the selected sections.
    pub fn render(
        &self,
        sections: InfoSections,
        version: &[u8],
        uptime: u64,
        runtime: Option<&Runtime>,
    ) -> (result: Bytes)
        requires
            runtime matches Some(runtime) ==> runtime.wf(),
        ensures
            tells(
                self.model(),
                match runtime {
                    Some(runtime) => Some(*runtime),
                    None => None,
                },
                version@,
                uptime,
                sections,
                buffer::bytes_content(result),
            ),
    {
        let ghost m = self.model();
        let mut text: Vec<u8> = Vec::new();
        let ghost part1 = when(selected(sections, 1), server_text(m, version@, uptime));
        if sections.contains(InfoSections::SERVER) {
            append(&mut text, self.server_section(version, uptime).as_slice());
        }
        assert(text@ =~= part1);
        let ghost part2 = part1 + when(selected(sections, 2), clients_text(m));
        if sections.contains(InfoSections::CLIENTS) {
            append(&mut text, self.clients_section().as_slice());
        }
        assert(text@ =~= part2);
        let ghost part3 = part2 + when(selected(sections, 4), stats_text(m));
        if sections.contains(InfoSections::STATS) {
            append(&mut text, self.stats_section().as_slice());
        }
        assert(text@ =~= part3);
        let ghost part4 = part3 + when(selected(sections, 8), memory_text(m));
        if sections.contains(InfoSections::MEMORY) {
            append(&mut text, self.memory_section().as_slice());
        }
        assert(text@ =~= part4);
        let ghost part5 = part4 + when(selected(sections, 16), persistence_text(m));
        if sections.contains(InfoSections::PERSISTENCE) {
            append(&mut text, self.persistence_section().as_slice());
        }
        assert(text@ =~= part5);
        let replication = replication_section(runtime);
        let ghost part6 = part5 + when(selected(sections, 64), replication@);
        if sections.contains(InfoSections::REPLICATION) {
            append(&mut text, replication.as_slice());
        }
        assert(text@ =~= part6);
        let ghost part7 = part6 + when(
            selected(sections, 32) && m.config is Some,
            configuration_text(m.config->Some_0),
        );
        if sections.contains(InfoSections::CONFIG) {
            if let Some(config) = &self.config {
                append(&mut text, configuration(config).as_slice());
            }
        }
        assert(text@ =~= part7);
        from_vec(text)
    }
}

fn put_optional(text: &mut Vec<u8>, name: &'static str, value: Option<u64>)
    ensures
        final(text)@ == old(text)@ + optional(name, natural(value)),
{
    match value {
        None => {
            assert(text@ + Seq::<u8>::empty() =~= text@);
        },
        Some(value) => put(text, name, value),
    }
}

fn replica_section(status: &Status) -> (text: Vec<u8>)
    ensures
        text@ == replica_text(*status),
{
    let known = !status.applied.is_blank();
    let behind: Option<u64> = match status.upstream_sequence {
        Some(upstream) => if known && upstream >= status.applied.sequence {
            Some(upstream - status.applied.sequence)
        } else {
            None
        },
        None => None,
    };
    assert(natural(behind) == lag(*status));
    let mut text = title("# Replication\r\n");
    put(&mut text, "replication_enabled", 1);
    put_word(&mut text, "replication_role", "replica".as_bytes());
    put_bit(&mut text, "replication_epoch_known", known);
    put_bit(&mut text, "replication_connected", status.connected);
    put_optional(
        &mut text,
        "replication_applied_sequence",
        if known {
            Some(status.applied.sequence)
        } else {
            None
        },
    );
    put_optional(&mut text, "replication_upstream_sequence", status.upstream_sequence);
    put_bit(&mut text, "replication_lag_known", behind.is_some());
    put_optional(&mut text, "replication_lag_batches", behind);
    put(&mut text, "replication_full_syncs_total", status.full_syncs);
    put(&mut text, "replication_partial_syncs_total", status.partial_syncs);
    put(&mut text, "replication_reconnects_total", status.reconnects);
    text
}

fn primary_section(status: &Status, runtime: &Runtime) -> (text: Vec<u8>)
    requires
        runtime.wf(),
    ensures
        text@ == primary_text(
            *status,
            match runtime.kept() {
                Some(journal) => Some(journal.history()),
                None => None,
            },
        ),
{
    let mut text = title("# Replication\r\n");
    put(&mut text, "replication_enabled", 1);
    put_word(&mut text, "replication_role", "primary".as_bytes());
    put_bit(&mut text, "replication_epoch_known", !status.applied.is_blank());
    if let Some(journal) = runtime.journal() {
        proof {
            journal.lemma_bounded();
        }
        if let Ok(state) = journal.status() {
            put(&mut text, "replication_head_sequence", state.head.sequence);
            put(&mut text, "replication_backlog_bytes", state.bytes as u64);
            put(&mut text, "replication_backlog_batches", state.batches as u64);
            put_optional(&mut text, "replication_oldest_sequence", state.oldest_sequence);
        }
    }
    text
}

fn replication_section(runtime: Option<&Runtime>) -> (text: Vec<u8>)
    requires
        runtime matches Some(runtime) ==> runtime.wf(),
    ensures
        tells_replication(
            match runtime {
                Some(runtime) => Some(*runtime),
                None => None,
            },
            text@,
        ),
{
    match runtime {
        None => {
            let mut text = title("# Replication\r\n");
            put(&mut text, "replication_enabled", 0);
            text
        },
        Some(runtime) => {
            let status = runtime.status();
            let text = if runtime.readonly() {
                replica_section(&status)
            } else {
                primary_section(&status, runtime)
            };
            assert(text@ == role_text(status, *runtime));
            text
        },
    }
}

/// The limits that are in force.
pub fn configuration(config: &ServerConfig) -> (text: Vec<u8>)
    ensures
        text@ == configuration_text(config.model()),
{
    let mut text = title("# Config\r\n");
    put(&mut text, "max_frame_bytes", config.resp_limits.max_frame_bytes as u64);
    put(&mut text, "max_bulk_bytes", config.resp_limits.max_bulk_bytes as u64);
    put(&mut text, "max_line_bytes", config.resp_limits.max_line_bytes as u64);
    put(&mut text, "max_nodes", config.resp_limits.max_nodes as u64);
    put(&mut text, "max_depth", config.resp_limits.max_depth as u64);
    put(&mut text, "shards", config.shards as u64);
    put(&mut text, "max_connections", config.max_connections as u64);
    put(&mut text, "worker_queue_capacity_per_shard", config.worker_queue_capacity as u64);
    put(&mut text, "pubsub_max_channels", config.pubsub_max_channels as u64);
    put(&mut text, "pubsub_queue_capacity", config.pubsub_queue_capacity as u64);
    put(&mut text, "transaction_max_commands", config.transaction_max_commands as u64);
    put(&mut text, "transaction_max_bytes", config.transaction_max_bytes as u64);
    put(&mut text, "watch_max_keys", config.watch_max_keys as u64);
    put(&mut text, "max_input_buffer_bytes", config.max_input_buffer_bytes as u64);
    put(&mut text, "max_response_bytes", config.max_response_bytes as u64);
    put(&mut text, "max_dataset_bytes", config.max_dataset_bytes as u64);
    put_wide(&mut text, "frame_timeout_ms", config.frame_timeout / 1_000_000);
    put_wide(&mut text, "request_timeout_ms", config.request_timeout / 1_000_000);
    put_wide(&mut text, "write_timeout_ms", config.write_timeout / 1_000_000);
    put_wide(&mut text, "shutdown_timeout_ms", config.shutdown_timeout / 1_000_000);
    put_bit(&mut text, "ready_file_enabled", config.ready_file.is_some());
    put_bit(&mut text, "aof_configured", config.aof.is_some());
    if let Some(aof) = &config.aof {
        let ghost start = text@;
        let mut more: Vec<u8> = Vec::new();
        put(&mut more, "aof_queue_capacity_configured", aof.queue_capacity as u64);
        assert(more@ =~= field("aof_queue_capacity_configured", aof.queue_capacity as nat));
        put(&mut more, "aof_max_mutations", aof.limits.max_mutations as u64);
        match aof.sync {
            SyncPolicy::Always => put_word(&mut more, "aof_sync_policy", "always".as_bytes()),
            SyncPolicy::Periodic(period) => {
                put_word(&mut more, "aof_sync_policy", "periodic".as_bytes());
                put(&mut more, "aof_sync_period_ms", period);
            },
        }
        put(&mut more, "aof_max_record_bytes", aof.limits.max_record_bytes as u64);
        put(&mut more, "aof_max_delta_bytes", aof.max_delta_bytes as u64);
        put(&mut more, "aof_compact_after_bytes", aof.compact_after_bytes);
        append(&mut text, more.as_slice());
    }
    text
}

} // verus!
