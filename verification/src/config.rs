//! Network, codec and worker configuration, validated without touching the
//! environment.

use crate::clock::reachable_all;
use crate::clock;
use crate::error::ConfigError;
use crate::numbers::decimal_text;
use crate::persistence::config::{max_permits, AofConfig, AofModel, SyncPolicy};
use crate::persistence::format::Limits;
use crate::persistence::layout::{DurableLayout, ROUTING_VERSION};
use crate::buffer::same_bytes;
use crate::replication::config::{Config, ConfigModel, Reach as SessionReach};
use crate::resp::limits::RespLimits;
use crate::settings::{Address, Flaw, Ip, NativeModel, NativeText, Settings};
use crate::storage::routing::{ShardRouter, MAX_SHARDS};
use crate::storage::store::StoreConfig;
use crate::numbers;
use crate::persistence::config as persistence_config;
use crate::replication::config as replication_config;
use crate::resp::limits;
use crate::settings;
use vstd::prelude::*;
use vstd::string::*;
use vstd::utf8::*;

verus! {

/// Configuration of the server and of the bounded resources of each
/// connection. Spans are in nanoseconds.
///
/// The fields are public; whoever fills them calls `validate` before using the
/// limits, which are no quota of the dataset nor of the memory of the process.
#[derive(Clone, Debug, PartialEq, Eq)]
pub struct ServerConfig {
    /// Literal address and port; the default keeps the service on loopback.
    pub bind_addr: Address,
    /// Budget of each received frame.
    pub resp_limits: RespLimits,
    /// Connections admitted at the same time.
    pub max_connections: usize,
    /// Accepted commands that may wait for a worker.
    pub worker_queue_capacity: usize,
    /// Fixed number of owning workers; there is no resharding while running.
    pub shards: usize,
    /// Distinct channels of one subscriber.
    pub pubsub_max_channels: usize,
    /// Pending notifications of one subscriber; a full queue ends the connection.
    pub pubsub_queue_capacity: usize,
    /// Commands kept by a connection between MULTI and EXEC or DISCARD.
    pub transaction_max_commands: usize,
    /// Encoded bytes of the commands kept by a transaction.
    pub transaction_max_bytes: usize,
    /// Distinct keys that one connection observes.
    pub watch_max_keys: usize,
    /// Unread bytes that a connection may keep.
    pub max_input_buffer_bytes: usize,
    /// Bytes of a whole reply, framing included.
    pub max_response_bytes: usize,
    /// Logical bytes of the dataset, with the fixed charge of each entry.
    pub max_dataset_bytes: usize,
    /// Time for a frame to arrive, from its first byte on.
    pub frame_timeout: u128,
    /// Time to hand a command over and get its reply.
    pub request_timeout: u128,
    /// Time to write a whole reply.
    pub write_timeout: u128,
    /// Time to drain after the signal to stop.
    pub shutdown_timeout: u128,
    /// Native path of the readiness record.
    pub ready_file: Option<NativeText>,
    /// Persistence; without it the data stay in memory.
    pub aof: Option<AofConfig>,
    /// Replication; it needs persistence.
    pub replication: Option<Config>,
}

/// The configuration by content.
#[verifier::ext_equal]
pub struct ServerModel {
    pub bind_addr: Address,
    pub resp_limits: RespLimits,
    pub max_connections: usize,
    pub worker_queue_capacity: usize,
    pub shards: usize,
    pub pubsub_max_channels: usize,
    pub pubsub_queue_capacity: usize,
    pub transaction_max_commands: usize,
    pub transaction_max_bytes: usize,
    pub watch_max_keys: usize,
    pub max_input_buffer_bytes: usize,
    pub max_response_bytes: usize,
    pub max_dataset_bytes: usize,
    pub frame_timeout: u128,
    pub request_timeout: u128,
    pub write_timeout: u128,
    pub shutdown_timeout: u128,
    pub ready_file: Option<NativeModel>,
    pub aof: Option<AofModel>,
    pub replication: Option<ConfigModel>,
}

/// Which of the timeouts the clock can count.
#[derive(Clone, Copy, Debug, PartialEq, Eq, Structural)]
pub struct Reach {
    pub frame: bool,
    pub request: bool,
    pub write: bool,
    pub shutdown: bool,
    /// Those of replication, where it is on.
    pub session: SessionReach,
}

/// The timeouts that the clock has to count, in their order: those of connections,
/// then those of replication where it is on.
pub open spec fn spans_of(config: ServerModel) -> Seq<u128> {
    seq![
        config.frame_timeout,
        config.request_timeout,
        config.write_timeout,
        config.shutdown_timeout,
    ] + match config.replication {
        Some(replication) => replication_config::spans_of(replication),
        None => Seq::empty(),
    }
}

/// What the answers of the clock say, each of its timeout. Without replication
/// nothing is asked for it.
pub open spec fn reach_of(config: ServerModel, answers: Seq<bool>) -> Reach {
    let on = config.replication is Some;
    Reach {
        frame: answers[0],
        request: answers[1],
        write: answers[2],
        shutdown: answers[3],
        session: SessionReach {
            frame: on ==> answers[4],
            sync: on ==> answers[5],
            reconnect_min: on ==> answers[6],
            reconnect_max: on ==> answers[7],
        },
    }
}

/// Whether the clock may have answered this to the timeouts of a configuration.
pub open spec fn reach_suits(config: ServerModel, reach: Reach) -> bool {
    exists|answers: Seq<bool>|
        clock::answerable_all(spans_of(config), answers) && reach == #[trigger] reach_of(
            config,
            answers,
        )
}

pub open spec fn default_model() -> ServerModel {
    ServerModel {
        bind_addr: Address { ip: Ip::V4(127, 0, 0, 1), port: 6379 },
        resp_limits: RespLimits {
            max_frame_bytes: 4194304,
            max_bulk_bytes: 1048576,
            max_line_bytes: 1024,
            max_nodes: 1024,
            max_depth: 16,
        },
        max_connections: 32,
        worker_queue_capacity: 32,
        shards: 1,
        pubsub_max_channels: 32,
        pubsub_queue_capacity: 32,
        transaction_max_commands: 128,
        transaction_max_bytes: 1048576,
        watch_max_keys: 128,
        max_input_buffer_bytes: 4194304,
        max_response_bytes: 4194304,
        max_dataset_bytes: 67108864,
        frame_timeout: 10_000_000_000,
        request_timeout: 5_000_000_000,
        write_timeout: 5_000_000_000,
        shutdown_timeout: 5_000_000_000,
        ready_file: None,
        aof: None,
        replication: None,
    }
}

/// What is wrong with the address to listen on.
pub open spec fn bind_fault(settings: Settings) -> Option<Flaw> {
    match settings::value_of(settings, "SIDER_ADDR") {
        None => None,
        Some(NativeModel::Raw(_)) => Some(Flaw::AddressNotText),
        Some(NativeModel::Text(text)) => match settings::address_of(settings, "SIDER_ADDR") {
            Some(_) => None,
            None => Some(Flaw::NotAddress(text)),
        },
    }
}

/// The first numeric option that cannot be read.
pub open spec fn numbers_fault(settings: Settings) -> Option<Flaw> {
    let size = usize::MAX as nat;
    let span = u64::MAX as nat;
    if settings::number_fault(settings, "SIDER_MAX_CONNECTIONS", size) is Some {
        settings::number_fault(settings, "SIDER_MAX_CONNECTIONS", size)
    } else if settings::number_fault(settings, "SIDER_WORKER_QUEUE_CAPACITY", size) is Some {
        settings::number_fault(settings, "SIDER_WORKER_QUEUE_CAPACITY", size)
    } else if settings::number_fault(settings, "SIDER_SHARDS", size) is Some {
        settings::number_fault(settings, "SIDER_SHARDS", size)
    } else if settings::number_fault(settings, "SIDER_PUBSUB_MAX_CHANNELS", size) is Some {
        settings::number_fault(settings, "SIDER_PUBSUB_MAX_CHANNELS", size)
    } else if settings::number_fault(settings, "SIDER_PUBSUB_QUEUE_CAPACITY", size) is Some {
        settings::number_fault(settings, "SIDER_PUBSUB_QUEUE_CAPACITY", size)
    } else if settings::number_fault(settings, "SIDER_TRANSACTION_MAX_COMMANDS", size) is Some {
        settings::number_fault(settings, "SIDER_TRANSACTION_MAX_COMMANDS", size)
    } else if settings::number_fault(settings, "SIDER_TRANSACTION_MAX_BYTES", size) is Some {
        settings::number_fault(settings, "SIDER_TRANSACTION_MAX_BYTES", size)
    } else if settings::number_fault(settings, "SIDER_WATCH_MAX_KEYS", size) is Some {
        settings::number_fault(settings, "SIDER_WATCH_MAX_KEYS", size)
    } else if settings::number_fault(settings, "SIDER_MAX_FRAME_BYTES", size) is Some {
        settings::number_fault(settings, "SIDER_MAX_FRAME_BYTES", size)
    } else if settings::number_fault(settings, "SIDER_MAX_BULK_BYTES", size) is Some {
        settings::number_fault(settings, "SIDER_MAX_BULK_BYTES", size)
    } else if settings::number_fault(settings, "SIDER_MAX_LINE_BYTES", size) is Some {
        settings::number_fault(settings, "SIDER_MAX_LINE_BYTES", size)
    } else if settings::number_fault(settings, "SIDER_MAX_NODES", size) is Some {
        settings::number_fault(settings, "SIDER_MAX_NODES", size)
    } else if settings::number_fault(settings, "SIDER_MAX_DEPTH", size) is Some {
        settings::number_fault(settings, "SIDER_MAX_DEPTH", size)
    } else if settings::number_fault(settings, "SIDER_MAX_INPUT_BUFFER_BYTES", size) is Some {
        settings::number_fault(settings, "SIDER_MAX_INPUT_BUFFER_BYTES", size)
    } else if settings::number_fault(settings, "SIDER_MAX_RESPONSE_BYTES", size) is Some {
        settings::number_fault(settings, "SIDER_MAX_RESPONSE_BYTES", size)
    } else if settings::number_fault(settings, "SIDER_MAX_DATASET_BYTES", size) is Some {
        settings::number_fault(settings, "SIDER_MAX_DATASET_BYTES", size)
    } else if settings::number_fault(settings, "SIDER_FRAME_TIMEOUT_MS", span) is Some {
        settings::number_fault(settings, "SIDER_FRAME_TIMEOUT_MS", span)
    } else if settings::number_fault(settings, "SIDER_REQUEST_TIMEOUT_MS", span) is Some {
        settings::number_fault(settings, "SIDER_REQUEST_TIMEOUT_MS", span)
    } else if settings::number_fault(settings, "SIDER_WRITE_TIMEOUT_MS", span) is Some {
        settings::number_fault(settings, "SIDER_WRITE_TIMEOUT_MS", span)
    } else {
        settings::number_fault(settings, "SIDER_SHUTDOWN_TIMEOUT_MS", span)
    }
}

/// Whether the text of the synchronisation policy is this word.
pub open spec fn sync_word(settings: Settings, word: &'static str) -> bool {
    settings::value_of(settings, "SIDER_AOF_SYNC") matches Some(NativeModel::Text(text))
        && encode_utf8(text) == word.spec_bytes()
}

/// What is wrong with the options of the log, given the number of shards.
pub open spec fn log_fault(settings: Settings, shards: nat) -> Option<Flaw> {
    let size = usize::MAX as nat;
    if settings::value_of(settings, "SIDER_AOF_DIR") is None {
        None
    } else if !(1 <= shards <= MAX_SHARDS) {
        Some(Flaw::Limits("SIDER_SHARDS precisa estar entre 1 e 256"))
    } else if settings::value_of(settings, "SIDER_AOF_SYNC") is Some && !sync_word(
        settings,
        "always",
    ) && !sync_word(settings, "everysec") {
        Some(Flaw::Limits("SIDER_AOF_SYNC aceita always ou everysec"))
    } else if settings::number_fault(settings, "SIDER_AOF_QUEUE_CAPACITY", size) is Some {
        settings::number_fault(settings, "SIDER_AOF_QUEUE_CAPACITY", size)
    } else if settings::number_fault(settings, "SIDER_AOF_MAX_RECORD_BYTES", size) is Some {
        settings::number_fault(settings, "SIDER_AOF_MAX_RECORD_BYTES", size)
    } else if settings::number_fault(settings, "SIDER_AOF_MAX_DELTA_BYTES", size) is Some {
        settings::number_fault(settings, "SIDER_AOF_MAX_DELTA_BYTES", size)
    } else {
        settings::number_fault(settings, "SIDER_AOF_COMPACT_AFTER_BYTES", u64::MAX as nat)
    }
}

/// The log that the options ask for.
pub open spec fn log_model(settings: Settings, shards: nat) -> Option<AofModel> {
    let size = usize::MAX as nat;
    match settings::value_of(settings, "SIDER_AOF_DIR") {
        None => None,
        Some(directory) => Some(
            AofModel {
                directory,
                layout: DurableLayout {
                    shard_count: shards as u32,
                    routing_version: ROUTING_VERSION,
                },
                sync: if sync_word(settings, "everysec") && !sync_word(settings, "always") {
                    SyncPolicy::Periodic(1000)
                } else {
                    SyncPolicy::Always
                },
                queue_capacity: settings::number_or(
                    settings,
                    "SIDER_AOF_QUEUE_CAPACITY",
                    size,
                    32,
                ) as usize,
                limits: Limits {
                    max_record_bytes: settings::number_or(
                        settings,
                        "SIDER_AOF_MAX_RECORD_BYTES",
                        size,
                        8388608,
                    ) as usize,
                    max_mutations: 100000,
                },
                compact_after_bytes: settings::number_or(
                    settings,
                    "SIDER_AOF_COMPACT_AFTER_BYTES",
                    u64::MAX as nat,
                    67108864,
                ) as u64,
                max_delta_bytes: settings::number_or(
                    settings,
                    "SIDER_AOF_MAX_DELTA_BYTES",
                    size,
                    16777216,
                ) as usize,
            },
        ),
    }
}

/// The number of shards that the options ask for.
pub open spec fn shards_of(settings: Settings) -> nat {
    settings::number_or(settings, "SIDER_SHARDS", usize::MAX as nat, 1)
}

/// The first option that cannot be read.
pub open spec fn lookup_fault(settings: Settings) -> Option<Flaw> {
    if bind_fault(settings) is Some {
        bind_fault(settings)
    } else if numbers_fault(settings) is Some {
        numbers_fault(settings)
    } else if log_fault(settings, shards_of(settings)) is Some {
        log_fault(settings, shards_of(settings))
    } else if replication_config::wanted(settings) {
        replication_config::lookup_fault(settings)
    } else {
        None
    }
}

/// The configuration that the options give, before it is held to its rules.
pub open spec fn lookup_model(settings: Settings) -> ServerModel {
    let size = usize::MAX as nat;
    let base = default_model();
    ServerModel {
        bind_addr: match replication_config::address_set(settings, "SIDER_ADDR") {
            Some(address) => address,
            None => base.bind_addr,
        },
        resp_limits: RespLimits {
            max_frame_bytes: settings::number_or(
                settings,
                "SIDER_MAX_FRAME_BYTES",
                size,
                base.resp_limits.max_frame_bytes as nat,
            ) as usize,
            max_bulk_bytes: settings::number_or(
                settings,
                "SIDER_MAX_BULK_BYTES",
                size,
                base.resp_limits.max_bulk_bytes as nat,
            ) as usize,
            max_line_bytes: settings::number_or(
                settings,
                "SIDER_MAX_LINE_BYTES",
                size,
                base.resp_limits.max_line_bytes as nat,
            ) as usize,
            max_nodes: settings::number_or(
                settings,
                "SIDER_MAX_NODES",
                size,
                base.resp_limits.max_nodes as nat,
            ) as usize,
            max_depth: settings::number_or(
                settings,
                "SIDER_MAX_DEPTH",
                size,
                base.resp_limits.max_depth as nat,
            ) as usize,
        },
        max_connections: settings::number_or(
            settings,
            "SIDER_MAX_CONNECTIONS",
            size,
            base.max_connections as nat,
        ) as usize,
        worker_queue_capacity: settings::number_or(
            settings,
            "SIDER_WORKER_QUEUE_CAPACITY",
            size,
            base.worker_queue_capacity as nat,
        ) as usize,
        shards: settings::number_or(
            settings,
            "SIDER_SHARDS",
            size,
            base.shards as nat,
        ) as usize,
        pubsub_max_channels: settings::number_or(
            settings,
            "SIDER_PUBSUB_MAX_CHANNELS",
            size,
            base.pubsub_max_channels as nat,
        ) as usize,
        pubsub_queue_capacity: settings::number_or(
            settings,
            "SIDER_PUBSUB_QUEUE_CAPACITY",
            size,
            base.pubsub_queue_capacity as nat,
        ) as usize,
        transaction_max_commands: settings::number_or(
            settings,
            "SIDER_TRANSACTION_MAX_COMMANDS",
            size,
            base.transaction_max_commands as nat,
        ) as usize,
        transaction_max_bytes: settings::number_or(
            settings,
            "SIDER_TRANSACTION_MAX_BYTES",
            size,
            base.transaction_max_bytes as nat,
        ) as usize,
        watch_max_keys: settings::number_or(
            settings,
            "SIDER_WATCH_MAX_KEYS",
            size,
            base.watch_max_keys as nat,
        ) as usize,
        max_input_buffer_bytes: settings::number_or(
            settings,
            "SIDER_MAX_INPUT_BUFFER_BYTES",
            size,
            base.max_input_buffer_bytes as nat,
        ) as usize,
        max_response_bytes: settings::number_or(
            settings,
            "SIDER_MAX_RESPONSE_BYTES",
            size,
            base.max_response_bytes as nat,
        ) as usize,
        max_dataset_bytes: settings::number_or(
            settings,
            "SIDER_MAX_DATASET_BYTES",
            size,
            base.max_dataset_bytes as nat,
        ) as usize,
        frame_timeout: settings::span_or(settings, "SIDER_FRAME_TIMEOUT_MS", base.frame_timeout),
        request_timeout: settings::span_or(settings, "SIDER_REQUEST_TIMEOUT_MS", base.request_timeout),
        write_timeout: settings::span_or(settings, "SIDER_WRITE_TIMEOUT_MS", base.write_timeout),
        shutdown_timeout: settings::span_or(settings, "SIDER_SHUTDOWN_TIMEOUT_MS", base.shutdown_timeout),
        ready_file: settings::value_of(settings, "SIDER_READY_FILE"),
        aof: log_model(settings, shards_of(settings)),
        replication: if replication_config::wanted(settings) {
            Some(replication_config::lookup_config(settings))
        } else {
            None
        },
    }
}

/// What is wrong with persistence and replication.
pub open spec fn durable_fault(config: ServerModel, reach: Reach) -> Option<Flaw> {
    match (config.aof, config.replication) {
        (None, None) => None,
        (None, Some(_)) => Some(Flaw::Limits("replication requires SIDER_AOF_DIR")),
        (Some(aof), replication) => if persistence_config::aof_fault(aof) is Some {
            Some(Flaw::Limits(persistence_config::aof_fault(aof)->Some_0))
        } else if aof.layout.shard_count != config.shards {
            Some(Flaw::Limits("quantidade de shards do AOF difere do servidor"))
        } else {
            match replication {
                None => None,
                Some(replication) => match replication_config::config_fault(
                    replication,
                    aof,
                    reach.session,
                ) {
                    None => None,
                    Some(reason) => Some(Flaw::Limits(reason)),
                },
            }
        },
    }
}

/// The first of the numbers that have to be positive and is not.
pub open spec fn zero_fault(config: ServerModel) -> Option<Flaw> {
    if config.transaction_max_commands == 0 {
        Some(Flaw::Limits("transaction_max_commands precisa ser maior que zero"))
    } else if config.transaction_max_bytes == 0 {
        Some(Flaw::Limits("transaction_max_bytes precisa ser maior que zero"))
    } else if config.watch_max_keys == 0 {
        Some(Flaw::Limits("watch_max_keys precisa ser maior que zero"))
    } else if config.pubsub_max_channels == 0 {
        Some(Flaw::Limits("pubsub_max_channels precisa ser maior que zero"))
    } else if config.pubsub_queue_capacity == 0 {
        Some(Flaw::Limits("pubsub_queue_capacity precisa ser maior que zero"))
    } else if config.max_connections == 0 {
        Some(Flaw::Limits("SIDER_MAX_CONNECTIONS (max_connections) precisa ser maior que zero"))
    } else if config.worker_queue_capacity == 0 {
        Some(Flaw::Limits("SIDER_WORKER_QUEUE_CAPACITY (worker_queue_capacity) precisa ser maior que zero"))
    } else if config.max_input_buffer_bytes == 0 {
        Some(Flaw::Limits("SIDER_MAX_INPUT_BUFFER_BYTES (max_input_buffer_bytes) precisa ser maior que zero"))
    } else if config.max_response_bytes == 0 {
        Some(Flaw::Limits("SIDER_MAX_RESPONSE_BYTES (max_response_bytes) precisa ser maior que zero"))
    } else {
        None
    }
}

/// The bytes of the longest bulk reply: prefix, length, payload and two line ends.
pub open spec fn bulk_reply(bulk: usize) -> int {
    bulk + numbers::decimal(bulk as nat).len() + 5
}

/// What is wrong with the sizes.
pub open spec fn size_fault(config: ServerModel) -> Option<Flaw> {
    let limits = config.resp_limits;
    if config.max_connections > usize::MAX / 8 || config.worker_queue_capacity > usize::MAX / 8
        || config.pubsub_max_channels > usize::MAX / 8 || config.pubsub_queue_capacity
        > usize::MAX / 8 || config.transaction_max_commands > usize::MAX / 8
        || config.watch_max_keys > usize::MAX / 8 {
        Some(
            Flaw::Limits("conexões e capacidade da fila não podem exceder Semaphore::MAX_PERMITS"),
        )
    } else if limits.max_frame_bytes > isize::MAX || limits.max_bulk_bytes > isize::MAX
        || limits.max_line_bytes > isize::MAX || config.max_input_buffer_bytes > isize::MAX
        || config.max_response_bytes > isize::MAX || config.transaction_max_bytes > isize::MAX {
        Some(Flaw::Limits("limites de bytes não podem exceder isize::MAX"))
    } else if limits.max_frame_bytes > config.max_input_buffer_bytes {
        Some(Flaw::Limits("max_frame_bytes não pode exceder max_input_buffer_bytes"))
    } else if bulk_reply(limits.max_bulk_bytes) > usize::MAX {
        Some(Flaw::Limits("framing da resposta bulk excede o tamanho representável"))
    } else if config.max_response_bytes < 128 {
        Some(Flaw::Limits("max_response_bytes precisa comportar ao menos 128 bytes"))
    } else if config.max_response_bytes < bulk_reply(limits.max_bulk_bytes) {
        Some(Flaw::Limits("max_response_bytes precisa comportar max_bulk_bytes e seu framing"))
    } else {
        None
    }
}

/// What is wrong with the timeouts and the path of the readiness record.
pub open spec fn time_fault(config: ServerModel, reach: Reach) -> Option<Flaw> {
    if config.frame_timeout == 0 || !reach.frame {
        Some(
            Flaw::Limits("frame_timeout precisa ser positivo e representável por Instant"),
        )
    } else if config.request_timeout == 0 || !reach.request {
        Some(
            Flaw::Limits("request_timeout precisa ser positivo e representável por Instant"),
        )
    } else if config.write_timeout == 0 || !reach.write {
        Some(
            Flaw::Limits("write_timeout precisa ser positivo e representável por Instant"),
        )
    } else if config.shutdown_timeout == 0 || !reach.shutdown {
        Some(
            Flaw::Limits("shutdown_timeout precisa ser positivo e representável por Instant"),
        )
    } else if config.ready_file matches Some(path) && settings::nothing(path) {
        Some(Flaw::Limits("SIDER_READY_FILE não pode ser um caminho vazio"))
    } else {
        None
    }
}

/// The first rule that a configuration breaks, where the clock reaches this far.
pub open spec fn config_fault(config: ServerModel, reach: Reach) -> Option<Flaw> {
    if durable_fault(config, reach) is Some {
        durable_fault(config, reach)
    } else if limits::limits_fault(config.resp_limits) is Some {
        Some(Flaw::RespLimits(limits::limits_fault(config.resp_limits)->Some_0))
    } else if !(1 <= config.shards <= MAX_SHARDS) {
        Some(Flaw::Limits("SIDER_SHARDS precisa estar entre 1 e 256"))
    } else if !(1 <= config.max_dataset_bytes <= isize::MAX) {
        Some(Flaw::Limits("SIDER_MAX_DATASET_BYTES precisa estar entre 1 e isize::MAX"))
    } else if config.max_dataset_bytes < config.shards {
        Some(Flaw::Limits("a quota total precisa reservar ao menos um byte por shard"))
    } else if zero_fault(config) is Some {
        zero_fault(config)
    } else if size_fault(config) is Some {
        size_fault(config)
    } else {
        time_fault(config, reach)
    }
}

/// Whether a result is what a fault asks for.
pub open spec fn answers(result: Result<(), ConfigError>, fault: Option<Flaw>) -> bool {
    match (result, fault) {
        (Ok(_), None) => true,
        (Err(error), Some(flaw)) => settings::flaw_of(error) == flaw,
        _ => false,
    }
}

impl Default for ServerConfig {
    fn default() -> (result: Self)
        ensures
            result.model() == default_model(),
    {
        ServerConfig {
            bind_addr: Address { ip: Ip::V4(127, 0, 0, 1), port: 6379 },
            resp_limits: RespLimits::default(),
            max_connections: 32,
            worker_queue_capacity: 32,
            shards: 1,
            pubsub_max_channels: 32,
            pubsub_queue_capacity: 32,
            transaction_max_commands: 128,
            transaction_max_bytes: 1048576,
            watch_max_keys: 128,
            max_input_buffer_bytes: 4194304,
            max_response_bytes: 4194304,
            max_dataset_bytes: 67108864,
            frame_timeout: 10_000_000_000,
            request_timeout: 5_000_000_000,
            write_timeout: 5_000_000_000,
            shutdown_timeout: 5_000_000_000,
            ready_file: None,
            aof: None,
            replication: None,
        }
    }
}

fn limits_error(reason: &'static str) -> (result: Result<(), ConfigError>)
    ensures
        result == Err::<(), ConfigError>(ConfigError::InvalidServerLimits { reason }),
{
    Err(ConfigError::InvalidServerLimits { reason })
}

fn is_sync_word(settings: &Settings, word: &'static str) -> (result: bool)
    ensures
        result == sync_word(*settings, word),
{
    match settings.get("SIDER_AOF_SYNC") {
        Some(NativeText::Text(text)) => same_bytes(text.as_str().as_bytes(), word.as_bytes()),
        _ => false,
    }
}

fn read_log(settings: &Settings, shards: usize) -> (result: Result<
    Option<AofConfig>,
    ConfigError,
>)
    ensures
        match (result, log_fault(*settings, shards as nat)) {
            (Ok(None), None) => log_model(*settings, shards as nat) is None,
            (Ok(Some(aof)), None) => log_model(*settings, shards as nat) == Some(aof.model()),
            (Err(error), Some(flaw)) => settings::flaw_of(error) == flaw,
            _ => false,
        },
{
    let directory = match settings.get("SIDER_AOF_DIR") {
        None => return Ok(None),
        Some(directory) => directory.duplicate(),
    };
    let mut aof = AofConfig::new(directory);
    match ShardRouter::new(shards) {
        Err(error) => return Err(error),
        Ok(_) => {},
    }
    aof.layout.shard_count = shards as u32;
    if settings.get("SIDER_AOF_SYNC").is_some() {
        if is_sync_word(settings, "always") {
            aof.sync = SyncPolicy::Always;
        } else if is_sync_word(settings, "everysec") {
            aof.sync = SyncPolicy::Periodic(1000);
        } else {
            return Err(
                ConfigError::InvalidServerLimits {
                    reason: "SIDER_AOF_SYNC aceita always ou everysec",
                },
            );
        }
    }
    match settings.size("SIDER_AOF_QUEUE_CAPACITY", aof.queue_capacity) {
        Err(error) => return Err(error),
        Ok(value) => aof.queue_capacity = value,
    }
    match settings.size("SIDER_AOF_MAX_RECORD_BYTES", aof.limits.max_record_bytes) {
        Err(error) => return Err(error),
        Ok(value) => aof.limits.max_record_bytes = value,
    }
    match settings.size("SIDER_AOF_MAX_DELTA_BYTES", aof.max_delta_bytes) {
        Err(error) => return Err(error),
        Ok(value) => aof.max_delta_bytes = value,
    }
    match settings.number("SIDER_AOF_COMPACT_AFTER_BYTES", u64::MAX, aof.compact_after_bytes) {
        Err(error) => return Err(error),
        Ok(value) => aof.compact_after_bytes = value,
    }
    Ok(Some(aof))
}

impl ServerConfig {
    pub open spec fn model(&self) -> ServerModel {
        ServerModel {
            bind_addr: self.bind_addr,
            resp_limits: self.resp_limits,
            max_connections: self.max_connections,
            worker_queue_capacity: self.worker_queue_capacity,
            shards: self.shards,
            pubsub_max_channels: self.pubsub_max_channels,
            pubsub_queue_capacity: self.pubsub_queue_capacity,
            transaction_max_commands: self.transaction_max_commands,
            transaction_max_bytes: self.transaction_max_bytes,
            watch_max_keys: self.watch_max_keys,
            max_input_buffer_bytes: self.max_input_buffer_bytes,
            max_response_bytes: self.max_response_bytes,
            max_dataset_bytes: self.max_dataset_bytes,
            frame_timeout: self.frame_timeout,
            request_timeout: self.request_timeout,
            write_timeout: self.write_timeout,
            shutdown_timeout: self.shutdown_timeout,
            ready_file: replication_config::path_model(self.ready_file),
            aof: match self.aof {
                Some(aof) => Some(aof.model()),
                None => None,
            },
            replication: match self.replication {
                Some(replication) => Some(replication.model()),
                None => None,
            },
        }
    }

    fn read_bind(&mut self, settings: &Settings) -> (result: Result<(), ConfigError>)
        ensures
            answers(result, bind_fault(*settings)),
            result is Ok ==> final(self).model() == (ServerModel {
                bind_addr: match replication_config::address_set(*settings, "SIDER_ADDR") {
                    Some(address) => address,
                    None => old(self).bind_addr,
                },
                ..old(self).model()
            }),
    {
        match settings.get("SIDER_ADDR") {
            None => {},
            Some(NativeText::Raw(_)) => return Err(ConfigError::NonUnicodeAddress),
            Some(NativeText::Text(text)) => match settings.address("SIDER_ADDR") {
                Some(address) => {
                    self.bind_addr = address;
                },
                None => return Err(ConfigError::InvalidAddress { value: text.clone() }),
            },
        }
        Ok(())
    }

    /// Reads the numeric options over what is there.
    fn read_numbers(&mut self, settings: &Settings) -> (result: Result<(), ConfigError>)
        requires
            old(self).model() == (ServerModel { bind_addr: old(self).bind_addr, ..default_model() }),
        ensures
            answers(result, numbers_fault(*settings)),
            result is Ok ==> final(self).model() == (ServerModel {
                bind_addr: old(self).bind_addr,
                ready_file: None,
                aof: None,
                replication: None,
                ..lookup_model(*settings)
            }),
    {
        match settings.size("SIDER_MAX_CONNECTIONS", self.max_connections) {
            Err(error) => return Err(error),
            Ok(value) => self.max_connections = value,
        }
        match settings.size("SIDER_WORKER_QUEUE_CAPACITY", self.worker_queue_capacity) {
            Err(error) => return Err(error),
            Ok(value) => self.worker_queue_capacity = value,
        }
        match settings.size("SIDER_SHARDS", self.shards) {
            Err(error) => return Err(error),
            Ok(value) => self.shards = value,
        }
        match settings.size("SIDER_PUBSUB_MAX_CHANNELS", self.pubsub_max_channels) {
            Err(error) => return Err(error),
            Ok(value) => self.pubsub_max_channels = value,
        }
        match settings.size("SIDER_PUBSUB_QUEUE_CAPACITY", self.pubsub_queue_capacity) {
            Err(error) => return Err(error),
            Ok(value) => self.pubsub_queue_capacity = value,
        }
        match settings.size("SIDER_TRANSACTION_MAX_COMMANDS", self.transaction_max_commands) {
            Err(error) => return Err(error),
            Ok(value) => self.transaction_max_commands = value,
        }
        match settings.size("SIDER_TRANSACTION_MAX_BYTES", self.transaction_max_bytes) {
            Err(error) => return Err(error),
            Ok(value) => self.transaction_max_bytes = value,
        }
        match settings.size("SIDER_WATCH_MAX_KEYS", self.watch_max_keys) {
            Err(error) => return Err(error),
            Ok(value) => self.watch_max_keys = value,
        }
        match settings.size("SIDER_MAX_FRAME_BYTES", self.resp_limits.max_frame_bytes) {
            Err(error) => return Err(error),
            Ok(value) => self.resp_limits.max_frame_bytes = value,
        }
        match settings.size("SIDER_MAX_BULK_BYTES", self.resp_limits.max_bulk_bytes) {
            Err(error) => return Err(error),
            Ok(value) => self.resp_limits.max_bulk_bytes = value,
        }
        match settings.size("SIDER_MAX_LINE_BYTES", self.resp_limits.max_line_bytes) {
            Err(error) => return Err(error),
            Ok(value) => self.resp_limits.max_line_bytes = value,
        }
        match settings.size("SIDER_MAX_NODES", self.resp_limits.max_nodes) {
            Err(error) => return Err(error),
            Ok(value) => self.resp_limits.max_nodes = value,
        }
        match settings.size("SIDER_MAX_DEPTH", self.resp_limits.max_depth) {
            Err(error) => return Err(error),
            Ok(value) => self.resp_limits.max_depth = value,
        }
        match settings.size("SIDER_MAX_INPUT_BUFFER_BYTES", self.max_input_buffer_bytes) {
            Err(error) => return Err(error),
            Ok(value) => self.max_input_buffer_bytes = value,
        }
        match settings.size("SIDER_MAX_RESPONSE_BYTES", self.max_response_bytes) {
            Err(error) => return Err(error),
            Ok(value) => self.max_response_bytes = value,
        }
        match settings.size("SIDER_MAX_DATASET_BYTES", self.max_dataset_bytes) {
            Err(error) => return Err(error),
            Ok(value) => self.max_dataset_bytes = value,
        }
        match settings.span("SIDER_FRAME_TIMEOUT_MS", self.frame_timeout) {
            Err(error) => return Err(error),
            Ok(value) => self.frame_timeout = value,
        }
        match settings.span("SIDER_REQUEST_TIMEOUT_MS", self.request_timeout) {
            Err(error) => return Err(error),
            Ok(value) => self.request_timeout = value,
        }
        match settings.span("SIDER_WRITE_TIMEOUT_MS", self.write_timeout) {
            Err(error) => return Err(error),
            Ok(value) => self.write_timeout = value,
        }
        match settings.span("SIDER_SHUTDOWN_TIMEOUT_MS", self.shutdown_timeout) {
            Err(error) => return Err(error),
            Ok(value) => self.shutdown_timeout = value,
        }
        Ok(())
    }

    /// Reads the options without holding the limits to their rules.
    pub fn read(settings: &Settings) -> (result: Result<Self, ConfigError>)
        ensures
            match (result, lookup_fault(*settings)) {
                (Ok(config), None) => config.model() == lookup_model(*settings),
                (Err(error), Some(flaw)) => settings::flaw_of(error) == flaw,
                _ => false,
            },
    {
        let mut config = ServerConfig::default();
        match config.read_bind(settings) {
            Err(error) => return Err(error),
            Ok(_) => {},
        }
        match config.read_numbers(settings) {
            Err(error) => return Err(error),
            Ok(_) => {},
        }
        config.ready_file = match settings.get("SIDER_READY_FILE") {
            Some(path) => Some(path.duplicate()),
            None => None,
        };
        match read_log(settings, config.shards) {
            Err(error) => return Err(error),
            Ok(aof) => config.aof = aof,
        }
        match Config::from_lookup(settings) {
            Err(error) => return Err(error),
            Ok(replication) => config.replication = replication,
        }
        Ok(config)
    }

    /// Reads and validates the options. What is not set keeps its default. The
    /// address and the numbers take no extra spaces; numbers are ASCII digits
    /// without a sign, and timeouts are in milliseconds. A path is kept as it is,
    /// Unicode or not.
    pub fn from_lookup(settings: &Settings) -> (result: Result<Self, ConfigError>)
        ensures
            match lookup_fault(*settings) {
                Some(flaw) => result matches Err(error) && settings::flaw_of(error) == flaw,
                None => exists|reach: Reach|
                    reach_suits(lookup_model(*settings), reach) && match (
                        result,
                        #[trigger] config_fault(lookup_model(*settings), reach),
                    ) {
                        (Ok(config), None) => config.model() == lookup_model(*settings),
                        (Err(error), Some(flaw)) => settings::flaw_of(error) == flaw,
                        _ => false,
                    },
            },
    {
        let config = match ServerConfig::read(settings) {
            Err(error) => return Err(error),
            Ok(config) => config,
        };
        match config.validate() {
            Err(error) => Err(error),
            Ok(_) => Ok(config),
        }
    }

    fn check_durable(&self, reach: Reach) -> (result: Result<(), ConfigError>)
        ensures
            answers(result, durable_fault(self.model(), reach)),
    {
        match &self.aof {
            None => {
                if self.replication.is_some() {
                    return limits_error("replication requires SIDER_AOF_DIR");
                }
                Ok(())
            },
            Some(aof) => {
                match aof.validate() {
                    Err(error) => return Err(error),
                    Ok(_) => {},
                }
                if aof.layout.shard_count as usize != self.shards {
                    return limits_error("quantidade de shards do AOF difere do servidor");
                }
                match &self.replication {
                    None => Ok(()),
                    Some(replication) => replication.check(aof, reach.session),
                }
            },
        }
    }

    fn check_positive(&self) -> (result: Result<(), ConfigError>)
        ensures
            answers(result, zero_fault(self.model())),
    {
        if self.transaction_max_commands == 0 {
            return limits_error("transaction_max_commands precisa ser maior que zero");
        }
        if self.transaction_max_bytes == 0 {
            return limits_error("transaction_max_bytes precisa ser maior que zero");
        }
        if self.watch_max_keys == 0 {
            return limits_error("watch_max_keys precisa ser maior que zero");
        }
        if self.pubsub_max_channels == 0 {
            return limits_error("pubsub_max_channels precisa ser maior que zero");
        }
        if self.pubsub_queue_capacity == 0 {
            return limits_error("pubsub_queue_capacity precisa ser maior que zero");
        }
        if self.max_connections == 0 {
            return limits_error("SIDER_MAX_CONNECTIONS (max_connections) precisa ser maior que zero");
        }
        if self.worker_queue_capacity == 0 {
            return limits_error("SIDER_WORKER_QUEUE_CAPACITY (worker_queue_capacity) precisa ser maior que zero");
        }
        if self.max_input_buffer_bytes == 0 {
            return limits_error("SIDER_MAX_INPUT_BUFFER_BYTES (max_input_buffer_bytes) precisa ser maior que zero");
        }
        if self.max_response_bytes == 0 {
            return limits_error("SIDER_MAX_RESPONSE_BYTES (max_response_bytes) precisa ser maior que zero");
        }
        Ok(())
    }

    fn check_sizes(&self) -> (result: Result<(), ConfigError>)
        ensures
            answers(result, size_fault(self.model())),
    {
        let most: usize = max_permits();
        if self.max_connections > most || self.worker_queue_capacity > most
            || self.pubsub_max_channels > most || self.pubsub_queue_capacity > most
            || self.transaction_max_commands > most || self.watch_max_keys > most {
            return limits_error(
                "conexões e capacidade da fila não podem exceder Semaphore::MAX_PERMITS",
            );
        }
        let bound: usize = isize::MAX as usize;
        if self.resp_limits.max_frame_bytes > bound || self.resp_limits.max_bulk_bytes > bound
            || self.resp_limits.max_line_bytes > bound || self.max_input_buffer_bytes > bound
            || self.max_response_bytes > bound || self.transaction_max_bytes > bound {
            return limits_error("limites de bytes não podem exceder isize::MAX");
        }
        if self.resp_limits.max_frame_bytes > self.max_input_buffer_bytes {
            return limits_error("max_frame_bytes não pode exceder max_input_buffer_bytes");
        }
        let bulk: usize = self.resp_limits.max_bulk_bytes;
        let digits: usize = decimal_text(bulk as u64).len();
        if digits > usize::MAX - 5 || bulk > usize::MAX - 5 - digits {
            return limits_error("framing da resposta bulk excede o tamanho representável");
        }
        if self.max_response_bytes < 128 {
            return limits_error("max_response_bytes precisa comportar ao menos 128 bytes");
        }
        if self.max_response_bytes < bulk + digits + 5 {
            return limits_error(
                "max_response_bytes precisa comportar max_bulk_bytes e seu framing",
            );
        }
        Ok(())
    }

    fn check_times(&self, reach: Reach) -> (result: Result<(), ConfigError>)
        ensures
            answers(result, time_fault(self.model(), reach)),
    {
        if self.frame_timeout == 0 || !reach.frame {
            return limits_error(
                "frame_timeout precisa ser positivo e representável por Instant",
            );
        }
        if self.request_timeout == 0 || !reach.request {
            return limits_error(
                "request_timeout precisa ser positivo e representável por Instant",
            );
        }
        if self.write_timeout == 0 || !reach.write {
            return limits_error(
                "write_timeout precisa ser positivo e representável por Instant",
            );
        }
        if self.shutdown_timeout == 0 || !reach.shutdown {
            return limits_error(
                "shutdown_timeout precisa ser positivo e representável por Instant",
            );
        }
        if let Some(path) = &self.ready_file {
            if path.is_empty() {
                return limits_error("SIDER_READY_FILE não pode ser um caminho vazio");
            }
        }
        Ok(())
    }

    /// Holds the configuration to its rules, given which timeouts the clock can
    /// count.
    pub fn check(&self, reach: Reach) -> (result: Result<(), ConfigError>)
        ensures
            answers(result, config_fault(self.model(), reach)),
    {
        match self.check_durable(reach) {
            Err(error) => return Err(error),
            Ok(_) => {},
        }
        match self.resp_limits.validate() {
            Err(error) => return Err(error),
            Ok(_) => {},
        }
        match ShardRouter::new(self.shards) {
            Err(error) => return Err(error),
            Ok(_) => {},
        }
        match (StoreConfig { max_dataset_bytes: self.max_dataset_bytes }).validate() {
            Err(error) => return Err(error),
            Ok(_) => {},
        }
        if self.max_dataset_bytes < self.shards {
            return limits_error("a quota total precisa reservar ao menos um byte por shard");
        }
        match self.check_positive() {
            Err(error) => return Err(error),
            Ok(_) => {},
        }
        match self.check_sizes() {
            Err(error) => return Err(error),
            Ok(_) => {},
        }
        self.check_times(reach)
    }

    /// The timeouts that the clock has to count: those of connections, then those
    /// of replication where it is on.
    pub fn spans(&self) -> (spans: Vec<u128>)
        ensures
            spans@ == spans_of(self.model()),
    {
        let mut spans: Vec<u128> = Vec::new();
        spans.push(self.frame_timeout);
        spans.push(self.request_timeout);
        spans.push(self.write_timeout);
        spans.push(self.shutdown_timeout);
        if let Some(replication) = &self.replication {
            let mut more = replication.spans();
            spans.append(&mut more);
        }
        assert(spans@ =~= spans_of(self.model()));
        spans
    }

    /// The answers of the clock, each for its timeout.
    pub fn reach_from(&self, answers: &Vec<bool>) -> (result: Reach)
        requires
            answers@.len() == spans_of(self.model()).len(),
        ensures
            result == reach_of(self.model(), answers@),
    {
        let session = match &self.replication {
            Some(_) => SessionReach {
                frame: answers[4],
                sync: answers[5],
                reconnect_min: answers[6],
                reconnect_max: answers[7],
            },
            None => SessionReach {
                frame: true,
                sync: true,
                reconnect_min: true,
                reconnect_max: true,
            },
        };
        Reach {
            frame: answers[0],
            request: answers[1],
            write: answers[2],
            shutdown: answers[3],
            session,
        }
    }

    /// Which of the timeouts the clock of this machine can count.
    pub fn reach(&self) -> (result: Reach)
        ensures
            reach_suits(self.model(), result),
    {
        let answers = reachable_all(&self.spans());
        let result = self.reach_from(&answers);
        assert(reach_suits(self.model(), result)) by {
            assert(clock::answerable_all(spans_of(self.model()), answers@));
        }
        result
    }

    /// Refuses limits of zero, incoherent relations and values that the machine
    /// cannot hold. A reply has to hold short internal messages and the longest
    /// bulk with its framing; the limit of input lines does not bind output.
    pub fn validate(&self) -> (result: Result<(), ConfigError>)
        ensures
            exists|reach: Reach|
                reach_suits(self.model(), reach) && answers(
                    result,
                    #[trigger] config_fault(self.model(), reach),
                ),
    {
        let reach = self.reach();
        self.check(reach)
    }
}

/// A configuration that is accepted leaves every limit room for something, gives each shard a
/// share, and counts times that are positive and within reach. A frame that is allowed fits the
/// input buffer.
pub proof fn law_accepted_configurations_are_workable(config: ServerModel, reach: Reach)
    requires
        config_fault(config, reach) is None,
    ensures
        1 <= config.shards <= 256,
        config.max_dataset_bytes >= config.shards,
        config.max_connections > 0,
        config.worker_queue_capacity > 0,
        config.pubsub_max_channels > 0,
        config.pubsub_queue_capacity > 0,
        config.transaction_max_commands > 0,
        config.transaction_max_bytes > 0,
        config.watch_max_keys > 0,
        config.resp_limits.max_frame_bytes <= config.max_input_buffer_bytes,
        config.max_response_bytes >= 128,
        config.frame_timeout > 0 && reach.frame,
        config.request_timeout > 0 && reach.request,
        config.write_timeout > 0 && reach.write,
        config.shutdown_timeout > 0 && reach.shutdown,
        limits::limits_fault(config.resp_limits) is None,
        config.replication is Some ==> config.aof is Some,
        config.aof matches Some(aof) ==> aof.layout.shard_count == config.shards,
{
}

/// Under an accepted configuration every value that a client may send can be sent back.
pub proof fn law_values_can_be_answered(config: ServerModel, reach: Reach, data: Seq<u8>)
    requires
        config_fault(config, reach) is None,
        data.len() <= config.resp_limits.max_bulk_bytes,
    ensures
        crate::resp::frame::encoding(
            crate::resp::frame::FrameModel::Bulk(Some(data)),
        ).len() <= config.max_response_bytes,
{
    let frame = crate::resp::frame::FrameModel::Bulk(Some(data));
    reveal_with_fuel(crate::resp::frame::wire, 2);
    let nodes = crate::resp::frame::preorder(frame);
    assert(nodes.drop_last() =~= Seq::empty());
    numbers::lemma_decimal_grows(data.len(), config.resp_limits.max_bulk_bytes as nat);
}

} // verus!
