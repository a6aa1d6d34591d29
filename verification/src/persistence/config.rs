//! Configuration of the log, and what can go wrong with it.

use super::format::{FormatError, Limits, MAX_RECORD_BYTES};
use super::layout::{DurableLayout, ROUTING_VERSION};
use crate::error::ConfigError;
use crate::storage::mutation::ReplayError;
use crate::persistence::layout;
use crate::settings;
use crate::settings::{NativeModel, NativeText};
use vstd::prelude::*;

verus! {

#[derive(Clone, Copy, Debug, PartialEq, Eq, Structural)]
pub enum SyncPolicy {
    /// The reply waits until the batch is on disk.
    Always,
    /// The reply confirms the write; the window is this period in
    /// milliseconds, with delays of input and output and of scheduling.
    Periodic(u64),
}

#[derive(Clone, Debug, PartialEq, Eq)]
pub struct AofConfig {
    pub directory: NativeText,
    pub layout: DurableLayout,
    pub sync: SyncPolicy,
    pub queue_capacity: usize,
    pub limits: Limits,
    /// Zero turns automatic compaction off; it can still be asked for.
    pub compact_after_bytes: u64,
    pub max_delta_bytes: usize,
}

/// The configuration of a log by content.
#[verifier::ext_equal]
pub struct AofModel {
    pub directory: NativeModel,
    pub layout: DurableLayout,
    pub sync: SyncPolicy,
    pub queue_capacity: usize,
    pub limits: Limits,
    pub compact_after_bytes: u64,
    pub max_delta_bytes: usize,
}

/// `tokio::sync::Semaphore::MAX_PERMITS`: the greatest capacity of a channel,
/// `usize::MAX >> 3`.
#[verifier::external_body]
pub(crate) fn max_permits() -> (result: usize)
    ensures
        result == usize::MAX / 8,
{
    tokio::sync::Semaphore::MAX_PERMITS
}

/// What is wrong with the configuration of a log.
pub open spec fn aof_fault(config: AofModel) -> Option<&'static str> {
    if layout::layout_fault(config.layout) is Some {
        layout::layout_fault(config.layout)
    } else if settings::nothing(config.directory) {
        Some("SIDER_AOF_DIR não pode ser vazio")
    } else if config.queue_capacity == 0 || config.queue_capacity > usize::MAX / 8 {
        Some("fila AOF precisa ter capacidade válida")
    } else if config.limits.max_record_bytes < 64 || config.limits.max_record_bytes
        > MAX_RECORD_BYTES || config.limits.max_mutations == 0 || config.limits.max_mutations
        > 1_000_000 || config.max_delta_bytes == 0 || config.max_delta_bytes > isize::MAX {
        Some("limites AOF inválidos")
    } else if config.sync matches SyncPolicy::Periodic(period) && (period == 0 || period > 60_000) {
        Some("período de sync AOF precisa estar entre 1 ms e 60 s")
    } else {
        None
    }
}

impl AofConfig {
    pub open spec fn model(&self) -> AofModel {
        AofModel {
            directory: self.directory.model(),
            layout: self.layout,
            sync: self.sync,
            queue_capacity: self.queue_capacity,
            limits: self.limits,
            compact_after_bytes: self.compact_after_bytes,
            max_delta_bytes: self.max_delta_bytes,
        }
    }

    pub fn new(directory: NativeText) -> (result: Self)
        ensures
            result.directory == directory,
            result.layout == (DurableLayout { shard_count: 1, routing_version: ROUTING_VERSION }),
            result.sync == SyncPolicy::Always,
            result.queue_capacity == 32,
            result.limits == (Limits { max_record_bytes: 8388608, max_mutations: 100000 }),
            result.compact_after_bytes == 67108864,
            result.max_delta_bytes == 16777216,
    {
        AofConfig {
            directory,
            layout: DurableLayout::default(),
            sync: SyncPolicy::Always,
            queue_capacity: 32,
            limits: Limits::default(),
            compact_after_bytes: 64 * 1024 * 1024,
            max_delta_bytes: 16 * 1024 * 1024,
        }
    }

    pub fn validate(&self) -> (result: Result<(), ConfigError>)
        ensures
            result == match aof_fault(self.model()) {
                None => Ok::<(), ConfigError>(()),
                Some(reason) => Err(ConfigError::InvalidServerLimits { reason }),
            },
    {
        match self.layout.validate() {
            Err(error) => return Err(error),
            Ok(_) => {},
        }
        if self.directory.is_empty() {
            return Err(
                ConfigError::InvalidServerLimits { reason: "SIDER_AOF_DIR não pode ser vazio" },
            );
        }
        if self.queue_capacity == 0 || self.queue_capacity > max_permits() {
            return Err(
                ConfigError::InvalidServerLimits {
                    reason: "fila AOF precisa ter capacidade válida",
                },
            );
        }
        if self.limits.max_record_bytes < 64 || self.limits.max_record_bytes > MAX_RECORD_BYTES
            || self.limits.max_mutations == 0 || self.limits.max_mutations > 1_000_000
            || self.max_delta_bytes == 0 || self.max_delta_bytes > isize::MAX as usize {
            return Err(ConfigError::InvalidServerLimits { reason: "limites AOF inválidos" });
        }
        if let SyncPolicy::Periodic(period) = self.sync {
            if period == 0 || period > 60_000 {
                return Err(
                    ConfigError::InvalidServerLimits {
                        reason: "período de sync AOF precisa estar entre 1 ms e 60 s",
                    },
                );
            }
        }
        Ok(())
    }
}

#[derive(Debug)]
pub enum AofError {
    Config(ConfigError),
    /// Input or output failed; the cause stays with who performed it.
    Io,
    Format(FormatError),
    Replay(ReplayError),
    /// Another process has the log open.
    Locked,
    /// The writer is not available.
    Unavailable,
    /// A sequence or a snapshot is invalid.
    Sequence,
    /// A compaction is already going on.
    Compacting,
    /// The delta of a compaction exceeded its limit; the former log is kept.
    DeltaLimit,
    /// The layout on disk differs; an offline migration is needed.
    LayoutMismatch { expected: DurableLayout, actual: DurableLayout },
    /// A batch crosses shards.
    CrossShard,
    /// A shard uses more than its share.
    ShardQuota { shard: usize, used: usize, quota: usize },
    /// An offline migration is refused.
    Migration(&'static str),
}

} // verus!
