//! Operational state of the writer, of fixed size, without paths or content.

use super::config::AofError;
use super::format::FormatError;
use vstd::prelude::*;

verus! {

/// What is observed of the writer; sequences come from what it recorded.
#[derive(Clone, Copy, Debug, PartialEq, Eq)]
pub struct AofDiagnostics {
    pub running: bool,
    pub failed: bool,
    pub written_sequence: u64,
    pub synced_sequence: u64,
    pub generation: u64,
    pub bytes_since_compaction: u64,
    pub dirty: bool,
    pub compacting: bool,
    pub queue_depth: usize,
    pub queue_capacity: usize,
    pub records_written_total: u64,
    pub syncs_total: u64,
    pub fatal_failures_total: u64,
    pub record_rejections_total: u64,
    pub compactions_total: u64,
    pub compaction_failures_total: u64,
    pub last_error: Option<&'static str>,
}

impl Default for AofDiagnostics {
    fn default() -> (result: Self)
        ensures
            result == (AofDiagnostics {
                running: false,
                failed: false,
                written_sequence: 0,
                synced_sequence: 0,
                generation: 0,
                bytes_since_compaction: 0,
                dirty: false,
                compacting: false,
                queue_depth: 0,
                queue_capacity: 0,
                records_written_total: 0,
                syncs_total: 0,
                fatal_failures_total: 0,
                record_rejections_total: 0,
                compactions_total: 0,
                compaction_failures_total: 0,
                last_error: None,
            }),
    {
        AofDiagnostics {
            running: false,
            failed: false,
            written_sequence: 0,
            synced_sequence: 0,
            generation: 0,
            bytes_since_compaction: 0,
            dirty: false,
            compacting: false,
            queue_depth: 0,
            queue_capacity: 0,
            records_written_total: 0,
            syncs_total: 0,
            fatal_failures_total: 0,
            record_rejections_total: 0,
            compactions_total: 0,
            compaction_failures_total: 0,
            last_error: None,
        }
    }
}

/// The kind of an error, in one word.
pub open spec fn category_of(error: AofError) -> &'static str {
    match error {
        AofError::Io => "io",
        AofError::Format(format) => if format is Limit {
            "record_limit"
        } else {
            "format"
        },
        AofError::Config(_) => "configuration",
        AofError::Replay(_) => "replay",
        AofError::Locked => "directory_locked",
        AofError::Unavailable => "unavailable",
        AofError::Sequence => "sequence",
        AofError::Compacting => "compaction_busy",
        AofError::DeltaLimit => "compaction_delta_limit",
        AofError::LayoutMismatch { .. } => "layout_mismatch",
        AofError::CrossShard => "cross_shard",
        AofError::ShardQuota { .. } => "shard_quota",
        AofError::Migration(_) => "migration",
    }
}

pub fn category(error: &AofError) -> (result: &'static str)
    ensures
        result == category_of(*error),
{
    match error {
        AofError::Io => "io",
        AofError::Format(FormatError::Limit) => "record_limit",
        AofError::Format(_) => "format",
        AofError::Config(_) => "configuration",
        AofError::Replay(_) => "replay",
        AofError::Locked => "directory_locked",
        AofError::Unavailable => "unavailable",
        AofError::Sequence => "sequence",
        AofError::Compacting => "compaction_busy",
        AofError::DeltaLimit => "compaction_delta_limit",
        AofError::LayoutMismatch { .. } => "layout_mismatch",
        AofError::CrossShard => "cross_shard",
        AofError::ShardQuota { .. } => "shard_quota",
        AofError::Migration(_) => "migration",
    }
}

/// The state once the writer has ended. The error that stopped it is kept; that
/// the writer is gone says less than an error seen before.
pub open spec fn ended(state: AofDiagnostics, error: Option<AofError>) -> AofDiagnostics {
    match error {
        None => AofDiagnostics { running: false, ..state },
        Some(error) => AofDiagnostics {
            running: false,
            failed: true,
            fatal_failures_total: if state.fatal_failures_total == u64::MAX {
                u64::MAX
            } else {
                (state.fatal_failures_total + 1) as u64
            },
            last_error: if !(error is Unavailable) || state.last_error is None {
                Some(category_of(error))
            } else {
                state.last_error
            },
            ..state
        },
    }
}

/// What was the matter last.
pub open spec fn troubled(state: AofDiagnostics, error: AofError) -> AofDiagnostics {
    AofDiagnostics { last_error: Some(category_of(error)), ..state }
}

impl AofDiagnostics {
    pub fn error(&mut self, error: &AofError)
        ensures
            *final(self) == troubled(*old(self), *error),
    {
        self.last_error = Some(category(error));
    }

    pub fn stopped(&mut self, error: Option<&AofError>)
        ensures
            *final(self) == ended(
                *old(self),
                match error {
                    Some(error) => Some(*error),
                    None => None,
                },
            ),
    {
        self.running = false;
        if let Some(error) = error {
            self.failed = true;
            if self.fatal_failures_total < u64::MAX {
                self.fatal_failures_total = self.fatal_failures_total + 1;
            }
            let gone = match error {
                AofError::Unavailable => true,
                _ => false,
            };
            if !gone || self.last_error.is_none() {
                self.last_error = Some(category(error));
            }
        }
    }
}

} // verus!
