//! What a backup may take, and what can go wrong with one.

use crate::clock::reachable;
use crate::clock;
use crate::error::ConfigError;
use crate::persistence::config::AofError;
use crate::persistence::format::{FormatError, Limits as RecordLimits, MAX_RECORD_BYTES};
use crate::persistence::usage::UsageError;
use crate::replication::protocol::{Error as TransportError, Limits as TransportLimits};
use vstd::prelude::*;

verus! {

pub const MAX_BACKUP_BYTES: u64 = 2147483648;

pub const SNAPSHOT: &'static str = "snapshot.aof";

pub const MANIFEST: &'static str = "backup.json";

pub const CHECKSUMS: &'static str = "SHA256SUMS";

#[derive(Debug)]
pub enum Error {
    Invalid(&'static str),
    /// Input or output failed; the cause stays with who performed it.
    Io,
    Format(FormatError),
    Transport(TransportError),
    /// The manifest is no JSON text.
    Manifest,
    Persistence(AofError),
    Configuration(ConfigError),
    /// The time for the whole transfer is over.
    Timeout,
}

#[derive(Clone, Copy, Debug, PartialEq, Eq, Structural)]
pub struct Limits {
    pub max_record_bytes: usize,
    pub max_mutations: usize,
    pub max_snapshot_bytes: u64,
    pub max_dataset_bytes: usize,
    /// Nanoseconds for the whole transfer, with the connection, the headers and
    /// the end of the stream.
    pub timeout: u128,
}

impl Default for Limits {
    fn default() -> (result: Self)
        ensures
            result == (Limits {
                max_record_bytes: MAX_RECORD_BYTES,
                max_mutations: 100_000,
                max_snapshot_bytes: 268435456,
                max_dataset_bytes: 67108864,
                timeout: 120_000_000_000,
            }),
    {
        Limits {
            max_record_bytes: MAX_RECORD_BYTES,
            max_mutations: 100_000,
            max_snapshot_bytes: 256 * 1024 * 1024,
            max_dataset_bytes: 64 * 1024 * 1024,
            timeout: 120_000_000_000,
        }
    }
}

impl Limits {
    /// Whether the limits hold, on a clock that can count the time or not.
    pub open spec fn is_valid(self, counted: bool) -> bool {
        &&& 64 <= self.max_record_bytes <= MAX_RECORD_BYTES
        &&& 1 <= self.max_mutations <= 100_000
        &&& 128 <= self.max_snapshot_bytes <= MAX_BACKUP_BYTES
        &&& 1 <= self.max_dataset_bytes <= isize::MAX
        &&& self.timeout > 0
        &&& counted
    }

    /// The limits of records.
    pub open spec fn records(self) -> RecordLimits {
        RecordLimits {
            max_record_bytes: self.max_record_bytes,
            max_mutations: self.max_mutations,
        }
    }

    /// The limits of frames: a record with room for the rest.
    pub open spec fn frames(self) -> TransportLimits {
        TransportLimits {
            max_frame_bytes: (self.max_record_bytes + 128) as usize,
            record: self.records(),
        }
    }

    /// Checks the limits where it is known whether the clock counts the time.
    pub fn check(self, counted: bool) -> (result: Result<(), Error>)
        ensures
            result == if self.is_valid(counted) {
                Ok::<(), Error>(())
            } else {
                Err(Error::Invalid("backup limits"))
            },
    {
        if self.max_record_bytes < 64 || self.max_record_bytes > MAX_RECORD_BYTES
            || self.max_mutations == 0 || self.max_mutations > 100_000 || self.max_snapshot_bytes
            < 128 || self.max_snapshot_bytes > MAX_BACKUP_BYTES || self.max_dataset_bytes == 0
            || self.max_dataset_bytes > isize::MAX as usize || self.timeout == 0 || !counted {
            return Err(Error::Invalid("backup limits"));
        }
        Ok(())
    }

    /// Whether the clock of the machine counts the time.
    pub fn counted(self) -> (result: bool)
        ensures
            clock::answerable(self.timeout, result),
    {
        reachable(self.timeout)
    }

    /// Checks the limits on this machine.
    pub fn validate(self) -> (result: Result<(), Error>)
        ensures
            exists|counted: bool|
                clock::answerable(self.timeout, counted) && result == if #[trigger] self.is_valid(
                    counted,
                ) {
                    Ok::<(), Error>(())
                } else {
                    Err(Error::Invalid("backup limits"))
                },
    {
        let counted = self.counted();
        self.check(counted)
    }

    pub fn record(self) -> (result: RecordLimits)
        ensures
            result == self.records(),
    {
        RecordLimits {
            max_record_bytes: self.max_record_bytes,
            max_mutations: self.max_mutations,
        }
    }

    pub fn transport(self) -> (result: TransportLimits)
        requires
            self.max_record_bytes <= MAX_RECORD_BYTES,
        ensures
            result == self.frames(),
    {
        TransportLimits {
            max_frame_bytes: self.max_record_bytes + 128,
            record: self.record(),
        }
    }
}

/// What an error of counting means for a backup.
pub open spec fn usage_failure(error: UsageError) -> Error {
    match error {
        UsageError::Replay(error) => Error::Persistence(AofError::Replay(error)),
        UsageError::Overflow => Error::Invalid("overflow da quota"),
        UsageError::Quota { .. } => Error::Invalid("snapshot excede quota de um shard"),
        UsageError::Config(error) => Error::Configuration(error),
    }
}

pub fn usage_error(error: UsageError) -> (result: Error)
    ensures
        result == usage_failure(error),
{
    match error {
        UsageError::Replay(error) => Error::Persistence(AofError::Replay(error)),
        UsageError::Overflow => Error::Invalid("overflow da quota"),
        UsageError::Quota { .. } => Error::Invalid("snapshot excede quota de um shard"),
        UsageError::Config(error) => Error::Configuration(error),
    }
}

} // verus!
