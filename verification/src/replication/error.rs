//! What can go wrong with replication.

use super::journal;
use super::protocol;
use crate::error::ConfigError;
use crate::persistence::config::AofError;
use crate::storage::mutation::ReplayError;
use crate::storage::snapshot::SnapshotError;
use crate::storage::worker::DbError;
use vstd::prelude::*;

verus! {

#[derive(Debug)]
pub enum Error {
    /// Input or output failed; the cause stays with who performed it.
    Io,
    Protocol(protocol::Error),
    Persistence(AofError),
    Database(DbError),
    Snapshot(SnapshotError),
    Replay(ReplayError),
    Config(ConfigError),
    Journal(journal::Error),
    /// A task ended unexpectedly.
    Task,
    /// The session was replaced by a later one.
    Stale,
    /// A position or an order is not the expected one.
    Sequence,
    Limit,
}

/// Whether a follower stops instead of connecting again: its own data or its own
/// log are gone.
pub fn stops_following(error: &Error) -> (result: bool)
    ensures
        result == (*error == Error::Database(DbError::Unavailable) || *error == Error::Persistence(
            AofError::Unavailable,
        )),
{
    match error {
        Error::Database(DbError::Unavailable) => true,
        Error::Persistence(AofError::Unavailable) => true,
        _ => false,
    }
}

} // verus!
