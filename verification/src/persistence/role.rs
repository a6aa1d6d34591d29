//! Role and epoch published with the log generation, without an independent
//! sidecar.

use vstd::prelude::*;

verus! {

#[derive(Clone, Copy, Debug, PartialEq, Eq, Structural)]
pub enum Role {
    Primary,
    Replica,
}

#[derive(Clone, Copy, Debug, PartialEq, Eq)]
pub struct ReplicationMetadata {
    pub role: Role,
    /// On a replica, identifies the upstream whose prefix is in this log.
    /// Zero is reserved for a replica that has not yet installed a snapshot.
    pub epoch: [u8; 16],
}

} // verus!
