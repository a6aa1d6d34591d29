//! Binary log of resolved batches with a single owner of writing.

pub mod backup;
pub mod canonical;
pub mod config;
pub mod diagnostics;
pub mod format;
pub mod generations;
pub mod laws;
pub mod layout;
pub mod migration;
pub mod options;
pub mod record;
pub mod recovery;
pub mod replay_laws;
pub mod role;
pub mod usage;
pub mod writer;

pub use diagnostics::AofDiagnostics;
pub use config::{AofConfig, AofError, SyncPolicy};
pub use layout::{DurableLayout, ROUTING_VERSION};
pub use recovery::{recover_log, Recovered, RecoveryMetadata};
pub use role::{ReplicationMetadata, Role};
