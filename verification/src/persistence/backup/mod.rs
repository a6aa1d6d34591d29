//! Backups through a consistent export, and restoring them without writing over
//! data that is there.

pub mod archive;
pub mod cli;
pub mod client;
pub mod digest;
pub mod json;
pub mod laws;
pub mod limits;
pub mod manifest;

pub use archive::{verify, VerifiedBackup};
pub use cli::RestoreOptions;
pub use client::ExportOptions;
pub use limits::{Error, Limits, CHECKSUMS, MANIFEST, MAX_BACKUP_BYTES, SNAPSHOT};
pub use manifest::Manifest;
