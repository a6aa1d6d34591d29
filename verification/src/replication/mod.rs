//! Replication from a primary to its replicas.

pub mod admin;
pub mod canonical;
pub mod config;
pub mod cursor;
pub mod epoch;
pub mod error;
pub mod journal;
pub mod laws;
pub mod protocol;
pub mod session;
pub mod state;
pub mod sync_laws;

pub use cursor::Cursor;
pub use epoch::new_epoch;
pub use error::Error;
