//! Core of an in-memory key/value server: the RESP2 codec, the commands, the
//! store, the append-only log records and the replication protocol.

pub mod buffer;
pub mod clock;
pub mod codec;
pub mod command;
pub mod config;
pub mod connection;
pub mod error;
pub mod metrics;
pub mod metrics_laws;
pub mod numbers;
pub mod ordered;
pub mod persistence;
pub mod pubsub;
pub mod pubsub_laws;
pub mod readiness;
pub mod replication;
pub mod resp;
pub mod server;
pub mod settings;
pub mod storage;

pub use error::ConfigError;
