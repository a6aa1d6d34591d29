//! Synchronous storage of binary keys and values, without access to the protocol.

pub mod accounting;
pub mod batch_laws;
pub mod changes;
pub mod equality;
pub mod execution;
pub mod collections;
pub mod expiry_laws;
pub mod hash_laws;
pub mod laws;
pub mod model;
pub mod mset_laws;
pub mod mutation;
pub mod quota_laws;
pub mod replica;
pub mod routing;
pub mod snapshot;
pub mod sorted_set_laws;
pub mod store;
pub mod string_laws;
pub mod transaction;
pub mod value;
pub mod watch;
pub mod watch_laws;
pub mod worker;

pub use model::Moment;
pub use mutation::{Mutation, MutationOrigin, Prepared, ReplayError, ResolvedBatch};
pub use routing::ShardRouter;
pub use store::{Store, StoreConfig};
pub use value::Value;
pub use watch::WatchToken;
