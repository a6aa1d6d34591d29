//! One request in flight for each connection, with bounded input and output.

pub mod exec;
pub mod laws;
pub mod request;
pub mod transaction;
