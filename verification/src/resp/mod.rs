//! Incremental RESP2 codec without network, command, or storage dependencies.
//!
//! Incomplete frames retain the buffer. After a protocol error, discard the
//! decoder and close the connection: no resynchronization is attempted.

pub mod decoder;
pub mod encoder;
pub mod error;
pub mod frame;
pub mod laws;
pub mod limits;

pub use decoder::Decoder;
pub use encoder::encode;
pub use error::{EncodeError, ProtocolError};
pub use frame::Frame;
pub use limits::RespLimits;
