//! Framing errors do not carry client keys or values.

use crate::error::ConfigError;
use vstd::prelude::*;

verus! {

/// Terminal failure of one decoding session.
#[derive(Clone, Debug, PartialEq, Eq)]
pub enum ProtocolError {
    /// The bytes are not RESP2.
    Malformed(&'static str),
    /// The frame is, or would have to become, larger than a limit allows.
    LimitExceeded(&'static str),
    /// The buffer shrank while a frame was incomplete.
    BufferChanged,
    /// An earlier error already ended the session.
    Poisoned,
}

/// Refusal to write a frame.
#[derive(Debug)]
pub enum EncodeError {
    /// The frame has no RESP2 form.
    InvalidFrame(&'static str),
    /// The frame is larger than a limit allows.
    LimitExceeded(&'static str),
    /// The limits themselves are unusable.
    InvalidLimits(ConfigError),
}

} // verus!
