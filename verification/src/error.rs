//! Configuration errors that may be reported during initialization.

use vstd::prelude::*;

verus! {

/// Failure to interpret a configuration variable or a set of limits.
#[derive(Debug)]
pub enum ConfigError {
    /// Inconsistent network limits, channels, or timeouts.
    InvalidServerLimits {
        /// Violated constraint, without request data.
        reason: &'static str,
    },
    /// A textual option contains data that is not UTF-8.
    NonUnicodeValue {
        /// Configuration variable name.
        name: &'static str,
    },
    /// A limit or timeout is not a representable decimal integer.
    InvalidInteger {
        /// Configuration variable name.
        name: &'static str,
        /// Received value, preserved for diagnostics.
        value: String,
    },
    /// Invalid limits are rejected before creating the codec.
    InvalidRespLimits {
        /// Violated configuration constraint, without client content.
        reason: &'static str,
    },
    /// The address contains text that cannot be represented as UTF-8.
    NonUnicodeAddress,
    /// The address does not contain a literal IP address and valid port.
    InvalidAddress {
        /// Received value, preserved for diagnostics.
        value: String,
    },
}

impl ConfigError {
    /// The rule or the variable that an error is about. The value of a variable
    /// may be sensitive and is left out.
    pub fn reason(&self) -> (result: &'static str)
        ensures
            result == match *self {
                ConfigError::InvalidServerLimits { reason } => reason,
                ConfigError::InvalidRespLimits { reason } => reason,
                ConfigError::InvalidInteger { name, .. } => name,
                ConfigError::NonUnicodeValue { name } => name,
                ConfigError::InvalidAddress { .. } => "SIDER_ADDR",
                ConfigError::NonUnicodeAddress => "SIDER_ADDR",
            },
    {
        match self {
            ConfigError::InvalidServerLimits { reason } => *reason,
            ConfigError::InvalidRespLimits { reason } => *reason,
            ConfigError::InvalidInteger { name, .. } => *name,
            ConfigError::NonUnicodeValue { name } => *name,
            ConfigError::InvalidAddress { .. } => "SIDER_ADDR",
            ConfigError::NonUnicodeAddress => "SIDER_ADDR",
        }
    }
}

} // verus!
