//! Budget for one frame; it is not the dataset quota or process RSS.

use crate::error::ConfigError;
use vstd::prelude::*;

verus! {

/// Limits that each frame has to keep.
#[derive(Clone, Copy, Debug, PartialEq, Eq, Structural)]
pub struct RespLimits {
    /// Bytes of the whole frame, framing included.
    pub max_frame_bytes: usize,
    /// Bytes of one bulk payload.
    pub max_bulk_bytes: usize,
    /// Bytes of one line, prefix and CRLF included.
    pub max_line_bytes: usize,
    /// Nodes of the frame, arrays included.
    pub max_nodes: usize,
    /// Arrays nested in one another.
    pub max_depth: usize,
}

impl Default for RespLimits {
    fn default() -> (result: Self)
        ensures
            result == (RespLimits {
                max_frame_bytes: 4194304,
                max_bulk_bytes: 1048576,
                max_line_bytes: 1024,
                max_nodes: 1024,
                max_depth: 16,
            }),
    {
        RespLimits {
            max_frame_bytes: 4 * 1024 * 1024,
            max_bulk_bytes: 1024 * 1024,
            max_line_bytes: 1024,
            max_nodes: 1024,
            max_depth: 16,
        }
    }
}

/// The constraint that a set of limits violates first, if any.
pub open spec fn limits_fault(limits: RespLimits) -> Option<&'static str> {
    if limits.max_frame_bytes == 0 || limits.max_bulk_bytes == 0 || limits.max_line_bytes == 0
        || limits.max_nodes == 0 || limits.max_depth == 0 {
        Some("all limits must be greater than zero")
    } else if limits.max_bulk_bytes > limits.max_frame_bytes {
        Some("max_bulk_bytes cannot exceed max_frame_bytes")
    } else if limits.max_line_bytes > limits.max_frame_bytes {
        Some("max_line_bytes cannot exceed max_frame_bytes")
    } else if limits.max_depth > 128 {
        Some("max_depth cannot exceed 128")
    } else {
        None
    }
}

impl RespLimits {
    /// Refuses limits that no codec can honour.
    pub fn validate(self) -> (result: Result<(), ConfigError>)
        ensures
            match limits_fault(self) {
                None => result == Ok::<(), ConfigError>(()),
                Some(reason) => result == Err::<(), ConfigError>(
                    ConfigError::InvalidRespLimits { reason },
                ),
            },
    {
        if self.max_frame_bytes == 0 || self.max_bulk_bytes == 0 || self.max_line_bytes == 0
            || self.max_nodes == 0 || self.max_depth == 0 {
            Err(ConfigError::InvalidRespLimits { reason: "all limits must be greater than zero" })
        } else if self.max_bulk_bytes > self.max_frame_bytes {
            Err(
                ConfigError::InvalidRespLimits {
                    reason: "max_bulk_bytes cannot exceed max_frame_bytes",
                },
            )
        } else if self.max_line_bytes > self.max_frame_bytes {
            Err(
                ConfigError::InvalidRespLimits {
                    reason: "max_line_bytes cannot exceed max_frame_bytes",
                },
            )
        } else if self.max_depth > 128 {
            Err(ConfigError::InvalidRespLimits { reason: "max_depth cannot exceed 128" })
        } else {
            Ok(())
        }
    }
}

} // verus!
