//! Typed commands and parsing without access to storage.

pub mod arguments;
pub mod hexadecimal;
pub mod info;
pub mod laws;
pub mod names;
pub mod parser;
pub mod reply;
pub mod reply_laws;
pub mod score;
pub mod types;
pub mod verb;

pub use info::InfoSections;
pub use parser::{parse, score_texts, RequestError};
pub use reply::{ExecutionError, Reply};
pub use score::Score;
pub use types::{
    Command, ExpiryUnit, HashCommand, ListCommand, SetCommand, SetCondition, SetExpiry, SetOptions,
    SortedSetCommand,
};
