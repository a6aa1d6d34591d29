//! Limits for the internal listener and the single upstream session.

use super::protocol::HEADER_BYTES;
use crate::clock::reachable_all;
use crate::clock;
use crate::error::ConfigError;
use crate::persistence::config::{max_permits, AofConfig, AofModel};
use crate::settings::{Address, Flaw, Ip, NativeModel, NativeText, Settings};
use crate::settings;
use vstd::prelude::*;
use vstd::string::*;

verus! {

/// Spans are in nanoseconds.
#[derive(Clone, Debug, PartialEq, Eq)]
pub struct Config {
    pub listen: Address,
    pub upstream: Option<Address>,
    pub ready_file: Option<NativeText>,
    pub backlog_bytes: usize,
    pub backlog_batches: usize,
    pub max_connections: usize,
    pub frame_timeout: u128,
    pub sync_timeout: u128,
    pub reconnect_min: u128,
    pub reconnect_max: u128,
}

/// The configuration by content.
#[verifier::ext_equal]
pub struct ConfigModel {
    pub listen: Address,
    pub upstream: Option<Address>,
    pub ready_file: Option<NativeModel>,
    pub backlog_bytes: usize,
    pub backlog_batches: usize,
    pub max_connections: usize,
    pub frame_timeout: u128,
    pub sync_timeout: u128,
    pub reconnect_min: u128,
    pub reconnect_max: u128,
}

/// Which of the timeouts the clock can count.
#[derive(Clone, Copy, Debug, PartialEq, Eq, Structural)]
pub struct Reach {
    pub frame: bool,
    pub sync: bool,
    pub reconnect_min: bool,
    pub reconnect_max: bool,
}

impl Reach {
    /// What the clock answered, in the order of the timeouts.
    pub open spec fn answers(self) -> Seq<bool> {
        seq![self.frame, self.sync, self.reconnect_min, self.reconnect_max]
    }

    /// The answers of the clock, each for its timeout.
    pub fn from_answers(answers: &Vec<bool>) -> (result: Self)
        requires
            answers@.len() == 4,
        ensures
            result.answers() == answers@,
    {
        let result = Reach {
            frame: answers[0],
            sync: answers[1],
            reconnect_min: answers[2],
            reconnect_max: answers[3],
        };
        assert(result.answers() =~= answers@);
        result
    }
}

/// The timeouts that the clock has to count, in their order.
pub open spec fn spans_of(config: ConfigModel) -> Seq<u128> {
    seq![config.frame_timeout, config.sync_timeout, config.reconnect_min, config.reconnect_max]
}

pub open spec fn default_config() -> ConfigModel {
    ConfigModel {
        listen: Address { ip: Ip::V4(127, 0, 0, 1), port: 0 },
        upstream: None,
        ready_file: None,
        backlog_bytes: 134217728,
        backlog_batches: 4096,
        max_connections: 4,
        frame_timeout: 5_000_000_000,
        sync_timeout: 30_000_000_000,
        reconnect_min: 100_000_000,
        reconnect_max: 5_000_000_000,
    }
}

/// A path by content.
pub open spec fn path_model(path: Option<NativeText>) -> Option<NativeModel> {
    match path {
        Some(path) => Some(path.model()),
        None => None,
    }
}

/// What is wrong with an option that holds an address.
pub open spec fn address_fault(settings: Settings, name: &'static str) -> Option<Flaw> {
    match settings::value_of(settings, name) {
        None => None,
        Some(NativeModel::Raw(_)) => Some(Flaw::NotText(name)),
        Some(NativeModel::Text(_)) => match settings::address_of(settings, name) {
            Some(_) => None,
            None => Some(
                Flaw::Limits("replication address requires a literal IP address and port"),
            ),
        },
    }
}

/// The address of an option that is set.
pub open spec fn address_set(settings: Settings, name: &'static str) -> Option<Address> {
    if settings::value_of(settings, name) is None {
        None
    } else {
        settings::address_of(settings, name)
    }
}

/// Whether replication is asked for.
pub open spec fn wanted(settings: Settings) -> bool {
    settings::value_of(settings, "SIDER_REPLICATION_ADDR") is Some || settings::value_of(
        settings,
        "SIDER_REPLICA_OF",
    ) is Some
}

/// The first option that cannot be read.
pub open spec fn lookup_fault(settings: Settings) -> Option<Flaw> {
    let size = usize::MAX as nat;
    let span = u64::MAX as nat;
    if address_fault(settings, "SIDER_REPLICATION_ADDR") is Some {
        address_fault(settings, "SIDER_REPLICATION_ADDR")
    } else if address_fault(settings, "SIDER_REPLICA_OF") is Some {
        address_fault(settings, "SIDER_REPLICA_OF")
    } else if settings::number_fault(settings, "SIDER_REPLICATION_BACKLOG_BYTES", size) is Some {
        settings::number_fault(settings, "SIDER_REPLICATION_BACKLOG_BYTES", size)
    } else if settings::number_fault(settings, "SIDER_REPLICATION_BACKLOG_BATCHES", size) is Some {
        settings::number_fault(settings, "SIDER_REPLICATION_BACKLOG_BATCHES", size)
    } else if settings::number_fault(settings, "SIDER_REPLICATION_MAX_CONNECTIONS", size) is Some {
        settings::number_fault(settings, "SIDER_REPLICATION_MAX_CONNECTIONS", size)
    } else if settings::number_fault(settings, "SIDER_REPLICATION_FRAME_TIMEOUT_MS", span) is Some {
        settings::number_fault(settings, "SIDER_REPLICATION_FRAME_TIMEOUT_MS", span)
    } else if settings::number_fault(settings, "SIDER_REPLICATION_SYNC_TIMEOUT_MS", span) is Some {
        settings::number_fault(settings, "SIDER_REPLICATION_SYNC_TIMEOUT_MS", span)
    } else if settings::number_fault(settings, "SIDER_REPLICATION_RECONNECT_MIN_MS", span) is Some {
        settings::number_fault(settings, "SIDER_REPLICATION_RECONNECT_MIN_MS", span)
    } else {
        settings::number_fault(settings, "SIDER_REPLICATION_RECONNECT_MAX_MS", span)
    }
}

/// The configuration that the options give.
pub open spec fn lookup_config(settings: Settings) -> ConfigModel {
    let size = usize::MAX as nat;
    let base = default_config();
    ConfigModel {
        listen: match address_set(settings, "SIDER_REPLICATION_ADDR") {
            Some(address) => address,
            None => base.listen,
        },
        upstream: address_set(settings, "SIDER_REPLICA_OF"),
        ready_file: settings::value_of(settings, "SIDER_REPLICATION_READY_FILE"),
        backlog_bytes: settings::number_or(
            settings,
            "SIDER_REPLICATION_BACKLOG_BYTES",
            size,
            base.backlog_bytes as nat,
        ) as usize,
        backlog_batches: settings::number_or(
            settings,
            "SIDER_REPLICATION_BACKLOG_BATCHES",
            size,
            base.backlog_batches as nat,
        ) as usize,
        max_connections: settings::number_or(
            settings,
            "SIDER_REPLICATION_MAX_CONNECTIONS",
            size,
            base.max_connections as nat,
        ) as usize,
        frame_timeout: settings::span_or(
            settings,
            "SIDER_REPLICATION_FRAME_TIMEOUT_MS",
            base.frame_timeout,
        ),
        sync_timeout: settings::span_or(
            settings,
            "SIDER_REPLICATION_SYNC_TIMEOUT_MS",
            base.sync_timeout,
        ),
        reconnect_min: settings::span_or(
            settings,
            "SIDER_REPLICATION_RECONNECT_MIN_MS",
            base.reconnect_min,
        ),
        reconnect_max: settings::span_or(
            settings,
            "SIDER_REPLICATION_RECONNECT_MAX_MS",
            base.reconnect_max,
        ),
    }
}

/// What is wrong with the limits, where the clock reaches this far.
pub open spec fn config_fault(config: ConfigModel, aof: AofModel, reach: Reach) -> Option<
    &'static str,
> {
    let frame = aof.limits.max_record_bytes + HEADER_BYTES + 12;
    if frame > usize::MAX {
        Some("replication frame exceeds usize")
    } else if config.backlog_bytes < frame || config.backlog_bytes > isize::MAX
        || config.backlog_batches == 0 || config.max_connections == 0 || config.max_connections
        > usize::MAX / 8 {
        Some(
            "replication history and connections require positive limits; one complete record must fit in history",
        )
    } else if config.frame_timeout < 1_000_000 || !reach.frame || config.sync_timeout < 1_000_000
        || !reach.sync || config.reconnect_min < 1_000_000 || !reach.reconnect_min
        || config.reconnect_max < 1_000_000 || !reach.reconnect_max {
        Some("invalid replication timeouts")
    } else if config.reconnect_min > config.reconnect_max || config.reconnect_max
        > 60_000_000_000 || config.sync_timeout < config.frame_timeout || (config.upstream matches
        Some(address) && address.port == 0) {
        Some("invalid replication intervals or upstream")
    } else {
        None
    }
}

impl Default for Config {
    fn default() -> (result: Self)
        ensures
            result.model() == default_config(),
    {
        Config {
            listen: Address { ip: Ip::V4(127, 0, 0, 1), port: 0 },
            upstream: None,
            ready_file: None,
            backlog_bytes: 128 * 1024 * 1024,
            backlog_batches: 4096,
            max_connections: 4,
            frame_timeout: 5_000_000_000,
            sync_timeout: 30_000_000_000,
            reconnect_min: 100_000_000,
            reconnect_max: 5_000_000_000,
        }
    }
}

fn read_address(settings: &Settings, name: &'static str) -> (result: Result<
    Option<Address>,
    ConfigError,
>)
    ensures
        match (result, address_fault(*settings, name)) {
            (Ok(address), None) => address == address_set(*settings, name),
            (Err(error), Some(flaw)) => settings::flaw_of(error) == flaw,
            _ => false,
        },
{
    match settings.get(name) {
        None => Ok(None),
        Some(NativeText::Raw(_)) => Err(ConfigError::NonUnicodeValue { name }),
        Some(NativeText::Text(_)) => match settings.address(name) {
            Some(address) => Ok(Some(address)),
            None => Err(
                ConfigError::InvalidServerLimits {
                    reason: "replication address requires a literal IP address and port",
                },
            ),
        },
    }
}

impl Config {
    pub open spec fn model(&self) -> ConfigModel {
        ConfigModel {
            listen: self.listen,
            upstream: self.upstream,
            ready_file: path_model(self.ready_file),
            backlog_bytes: self.backlog_bytes,
            backlog_batches: self.backlog_batches,
            max_connections: self.max_connections,
            frame_timeout: self.frame_timeout,
            sync_timeout: self.sync_timeout,
            reconnect_min: self.reconnect_min,
            reconnect_max: self.reconnect_max,
        }
    }

    /// Replication is off where neither an address nor an upstream is set.
    pub fn from_lookup(settings: &Settings) -> (result: Result<Option<Self>, ConfigError>)
        ensures
            match result {
                Ok(None) => !wanted(*settings),
                Ok(Some(config)) => {
                    &&& wanted(*settings)
                    &&& lookup_fault(*settings) is None
                    &&& config.model() == lookup_config(*settings)
                },
                Err(error) => wanted(*settings) && lookup_fault(*settings) == Some(
                    settings::flaw_of(error),
                ),
            },
    {
        if settings.get("SIDER_REPLICATION_ADDR").is_none() && settings.get(
            "SIDER_REPLICA_OF",
        ).is_none() {
            return Ok(None);
        }
        let mut config = Config::default();
        match read_address(settings, "SIDER_REPLICATION_ADDR") {
            Err(error) => return Err(error),
            Ok(Some(address)) => {
                config.listen = address;
            },
            Ok(None) => {},
        }
        match read_address(settings, "SIDER_REPLICA_OF") {
            Err(error) => return Err(error),
            Ok(address) => {
                config.upstream = address;
            },
        }
        config.ready_file = match settings.get("SIDER_REPLICATION_READY_FILE") {
            Some(path) => Some(path.duplicate()),
            None => None,
        };
        match settings.size("SIDER_REPLICATION_BACKLOG_BYTES", config.backlog_bytes) {
            Err(error) => return Err(error),
            Ok(value) => config.backlog_bytes = value,
        }
        match settings.size("SIDER_REPLICATION_BACKLOG_BATCHES", config.backlog_batches) {
            Err(error) => return Err(error),
            Ok(value) => config.backlog_batches = value,
        }
        match settings.size("SIDER_REPLICATION_MAX_CONNECTIONS", config.max_connections) {
            Err(error) => return Err(error),
            Ok(value) => config.max_connections = value,
        }
        match settings.span("SIDER_REPLICATION_FRAME_TIMEOUT_MS", config.frame_timeout) {
            Err(error) => return Err(error),
            Ok(value) => config.frame_timeout = value,
        }
        match settings.span("SIDER_REPLICATION_SYNC_TIMEOUT_MS", config.sync_timeout) {
            Err(error) => return Err(error),
            Ok(value) => config.sync_timeout = value,
        }
        match settings.span("SIDER_REPLICATION_RECONNECT_MIN_MS", config.reconnect_min) {
            Err(error) => return Err(error),
            Ok(value) => config.reconnect_min = value,
        }
        match settings.span("SIDER_REPLICATION_RECONNECT_MAX_MS", config.reconnect_max) {
            Err(error) => return Err(error),
            Ok(value) => config.reconnect_max = value,
        }
        Ok(Some(config))
    }

    /// The timeouts that the clock has to count.
    pub fn spans(&self) -> (spans: Vec<u128>)
        ensures
            spans@ == spans_of(self.model()),
    {
        let mut spans: Vec<u128> = Vec::new();
        spans.push(self.frame_timeout);
        spans.push(self.sync_timeout);
        spans.push(self.reconnect_min);
        spans.push(self.reconnect_max);
        assert(spans@ =~= spans_of(self.model()));
        spans
    }

    /// Which of the timeouts the clock of this machine can count.
    pub fn reach(&self) -> (result: Reach)
        ensures
            clock::answerable_all(spans_of(self.model()), result.answers()),
    {
        Reach::from_answers(&reachable_all(&self.spans()))
    }

    /// Holds the limits to their rules, given which timeouts the clock can count.
    pub fn check(&self, aof: &AofConfig, reach: Reach) -> (result: Result<(), ConfigError>)
        ensures
            result == match config_fault(self.model(), aof.model(), reach) {
                None => Ok::<(), ConfigError>(()),
                Some(reason) => Err(ConfigError::InvalidServerLimits { reason }),
            },
    {
        if aof.limits.max_record_bytes > usize::MAX - (HEADER_BYTES + 12) {
            return Err(
                ConfigError::InvalidServerLimits { reason: "replication frame exceeds usize" },
            );
        }
        let frame: usize = aof.limits.max_record_bytes + HEADER_BYTES + 12;
        if self.backlog_bytes < frame || self.backlog_bytes > isize::MAX as usize
            || self.backlog_batches == 0 || self.max_connections == 0 || self.max_connections
            > max_permits() {
            return Err(
                ConfigError::InvalidServerLimits {
                    reason: "replication history and connections require positive limits; one complete record must fit in history",
                },
            );
        }
        if self.frame_timeout < 1_000_000 || !reach.frame || self.sync_timeout < 1_000_000
            || !reach.sync || self.reconnect_min < 1_000_000 || !reach.reconnect_min
            || self.reconnect_max < 1_000_000 || !reach.reconnect_max {
            return Err(
                ConfigError::InvalidServerLimits { reason: "invalid replication timeouts" },
            );
        }
        let unreachable = match self.upstream {
            Some(address) => address.port == 0,
            None => false,
        };
        if self.reconnect_min > self.reconnect_max || self.reconnect_max > 60_000_000_000
            || self.sync_timeout < self.frame_timeout || unreachable {
            return Err(
                ConfigError::InvalidServerLimits {
                    reason: "invalid replication intervals or upstream",
                },
            );
        }
        Ok(())
    }

    /// Holds the limits to their rules on this machine.
    pub fn validate(&self, aof: &AofConfig) -> (result: Result<(), ConfigError>)
        ensures
            exists|reach: Reach|
                {
                    &&& clock::answerable_all(spans_of(self.model()), reach.answers())
                    &&& result == match #[trigger] config_fault(self.model(), aof.model(), reach) {
                        None => Ok::<(), ConfigError>(()),
                        Some(reason) => Err(ConfigError::InvalidServerLimits { reason }),
                    }
                },
    {
        let reach = self.reach();
        self.check(aof, reach)
    }
}

} // verus!
