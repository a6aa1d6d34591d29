//! Options as an environment gives them, and how numbers are read from them.

use crate::buffer::{length, same_bytes};
use crate::error::ConfigError;
use crate::numbers::read_digits;
use crate::buffer;
use crate::numbers;
use bytes::Bytes;
use vstd::prelude::*;
use vstd::string::*;
use vstd::utf8::*;

verus! {

/// The value of an option: text, or native bytes that are no Unicode text.
#[derive(Clone, Debug, PartialEq, Eq)]
pub enum NativeText {
    Text(String),
    Raw(Bytes),
}

/// A value by content.
#[verifier::ext_equal]
pub enum NativeModel {
    Text(Seq<char>),
    Raw(Seq<u8>),
}

/// Whether a value holds nothing.
pub open spec fn nothing(value: NativeModel) -> bool {
    match value {
        NativeModel::Text(text) => text.len() == 0,
        NativeModel::Raw(bytes) => bytes.len() == 0,
    }
}

impl NativeText {
    pub open spec fn model(&self) -> NativeModel {
        match self {
            NativeText::Text(text) => NativeModel::Text(text@),
            NativeText::Raw(bytes) => NativeModel::Raw(buffer::bytes_content(*bytes)),
        }
    }

    pub fn is_empty(&self) -> (result: bool)
        ensures
            result == nothing(self.model()),
    {
        match self {
            NativeText::Text(text) => text.as_str().is_empty(),
            NativeText::Raw(bytes) => length(bytes) == 0,
        }
    }

    pub fn duplicate(&self) -> (result: NativeText)
        ensures
            result.model() == self.model(),
    {
        match self {
            NativeText::Text(text) => NativeText::Text(text.clone()),
            NativeText::Raw(bytes) => NativeText::Raw(bytes.clone()),
        }
    }
}

/// A literal IP address.
#[derive(Clone, Copy, Debug, PartialEq, Eq, Structural)]
pub enum Ip {
    V4(u8, u8, u8, u8),
    V6 { bits: u128, flow: u32, scope: u32 },
}

/// A literal IP address and a port.
#[derive(Clone, Copy, Debug, PartialEq, Eq, Structural)]
pub struct Address {
    pub ip: Ip,
    pub port: u16,
}

/// The options that are set. Beside them stands what the parser of addresses
/// made of those that it takes for one.
#[derive(Clone, Debug, PartialEq, Eq)]
pub struct Settings {
    pub values: Vec<(String, NativeText)>,
    pub addresses: Vec<(String, Address)>,
}

/// The first value under a name.
pub open spec fn named<T>(values: Seq<(String, T)>, name: Seq<u8>) -> Option<T>
    decreases values.len(),
{
    if values.len() == 0 {
        None
    } else if encode_utf8(values[0].0@) == name {
        Some(values[0].1)
    } else {
        named(values.skip(1), name)
    }
}

/// What a name stands for.
pub open spec fn value_of(settings: Settings, name: &'static str) -> Option<NativeModel> {
    match named(settings.values@, name.spec_bytes()) {
        None => None,
        Some(value) => Some(value.model()),
    }
}

/// The address that a name stands for, where the parser took it for one.
pub open spec fn address_of(settings: Settings, name: &'static str) -> Option<Address> {
    named(settings.addresses@, name.spec_bytes())
}

/// The number in a text of decimal digits, where it has one at most this great.
pub open spec fn whole_number(text: Seq<u8>, max: nat) -> Option<nat> {
    if text.len() == 0 {
        None
    } else {
        match numbers::digits_value(text, max) {
            Ok(value) => Some(value),
            Err(_) => None,
        }
    }
}

/// What is wrong with a numeric option.
pub open spec fn number_fault(settings: Settings, name: &'static str, max: nat) -> Option<Flaw> {
    match value_of(settings, name) {
        None => None,
        Some(NativeModel::Raw(_)) => Some(Flaw::NotText(name)),
        Some(NativeModel::Text(text)) => match whole_number(encode_utf8(text), max) {
            Some(_) => None,
            None => Some(Flaw::NotNumber(name, text)),
        },
    }
}

/// The number of an option, or the number that holds without it.
pub open spec fn number_or(
    settings: Settings,
    name: &'static str,
    max: nat,
    default: nat,
) -> nat {
    match value_of(settings, name) {
        Some(NativeModel::Text(text)) => match whole_number(encode_utf8(text), max) {
            Some(value) => value,
            None => default,
        },
        _ => default,
    }
}

/// An error by content.
#[verifier::ext_equal]
pub enum Flaw {
    Limits(&'static str),
    RespLimits(&'static str),
    NotText(&'static str),
    NotNumber(&'static str, Seq<char>),
    AddressNotText,
    NotAddress(Seq<char>),
}

/// What an error says.
pub open spec fn flaw_of(error: ConfigError) -> Flaw {
    match error {
        ConfigError::InvalidServerLimits { reason } => Flaw::Limits(reason),
        ConfigError::NonUnicodeValue { name } => Flaw::NotText(name),
        ConfigError::InvalidInteger { name, value } => Flaw::NotNumber(name, value@),
        ConfigError::InvalidRespLimits { reason } => Flaw::RespLimits(reason),
        ConfigError::NonUnicodeAddress => Flaw::AddressNotText,
        ConfigError::InvalidAddress { value } => Flaw::NotAddress(value@),
    }
}

proof fn lemma_named_skip<T>(values: Seq<(String, T)>, name: Seq<u8>, index: int)
    requires
        0 <= index < values.len(),
        named(values, name) == named(values.skip(index), name),
        encode_utf8(values[index].0@) != name,
    ensures
        named(values, name) == named(values.skip(index + 1), name),
{
    assert(values.skip(index).skip(1) =~= values.skip(index + 1));
}

impl Settings {
    /// No option is set.
    pub fn new() -> (result: Settings)
        ensures
            result.values@.len() == 0,
            result.addresses@.len() == 0,
    {
        Settings { values: Vec::new(), addresses: Vec::new() }
    }

    /// The value of an option.
    pub fn get(&self, name: &'static str) -> (result: Option<&NativeText>)
        ensures
            match (result, value_of(*self, name)) {
                (Some(value), Some(model)) => value.model() == model,
                (None, None) => true,
                _ => false,
            },
    {
        let ghost wanted = name.spec_bytes();
        let mut index: usize = 0;
        assert(self.values@.skip(0) =~= self.values@);
        while index < self.values.len()
            invariant
                index <= self.values@.len(),
                wanted == name.spec_bytes(),
                named(self.values@, wanted) == named(self.values@.skip(index as int), wanted),
            decreases self.values@.len() - index,
        {
            if same_bytes(self.values[index].0.as_str().as_bytes(), name.as_bytes()) {
                assert(self.values@.skip(index as int)[0] == self.values@[index as int]);
                return Some(&self.values[index].1);
            }
            proof {
                lemma_named_skip(self.values@, wanted, index as int);
            }
            index += 1;
        }
        None
    }

    /// The address of an option.
    pub fn address(&self, name: &'static str) -> (result: Option<Address>)
        ensures
            result == address_of(*self, name),
    {
        let ghost wanted = name.spec_bytes();
        let mut index: usize = 0;
        assert(self.addresses@.skip(0) =~= self.addresses@);
        while index < self.addresses.len()
            invariant
                index <= self.addresses@.len(),
                wanted == name.spec_bytes(),
                named(self.addresses@, wanted) == named(
                    self.addresses@.skip(index as int),
                    wanted,
                ),
            decreases self.addresses@.len() - index,
        {
            if same_bytes(self.addresses[index].0.as_str().as_bytes(), name.as_bytes()) {
                assert(self.addresses@.skip(index as int)[0] == self.addresses@[index as int]);
                return Some(self.addresses[index].1);
            }
            proof {
                lemma_named_skip(self.addresses@, wanted, index as int);
            }
            index += 1;
        }
        None
    }

    /// The number of an option: decimal digits alone, no sign, no spaces.
    pub fn number(&self, name: &'static str, max: u64, default: u64) -> (result: Result<
        u64,
        ConfigError,
    >)
        requires
            default <= max,
        ensures
            match (result, number_fault(*self, name, max as nat)) {
                (Ok(value), None) => value == number_or(*self, name, max as nat, default as nat)
                    && value <= max,
                (Err(error), Some(flaw)) => flaw_of(error) == flaw,
                _ => false,
            },
    {
        match self.get(name) {
            None => Ok(default),
            Some(NativeText::Raw(_)) => Err(ConfigError::NonUnicodeValue { name }),
            Some(NativeText::Text(text)) => {
                let bytes = text.as_str().as_bytes();
                if bytes.len() == 0 {
                    return Err(ConfigError::InvalidInteger { name, value: text.clone() });
                }
                match read_digits(bytes, max) {
                    Ok(value) => Ok(value),
                    Err(_) => Err(ConfigError::InvalidInteger { name, value: text.clone() }),
                }
            },
        }
    }

    /// The size of an option.
    pub fn size(&self, name: &'static str, default: usize) -> (result: Result<usize, ConfigError>)
        ensures
            match (result, number_fault(*self, name, usize::MAX as nat)) {
                (Ok(value), None) => value == number_or(
                    *self,
                    name,
                    usize::MAX as nat,
                    default as nat,
                ),
                (Err(error), Some(flaw)) => flaw_of(error) == flaw,
                _ => false,
            },
    {
        match self.number(name, usize::MAX as u64, default as u64) {
            Err(error) => Err(error),
            Ok(value) => Ok(value as usize),
        }
    }

    /// The span of an option in nanoseconds, which is written in milliseconds.
    pub fn span(&self, name: &'static str, default: u128) -> (result: Result<u128, ConfigError>)
        ensures
            match (result, number_fault(*self, name, u64::MAX as nat)) {
                (Ok(value), None) => value == span_or(*self, name, default),
                (Err(error), Some(flaw)) => flaw_of(error) == flaw,
                _ => false,
            },
    {
        if self.get(name).is_none() {
            return Ok(default);
        }
        match self.number(name, u64::MAX, 0) {
            Err(error) => Err(error),
            Ok(value) => Ok(value as u128 * 1_000_000),
        }
    }
}

/// The span of an option in nanoseconds, or the span that holds without it.
pub open spec fn span_or(settings: Settings, name: &'static str, default: u128) -> u128 {
    if value_of(settings, name) is None {
        default
    } else {
        (number_or(settings, name, u64::MAX as nat, 0) * 1_000_000) as u128
    }
}

} // verus!
