//! Options of the command line: names, each with a value, and none twice.

use crate::buffer::same_bytes;
use crate::error::ConfigError;
use crate::numbers::read_digits;
use crate::settings::{Flaw, NativeModel, NativeText};
use crate::numbers;
use crate::settings;
use vstd::prelude::*;
use vstd::string::*;
use vstd::utf8::*;

verus! {

/// Why options cannot be read.
#[derive(Debug)]
pub enum OptionError {
    /// The name of an option is no Unicode text.
    NameNotText,
    Unknown(String),
    NoValue(String),
    Repeated(String),
    Missing(&'static str),
    /// The value is no decimal number without a sign.
    NotNumber(&'static str),
    /// The value is greater than a size can be.
    TooGreat(&'static str),
    /// The value is greater than a layout can hold.
    TooGreatForLayout(&'static str),
    Config(ConfigError),
}

/// An error by content.
#[verifier::ext_equal]
pub enum OptionFlaw {
    NameNotText,
    Unknown(Seq<char>),
    NoValue(Seq<char>),
    Repeated(Seq<char>),
    Missing(&'static str),
    NotNumber(&'static str),
    TooGreat(&'static str),
    TooGreatForLayout(&'static str),
    Config(Flaw),
}

impl OptionError {
    pub open spec fn flaw(&self) -> OptionFlaw {
        match self {
            OptionError::NameNotText => OptionFlaw::NameNotText,
            OptionError::Unknown(name) => OptionFlaw::Unknown(name@),
            OptionError::NoValue(name) => OptionFlaw::NoValue(name@),
            OptionError::Repeated(name) => OptionFlaw::Repeated(name@),
            OptionError::Missing(name) => OptionFlaw::Missing(*name),
            OptionError::NotNumber(name) => OptionFlaw::NotNumber(*name),
            OptionError::TooGreat(name) => OptionFlaw::TooGreat(*name),
            OptionError::TooGreatForLayout(name) => OptionFlaw::TooGreatForLayout(*name),
            OptionError::Config(error) => OptionFlaw::Config(settings::flaw_of(*error)),
        }
    }
}

/// The place of a name in a list.
pub open spec fn name_index(names: Seq<&'static str>, name: Seq<u8>) -> Option<int>
    decreases names.len(),
{
    if names.len() == 0 {
        None
    } else if name_index(names.drop_last(), name) is Some {
        name_index(names.drop_last(), name)
    } else if names.last().spec_bytes() == name {
        Some(names.len() - 1)
    } else {
        None
    }
}

/// The values of options, each in the place of its name.
pub open spec fn pairs(
    arguments: Seq<NativeModel>,
    names: Seq<&'static str>,
    slots: Seq<Option<NativeModel>>,
) -> Result<Seq<Option<NativeModel>>, OptionFlaw>
    decreases arguments.len(),
{
    if arguments.len() == 0 {
        Ok(slots)
    } else {
        match arguments[0] {
            NativeModel::Raw(_) => Err(OptionFlaw::NameNotText),
            NativeModel::Text(name) => match name_index(names, encode_utf8(name)) {
                None => Err(OptionFlaw::Unknown(name)),
                Some(index) => if arguments.len() < 2 || settings::nothing(arguments[1]) {
                    Err(OptionFlaw::NoValue(name))
                } else if slots[index] is Some {
                    Err(OptionFlaw::Repeated(name))
                } else {
                    pairs(arguments.skip(2), names, slots.update(index, Some(arguments[1])))
                },
            },
        }
    }
}

pub open spec fn native_models(values: Seq<NativeText>) -> Seq<NativeModel> {
    values.map_values(|value: NativeText| value.model())
}

pub open spec fn slot_model(slot: Option<NativeText>) -> Option<NativeModel> {
    match slot {
        Some(value) => Some(value.model()),
        None => None,
    }
}

pub open spec fn slot_models(slots: Seq<Option<NativeText>>) -> Seq<Option<NativeModel>> {
    slots.map_values(|slot: Option<NativeText>| slot_model(slot))
}

/// No option has a value yet.
pub open spec fn no_values(count: nat) -> Seq<Option<NativeModel>> {
    Seq::new(count, |i: int| None)
}

pub fn find_name(names: &Vec<&'static str>, name: &[u8]) -> (result: Option<usize>)
    ensures
        match (result, name_index(names@, name@)) {
            (Some(index), Some(place)) => index == place && index < names@.len(),
            (None, None) => true,
            _ => false,
        },
{
    let mut index: usize = 0;
    assert(names@.take(0) =~= Seq::empty());
    while index < names.len()
        invariant
            index <= names@.len(),
            name_index(names@.take(index as int), name@) is None,
        decreases names@.len() - index,
    {
        assert(names@.take(index + 1).drop_last() =~= names@.take(index as int));
        if same_bytes(names[index].as_bytes(), name) {
            proof {
                lemma_index_stays(names@, name@, index + 1);
            }
            return Some(index);
        }
        index += 1;
    }
    assert(names@.take(index as int) =~= names@);
    None
}

proof fn lemma_index_stays(names: Seq<&'static str>, name: Seq<u8>, count: int)
    requires
        0 <= count <= names.len(),
        name_index(names.take(count), name) is Some,
    ensures
        name_index(names, name) == name_index(names.take(count), name),
    decreases names.len() - count,
{
    if count < names.len() {
        assert(names.take(count + 1).drop_last() =~= names.take(count));
        lemma_index_stays(names, name, count + 1);
    } else {
        assert(names.take(count) =~= names);
    }
}

/// Reads names and values.
pub fn read_pairs(arguments: &[NativeText], names: &Vec<&'static str>) -> (result: Result<
    Vec<Option<NativeText>>,
    OptionError,
>)
    ensures
        match (result, pairs(native_models(arguments@), names@, no_values(names@.len()))) {
            (Ok(values), Ok(slots)) => slot_models(values@) == slots && values@.len()
                == names@.len(),
            (Err(error), Err(flaw)) => error.flaw() == flaw,
            _ => false,
        },
{
    let ghost models = native_models(arguments@);
    let mut values: Vec<Option<NativeText>> = Vec::new();
    while values.len() < names.len()
        invariant
            values@.len() <= names@.len(),
            forall|i: int| 0 <= i < values@.len() ==> (#[trigger] values@[i]) is None,
        decreases names@.len() - values@.len(),
    {
        values.push(None);
    }
    assert(slot_models(values@) =~= no_values(names@.len()));
    assert(models.skip(0) =~= models);
    let ghost wanted = pairs(models, names@, no_values(names@.len()));
    let mut index: usize = 0;
    while index < arguments.len()
        invariant
            models == native_models(arguments@),
            wanted == pairs(models, names@, no_values(names@.len())),
            index <= arguments@.len(),
            values@.len() == names@.len(),
            wanted == pairs(models.skip(index as int), names@, slot_models(values@)),
        decreases arguments@.len() - index,
    {
        let ghost left = models.skip(index as int);
        assert(left[0] == arguments@[index as int].model());
        let name = match &arguments[index] {
            NativeText::Raw(_) => return Err(OptionError::NameNotText),
            NativeText::Text(name) => name,
        };
        let place: usize = match find_name(names, name.as_str().as_bytes()) {
            None => return Err(OptionError::Unknown(name.clone())),
            Some(place) => place,
        };
        if arguments.len() - index < 2 {
            return Err(OptionError::NoValue(name.clone()));
        }
        assert(left[1] == arguments@[index + 1].model());
        if arguments[index + 1].is_empty() {
            return Err(OptionError::NoValue(name.clone()));
        }
        assert(slot_models(values@)[place as int] == slot_model(values@[place as int]));
        if values[place].is_some() {
            return Err(OptionError::Repeated(name.clone()));
        }
        let ghost before = values@;
        let value = arguments[index + 1].duplicate();
        values.set(place, Some(value));
        proof {
            assert(slot_models(values@) =~= slot_models(before).update(
                place as int,
                Some(left[1]),
            ));
            assert(left.skip(2) =~= models.skip(index + 2));
        }
        index += 2;
    }
    assert(models.skip(index as int).len() == 0);
    Ok(values)
}

/// Whether a text is made of decimal digits, at least one.
pub open spec fn all_digits(text: Seq<u8>) -> bool {
    &&& text.len() > 0
    &&& forall|i: int| 0 <= i < text.len() ==> numbers::is_digit(#[trigger] text[i])
}

/// What a value that has to be a number is.
#[verifier::ext_equal]
pub enum NumberModel {
    Number(nat),
    NotNumber,
    TooGreat,
}

pub open spec fn number_of(value: NativeModel, max: nat) -> NumberModel {
    match value {
        NativeModel::Raw(_) => NumberModel::NotNumber,
        NativeModel::Text(text) => if !all_digits(encode_utf8(text)) {
            NumberModel::NotNumber
        } else {
            match numbers::digits_value(encode_utf8(text), max) {
                Ok(number) => NumberModel::Number(number),
                Err(_) => NumberModel::TooGreat,
            }
        },
    }
}

#[derive(Clone, Copy, Debug, PartialEq, Eq, Structural)]
pub enum Number {
    Number(u64),
    NotNumber,
    TooGreat,
}

impl Number {
    pub open spec fn model(self) -> NumberModel {
        match self {
            Number::Number(value) => NumberModel::Number(value as nat),
            Number::NotNumber => NumberModel::NotNumber,
            Number::TooGreat => NumberModel::TooGreat,
        }
    }
}

/// Reads a number of decimal digits.
pub fn read_number(value: &NativeText, max: u64) -> (result: Number)
    ensures
        result.model() == number_of(value.model(), max as nat),
        result matches Number::Number(number) ==> number <= max,
{
    let text = match value {
        NativeText::Raw(_) => return Number::NotNumber,
        NativeText::Text(text) => text.as_str().as_bytes(),
    };
    if text.len() == 0 {
        return Number::NotNumber;
    }
    let mut index: usize = 0;
    while index < text.len()
        invariant
            index <= text@.len(),
            value.model() matches NativeModel::Text(chars) && text@ == encode_utf8(chars),
            forall|i: int| 0 <= i < index ==> numbers::is_digit(#[trigger] text@[i]),
        decreases text@.len() - index,
    {
        if text[index] < 48 || text[index] > 57 {
            assert(!numbers::is_digit(text@[index as int]));
            return Number::NotNumber;
        }
        index += 1;
    }
    match read_digits(text, max) {
        Ok(number) => Number::Number(number),
        Err(_) => Number::TooGreat,
    }
}

} // verus!
