//! Sections of the operational diagnosis.

use crate::buffer::is_word;
use crate::buffer;
use vstd::prelude::*;
use vstd::string::*;

verus! {

/// Selection of fixed-cardinality sections; unknown names are not retained.
#[derive(Clone, Copy, Debug, PartialEq, Eq, Structural)]
pub struct InfoSections(pub u8);

/// The sections that a name selects.
pub open spec fn section_bits(name: Seq<u8>) -> u8 {
    let word = buffer::lower(name);
    if word == "server".spec_bytes() {
        1
    } else if word == "clients".spec_bytes() {
        2
    } else if word == "stats".spec_bytes() {
        4
    } else if word == "memory".spec_bytes() {
        8
    } else if word == "persistence".spec_bytes() {
        16
    } else if word == "config".spec_bytes() {
        32
    } else if word == "replication".spec_bytes() {
        64
    } else if word == "all".spec_bytes() || word == "default".spec_bytes() || word
        == "everything".spec_bytes() {
        127
    } else {
        0
    }
}

/// The sections that some names select together.
pub open spec fn selected_bits(names: Seq<&[u8]>) -> u8
    decreases names.len(),
{
    if names.len() == 0 {
        0
    } else {
        selected_bits(names.drop_last()) | section_bits(names.last()@)
    }
}

impl InfoSections {
    pub const SERVER: u8 = 1;

    pub const CLIENTS: u8 = 2;

    pub const STATS: u8 = 4;

    pub const MEMORY: u8 = 8;

    pub const PERSISTENCE: u8 = 16;

    pub const CONFIG: u8 = 32;

    pub const REPLICATION: u8 = 64;

    /// Every section.
    pub fn all() -> (result: Self)
        ensures
            result == InfoSections(127),
    {
        InfoSections(127)
    }

    /// Sections named by a request; no name at all asks for every section.
    pub fn from_names(names: &[&[u8]]) -> (result: Self)
        ensures
            result.0 == if names@.len() == 0 {
                127
            } else {
                selected_bits(names@)
            },
    {
        if names.len() == 0 {
            return InfoSections(127);
        }
        let mut selection: u8 = 0;
        let mut index: usize = 0;
        while index < names.len()
            invariant
                index <= names@.len(),
                selection == selected_bits(names@.take(index as int)),
            decreases names@.len() - index,
        {
            let name = names[index];
            assert(names@.take(index + 1).drop_last() =~= names@.take(index as int));
            let bit: u8 = if is_word(name, "server") {
                1
            } else if is_word(name, "clients") {
                2
            } else if is_word(name, "stats") {
                4
            } else if is_word(name, "memory") {
                8
            } else if is_word(name, "persistence") {
                16
            } else if is_word(name, "config") {
                32
            } else if is_word(name, "replication") {
                64
            } else if is_word(name, "all") || is_word(name, "default") || is_word(
                name,
                "everything",
            ) {
                127
            } else {
                0
            };
            selection = selection | bit;
            index += 1;
        }
        assert(names@.take(index as int) =~= names@);
        InfoSections(selection)
    }

    /// Whether any of the given sections is selected.
    pub fn contains(self, section: u8) -> (result: bool)
        ensures
            result == (self.0 & section != 0),
    {
        self.0 & section != 0
    }
}

} // verus!
