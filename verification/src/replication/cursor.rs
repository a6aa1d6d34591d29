//! Positions in the history of a primary.

use crate::codec::{get, put_u64};
use crate::buffer::{append, same_bytes};
use crate::codec;
use vstd::prelude::*;

verus! {

/// A position identifies state only within the same primary epoch.
#[derive(Clone, Copy, Debug, PartialEq, Eq)]
pub struct Cursor {
    pub epoch: [u8; 16],
    pub sequence: u64,
}

/// A position by content.
#[verifier::ext_equal]
pub struct CursorModel {
    pub epoch: Seq<u8>,
    pub sequence: u64,
}

/// The epoch of a replica that has not installed a snapshot yet.
pub open spec fn no_epoch() -> Seq<u8> {
    Seq::new(16, |i: int| 0u8)
}

impl Cursor {
    pub open spec fn model(self) -> CursorModel {
        CursorModel { epoch: self.epoch@, sequence: self.sequence }
    }

    /// Whether both are the same position of the same epoch.
    pub fn same(&self, other: &Cursor) -> (result: bool)
        ensures
            result == (self.model() == other.model()),
    {
        let result = self.sequence == other.sequence && same_bytes(
            self.epoch.as_slice(),
            other.epoch.as_slice(),
        );
        proof {
            if result {
                assert(self.epoch@ =~= other.epoch@);
            }
        }
        result
    }

    /// Whether both belong to the same epoch.
    pub fn same_epoch(&self, other: &Cursor) -> (result: bool)
        ensures
            result == (self.epoch@ == other.epoch@),
    {
        same_bytes(self.epoch.as_slice(), other.epoch.as_slice())
    }

    /// Whether no snapshot was installed yet.
    pub fn is_blank(&self) -> (result: bool)
        ensures
            result == (self.epoch@ == no_epoch()),
    {
        let mut index: usize = 0;
        while index < 16
            invariant
                index <= 16,
                forall|i: int| 0 <= i < index ==> self.epoch@[i] == 0,
            decreases 16 - index,
        {
            if self.epoch[index] != 0 {
                assert(no_epoch()[index as int] == 0);
                return false;
            }
            index += 1;
        }
        assert(self.epoch@ =~= no_epoch());
        true
    }
}

/// The bytes of a position.
pub open spec fn cursor_wire(cursor: CursorModel) -> Seq<u8> {
    cursor.epoch + codec::le(cursor.sequence as nat, 8)
}

/// The position at a place of a text.
pub open spec fn cursor_at(bytes: Seq<u8>, place: int) -> CursorModel {
    CursorModel {
        epoch: bytes.subrange(place, place + 16),
        sequence: crate::codec::le_value(bytes.subrange(place + 16, place + 24)) as u64,
    }
}

/// Appends a position.
pub fn write_cursor(output: &mut Vec<u8>, cursor: Cursor)
    ensures
        final(output)@ == old(output)@ + cursor_wire(cursor.model()),
{
    let ghost before = output@;
    append(output, cursor.epoch.as_slice());
    put_u64(output, cursor.sequence);
    assert(output@ =~= before + cursor_wire(cursor.model()));
}

/// Sixteen bytes from a place of a text on.
pub fn read_epoch(bytes: &[u8], place: usize) -> (epoch: [u8; 16])
    requires
        place + 16 <= bytes@.len(),
    ensures
        epoch@ == bytes@.subrange(place as int, place + 16),
{
    let size: usize = bytes.len();
    let mut epoch: [u8; 16] = [0u8; 16];
    let mut index: usize = 0;
    while index < 16
        invariant
            index <= 16,
            place + 16 <= bytes@.len(),
            bytes@.len() == size,
            forall|i: int| 0 <= i < index ==> epoch@[i] == bytes@[place + i],
        decreases 16 - index,
    {
        epoch[index] = bytes[place + index];
        index += 1;
    }
    assert(epoch@ =~= bytes@.subrange(place as int, place + 16));
    epoch
}

/// Reads a position from a place of a text on.
pub fn read_cursor(bytes: &[u8], place: usize) -> (cursor: Cursor)
    requires
        place + 24 <= bytes@.len(),
    ensures
        cursor.model() == cursor_at(bytes@, place as int),
{
    let size: usize = bytes.len();
    Cursor { epoch: read_epoch(bytes, place), sequence: get(bytes, place + 16, place + 24) }
}

} // verus!
