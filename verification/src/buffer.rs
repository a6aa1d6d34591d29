//! Byte containers of the `bytes` crate and what they hold.

use bytes::{Buf, Bytes, BytesMut};
use vstd::prelude::*;
use vstd::string::*;

verus! {

/// `bytes::Bytes`, a cheaply cloneable and sliceable run of bytes.
#[verifier::external_type_specification]
#[verifier::external_body]
pub struct ExBytes(Bytes);

/// `bytes::BytesMut`, a growable buffer whose front can be consumed.
#[verifier::external_type_specification]
#[verifier::external_body]
pub struct ExBytesMut(BytesMut);

/// The bytes that a `Bytes` holds, in order.
pub uninterp spec fn bytes_content(value: Bytes) -> Seq<u8>;

/// The bytes that a `BytesMut` holds, in order.
pub uninterp spec fn buffer_content(value: BytesMut) -> Seq<u8>;

/// `Bytes::as_ref`: borrows all bytes.
#[verifier::external_body]
pub(crate) fn as_slice(value: &Bytes) -> (result: &[u8])
    ensures
        result@ == bytes_content(*value),
{
    value.as_ref()
}

/// `Bytes::len`: the number of bytes held.
#[verifier::external_body]
pub(crate) fn length(value: &Bytes) -> (result: usize)
    ensures
        result == bytes_content(*value).len(),
{
    value.len()
}

/// `Bytes::from(Vec<u8>)`: takes the vector's bytes over.
#[verifier::external_body]
pub(crate) fn from_vec(value: Vec<u8>) -> (result: Bytes)
    ensures
        bytes_content(result) == value@,
{
    Bytes::from(value)
}

/// `Bytes::copy_from_slice`: a fresh copy of the slice.
#[verifier::external_body]
pub(crate) fn copy_from_slice(value: &[u8]) -> (result: Bytes)
    ensures
        bytes_content(result) == value@,
{
    Bytes::copy_from_slice(value)
}

/// `Bytes::clone`: another handle to the same bytes.
pub assume_specification[ <Bytes as Clone>::clone ](source: &Bytes) -> (copied: Bytes)
    ensures
        bytes_content(copied) == bytes_content(*source),
;

/// `Bytes::slice` over a half-open range: a handle to that part. The range has
/// to lie inside the value, since the call panics otherwise.
#[verifier::external_body]
pub(crate) fn slice(value: &Bytes, start: usize, end: usize) -> (result: Bytes)
    requires
        start <= end <= bytes_content(*value).len(),
    ensures
        bytes_content(result) == bytes_content(*value).subrange(start as int, end as int),
{
    value.slice(start..end)
}

/// `BytesMut::as_ref`: borrows all bytes of the buffer.
#[verifier::external_body]
pub(crate) fn buffer_slice(value: &BytesMut) -> (result: &[u8])
    ensures
        result@ == buffer_content(*value),
{
    value.as_ref()
}

/// `Buf::advance` on a `BytesMut`: drops bytes from the front. More than the
/// buffer holds cannot be dropped, since the call panics then.
#[verifier::external_body]
pub(crate) fn buffer_advance(value: &mut BytesMut, count: usize)
    requires
        count <= buffer_content(*old(value)).len(),
    ensures
        buffer_content(*final(value)) == buffer_content(*old(value)).skip(count as int),
{
    value.advance(count)
}

/// `BytesMut::extend_from_slice`: appends the slice. The combined length has to
/// be one that an allocation can have, since the call panics otherwise.
#[verifier::external_body]
pub(crate) fn buffer_extend(value: &mut BytesMut, data: &[u8])
    requires
        buffer_content(*old(value)).len() + data@.len() <= isize::MAX,
    ensures
        buffer_content(*final(value)) == buffer_content(*old(value)) + data@,
{
    value.extend_from_slice(data)
}

/// `Bytes::from_static` on the bytes of a text.
#[verifier::external_body]
pub(crate) fn from_text(text: &'static str) -> (result: Bytes)
    ensures
        bytes_content(result) == text.spec_bytes(),
{
    Bytes::from_static(text.as_bytes())
}

/// Appends a slice to a vector.
pub fn append(target: &mut Vec<u8>, data: &[u8])
    ensures
        final(target)@ == old(target)@ + data@,
{
    let mut index: usize = 0;
    while index < data.len()
        invariant
            index <= data@.len(),
            target@ == old(target)@ + data@.take(index as int),
        decreases data@.len() - index,
    {
        assert(data@.take(index + 1) =~= data@.take(index as int).push(data@[index as int]));
        target.push(data[index]);
        index += 1;
    }
    assert(data@.take(index as int) =~= data@);
}

/// The byte with ASCII capitals turned into small letters.
pub open spec fn lower_byte(byte: u8) -> u8 {
    if 65 <= byte <= 90 {
        (byte + 32) as u8
    } else {
        byte
    }
}

/// The text with ASCII capitals turned into small letters.
pub open spec fn lower(text: Seq<u8>) -> Seq<u8> {
    text.map_values(|byte: u8| lower_byte(byte))
}

/// Whether the text is the word, which is given in small letters, in any case.
pub fn is_word(text: &[u8], word: &str) -> (result: bool)
    ensures
        result == (lower(text@) == word.spec_bytes()),
{
    let expected = word.as_bytes();
    if text.len() != expected.len() {
        return false;
    }
    let mut index: usize = 0;
    while index < text.len()
        invariant
            expected@ == word.spec_bytes(),
            text@.len() == expected@.len(),
            index <= text@.len(),
            forall|i: int| 0 <= i < index ==> lower_byte(#[trigger] text@[i]) == expected@[i],
        decreases text@.len() - index,
    {
        let byte: u8 = text[index];
        let small: u8 = if byte >= 65 && byte <= 90 {
            byte + 32
        } else {
            byte
        };
        if small != expected[index] {
            assert(lower(text@)[index as int] != expected@[index as int]);
            return false;
        }
        index += 1;
    }
    assert(lower(text@) =~= expected@);
    true
}

/// Whether two slices hold the same bytes.
pub fn same_bytes(left: &[u8], right: &[u8]) -> (result: bool)
    ensures
        result == (left@ == right@),
{
    if left.len() != right.len() {
        return false;
    }
    let mut index: usize = 0;
    while index < left.len()
        invariant
            left@.len() == right@.len(),
            index <= left@.len(),
            forall|i: int| 0 <= i < index ==> left@[i] == right@[i],
        decreases left@.len() - index,
    {
        if left[index] != right[index] {
            return false;
        }
        index += 1;
    }
    assert(left@ =~= right@);
    true
}

} // verus!
