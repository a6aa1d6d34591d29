//! SHA-256 sums and hexadecimal text.

use super::limits::{Error, MANIFEST, MAX_BACKUP_BYTES, SNAPSHOT};
use crate::buffer::append;
use sha2::{Digest, Sha256};
use vstd::prelude::*;
use vstd::string::*;

verus! {

/// The SHA-256 sum of a text.
pub uninterp spec fn sha256_of(text: Seq<u8>) -> Seq<u8>;

/// `Sha256::digest`: the 32 bytes of the sum, which the text alone decides.
#[verifier::external_body]
fn sha256(text: &[u8]) -> (sum: [u8; 32])
    ensures
        sum@ == sha256_of(text@),
{
    Sha256::digest(text).into()
}

/// The small hexadecimal digit of a value below sixteen.
pub open spec fn hex_digit(value: int) -> u8 {
    if value < 10 {
        (48 + value) as u8
    } else {
        (87 + value) as u8
    }
}

/// Two digits for each byte, the greater part first.
pub open spec fn hex(bytes: Seq<u8>) -> Seq<u8> {
    Seq::new(
        2 * bytes.len(),
        |i: int|
            if i % 2 == 0 {
                hex_digit(bytes[i / 2] as int / 16)
            } else {
                hex_digit(bytes[i / 2] as int % 16)
            },
    )
}

/// Whether a byte is a small hexadecimal digit.
pub open spec fn is_hex_digit(byte: u8) -> bool {
    48 <= byte <= 57 || 97 <= byte <= 102
}

/// Whether a text is made of this many small hexadecimal digits.
pub open spec fn is_hex(text: Seq<u8>, size: nat) -> bool {
    &&& text.len() == size
    &&& forall|i: int| 0 <= i < text.len() ==> is_hex_digit(#[trigger] text[i])
}

/// The value of a small hexadecimal digit.
pub open spec fn digit_value(byte: u8) -> int {
    if byte <= 57 {
        byte - 48
    } else {
        byte - 87
    }
}

/// The bytes that hexadecimal text stands for.
pub open spec fn unhex(text: Seq<u8>) -> Seq<u8> {
    Seq::new(
        text.len() / 2,
        |i: int| (digit_value(text[2 * i]) * 16 + digit_value(text[2 * i + 1])) as u8,
    )
}

/// Text written from bytes is hexadecimal and stands for them.
pub proof fn law_hexadecimal_is_read_back(bytes: Seq<u8>)
    ensures
        is_hex(hex(bytes), 2 * bytes.len()),
        unhex(hex(bytes)) == bytes,
{
    let text = hex(bytes);
    assert forall|i: int| 0 <= i < text.len() implies is_hex_digit(#[trigger] text[i]) by {
        let byte = bytes[i / 2];
        assert(0 <= byte as int / 16 < 16);
    }
    assert forall|i: int| 0 <= i < bytes.len() implies unhex(text)[i] == #[trigger] bytes[i] by {
        let byte = bytes[i];
        assert((2 * i) / 2 == i && (2 * i + 1) / 2 == i);
        assert((2 * i) % 2 == 0 && (2 * i + 1) % 2 == 1);
        assert(text[2 * i] == hex_digit(byte as int / 16));
        assert(text[2 * i + 1] == hex_digit(byte as int % 16));
    }
    assert(unhex(text) =~= bytes);
}

fn digit(value: u8) -> (result: u8)
    requires
        value < 16,
    ensures
        result == hex_digit(value as int),
{
    if value < 10 {
        48 + value
    } else {
        87 + value
    }
}

/// Writes bytes as hexadecimal text.
pub fn hex_text(bytes: &[u8]) -> (text: Vec<u8>)
    ensures
        text@ == hex(bytes@),
{
    let mut text: Vec<u8> = Vec::new();
    let mut index: usize = 0;
    while index < bytes.len()
        invariant
            index <= bytes@.len(),
            text@ == hex(bytes@.take(index as int)),
        decreases bytes@.len() - index,
    {
        let byte: u8 = bytes[index];
        text.push(digit(byte / 16));
        text.push(digit(byte % 16));
        index += 1;
        assert(text@ =~= hex(bytes@.take(index as int)));
    }
    assert(bytes@.take(index as int) =~= bytes@);
    text
}

fn value_of(byte: u8) -> (result: u8)
    requires
        is_hex_digit(byte),
    ensures
        result == digit_value(byte),
        result < 16,
{
    if byte <= 57 {
        byte - 48
    } else {
        byte - 87
    }
}

/// Reads an epoch from hexadecimal text.
pub fn read_hex(text: &[u8]) -> (result: [u8; 16])
    requires
        is_hex(text@, 32),
    ensures
        result@ == unhex(text@),
{
    let mut bytes: [u8; 16] = [0; 16];
    let mut index: usize = 0;
    while index < 16
        invariant
            index <= 16,
            is_hex(text@, 32),
            forall|i: int| 0 <= i < index ==> #[trigger] bytes@[i] == unhex(text@)[i],
        decreases 16 - index,
    {
        assert(is_hex_digit(text@[2 * index as int]));
        assert(is_hex_digit(text@[2 * index as int + 1]));
        let value: u8 = value_of(text[2 * index]) * 16 + value_of(text[2 * index + 1]);
        bytes[index] = value;
        index += 1;
    }
    assert(bytes@ =~= unhex(text@));
    bytes
}

/// Refuses a text that is not made of this many small hexadecimal digits.
pub fn require_hex(text: &[u8], size: usize) -> (result: Result<(), Error>)
    ensures
        result == if is_hex(text@, size as nat) {
            Ok::<(), Error>(())
        } else {
            Err(Error::Invalid("hash ou identidade hexadecimal"))
        },
{
    if text.len() != size {
        return Err(Error::Invalid("hash ou identidade hexadecimal"));
    }
    let mut index: usize = 0;
    while index < text.len()
        invariant
            index <= text@.len(),
            forall|i: int| 0 <= i < index ==> is_hex_digit(#[trigger] text@[i]),
        decreases text@.len() - index,
    {
        let byte: u8 = text[index];
        if !(byte >= 48 && byte <= 57 || byte >= 97 && byte <= 102) {
            assert(!is_hex_digit(text@[index as int]));
            return Err(Error::Invalid("hash ou identidade hexadecimal"));
        }
        index += 1;
    }
    Ok(())
}

/// The sum of a snapshot and its size; a snapshot above the ceiling has none.
pub fn hash_image(image: &[u8]) -> (result: Result<(Vec<u8>, u64), Error>)
    ensures
        if image@.len() > MAX_BACKUP_BYTES {
            result == Err::<(Vec<u8>, u64), Error>(Error::Invalid("arquivo excede teto de backup"))
        } else {
            result matches Ok((sum, size)) && sum@ == hex(sha256_of(image@)) && size == image@.len()
        },
{
    let size: u64 = image.len() as u64;
    if size > MAX_BACKUP_BYTES {
        return Err(Error::Invalid("arquivo excede teto de backup"));
    }
    let sum: [u8; 32] = sha256(image);
    Ok((hex_text(sum.as_slice()), size))
}

/// One line of sums: two spaces stand between the sum and the name.
pub open spec fn sum_line(sum: Seq<u8>, name: Seq<u8>) -> Seq<u8> {
    sum + seq![32u8, 32u8] + name + seq![10u8]
}

/// The sums of a backup.
pub open spec fn sums(manifest: Seq<u8>, snapshot_hash: Seq<u8>) -> Seq<u8> {
    sum_line(hex(sha256_of(manifest)), MANIFEST.spec_bytes()) + sum_line(
        snapshot_hash,
        SNAPSHOT.spec_bytes(),
    )
}

/// Writes the sums of a backup.
pub fn checksums(manifest: &[u8], snapshot_hash: &[u8]) -> (text: Vec<u8>)
    ensures
        text@ == sums(manifest@, snapshot_hash@),
{
    let sum: [u8; 32] = sha256(manifest);
    let mut text: Vec<u8> = hex_text(sum.as_slice());
    text.push(32);
    text.push(32);
    append(&mut text, MANIFEST.as_bytes());
    text.push(10);
    append(&mut text, snapshot_hash);
    text.push(32);
    text.push(32);
    append(&mut text, SNAPSHOT.as_bytes());
    text.push(10);
    assert(text@ =~= sums(manifest@, snapshot_hash@));
    text
}

} // verus!
