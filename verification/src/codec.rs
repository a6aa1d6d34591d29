//! Little-endian integers, joined chunks and CRC-32, shared by the log and the
//! replication protocol.

use crate::buffer::append;
use vstd::prelude::*;

verus! {

/// How many values this many bytes have.
pub open spec fn pow256(count: nat) -> nat
    decreases count,
{
    if count == 0 {
        1
    } else {
        256 * pow256((count - 1) as nat)
    }
}

/// The number in this many bytes, the least significant first.
pub open spec fn le(value: nat, count: nat) -> Seq<u8>
    decreases count,
{
    if count == 0 {
        Seq::empty()
    } else {
        seq![(value % 256) as u8] + le(value / 256, (count - 1) as nat)
    }
}

/// The number that bytes stand for, the least significant first.
pub open spec fn le_value(bytes: Seq<u8>) -> nat
    decreases bytes.len(),
{
    if bytes.len() == 0 {
        0
    } else {
        bytes[0] as nat + 256 * le_value(bytes.skip(1))
    }
}

/// A signed number as an unsigned one of the same bits.
pub open spec fn unsigned(value: i64) -> nat {
    if value < 0 {
        (value + 0x1_0000_0000_0000_0000) as nat
    } else {
        value as nat
    }
}

/// The signed number with these bits.
pub open spec fn signed(bits: nat) -> i64 {
    if bits > i64::MAX {
        (bits - 0x1_0000_0000_0000_0000) as i64
    } else {
        bits as i64
    }
}

/// Bytes hold the number that was put in.
pub proof fn lemma_le_value(value: nat, count: nat)
    requires
        value < pow256(count),
    ensures
        le(value, count).len() == count,
        le_value(le(value, count)) == value,
    decreases count,
{
    if count > 0 {
        assert(value / 256 < pow256((count - 1) as nat)) by (nonlinear_arith)
            requires
                value < 256 * pow256((count - 1) as nat),
        ;
        lemma_le_value(value / 256, (count - 1) as nat);
        assert(le(value, count).skip(1) =~= le(value / 256, (count - 1) as nat));
    }
}

pub proof fn lemma_le_len(value: nat, count: nat)
    ensures
        le(value, count).len() == count,
    decreases count,
{
    if count > 0 {
        lemma_le_len(value / 256, (count - 1) as nat);
    }
}

/// This many bytes hold no greater number.
pub proof fn lemma_le_bound(bytes: Seq<u8>)
    ensures
        le_value(bytes) < pow256(bytes.len()),
    decreases bytes.len(),
{
    if bytes.len() > 0 {
        lemma_le_bound(bytes.skip(1));
    }
}

/// Bytes are those of the number that they hold.
pub proof fn lemma_le_bytes(bytes: Seq<u8>)
    ensures
        le(le_value(bytes), bytes.len()) == bytes,
    decreases bytes.len(),
{
    if bytes.len() > 0 {
        let rest = bytes.skip(1);
        let value = le_value(bytes);
        lemma_le_bytes(rest);
        assert(value % 256 == bytes[0] && value / 256 == le_value(rest));
        assert(bytes =~= seq![bytes[0]] + rest);
    }
    assert(le(le_value(bytes), bytes.len()) =~= bytes);
}

/// Other bytes hold another number.
pub proof fn lemma_le_changes(bytes: Seq<u8>, place: int, byte: u8)
    requires
        0 <= place < bytes.len(),
        bytes[place] != byte,
    ensures
        le_value(bytes.update(place, byte)) != le_value(bytes),
{
    let other = bytes.update(place, byte);
    lemma_le_bytes(bytes);
    lemma_le_bytes(other);
    assert(other[place] == byte);
}

/// The numbers that two, four and eight bytes hold.
pub proof fn lemma_pow256()
    ensures
        pow256(1) == 0x100,
        pow256(2) == 0x1_0000,
        pow256(4) == 0x1_0000_0000,
        pow256(8) == 0x1_0000_0000_0000_0000,
{
    reveal_with_fuel(pow256, 9);
}

/// Values fit the width of their types.
pub proof fn lemma_le_u16(value: u16)
    ensures
        le(value as nat, 2).len() == 2,
        le_value(le(value as nat, 2)) == value,
{
    lemma_pow256();
    lemma_le_value(value as nat, 2);
}

pub proof fn lemma_le_u32(value: u32)
    ensures
        le(value as nat, 4).len() == 4,
        le_value(le(value as nat, 4)) == value,
{
    lemma_pow256();
    lemma_le_value(value as nat, 4);
}

pub proof fn lemma_le_u64(value: u64)
    ensures
        le(value as nat, 8).len() == 8,
        le_value(le(value as nat, 8)) == value,
{
    lemma_pow256();
    lemma_le_value(value as nat, 8);
}

pub proof fn lemma_le_i64(value: i64)
    ensures
        unsigned(value) <= u64::MAX,
        le(unsigned(value), 8).len() == 8,
        signed(le_value(le(unsigned(value), 8))) == value,
{
    lemma_pow256();
    lemma_le_value(unsigned(value), 8);
}

/// Appends a number in this many bytes.
pub fn put(output: &mut Vec<u8>, value: u64, count: usize)
    ensures
        final(output)@ == old(output)@ + le(value as nat, count as nat),
{
    let ghost before = output@;
    let mut left: u64 = value;
    let mut index: usize = 0;
    assert(before + le(value as nat, count as nat) =~= output@ + le(left as nat, count as nat));
    while index < count
        invariant
            index <= count,
            before + le(value as nat, count as nat) == output@ + le(
                left as nat,
                (count - index) as nat,
            ),
        decreases count - index,
    {
        let ghost part = output@;
        output.push((left % 256) as u8);
        proof {
            assert(part + le(left as nat, (count - index) as nat) =~= output@ + le(
                (left / 256) as nat,
                (count - index - 1) as nat,
            ));
        }
        left = left / 256;
        index += 1;
    }
    assert(output@ + le(left as nat, 0) =~= output@);
}

pub fn put_u16(output: &mut Vec<u8>, value: u16)
    ensures
        final(output)@ == old(output)@ + le(value as nat, 2),
{
    put(output, value as u64, 2)
}

pub fn put_u32(output: &mut Vec<u8>, value: u32)
    ensures
        final(output)@ == old(output)@ + le(value as nat, 4),
{
    put(output, value as u64, 4)
}

pub fn put_u64(output: &mut Vec<u8>, value: u64)
    ensures
        final(output)@ == old(output)@ + le(value as nat, 8),
{
    put(output, value, 8)
}

pub fn put_i64(output: &mut Vec<u8>, value: i64)
    ensures
        final(output)@ == old(output)@ + le(unsigned(value), 8),
{
    if value < 0 {
        let bits: u64 = ((value as i128) + 0x1_0000_0000_0000_0000) as u64;
        put(output, bits, 8)
    } else {
        put(output, value as u64, 8)
    }
}

/// Reads the number that the bytes from `start` to `end` stand for.
pub fn get(bytes: &[u8], start: usize, end: usize) -> (result: u64)
    requires
        start <= end <= bytes@.len(),
        end - start <= 8,
    ensures
        result == le_value(bytes@.subrange(start as int, end as int)),
{
    let mut result: u64 = 0;
    let mut index: usize = end;
    assert(bytes@.subrange(end as int, end as int) =~= Seq::<u8>::empty());
    while index > start
        invariant
            start <= index <= end <= bytes@.len(),
            end - start <= 8,
            result == le_value(bytes@.subrange(index as int, end as int)),
        decreases index - start,
    {
        proof {
            let rest = bytes@.subrange(index as int, end as int);
            let more = bytes@.subrange(index - 1, end as int);
            lemma_le_bound(more);
            assert(more.skip(1) =~= rest);
            lemma_pow256_grows(more.len(), 8);
            lemma_pow256();
        }
        index -= 1;
        result = (bytes[index] as u64) + 256 * result;
    }
    result
}

proof fn lemma_pow256_grows(small: nat, large: nat)
    requires
        small <= large,
    ensures
        pow256(small) <= pow256(large),
        pow256(small) > 0,
    decreases large,
{
    if small < large {
        lemma_pow256_grows(small, (large - 1) as nat);
    } else if small > 0 {
        lemma_pow256_grows((small - 1) as nat, (large - 1) as nat);
    }
}

/// The signed number with these bits.
pub fn to_signed(bits: u64) -> (result: i64)
    ensures
        result == signed(bits as nat),
{
    if bits > i64::MAX as u64 {
        ((bits as i128) - 0x1_0000_0000_0000_0000) as i64
    } else {
        bits as i64
    }
}

/// A text with its length before it, in four bytes.
pub open spec fn blob(text: Seq<u8>) -> Seq<u8> {
    le(text.len(), 4) + text
}

/// Appends a text with its length before it.
pub fn put_blob(output: &mut Vec<u8>, text: &[u8])
    requires
        text@.len() <= u32::MAX,
    ensures
        final(output)@ == old(output)@ + blob(text@),
{
    let ghost before = output@;
    put_u32(output, text.len() as u32);
    append(output, text);
    assert(output@ =~= before + blob(text@));
}

/// Chunks one after the other.
pub open spec fn joined(chunks: Seq<Seq<u8>>) -> Seq<u8>
    decreases chunks.len(),
{
    if chunks.len() == 0 {
        Seq::empty()
    } else {
        joined(chunks.drop_last()) + chunks.last()
    }
}

/// Chunks after the first one follow it.
pub proof fn lemma_joined_front(chunks: Seq<Seq<u8>>)
    requires
        chunks.len() > 0,
    ensures
        joined(chunks) == chunks[0] + joined(chunks.skip(1)),
    decreases chunks.len(),
{
    let rest = chunks.skip(1);
    if chunks.len() == 1 {
        assert(chunks.drop_last() =~= Seq::<Seq<u8>>::empty());
        assert(rest =~= Seq::<Seq<u8>>::empty());
        assert(joined(chunks) =~= chunks[0]);
    } else {
        lemma_joined_front(chunks.drop_last());
        assert(chunks.drop_last().skip(1) =~= rest.drop_last());
        assert(rest.last() == chunks.last());
        assert(joined(chunks) =~= chunks[0] + joined(rest));
    }
}

/// Chunks up to one of them come before the others.
pub proof fn lemma_joined_grows(chunks: Seq<Seq<u8>>, count: int)
    requires
        0 <= count <= chunks.len(),
    ensures
        joined(chunks.take(count)).len() <= joined(chunks).len(),
        count < chunks.len() ==> joined(chunks.take(count + 1)) == joined(chunks.take(count))
            + chunks[count] && joined(chunks.take(count)).len() + chunks[count].len() <= joined(
            chunks,
        ).len(),
    decreases chunks.len() - count,
{
    if count < chunks.len() {
        lemma_joined_grows(chunks, count + 1);
        assert(chunks.take(count + 1).drop_last() =~= chunks.take(count));
        assert(chunks.take(count + 1).last() == chunks[count]);
    } else {
        assert(chunks.take(count) =~= chunks);
    }
}

/// One bit of the reflected CRC-32 division.
pub open spec fn crc_bit(crc: u32) -> u32 {
    if crc & 1 != 0 {
        (crc >> 1) ^ 0xedb88320
    } else {
        crc >> 1
    }
}

/// Several bits of the division.
pub open spec fn crc_bits(crc: u32, count: nat) -> u32
    decreases count,
{
    if count == 0 {
        crc
    } else {
        crc_bit(crc_bits(crc, (count - 1) as nat))
    }
}

/// The state after one more byte.
pub open spec fn crc_byte(crc: u32, byte: u8) -> u32 {
    crc_bits(crc ^ (byte as u32), 8)
}

/// The state after more bytes.
pub open spec fn crc_state(crc: u32, bytes: Seq<u8>) -> u32
    decreases bytes.len(),
{
    if bytes.len() == 0 {
        crc
    } else {
        crc_byte(crc_state(crc, bytes.drop_last()), bytes.last())
    }
}

/// CRC-32/ISO-HDLC.
pub open spec fn crc32(bytes: Seq<u8>) -> u32 {
    !crc_state(0xffff_ffff, bytes)
}

/// The checksum of what was summed before, followed by these bytes.
pub open spec fn crc32_after(previous: u32, bytes: Seq<u8>) -> u32 {
    !crc_state(!previous, bytes)
}

fn advance(state: u32, bytes: &[u8]) -> (result: u32)
    ensures
        result == crc_state(state, bytes@),
{
    let mut crc: u32 = state;
    let mut index: usize = 0;
    assert(bytes@.take(0) =~= Seq::<u8>::empty());
    while index < bytes.len()
        invariant
            index <= bytes@.len(),
            crc == crc_state(state, bytes@.take(index as int)),
        decreases bytes@.len() - index,
    {
        let ghost before = crc;
        let byte: u8 = bytes[index];
        crc = crc ^ (byte as u32);
        let ghost first = crc;
        let mut bit: usize = 0;
        while bit < 8
            invariant
                bit <= 8,
                crc == crc_bits(first, bit as nat),
            decreases 8 - bit,
        {
            crc = if crc & 1 != 0 {
                (crc >> 1) ^ 0xedb88320
            } else {
                crc >> 1
            };
            bit += 1;
        }
        assert(bytes@.take(index + 1).drop_last() =~= bytes@.take(index as int));
        index += 1;
    }
    assert(bytes@.take(index as int) =~= bytes@);
    crc
}

/// CRC-32/ISO-HDLC, reflected polynomial 0xedb88320; detects corruption and
/// does not authenticate content.
pub fn checksum(bytes: &[u8]) -> (result: u32)
    ensures
        result == crc32(bytes@),
{
    !advance(0xffff_ffff, bytes)
}

/// Goes on with a checksum over more bytes.
pub fn snapshot_digest(previous: u32, bytes: &[u8]) -> (result: u32)
    ensures
        result == crc32_after(previous, bytes@),
{
    !advance(!previous, bytes)
}

proof fn lemma_crc_state_joins(crc: u32, first: Seq<u8>, second: Seq<u8>)
    ensures
        crc_state(crc, first + second) == crc_state(crc_state(crc, first), second),
    decreases second.len(),
{
    let all = first + second;
    if second.len() == 0 {
        assert(all =~= first);
    } else {
        assert(all.drop_last() =~= first + second.drop_last());
        lemma_crc_state_joins(crc, first, second.drop_last());
    }
}

/// Going on with a checksum gives the checksum of all bytes together.
pub proof fn law_digest_goes_on(first: Seq<u8>, second: Seq<u8>)
    ensures
        crc32_after(crc32(first), second) == crc32(first + second),
        crc32_after(0, second) == crc32(second),
{
    let state = crc_state(0xffff_ffff, first);
    lemma_crc_state_joins(0xffff_ffff, first, second);
    assert(!!state == state) by (bit_vector);
    assert(!0u32 == 0xffff_ffffu32) by (bit_vector);
}

proof fn lemma_crc_bit_injective(left: u32, right: u32)
    requires
        crc_bit(left) == crc_bit(right),
    ensures
        left == right,
{
    assert(left == right) by (bit_vector)
        requires
            (if left & 1 != 0 {
                (left >> 1) ^ 0xedb88320
            } else {
                left >> 1
            }) == (if right & 1 != 0 {
                (right >> 1) ^ 0xedb88320
            } else {
                right >> 1
            }),
    ;
}

proof fn lemma_crc_bits_injective(left: u32, right: u32, count: nat)
    requires
        crc_bits(left, count) == crc_bits(right, count),
    ensures
        left == right,
    decreases count,
{
    if count > 0 {
        lemma_crc_bit_injective(
            crc_bits(left, (count - 1) as nat),
            crc_bits(right, (count - 1) as nat),
        );
        lemma_crc_bits_injective(left, right, (count - 1) as nat);
    }
}

proof fn lemma_crc_state_injective(left: u32, right: u32, bytes: Seq<u8>)
    requires
        crc_state(left, bytes) == crc_state(right, bytes),
    ensures
        left == right,
    decreases bytes.len(),
{
    if bytes.len() > 0 {
        let a = crc_state(left, bytes.drop_last());
        let b = crc_state(right, bytes.drop_last());
        let byte = bytes.last() as u32;
        lemma_crc_bits_injective(a ^ byte, b ^ byte, 8);
        assert(a == b) by (bit_vector)
            requires
                a ^ byte == b ^ byte,
        ;
        lemma_crc_state_injective(left, right, bytes.drop_last());
    }
}

/// A single changed byte changes the checksum.
pub proof fn law_checksum_detects_a_changed_byte(bytes: Seq<u8>, place: int, byte: u8)
    requires
        0 <= place < bytes.len(),
        bytes[place] != byte,
    ensures
        crc32(bytes.update(place, byte)) != crc32(bytes),
{
    let other = bytes.update(place, byte);
    let head = bytes.take(place);
    let tail = bytes.skip(place + 1);
    let state = crc_state(0xffff_ffff, head);
    let left = crc_byte(state, bytes[place]);
    let right = crc_byte(state, byte);
    assert(bytes =~= (head + seq![bytes[place]]) + tail);
    assert(other =~= (head + seq![byte]) + tail);
    assert((head + seq![bytes[place]]).drop_last() =~= head);
    assert((head + seq![byte]).drop_last() =~= head);
    lemma_crc_state_joins(0xffff_ffff, head + seq![bytes[place]], tail);
    lemma_crc_state_joins(0xffff_ffff, head + seq![byte], tail);
    if crc32(other) == crc32(bytes) {
        let a = crc_state(0xffff_ffff, bytes);
        let b = crc_state(0xffff_ffff, other);
        assert(a == b) by (bit_vector)
            requires
                !a == !b,
        ;
        lemma_crc_state_injective(left, right, tail);
        let x = bytes[place] as u32;
        let y = byte as u32;
        lemma_crc_bits_injective(state ^ x, state ^ y, 8);
        assert(x == y) by (bit_vector)
            requires
                state ^ x == state ^ y,
        ;
    }
}

} // verus!
