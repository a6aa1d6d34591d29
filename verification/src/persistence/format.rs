//! Log format: header, bounded records and CRC-32/ISO-HDLC.

use super::layout::{DurableLayout, ROUTING_VERSION};
use crate::buffer::{append, as_slice, same_bytes, slice};
use crate::codec::{get, put_u32, put_u64};
use crate::storage::mutation::{Mutation, MutationModel, MutationOrigin, ResolvedBatch};
use crate::buffer;
use crate::codec;
use crate::storage::mutation;
use vstd::prelude::*;
use vstd::string::*;

pub use crate::codec::{checksum, snapshot_digest};

verus! {

pub const VERSION: u32 = 1;

pub const LAYOUT_VERSION: u32 = 2;

pub const HEADER_BYTES: usize = 24;

pub const LAYOUT_HEADER_BYTES: usize = 32;

pub const MAX_RECORD_BYTES: usize = 67108864;

/// The first bytes of a log.
pub open spec fn magic() -> Seq<u8> {
    "SIDERAOF".spec_bytes()
}

#[derive(Clone, Copy, Debug, PartialEq, Eq, Structural)]
pub struct Limits {
    pub max_record_bytes: usize,
    pub max_mutations: usize,
}

impl Default for Limits {
    fn default() -> (result: Self)
        ensures
            result == (Limits { max_record_bytes: 8388608, max_mutations: 100000 }),
    {
        Limits { max_record_bytes: 8 * 1024 * 1024, max_mutations: 100_000 }
    }
}

#[derive(Clone, Copy, Debug, PartialEq, Eq)]
pub enum FormatError {
    /// The header is invalid or incomplete.
    Header,
    /// The version is not supported.
    Version(u32),
    /// A record exceeds the limits.
    Limit,
    /// A record is corrupt.
    Corrupt(&'static str),
}

#[derive(Debug, PartialEq)]
pub enum Record {
    /// One entry of the snapshot that the log starts with.
    Snapshot(Mutation),
    /// The end of the snapshot: how many entries it has, and their digest.
    Seal { sequence: u64, entries: u64, digest: u32 },
    Batch { sequence: u64, batch: ResolvedBatch },
}

/// A record by content.
#[verifier::ext_equal]
pub enum RecordModel {
    Snapshot(MutationModel),
    Seal { sequence: u64, entries: u64, digest: u32 },
    Batch { sequence: u64, origin: MutationOrigin, mutations: Seq<MutationModel> },
}

impl Record {
    pub open spec fn model(self) -> RecordModel {
        match self {
            Record::Snapshot(mutation) => RecordModel::Snapshot(mutation.model()),
            Record::Seal { sequence, entries, digest } => RecordModel::Seal {
                sequence,
                entries,
                digest,
            },
            Record::Batch { sequence, batch } => RecordModel::Batch {
                sequence,
                origin: batch.origin,
                mutations: mutation::mutation_models(batch.mutations@),
            },
        }
    }

    /// All mutations are sound.
    pub open spec fn wf(&self) -> bool {
        match self {
            Record::Snapshot(mutation) => mutation.wf(),
            Record::Seal { .. } => true,
            Record::Batch { batch, .. } => mutation::all_sound(batch.mutations@),
        }
    }
}

/// What comes next in a log.
#[derive(Debug, PartialEq)]
pub enum Next {
    End,
    IncompleteTail,
    Record(Record),
}

/// What comes next, by content.
#[verifier::ext_equal]
pub enum NextModel {
    End,
    IncompleteTail,
    Record(RecordModel),
}

impl Next {
    pub open spec fn model(self) -> NextModel {
        match self {
            Next::End => NextModel::End,
            Next::IncompleteTail => NextModel::IncompleteTail,
            Next::Record(record) => NextModel::Record(record.model()),
        }
    }
}

/// Header without a layout.
pub open spec fn plain_header(sequence: u64) -> Seq<u8> {
    let fields = magic() + codec::le(VERSION as nat, 4) + codec::le(sequence as nat, 8);
    fields + codec::le(codec::crc32(fields) as nat, 4)
}

/// Header with a layout.
pub open spec fn layout_header(sequence: u64, layout: DurableLayout) -> Seq<u8> {
    let fields = magic() + codec::le(LAYOUT_VERSION as nat, 4) + codec::le(sequence as nat, 8) + codec::le(
        layout.shard_count as nat,
        4,
    ) + codec::le(layout.routing_version as nat, 4);
    fields + codec::le(codec::crc32(fields) as nat, 4)
}

/// Whether the first bytes are the magic, and the last four of `size` bytes
/// are the checksum of those before.
pub open spec fn header_holds(input: Seq<u8>, size: int) -> bool {
    &&& input.len() >= size
    &&& input.take(8) == magic()
    &&& codec::le_value(input.subrange(size - 4, size)) == codec::crc32(input.take(size - 4))
}

/// What reading a plain header gives.
pub open spec fn header_outcome(input: Seq<u8>) -> Result<u64, FormatError> {
    let version = codec::le_value(input.subrange(8, 12)) as u32;
    if !header_holds(input, HEADER_BYTES as int) {
        Err(FormatError::Header)
    } else if version != VERSION {
        Err(FormatError::Version(version))
    } else {
        Ok(codec::le_value(input.subrange(12, 20)) as u64)
    }
}

/// The header of a log.
#[derive(Clone, Copy, Debug, PartialEq, Eq, Structural)]
pub struct Header {
    pub layout: DurableLayout,
    pub sequence: u64,
    pub format_version: u32,
    /// How many bytes the header takes.
    pub bytes: usize,
}

/// What reading a header with or without a layout gives.
pub open spec fn layout_outcome(input: Seq<u8>) -> Result<Header, FormatError> {
    if input.len() >= HEADER_BYTES && input.take(8) == magic() && codec::le_value(input.subrange(8, 12))
        == LAYOUT_VERSION {
        if !header_holds(input, LAYOUT_HEADER_BYTES as int) {
            Err(FormatError::Header)
        } else {
            Ok(
                Header {
                    layout: DurableLayout {
                        shard_count: codec::le_value(input.subrange(20, 24)) as u32,
                        routing_version: codec::le_value(input.subrange(24, 28)) as u32,
                    },
                    sequence: codec::le_value(input.subrange(12, 20)) as u64,
                    format_version: LAYOUT_VERSION,
                    bytes: LAYOUT_HEADER_BYTES,
                },
            )
        }
    } else {
        match header_outcome(input) {
            Err(error) => Err(error),
            Ok(sequence) => Ok(
                Header {
                    layout: DurableLayout { shard_count: 1, routing_version: ROUTING_VERSION },
                    sequence,
                    format_version: VERSION,
                    bytes: HEADER_BYTES,
                },
            ),
        }
    }
}

proof fn lemma_magic()
    ensures
        magic().len() == 8,
{
    broadcast use is_ascii_spec_bytes;

    reveal_strlit("SIDERAOF");
    assert(is_ascii("SIDERAOF"));
}

/// A header with a layout takes as many bytes as it says.
pub proof fn lemma_header_size(sequence: u64, layout: DurableLayout)
    ensures
        layout_header(sequence, layout).len() == LAYOUT_HEADER_BYTES,
        plain_header(sequence).len() == HEADER_BYTES,
{
    lemma_magic();
    codec::lemma_le_len(VERSION as nat, 4);
    codec::lemma_le_len(LAYOUT_VERSION as nat, 4);
    codec::lemma_le_len(sequence as nat, 8);
    codec::lemma_le_len(layout.shard_count as nat, 4);
    codec::lemma_le_len(layout.routing_version as nat, 4);
    let plain = magic() + codec::le(VERSION as nat, 4) + codec::le(sequence as nat, 8);
    let full = magic() + codec::le(LAYOUT_VERSION as nat, 4) + codec::le(sequence as nat, 8)
        + codec::le(layout.shard_count as nat, 4) + codec::le(layout.routing_version as nat, 4);
    codec::lemma_le_len(codec::crc32(plain) as nat, 4);
    codec::lemma_le_len(codec::crc32(full) as nat, 4);
}

/// Appends a header without a layout.
pub fn write_header(output: &mut Vec<u8>, sequence: u64) -> (result: Result<(), FormatError>)
    ensures
        result is Ok,
        final(output)@ == old(output)@ + plain_header(sequence),
{
    let ghost before = output@;
    let mut header: Vec<u8> = Vec::new();
    append(&mut header, "SIDERAOF".as_bytes());
    put_u32(&mut header, VERSION);
    put_u64(&mut header, sequence);
    let sum: u32 = checksum(header.as_slice());
    put_u32(&mut header, sum);
    assert(header@ =~= plain_header(sequence));
    append(output, header.as_slice());
    Ok(())
}

/// Appends a header with the layout of the shards.
pub fn write_header_with_layout(output: &mut Vec<u8>, sequence: u64, layout: DurableLayout)
    ensures
        final(output)@ == old(output)@ + layout_header(sequence, layout),
{
    let mut header: Vec<u8> = Vec::new();
    append(&mut header, "SIDERAOF".as_bytes());
    put_u32(&mut header, LAYOUT_VERSION);
    put_u64(&mut header, sequence);
    put_u32(&mut header, layout.shard_count);
    put_u32(&mut header, layout.routing_version);
    let sum: u32 = checksum(header.as_slice());
    put_u32(&mut header, sum);
    assert(header@ =~= layout_header(sequence, layout));
    append(output, header.as_slice());
}

fn check_header(input: &[u8], size: usize) -> (result: bool)
    requires
        8 <= size - 4,
    ensures
        result == header_holds(input@, size as int),
{
    if input.len() < size {
        return false;
    }
    let start = vstd::slice::slice_subrange(input, 0, 8);
    assert(start@ =~= input@.take(8));
    if !same_bytes(start, "SIDERAOF".as_bytes()) {
        return false;
    }
    let fields = vstd::slice::slice_subrange(input, 0, size - 4);
    assert(fields@ =~= input@.take(size - 4));
    get(input, size - 4, size) == checksum(fields) as u64
}

/// Reads a header without a layout; returns its sequence.
pub fn read_header(input: &[u8]) -> (result: Result<u64, FormatError>)
    ensures
        result == header_outcome(input@),
{
    if !check_header(input, HEADER_BYTES) {
        return Err(FormatError::Header);
    }
    proof {
        codec::lemma_le_bound(input@.subrange(8, 12));
        codec::lemma_pow256();
    }
    let version: u32 = get(input, 8, 12) as u32;
    if version != VERSION {
        return Err(FormatError::Version(version));
    }
    Ok(get(input, 12, 20))
}

/// Reads a header with or without a layout.
pub fn read_header_with_layout(input: &[u8]) -> (result: Result<Header, FormatError>)
    ensures
        result == layout_outcome(input@),
{
    proof {
        lemma_magic();
        codec::lemma_pow256();
    }
    let mut with_layout = false;
    if input.len() >= HEADER_BYTES {
        let start = vstd::slice::slice_subrange(input, 0, 8);
        assert(start@ =~= input@.take(8));
        with_layout = same_bytes(start, "SIDERAOF".as_bytes()) && get(input, 8, 12)
            == LAYOUT_VERSION as u64;
    }
    if with_layout {
        if !check_header(input, LAYOUT_HEADER_BYTES) {
            return Err(FormatError::Header);
        }
        proof {
            codec::lemma_le_bound(input@.subrange(20, 24));
            codec::lemma_le_bound(input@.subrange(24, 28));
        }
        return Ok(
            Header {
                layout: DurableLayout {
                    shard_count: get(input, 20, 24) as u32,
                    routing_version: get(input, 24, 28) as u32,
                },
                sequence: get(input, 12, 20),
                format_version: LAYOUT_VERSION,
                bytes: LAYOUT_HEADER_BYTES,
            },
        );
    }
    match read_header(input) {
        Err(error) => Err(error),
        Ok(sequence) => Ok(
            Header {
                layout: DurableLayout::default(),
                sequence,
                format_version: VERSION,
                bytes: HEADER_BYTES,
            },
        ),
    }
}

/// A header that was written is read back.
pub proof fn law_headers_are_read_back(sequence: u64, layout: DurableLayout, rest: Seq<u8>)
    ensures
        header_outcome(plain_header(sequence) + rest) == Ok::<u64, FormatError>(sequence),
        layout_outcome(layout_header(sequence, layout) + rest) == Ok::<Header, FormatError>(
            Header {
                layout,
                sequence,
                format_version: LAYOUT_VERSION,
                bytes: LAYOUT_HEADER_BYTES,
            },
        ),
{
    lemma_magic();
    codec::lemma_le_u32(VERSION);
    codec::lemma_le_u32(LAYOUT_VERSION);
    codec::lemma_le_u64(sequence);
    codec::lemma_le_u32(layout.shard_count);
    codec::lemma_le_u32(layout.routing_version);
    let fields = magic() + codec::le(VERSION as nat, 4) + codec::le(sequence as nat, 8);
    codec::lemma_le_u32(codec::crc32(fields));
    let plain = plain_header(sequence) + rest;
    assert(plain.take(8) =~= magic());
    assert(plain.subrange(8, 12) =~= codec::le(VERSION as nat, 4));
    assert(plain.subrange(12, 20) =~= codec::le(sequence as nat, 8));
    assert(plain.subrange(20, 24) =~= codec::le(codec::crc32(fields) as nat, 4));
    assert(plain.take(20) =~= fields);
    let more = magic() + codec::le(LAYOUT_VERSION as nat, 4) + codec::le(sequence as nat, 8) + codec::le(
        layout.shard_count as nat,
        4,
    ) + codec::le(layout.routing_version as nat, 4);
    codec::lemma_le_u32(codec::crc32(more));
    let full = layout_header(sequence, layout) + rest;
    assert(full.take(8) =~= magic());
    assert(full.subrange(8, 12) =~= codec::le(LAYOUT_VERSION as nat, 4));
    assert(full.subrange(12, 20) =~= codec::le(sequence as nat, 8));
    assert(full.subrange(20, 24) =~= codec::le(layout.shard_count as nat, 4));
    assert(full.subrange(24, 28) =~= codec::le(layout.routing_version as nat, 4));
    assert(full.subrange(28, 32) =~= codec::le(codec::crc32(more) as nat, 4));
    assert(full.take(28) =~= more);
}

/// A header is read the same way, whatever follows it.
pub proof fn lemma_header_goes_on(image: Seq<u8>, rest: Seq<u8>)
    requires
        layout_outcome(image) is Ok,
    ensures
        layout_outcome(image + rest) == layout_outcome(image),
        layout_outcome(image)->Ok_0.bytes <= image.len(),
{
    let longer = image + rest;
    assert(longer.take(8) =~= image.take(8));
    assert(longer.subrange(8, 12) =~= image.subrange(8, 12));
    assert(longer.subrange(12, 20) =~= image.subrange(12, 20));
    assert(longer.subrange(20, 24) =~= image.subrange(20, 24));
    if image.len() >= LAYOUT_HEADER_BYTES {
        assert(longer.subrange(24, 28) =~= image.subrange(24, 28));
        assert(longer.subrange(28, 32) =~= image.subrange(28, 32));
        assert(longer.take(28) =~= image.take(28));
    }
    assert(longer.take(20) =~= image.take(20));
}

/// Headers with one changed byte are refused, wherever in them the byte stands
/// and whatever follows. A header with a layout whose version was changed is read as
/// one without; it is refused too unless its number of shards happens to be the
/// checksum of what stands before that number.
pub proof fn law_changed_headers_are_rejected(
    sequence: u64,
    layout: DurableLayout,
    rest: Seq<u8>,
    place: int,
    byte: u8,
)
    requires
        0 <= place,
    ensures
        place < HEADER_BYTES && plain_header(sequence)[place] != byte ==> header_outcome(
            plain_header(sequence).update(place, byte) + rest,
        ) == Err::<u64, FormatError>(FormatError::Header),
        place < LAYOUT_HEADER_BYTES && layout_header(sequence, layout)[place] != byte && (8 <= place
            < 12 ==> layout.shard_count != codec::crc32(
            layout_header(sequence, layout).update(place, byte).take(20),
        )) ==> layout_outcome(layout_header(sequence, layout).update(place, byte) + rest) == Err::<
            Header,
            FormatError,
        >(FormatError::Header),
{
    lemma_header_size(sequence, layout);
    law_headers_are_read_back(sequence, layout, Seq::empty());
    lemma_magic();
    let plain = plain_header(sequence);
    let full = layout_header(sequence, layout);
    assert(plain + Seq::<u8>::empty() =~= plain);
    assert(full + Seq::<u8>::empty() =~= full);
    if place < HEADER_BYTES && plain[place] != byte {
        lemma_changed_header(plain, rest, HEADER_BYTES as int, place, byte);
    }
    if place < LAYOUT_HEADER_BYTES && full[place] != byte {
        let other = full.update(place, byte) + rest;
        lemma_changed_header(full, rest, LAYOUT_HEADER_BYTES as int, place, byte);
        if place < 8 {
            assert(other.take(8)[place] == byte);
            assert(full.take(8)[place] == full[place]);
        } else {
            assert(other.take(8) =~= full.take(8));
        }
        if 8 <= place < 12 {
            assert(other.subrange(8, 12) =~= full.subrange(8, 12).update(place - 8, byte));
            codec::lemma_le_changes(full.subrange(8, 12), place - 8, byte);
            assert(other.subrange(20, 24) =~= full.subrange(20, 24));
            codec::lemma_le_bound(full.subrange(20, 24));
            codec::lemma_pow256();
            assert(other.take(20) =~= full.update(place, byte).take(20));
        } else {
            assert(other.subrange(8, 12) =~= full.subrange(8, 12));
        }
    }
}

/// A header with one changed byte no longer agrees with its checksum.
proof fn lemma_changed_header(header: Seq<u8>, rest: Seq<u8>, size: int, place: int, byte: u8)
    requires
        header.len() == size,
        12 <= size,
        header_holds(header, size),
        0 <= place < size,
        header[place] != byte,
    ensures
        !header_holds(header.update(place, byte) + rest, size),
{
    let other = header.update(place, byte) + rest;
    let fields = header.take(size - 4);
    if place < size - 4 {
        assert(other.take(size - 4) =~= fields.update(place, byte));
        assert(other.subrange(size - 4, size) =~= header.subrange(size - 4, size));
        codec::law_checksum_detects_a_changed_byte(fields, place, byte);
    } else {
        let sum = header.subrange(size - 4, size);
        assert(other.take(size - 4) =~= fields);
        assert(other.subrange(size - 4, size) =~= sum.update(place - (size - 4), byte));
        codec::lemma_le_changes(sum, place - (size - 4), byte);
    }
}

/// A header that is read is the one that is written with what was read.
pub proof fn law_read_headers_were_written(input: Seq<u8>)
    ensures
        header_outcome(input) matches Ok(sequence) ==> plain_header(sequence).is_prefix_of(input),
        layout_outcome(input) matches Ok(header) ==> if header.bytes == LAYOUT_HEADER_BYTES {
            layout_header(header.sequence, header.layout).is_prefix_of(input)
        } else {
            plain_header(header.sequence).is_prefix_of(input)
        },
{
    lemma_magic();
    codec::lemma_pow256();
    if input.len() >= HEADER_BYTES {
        codec::lemma_le_bytes(input.subrange(8, 12));
        codec::lemma_le_bound(input.subrange(8, 12));
        codec::lemma_le_bytes(input.subrange(12, 20));
        codec::lemma_le_bound(input.subrange(12, 20));
        codec::lemma_le_bytes(input.subrange(20, 24));
        codec::lemma_le_bound(input.subrange(20, 24));
        assert(input.take(20) =~= input.take(8) + input.subrange(8, 12) + input.subrange(12, 20));
        if header_outcome(input) is Ok {
            assert(input.take(24) =~= input.take(20) + input.subrange(20, 24));
            assert(plain_header(header_outcome(input)->Ok_0) =~= input.take(24));
        }
    }
    if input.len() >= LAYOUT_HEADER_BYTES {
        codec::lemma_le_bytes(input.subrange(24, 28));
        codec::lemma_le_bound(input.subrange(24, 28));
        codec::lemma_le_bytes(input.subrange(28, 32));
        if layout_outcome(input) is Ok {
            let header = layout_outcome(input)->Ok_0;
            if header.bytes == LAYOUT_HEADER_BYTES {
                assert(input.take(28) =~= input.take(20) + input.subrange(20, 24) + input.subrange(
                    24,
                    28,
                ));
                assert(input.take(32) =~= input.take(28) + input.subrange(28, 32));
                assert(layout_header(header.sequence, header.layout) =~= input.take(32));
            }
        }
    }
}

} // verus!
