//! Records of the log.

use super::format::{
    FormatError, Limits, Next, NextModel, Record, RecordModel, MAX_RECORD_BYTES,
};
use crate::buffer::{append, as_slice, copy_from_slice, length, slice};
use crate::codec::{checksum, get, put_blob, put_i64, put_u32, put_u64, to_signed};
use crate::command::score::Score;
use crate::ordered::{position, ByteMap, Position};
use crate::storage::mutation::{Mutation, MutationModel, MutationOrigin, ResolvedBatch};
use crate::storage::value::{ScoreModel, SortedSet, Value, ValueModel};
use bytes::Bytes;
use crate::buffer;
use crate::codec;
use crate::ordered;
use crate::storage::collections;
use crate::storage::mutation;
use crate::storage::value;
use vstd::prelude::*;

verus! {

/// A flag and a time, zero when there is none.
pub open spec fn deadline_wire(expires_at_unix_ms: Option<i64>) -> Seq<u8> {
    match expires_at_unix_ms {
        None => seq![0u8] + codec::le(0, 8),
        Some(deadline) => seq![1u8] + codec::le(codec::unsigned(deadline), 8),
    }
}

/// Fields and values of a hash, in the order of the fields.
pub open spec fn field_chunks(keys: Seq<Seq<u8>>, fields: Map<Seq<u8>, Seq<u8>>) -> Seq<Seq<u8>> {
    Seq::new(keys.len(), |i: int| codec::blob(keys[i]) + codec::blob(fields[keys[i]]))
}

/// Members of a sorted set with their scores, in the order of the members.
pub open spec fn member_chunks(
    keys: Seq<Seq<u8>>,
    members: Map<Seq<u8>, ScoreModel>,
) -> Seq<Seq<u8>> {
    Seq::new(
        keys.len(),
        |i: int|
            codec::blob(keys[i]) + (codec::le(codec::unsigned(members[keys[i]].order), 8) + codec::blob(members[keys[i]].text)),
    )
}

/// What stands between the key and the deadline.
pub open spec fn value_wire(value: ValueModel) -> Seq<u8> {
    match value {
        ValueModel::Text(text) => codec::blob(text),
        ValueModel::Hash(fields) => {
            let keys = ordered::listing(fields.dom());
            codec::le(keys.len(), 4) + codec::joined(field_chunks(keys, fields))
        },
        ValueModel::SortedSet(members) => {
            let keys = ordered::listing(members.dom());
            codec::le(keys.len(), 4) + codec::joined(member_chunks(keys, members))
        },
    }
}

/// The number that tells the kind of a value.
pub open spec fn value_tag(value: ValueModel) -> u8 {
    match value {
        ValueModel::Text(_) => 1,
        ValueModel::Hash(_) => 3,
        ValueModel::SortedSet(_) => 4,
    }
}

/// The bytes of a mutation.
pub open spec fn mutation_wire(mutation: MutationModel) -> Seq<u8> {
    match mutation {
        MutationModel::Put { key, value, expires_at_unix_ms } => seq![value_tag(value)] + (codec::blob(key)
            + (value_wire(value) + deadline_wire(expires_at_unix_ms))),
        MutationModel::Delete { key } => seq![2u8] + codec::blob(key),
    }
}

pub open spec fn mutation_chunks(mutations: Seq<MutationModel>) -> Seq<Seq<u8>> {
    mutations.map_values(|mutation: MutationModel| mutation_wire(mutation))
}

pub open spec fn origin_tag(origin: MutationOrigin) -> u8 {
    match origin {
        MutationOrigin::Client => 1,
        MutationOrigin::Expiration => 2,
    }
}

/// The bytes of a record after its prefix.
pub open spec fn record_body(record: RecordModel) -> Seq<u8> {
    match record {
        RecordModel::Snapshot(mutation) => seq![1u8] + mutation_wire(mutation),
        RecordModel::Seal { sequence, entries, digest } => seq![2u8] + (codec::le(sequence as nat, 8) + (
        codec::le(entries as nat, 8) + codec::le(digest as nat, 4))),
        RecordModel::Batch { sequence, origin, mutations } => seq![3u8] + (codec::le(sequence as nat, 8)
            + (seq![origin_tag(origin)] + (codec::le(mutations.len(), 4) + codec::joined(
            mutation_chunks(mutations),
        )))),
    }
}

/// A body with its length, the complement of that, and its checksum before it.
pub open spec fn framed(body: Seq<u8>) -> Seq<u8> {
    codec::le(body.len(), 4) + (codec::le((0xffff_ffff - body.len()) as nat, 4) + (codec::le(codec::crc32(body) as nat, 4)
        + body))
}

/// The bytes of a record.
pub open spec fn record_wire(record: RecordModel) -> Seq<u8> {
    framed(record_body(record))
}

/// Whether a record may have a body of this size.
pub open spec fn size_allowed(size: int, limits: Limits) -> bool {
    size <= limits.max_record_bytes && size <= MAX_RECORD_BYTES
}

/// Whether the record can be written: a batch holds at least one mutation and
/// not too many, and the body is not too long.
pub open spec fn encodable(record: RecordModel, limits: Limits) -> bool {
    &&& record matches RecordModel::Batch { mutations, .. } ==> 0 < mutations.len()
        <= limits.max_mutations
    &&& size_allowed(record_body(record).len() as int, limits)
}

/// The first bytes and those after them.
pub open spec fn split(input: Seq<u8>, count: nat) -> Result<(Seq<u8>, Seq<u8>), FormatError> {
    if count <= input.len() {
        Ok((input.take(count as int), input.skip(count as int)))
    } else {
        Err(FormatError::Corrupt("comprimento interno"))
    }
}

pub open spec fn parse_byte(input: Seq<u8>) -> Result<(u8, Seq<u8>), FormatError> {
    match split(input, 1) {
        Err(error) => Err(error),
        Ok((bytes, rest)) => Ok((bytes[0], rest)),
    }
}

/// A number of this many bytes.
pub open spec fn parse_number(input: Seq<u8>, count: nat) -> Result<(nat, Seq<u8>), FormatError> {
    match split(input, count) {
        Err(error) => Err(error),
        Ok((bytes, rest)) => Ok((codec::le_value(bytes), rest)),
    }
}

pub open spec fn parse_blob(input: Seq<u8>) -> Result<(Seq<u8>, Seq<u8>), FormatError> {
    match parse_number(input, 4) {
        Err(error) => Err(error),
        Ok((size, rest)) => split(rest, size),
    }
}

pub open spec fn parse_deadline(input: Seq<u8>) -> Result<(Option<i64>, Seq<u8>), FormatError> {
    match parse_byte(input) {
        Err(error) => Err(error),
        Ok((flag, rest)) => match parse_number(rest, 8) {
            Err(error) => Err(error),
            Ok((bits, rest)) => if flag == 0 && bits == 0 {
                Ok((None, rest))
            } else if flag == 1 {
                Ok((Some(codec::signed(bits)), rest))
            } else {
                Err(FormatError::Corrupt("deadline"))
            },
        },
    }
}

/// Whether the key may follow the previous one.
pub open spec fn follows(previous: Option<Seq<u8>>, key: Seq<u8>) -> bool {
    previous matches Some(before) ==> ordered::precedes(before, key)
}

/// Fields and values; each field comes after the one before.
pub open spec fn parse_fields(
    input: Seq<u8>,
    count: nat,
    previous: Option<Seq<u8>>,
    fields: Map<Seq<u8>, Seq<u8>>,
) -> Result<(Map<Seq<u8>, Seq<u8>>, Seq<u8>), FormatError>
    decreases count,
{
    if count == 0 {
        Ok((fields, input))
    } else {
        match parse_blob(input) {
            Err(error) => Err(error),
            Ok((field, rest)) => match parse_blob(rest) {
                Err(error) => Err(error),
                Ok((value, rest)) => if !follows(previous, field) {
                    Err(FormatError::Corrupt("coleção"))
                } else {
                    parse_fields(
                        rest,
                        (count - 1) as nat,
                        Some(field),
                        fields.insert(field, value),
                    )
                },
            },
        }
    }
}

/// Members with their scores; each member comes after the one before.
pub open spec fn parse_members(
    input: Seq<u8>,
    count: nat,
    previous: Option<Seq<u8>>,
    members: Map<Seq<u8>, ScoreModel>,
) -> Result<(Map<Seq<u8>, ScoreModel>, Seq<u8>), FormatError>
    decreases count,
{
    if count == 0 {
        Ok((members, input))
    } else {
        match parse_blob(input) {
            Err(error) => Err(error),
            Ok((member, rest)) => match parse_number(rest, 8) {
                Err(error) => Err(error),
                Ok((order, rest)) => match parse_blob(rest) {
                    Err(error) => Err(error),
                    Ok((text, rest)) => if !follows(previous, member) {
                        Err(FormatError::Corrupt("coleção"))
                    } else {
                        parse_members(
                            rest,
                            (count - 1) as nat,
                            Some(member),
                            members.insert(member, ScoreModel { order: codec::signed(order), text }),
                        )
                    },
                },
            },
        }
    }
}

/// The value that follows the key, by the tag before the key.
pub open spec fn parse_value(input: Seq<u8>, tag: u8) -> Result<
    (ValueModel, Seq<u8>),
    FormatError,
> {
    if tag == 1 {
        match parse_blob(input) {
            Err(error) => Err(error),
            Ok((text, rest)) => Ok((ValueModel::Text(text), rest)),
        }
    } else if tag == 3 || tag == 4 {
        match parse_number(input, 4) {
            Err(error) => Err(error),
            Ok((count, rest)) => if count == 0 {
                Err(FormatError::Corrupt("coleção"))
            } else if tag == 3 {
                match parse_fields(rest, count, None, Map::empty()) {
                    Err(error) => Err(error),
                    Ok((fields, rest)) => Ok((ValueModel::Hash(fields), rest)),
                }
            } else {
                match parse_members(rest, count, None, Map::empty()) {
                    Err(error) => Err(error),
                    Ok((members, rest)) => Ok((ValueModel::SortedSet(members), rest)),
                }
            },
        }
    } else {
        Err(FormatError::Corrupt("tipo de mutação"))
    }
}

pub open spec fn parse_mutation(input: Seq<u8>) -> Result<(MutationModel, Seq<u8>), FormatError> {
    match parse_byte(input) {
        Err(error) => Err(error),
        Ok((tag, rest)) => match parse_blob(rest) {
            Err(error) => Err(error),
            Ok((key, rest)) => if tag == 2 {
                Ok((MutationModel::Delete { key }, rest))
            } else {
                match parse_value(rest, tag) {
                    Err(error) => Err(error),
                    Ok((value, rest)) => match parse_deadline(rest) {
                        Err(error) => Err(error),
                        Ok((expires_at_unix_ms, rest)) => Ok(
                            (MutationModel::Put { key, value, expires_at_unix_ms }, rest),
                        ),
                    },
                }
            },
        },
    }
}

pub open spec fn parse_mutations(
    input: Seq<u8>,
    count: nat,
    mutations: Seq<MutationModel>,
) -> Result<(Seq<MutationModel>, Seq<u8>), FormatError>
    decreases count,
{
    if count == 0 {
        Ok((mutations, input))
    } else {
        match parse_mutation(input) {
            Err(error) => Err(error),
            Ok((mutation, rest)) => parse_mutations(
                rest,
                (count - 1) as nat,
                mutations.push(mutation),
            ),
        }
    }
}

/// A batch: sequence, origin, count and mutations.
pub open spec fn parse_batch(input: Seq<u8>, limits: Limits) -> Result<
    (RecordModel, Seq<u8>),
    FormatError,
> {
    match parse_number(input, 8) {
        Err(error) => Err(error),
        Ok((sequence, rest)) => match parse_byte(rest) {
            Err(error) => Err(error),
            Ok((tag, rest)) => if tag != 1 && tag != 2 {
                Err(FormatError::Corrupt("origem"))
            } else {
                match parse_number(rest, 4) {
                    Err(error) => Err(error),
                    Ok((count, rest)) => if count == 0 || count > limits.max_mutations || count
                        > rest.len() / 5 {
                        Err(FormatError::Limit)
                    } else {
                        match parse_mutations(rest, count, Seq::empty()) {
                            Err(error) => Err(error),
                            Ok((mutations, rest)) => Ok(
                                (
                                    RecordModel::Batch {
                                        sequence: sequence as u64,
                                        origin: if tag == 1 {
                                            MutationOrigin::Client
                                        } else {
                                            MutationOrigin::Expiration
                                        },
                                        mutations,
                                    },
                                    rest,
                                ),
                            ),
                        }
                    },
                }
            },
        },
    }
}

/// The end of a snapshot: sequence, count and digest.
pub open spec fn parse_seal(input: Seq<u8>) -> Result<(RecordModel, Seq<u8>), FormatError> {
    match parse_number(input, 8) {
        Err(error) => Err(error),
        Ok((sequence, rest)) => match parse_number(rest, 8) {
            Err(error) => Err(error),
            Ok((entries, rest)) => match parse_number(rest, 4) {
                Err(error) => Err(error),
                Ok((digest, rest)) => Ok(
                    (
                        RecordModel::Seal {
                            sequence: sequence as u64,
                            entries: entries as u64,
                            digest: digest as u32,
                        },
                        rest,
                    ),
                ),
            },
        },
    }
}

/// The record in a body, up to what comes after it.
pub open spec fn parse_some(body: Seq<u8>, limits: Limits) -> Result<
    (RecordModel, Seq<u8>),
    FormatError,
> {
    match parse_byte(body) {
        Err(error) => Err(error),
        Ok((tag, rest)) => if tag == 1 {
            match parse_mutation(rest) {
                Err(error) => Err(error),
                Ok((mutation, rest)) => Ok((RecordModel::Snapshot(mutation), rest)),
            }
        } else if tag == 2 {
            parse_seal(rest)
        } else if tag == 3 {
            parse_batch(rest, limits)
        } else {
            Err(FormatError::Corrupt("tipo de registro"))
        },
    }
}

/// The record that a body holds; nothing may follow it.
#[verifier::opaque]
pub open spec fn parse_record(body: Seq<u8>, limits: Limits) -> Result<RecordModel, FormatError> {
    match parse_some(body, limits) {
        Err(error) => Err(error),
        Ok((record, rest)) => if rest.len() != 0 {
            Err(FormatError::Corrupt("bytes extras"))
        } else {
            Ok(record)
        },
    }
}

/// The size that a prefix announces.
pub open spec fn announced(input: Seq<u8>, limits: Limits) -> Result<nat, FormatError> {
    let size = codec::le_value(input.subrange(0, 4));
    if codec::le_value(input.subrange(4, 8)) != 0xffff_ffff - size {
        Err(FormatError::Corrupt("comprimento"))
    } else if size == 0 || !size_allowed(size as int, limits) {
        Err(FormatError::Limit)
    } else {
        Ok(size)
    }
}

/// The record of a prefix and its body.
pub open spec fn body_outcome(prefix: Seq<u8>, body: Seq<u8>, limits: Limits) -> Result<
    RecordModel,
    FormatError,
> {
    if codec::crc32(body) != codec::le_value(prefix.subrange(8, 12)) {
        Err(FormatError::Corrupt("checksum"))
    } else {
        parse_record(body, limits)
    }
}

/// What comes next in a log from here on.
pub open spec fn next_outcome(input: Seq<u8>, limits: Limits) -> Result<NextModel, FormatError> {
    if input.len() == 0 {
        Ok(NextModel::End)
    } else if input.len() < 12 {
        Ok(NextModel::IncompleteTail)
    } else {
        match announced(input, limits) {
            Err(error) => Err(error),
            Ok(size) => if input.len() < 12 + size {
                Ok(NextModel::IncompleteTail)
            } else {
                match body_outcome(input.take(12), input.subrange(12, 12 + size as int), limits) {
                    Err(error) => Err(error),
                    Ok(record) => Ok(NextModel::Record(record)),
                }
            },
        }
    }
}

/// The size of some bytes with those of two texts added, unless it is more
/// than a record can have.
fn grown(size: usize, extra: usize) -> (result: Option<usize>)
    requires
        size <= MAX_RECORD_BYTES,
    ensures
        match result {
            Some(sum) => sum == size + extra && sum <= MAX_RECORD_BYTES,
            None => size + extra > MAX_RECORD_BYTES,
        },
{
    if extra > MAX_RECORD_BYTES - size {
        None
    } else {
        Some(size + extra)
    }
}

fn fields_size(fields: &ByteMap<Bytes>) -> (result: Option<usize>)
    requires
        fields.wf(),
    ensures
        ({
            let model = value::contents(fields@);
            let size = codec::joined(field_chunks(ordered::listing(model.dom()), model)).len();
            match result {
                Some(count) => count == size && count <= MAX_RECORD_BYTES,
                None => size > MAX_RECORD_BYTES,
            }
        }),
{
    let ghost model = value::contents(fields@);
    let ghost keys = ordered::listing(model.dom());
    let ghost chunks = field_chunks(keys, model);
    proof {
        fields.lemma_keys();
        assert(model.dom() =~= fields@.dom());
        assert(chunks.take(0) =~= Seq::<Seq<u8>>::empty());
    }
    let mut size: usize = 0;
    let mut index: usize = 0;
    while index < fields.items.len()
        invariant
            fields.wf(),
            model == value::contents(fields@),
            keys == fields.keys(),
            keys == ordered::listing(model.dom()),
            chunks == field_chunks(keys, model),
            index <= fields.items@.len(),
            size <= MAX_RECORD_BYTES,
            size == codec::joined(chunks.take(index as int)).len(),
        decreases fields.items@.len() - index,
    {
        proof {
            fields.lemma_at(index as int);
            codec::lemma_joined_grows(chunks, index as int);
            codec::lemma_joined_grows(chunks, index + 1);
            codec::lemma_le_len(keys[index as int].len(), 4);
            codec::lemma_le_len(model[keys[index as int]].len(), 4);
        }
        let item = &fields.items[index];
        size = match grown(size, length(&item.0)) {
            None => return None,
            Some(sum) => sum,
        };
        size = match grown(size, length(&item.1)) {
            None => return None,
            Some(sum) => sum,
        };
        size = match grown(size, 8) {
            None => return None,
            Some(sum) => sum,
        };
        index += 1;
    }
    assert(chunks.take(index as int) =~= chunks);
    Some(size)
}

fn members_size(members: &ByteMap<Score>) -> (result: Option<usize>)
    requires
        members.wf(),
    ensures
        ({
            let model = members@.map_values(|score: Score| score.model());
            let size = codec::joined(member_chunks(ordered::listing(model.dom()), model)).len();
            match result {
                Some(count) => count == size && count <= MAX_RECORD_BYTES,
                None => size > MAX_RECORD_BYTES,
            }
        }),
{
    let ghost model = members@.map_values(|score: Score| score.model());
    let ghost keys = ordered::listing(model.dom());
    let ghost chunks = member_chunks(keys, model);
    proof {
        members.lemma_keys();
        assert(model.dom() =~= members@.dom());
        assert(chunks.take(0) =~= Seq::<Seq<u8>>::empty());
    }
    let mut size: usize = 0;
    let mut index: usize = 0;
    while index < members.items.len()
        invariant
            members.wf(),
            model == members@.map_values(|score: Score| score.model()),
            keys == members.keys(),
            keys == ordered::listing(model.dom()),
            chunks == member_chunks(keys, model),
            index <= members.items@.len(),
            size <= MAX_RECORD_BYTES,
            size == codec::joined(chunks.take(index as int)).len(),
        decreases members.items@.len() - index,
    {
        proof {
            members.lemma_at(index as int);
            codec::lemma_joined_grows(chunks, index as int);
            codec::lemma_joined_grows(chunks, index + 1);
            codec::lemma_le_len(keys[index as int].len(), 4);
            codec::lemma_le_len(model[keys[index as int]].text.len(), 4);
            codec::lemma_le_len(codec::unsigned(model[keys[index as int]].order), 8);
        }
        let item = &members.items[index];
        size = match grown(size, length(&item.0)) {
            None => return None,
            Some(sum) => sum,
        };
        size = match grown(size, length(&item.1.text)) {
            None => return None,
            Some(sum) => sum,
        };
        size = match grown(size, 16) {
            None => return None,
            Some(sum) => sum,
        };
        index += 1;
    }
    assert(chunks.take(index as int) =~= chunks);
    Some(size)
}

/// How many bytes a mutation takes, unless it is more than a record can have.
fn mutation_size(mutation: &Mutation) -> (result: Option<usize>)
    requires
        mutation.wf(),
    ensures
        match result {
            Some(size) => size == mutation_wire(mutation.model()).len() && size <= MAX_RECORD_BYTES,
            None => mutation_wire(mutation.model()).len() > MAX_RECORD_BYTES,
        },
{
    let size: usize = match grown(5, length(mutation.key())) {
        None => {
            proof {
                lemma_chunk_size(mutation.model());
                codec::lemma_le_len(mutation.model().key().len(), 4);
            }
            return None;
        },
        Some(size) => size,
    };
    proof {
        codec::lemma_le_len(mutation.model().key().len(), 4);
    }
    match mutation {
        Mutation::Delete { .. } => Some(size),
        Mutation::Put { value, expires_at_unix_ms, .. } => {
            proof {
                lemma_deadline(*expires_at_unix_ms, Seq::empty());
            }
            let payload: usize = match value {
                Value::String(text) => {
                    proof {
                        codec::lemma_le_len(buffer::bytes_content(*text).len(), 4);
                    }
                    length(text)
                },
                Value::Hash(fields) => {
                    proof {
                        codec::lemma_le_len(
                            ordered::listing(value::contents(fields@).dom()).len(),
                            4,
                        );
                    }
                    match fields_size(fields) {
                        None => return None,
                        Some(size) => size,
                    }
                },
                Value::SortedSet(members) => {
                    proof {
                        codec::lemma_le_len(ordered::listing(members@.dom()).len(), 4);
                    }
                    match members_size(members.by_member()) {
                        None => return None,
                        Some(size) => size,
                    }
                },
            };
            match grown(size, payload) {
                None => None,
                Some(sum) => grown(sum, 13),
            }
        },
    }
}

fn encode_fields(output: &mut Vec<u8>, fields: &ByteMap<Bytes>)
    requires
        fields.wf(),
        value_wire(ValueModel::Hash(value::contents(fields@))).len() <= u32::MAX,
    ensures
        final(output)@ == old(output)@ + value_wire(ValueModel::Hash(value::contents(fields@))),
{
    let ghost model = value::contents(fields@);
    let ghost keys = ordered::listing(model.dom());
    let ghost chunks = field_chunks(keys, model);
    let ghost before = output@;
    proof {
        fields.lemma_keys();
        assert(model.dom() =~= fields@.dom());
        assert(chunks.take(0) =~= Seq::<Seq<u8>>::empty());
        codec::lemma_le_len(keys.len(), 4);
        lemma_value_count(ValueModel::Hash(model));
    }
    put_u32(output, fields.items.len() as u32);
    let ghost start = output@;
    assert(start + codec::joined(chunks.take(0)) =~= start);
    let mut index: usize = 0;
    while index < fields.items.len()
        invariant
            fields.wf(),
            model == value::contents(fields@),
            keys == fields.keys(),
            keys == ordered::listing(model.dom()),
            chunks == field_chunks(keys, model),
            codec::joined(chunks).len() <= u32::MAX,
            index <= fields.items@.len(),
            output@ == start + codec::joined(chunks.take(index as int)),
        decreases fields.items@.len() - index,
    {
        proof {
            fields.lemma_at(index as int);
            codec::lemma_joined_grows(chunks, index as int);
            codec::lemma_le_len(keys[index as int].len(), 4);
            codec::lemma_le_len(model[keys[index as int]].len(), 4);
        }
        let item = &fields.items[index];
        let ghost part = output@;
        put_blob(output, as_slice(&item.0));
        put_blob(output, as_slice(&item.1));
        assert(output@ =~= part + chunks[index as int]);
        assert(output@ =~= start + codec::joined(chunks.take(index + 1)));
        index += 1;
    }
    assert(chunks.take(index as int) =~= chunks);
    assert(output@ =~= before + value_wire(ValueModel::Hash(model)));
}

fn encode_members(output: &mut Vec<u8>, members: &ByteMap<Score>)
    requires
        members.wf(),
        value_wire(
            ValueModel::SortedSet(members@.map_values(|score: Score| score.model())),
        ).len() <= u32::MAX,
    ensures
        final(output)@ == old(output)@ + value_wire(
            ValueModel::SortedSet(members@.map_values(|score: Score| score.model())),
        ),
{
    let ghost model = members@.map_values(|score: Score| score.model());
    let ghost keys = ordered::listing(model.dom());
    let ghost chunks = member_chunks(keys, model);
    let ghost before = output@;
    proof {
        members.lemma_keys();
        assert(model.dom() =~= members@.dom());
        assert(chunks.take(0) =~= Seq::<Seq<u8>>::empty());
        codec::lemma_le_len(keys.len(), 4);
        lemma_value_count(ValueModel::SortedSet(model));
    }
    put_u32(output, members.items.len() as u32);
    let ghost start = output@;
    assert(start + codec::joined(chunks.take(0)) =~= start);
    let mut index: usize = 0;
    while index < members.items.len()
        invariant
            members.wf(),
            model == members@.map_values(|score: Score| score.model()),
            keys == members.keys(),
            keys == ordered::listing(model.dom()),
            chunks == member_chunks(keys, model),
            codec::joined(chunks).len() <= u32::MAX,
            index <= members.items@.len(),
            output@ == start + codec::joined(chunks.take(index as int)),
        decreases members.items@.len() - index,
    {
        proof {
            members.lemma_at(index as int);
            codec::lemma_joined_grows(chunks, index as int);
            codec::lemma_le_len(keys[index as int].len(), 4);
            codec::lemma_le_len(model[keys[index as int]].text.len(), 4);
        }
        let item = &members.items[index];
        let ghost part = output@;
        put_blob(output, as_slice(&item.0));
        put_i64(output, item.1.order);
        put_blob(output, as_slice(&item.1.text));
        assert(output@ =~= part + chunks[index as int]);
        assert(output@ =~= start + codec::joined(chunks.take(index + 1)));
        index += 1;
    }
    assert(chunks.take(index as int) =~= chunks);
    assert(output@ =~= before + value_wire(ValueModel::SortedSet(model)));
}

/// A collection has no more items than bytes.
proof fn lemma_value_count(value: ValueModel)
    ensures
        match value {
            ValueModel::Text(_) => true,
            ValueModel::Hash(fields) => ordered::listing(fields.dom()).len() <= value_wire(
                value,
            ).len(),
            ValueModel::SortedSet(members) => ordered::listing(members.dom()).len() <= value_wire(
                value,
            ).len(),
        },
{
    match value {
        ValueModel::Text(_) => {},
        ValueModel::Hash(fields) => {
            let keys = ordered::listing(fields.dom());
            let chunks = field_chunks(keys, fields);
            assert forall|i: int| 0 <= i < chunks.len() implies (#[trigger] chunks[i]).len() >= 1 by {
                codec::lemma_le_len(keys[i].len(), 4);
            }
            lemma_chunks_count(chunks, 1);
        },
        ValueModel::SortedSet(members) => {
            let keys = ordered::listing(members.dom());
            let chunks = member_chunks(keys, members);
            assert forall|i: int| 0 <= i < chunks.len() implies (#[trigger] chunks[i]).len() >= 1 by {
                codec::lemma_le_len(keys[i].len(), 4);
            }
            lemma_chunks_count(chunks, 1);
        },
    }
}

fn encode_mutation(output: &mut Vec<u8>, mutation: &Mutation)
    requires
        mutation.wf(),
        mutation_wire(mutation.model()).len() <= u32::MAX,
    ensures
        final(output)@ == old(output)@ + mutation_wire(mutation.model()),
{
    let ghost before = output@;
    proof {
        codec::lemma_le_len(mutation.model().key().len(), 4);
    }
    match mutation {
        Mutation::Delete { key } => {
            output.push(2);
            put_blob(output, as_slice(key));
        },
        Mutation::Put { key, value, expires_at_unix_ms } => {
            output.push(
                match value {
                    Value::String(_) => 1,
                    Value::Hash(_) => 3,
                    Value::SortedSet(_) => 4,
                },
            );
            put_blob(output, as_slice(key));
            match value {
                Value::String(text) => {
                    proof {
                        codec::lemma_le_len(buffer::bytes_content(*text).len(), 4);
                    }
                    put_blob(output, as_slice(text));
                },
                Value::Hash(fields) => encode_fields(output, fields),
                Value::SortedSet(members) => encode_members(output, members.by_member()),
            }
            match expires_at_unix_ms {
                None => {
                    output.push(0);
                    put_u64(output, 0);
                },
                Some(deadline) => {
                    output.push(1);
                    put_i64(output, *deadline);
                },
            }
        },
    }
    assert(output@ =~= before + mutation_wire(mutation.model()));
}

/// How many bytes the mutations take after some others, unless it is more than
/// a record can have.
fn mutations_size(start: usize, mutations: &Vec<Mutation>) -> (result: Option<usize>)
    requires
        start <= MAX_RECORD_BYTES,
        mutation::all_sound(mutations@),
    ensures
        ({
            let size = start + codec::joined(
                mutation_chunks(mutation::mutation_models(mutations@)),
            ).len();
            match result {
                Some(count) => count == size && count <= MAX_RECORD_BYTES,
                None => size > MAX_RECORD_BYTES,
            }
        }),
{
    let ghost chunks = mutation_chunks(mutation::mutation_models(mutations@));
    let mut size: usize = start;
    let mut index: usize = 0;
    assert(chunks.take(0) =~= Seq::<Seq<u8>>::empty());
    while index < mutations.len()
        invariant
            start <= MAX_RECORD_BYTES,
            mutation::all_sound(mutations@),
            chunks == mutation_chunks(mutation::mutation_models(mutations@)),
            index <= mutations@.len(),
            size <= MAX_RECORD_BYTES,
            size == start + codec::joined(chunks.take(index as int)).len(),
        decreases mutations@.len() - index,
    {
        proof {
            codec::lemma_joined_grows(chunks, index as int);
            codec::lemma_joined_grows(chunks, index + 1);
            assert(chunks[index as int] == mutation_wire(mutations@[index as int].model()));
        }
        let more: usize = match mutation_size(&mutations[index]) {
            None => return None,
            Some(more) => more,
        };
        size = match grown(size, more) {
            None => return None,
            Some(sum) => sum,
        };
        index += 1;
    }
    assert(chunks.take(index as int) =~= chunks);
    Some(size)
}

fn encode_mutations(output: &mut Vec<u8>, mutations: &Vec<Mutation>)
    requires
        mutation::all_sound(mutations@),
        codec::joined(mutation_chunks(mutation::mutation_models(mutations@))).len() <= u32::MAX,
    ensures
        final(output)@ == old(output)@ + codec::joined(
            mutation_chunks(mutation::mutation_models(mutations@)),
        ),
{
    let ghost chunks = mutation_chunks(mutation::mutation_models(mutations@));
    let ghost start = output@;
    let mut index: usize = 0;
    assert(chunks.take(0) =~= Seq::<Seq<u8>>::empty());
    assert(start + codec::joined(chunks.take(0)) =~= start);
    while index < mutations.len()
        invariant
            mutation::all_sound(mutations@),
            chunks == mutation_chunks(mutation::mutation_models(mutations@)),
            codec::joined(chunks).len() <= u32::MAX,
            index <= mutations@.len(),
            output@ == start + codec::joined(chunks.take(index as int)),
        decreases mutations@.len() - index,
    {
        proof {
            codec::lemma_joined_grows(chunks, index as int);
            assert(chunks[index as int] == mutation_wire(mutations@[index as int].model()));
        }
        let ghost part = output@;
        encode_mutation(output, &mutations[index]);
        assert(output@ =~= start + codec::joined(chunks.take(index + 1)));
        index += 1;
    }
    assert(chunks.take(index as int) =~= chunks);
}

/// How many bytes the body of a record takes, unless it is more than any
/// record can have.
fn body_size(record: &Record) -> (result: Option<usize>)
    requires
        record.wf(),
    ensures
        match result {
            Some(size) => size == record_body(record.model()).len() && size <= MAX_RECORD_BYTES,
            None => record_body(record.model()).len() > MAX_RECORD_BYTES,
        },
{
    match record {
        Record::Snapshot(mutation) => match mutation_size(mutation) {
            None => None,
            Some(size) => grown(1, size),
        },
        Record::Seal { sequence, entries, digest } => {
            proof {
                codec::lemma_le_len(*sequence as nat, 8);
                codec::lemma_le_len(*entries as nat, 8);
                codec::lemma_le_len(*digest as nat, 4);
            }
            Some(21)
        },
        Record::Batch { sequence, batch } => {
            proof {
                codec::lemma_le_len(*sequence as nat, 8);
                codec::lemma_le_len(batch.mutations@.len(), 4);
            }
            mutations_size(14, &batch.mutations)
        },
    }
}

fn encode_body(record: &Record) -> (body: Vec<u8>)
    requires
        record.wf(),
        record_body(record.model()).len() <= MAX_RECORD_BYTES,
    ensures
        body@ == record_body(record.model()),
{
    let mut body: Vec<u8> = Vec::new();
    match record {
        Record::Snapshot(mutation) => {
            body.push(1);
            encode_mutation(&mut body, mutation);
        },
        Record::Seal { sequence, entries, digest } => {
            body.push(2);
            put_u64(&mut body, *sequence);
            put_u64(&mut body, *entries);
            put_u32(&mut body, *digest);
        },
        Record::Batch { sequence, batch } => {
            let ghost models = mutation::mutation_models(batch.mutations@);
            proof {
                let chunks = mutation_chunks(models);
                assert forall|i: int| 0 <= i < chunks.len() implies (#[trigger] chunks[i]).len()
                    >= 5 by {
                    lemma_chunk_size(models[i]);
                }
                lemma_chunks_count(chunks, 5);
            }
            body.push(3);
            put_u64(&mut body, *sequence);
            body.push(
                match batch.origin {
                    MutationOrigin::Client => 1,
                    MutationOrigin::Expiration => 2,
                },
            );
            put_u32(&mut body, batch.mutations.len() as u32);
            encode_mutations(&mut body, &batch.mutations);
        },
    }
    assert(body@ =~= record_body(record.model()));
    body
}

/// The bytes of a record. Its size is known before anything is written.
pub fn encode(record: &Record, limits: Limits) -> (result: Result<Vec<u8>, FormatError>)
    requires
        record.wf(),
    ensures
        if encodable(record.model(), limits) {
            result matches Ok(output) && output@ == record_wire(record.model())
        } else {
            result == Err::<Vec<u8>, FormatError>(FormatError::Limit)
        },
{
    if let Record::Batch { batch, .. } = record {
        if batch.mutations.len() == 0 || batch.mutations.len() > limits.max_mutations {
            return Err(FormatError::Limit);
        }
    }
    let size: usize = match body_size(record) {
        None => return Err(FormatError::Limit),
        Some(size) => size,
    };
    if size > limits.max_record_bytes {
        return Err(FormatError::Limit);
    }
    let body = encode_body(record);
    let mut output: Vec<u8> = Vec::new();
    put_u32(&mut output, size as u32);
    put_u32(&mut output, 0xffff_ffff - size as u32);
    put_u32(&mut output, checksum(body.as_slice()));
    append(&mut output, body.as_slice());
    assert(output@ =~= record_wire(record.model()));
    Ok(output)
}

/// A place in the bytes of a record.
struct Cursor {
    bytes: Bytes,
    offset: usize,
}

impl Cursor {
    spec fn wf(&self) -> bool {
        self.offset <= buffer::bytes_content(self.bytes).len()
    }

    /// What has not been read yet.
    spec fn rest(&self) -> Seq<u8> {
        buffer::bytes_content(self.bytes).skip(self.offset as int)
    }

    fn take(&mut self, count: usize) -> (result: Result<Bytes, FormatError>)
        requires
            old(self).wf(),
        ensures
            final(self).wf(),
            match (result, split(old(self).rest(), count as nat)) {
                (Ok(bytes), Ok((head, rest))) => buffer::bytes_content(bytes) == head && final(self).rest()
                    == rest,
                (Err(error), Err(fault)) => error == fault,
                _ => false,
            },
    {
        let size: usize = length(&self.bytes);
        if count > size - self.offset {
            return Err(FormatError::Corrupt("comprimento interno"));
        }
        let end: usize = self.offset + count;
        let part = slice(&self.bytes, self.offset, end);
        proof {
            let all = buffer::bytes_content(self.bytes);
            assert(all.subrange(self.offset as int, end as int) =~= self.rest().take(count as int));
            assert(all.skip(end as int) =~= self.rest().skip(count as int));
        }
        self.offset = end;
        Ok(part)
    }

    fn byte(&mut self) -> (result: Result<u8, FormatError>)
        requires
            old(self).wf(),
        ensures
            final(self).wf(),
            match (result, parse_byte(old(self).rest())) {
                (Ok(byte), Ok((value, rest))) => byte == value && final(self).rest() == rest,
                (Err(error), Err(fault)) => error == fault,
                _ => false,
            },
    {
        match self.take(1) {
            Err(error) => Err(error),
            Ok(bytes) => Ok(as_slice(&bytes)[0]),
        }
    }

    fn word(&mut self) -> (result: Result<u32, FormatError>)
        requires
            old(self).wf(),
        ensures
            final(self).wf(),
            match (result, parse_number(old(self).rest(), 4)) {
                (Ok(number), Ok((value, rest))) => number == value && final(self).rest() == rest,
                (Err(error), Err(fault)) => error == fault,
                _ => false,
            },
    {
        match self.take(4) {
            Err(error) => Err(error),
            Ok(bytes) => {
                proof {
                    codec::lemma_le_bound(buffer::bytes_content(bytes));
                    codec::lemma_pow256();
                    assert(buffer::bytes_content(bytes).subrange(0, 4) =~= buffer::bytes_content(bytes));
                }
                Ok(get(as_slice(&bytes), 0, 4) as u32)
            },
        }
    }

    fn double_word(&mut self) -> (result: Result<u64, FormatError>)
        requires
            old(self).wf(),
        ensures
            final(self).wf(),
            match (result, parse_number(old(self).rest(), 8)) {
                (Ok(number), Ok((value, rest))) => number == value && final(self).rest() == rest,
                (Err(error), Err(fault)) => error == fault,
                _ => false,
            },
    {
        match self.take(8) {
            Err(error) => Err(error),
            Ok(bytes) => {
                assert(buffer::bytes_content(bytes).subrange(0, 8) =~= buffer::bytes_content(bytes));
                Ok(get(as_slice(&bytes), 0, 8))
            },
        }
    }

    fn text(&mut self) -> (result: Result<Bytes, FormatError>)
        requires
            old(self).wf(),
        ensures
            final(self).wf(),
            match (result, parse_blob(old(self).rest())) {
                (Ok(bytes), Ok((text, rest))) => buffer::bytes_content(bytes) == text && final(self).rest()
                    == rest,
                (Err(error), Err(fault)) => error == fault,
                _ => false,
            },
    {
        match self.word() {
            Err(error) => Err(error),
            Ok(size) => self.take(size as usize),
        }
    }

    fn deadline(&mut self) -> (result: Result<Option<i64>, FormatError>)
        requires
            old(self).wf(),
        ensures
            final(self).wf(),
            match (result, parse_deadline(old(self).rest())) {
                (Ok(deadline), Ok((value, rest))) => deadline == value && final(self).rest() == rest,
                (Err(error), Err(fault)) => error == fault,
                _ => false,
            },
    {
        let flag: u8 = match self.byte() {
            Err(error) => return Err(error),
            Ok(flag) => flag,
        };
        let bits: u64 = match self.double_word() {
            Err(error) => return Err(error),
            Ok(bits) => bits,
        };
        if flag == 0 && bits == 0 {
            Ok(None)
        } else if flag == 1 {
            Ok(Some(to_signed(bits)))
        } else {
            Err(FormatError::Corrupt("deadline"))
        }
    }

    fn fields(&mut self, count: u32) -> (result: Result<ByteMap<Bytes>, FormatError>)
        requires
            old(self).wf(),
        ensures
            final(self).wf(),
            match (result, parse_fields(old(self).rest(), count as nat, None, Map::empty())) {
                (Ok(fields), Ok((map, rest))) => {
                    &&& fields.wf()
                    &&& value::contents(fields@) == map
                    &&& final(self).rest() == rest
                    &&& count > 0 ==> !map.dom().is_empty()
                },
                (Err(error), Err(fault)) => error == fault,
                _ => false,
            },
    {
        let ghost first = self.rest();
        let mut fields: ByteMap<Bytes> = ByteMap::new();
        let mut previous: Option<Bytes> = None;
        let mut left: u32 = count;
        assert(value::contents(fields@) =~= Map::<Seq<u8>, Seq<u8>>::empty());
        while left > 0
            invariant
                self.wf(),
                fields.wf(),
                left <= count,
                first == old(self).rest(),
                parse_fields(first, count as nat, None, Map::empty()) == parse_fields(
                    self.rest(),
                    left as nat,
                    content_of(previous),
                    value::contents(fields@),
                ),
                left < count ==> !value::contents(fields@).dom().is_empty(),
            decreases left,
        {
            let field = match self.text() {
                Err(error) => return Err(error),
                Ok(field) => field,
            };
            let value = match self.text() {
                Err(error) => return Err(error),
                Ok(value) => value,
            };
            if !comes_after(&previous, &field) {
                return Err(FormatError::Corrupt("coleção"));
            }
            let ghost earlier = fields@;
            let ghost name = buffer::bytes_content(field);
            let ghost content = buffer::bytes_content(value);
            previous = Some(field.clone());
            let _ = fields.insert(field, value);
            proof {
                assert(value::contents(fields@) =~= value::contents(earlier).insert(name, content));
                assert(value::contents(fields@).dom().contains(name));
            }
            left -= 1;
        }
        Ok(fields)
    }

    fn members(&mut self, count: u32) -> (result: Result<SortedSet, FormatError>)
        requires
            old(self).wf(),
        ensures
            final(self).wf(),
            match (result, parse_members(old(self).rest(), count as nat, None, Map::empty())) {
                (Ok(members), Ok((map, rest))) => {
                    &&& members.wf()
                    &&& members@ == map
                    &&& final(self).rest() == rest
                    &&& count > 0 ==> !map.dom().is_empty()
                },
                (Err(error), Err(fault)) => error == fault,
                _ => false,
            },
    {
        let ghost first = self.rest();
        let mut members = SortedSet::new();
        let mut previous: Option<Bytes> = None;
        let mut left: u32 = count;
        while left > 0
            invariant
                self.wf(),
                members.wf(),
                left <= count,
                first == old(self).rest(),
                parse_members(first, count as nat, None, Map::empty()) == parse_members(
                    self.rest(),
                    left as nat,
                    content_of(previous),
                    members@,
                ),
                forall|key: Seq<u8>| #[trigger]
                    members@.contains_key(key) ==> previous is Some && (key == buffer::bytes_content(
                        previous->Some_0,
                    ) || ordered::precedes(key, buffer::bytes_content(previous->Some_0))),
                left < count ==> !members@.dom().is_empty(),
            decreases left,
        {
            let member = match self.text() {
                Err(error) => return Err(error),
                Ok(member) => member,
            };
            let order: u64 = match self.double_word() {
                Err(error) => return Err(error),
                Ok(order) => order,
            };
            let text = match self.text() {
                Err(error) => return Err(error),
                Ok(text) => text,
            };
            if !comes_after(&previous, &member) {
                return Err(FormatError::Corrupt("coleção"));
            }
            let ghost earlier = members@;
            let ghost name = buffer::bytes_content(member);
            let ghost before = content_of(previous);
            proof {
                if earlier.contains_key(name) {
                    ordered::lemma_precedes_irreflexive(name);
                    if ordered::precedes(name, before->Some_0) {
                        ordered::lemma_precedes_transitive(name, before->Some_0, name);
                    }
                }
            }
            previous = Some(member.clone());
            let score = Score { order: to_signed(order), text };
            let _ = members.insert(member, score);
            proof {
                assert forall|key: Seq<u8>| #[trigger] members@.contains_key(key) implies key == name
                    || ordered::precedes(key, name) by {
                    if key != name {
                        assert(earlier.contains_key(key));
                        if ordered::precedes(key, before->Some_0) {
                            ordered::lemma_precedes_transitive(key, before->Some_0, name);
                        }
                    }
                }
                assert(members@.dom().contains(name));
            }
            left -= 1;
        }
        Ok(members)
    }

    fn value(&mut self, tag: u8) -> (result: Result<Value, FormatError>)
        requires
            old(self).wf(),
        ensures
            final(self).wf(),
            match (result, parse_value(old(self).rest(), tag)) {
                (Ok(value), Ok((content, rest))) => {
                    &&& value.wf()
                    &&& value::storable(value.model())
                    &&& value.model() == content
                    &&& final(self).rest() == rest
                },
                (Err(error), Err(fault)) => error == fault,
                _ => false,
            },
    {
        if tag == 1 {
            match self.text() {
                Err(error) => Err(error),
                Ok(text) => Ok(Value::String(text)),
            }
        } else if tag == 3 || tag == 4 {
            let count: u32 = match self.word() {
                Err(error) => return Err(error),
                Ok(count) => count,
            };
            if count == 0 {
                return Err(FormatError::Corrupt("coleção"));
            }
            if tag == 3 {
                match self.fields(count) {
                    Err(error) => Err(error),
                    Ok(fields) => Ok(Value::Hash(fields)),
                }
            } else {
                match self.members(count) {
                    Err(error) => Err(error),
                    Ok(members) => Ok(Value::SortedSet(members)),
                }
            }
        } else {
            Err(FormatError::Corrupt("tipo de mutação"))
        }
    }

    fn mutation(&mut self) -> (result: Result<Mutation, FormatError>)
        requires
            old(self).wf(),
        ensures
            final(self).wf(),
            match (result, parse_mutation(old(self).rest())) {
                (Ok(mutation), Ok((model, rest))) => {
                    &&& mutation.wf()
                    &&& mutation.model() == model
                    &&& final(self).rest() == rest
                },
                (Err(error), Err(fault)) => error == fault,
                _ => false,
            },
    {
        let tag: u8 = match self.byte() {
            Err(error) => return Err(error),
            Ok(tag) => tag,
        };
        let key = match self.text() {
            Err(error) => return Err(error),
            Ok(key) => key,
        };
        if tag == 2 {
            return Ok(Mutation::Delete { key });
        }
        let value = match self.value(tag) {
            Err(error) => return Err(error),
            Ok(value) => value,
        };
        let expires_at_unix_ms: Option<i64> = match self.deadline() {
            Err(error) => return Err(error),
            Ok(deadline) => deadline,
        };
        Ok(Mutation::Put { key, value, expires_at_unix_ms })
    }

    fn mutations(&mut self, count: u32) -> (result: Result<Vec<Mutation>, FormatError>)
        requires
            old(self).wf(),
        ensures
            final(self).wf(),
            match (result, parse_mutations(old(self).rest(), count as nat, Seq::empty())) {
                (Ok(mutations), Ok((models, rest))) => {
                    &&& mutation::all_sound(mutations@)
                    &&& mutation::mutation_models(mutations@) == models
                    &&& final(self).rest() == rest
                },
                (Err(error), Err(fault)) => error == fault,
                _ => false,
            },
    {
        let ghost first = self.rest();
        let mut mutations: Vec<Mutation> = Vec::new();
        let mut left: u32 = count;
        assert(mutation::mutation_models(mutations@) =~= Seq::<MutationModel>::empty());
        while left > 0
            invariant
                self.wf(),
                left <= count,
                first == old(self).rest(),
                mutation::all_sound(mutations@),
                parse_mutations(first, count as nat, Seq::empty()) == parse_mutations(
                    self.rest(),
                    left as nat,
                    mutation::mutation_models(mutations@),
                ),
            decreases left,
        {
            let ghost earlier = mutations@;
            let mutation = match self.mutation() {
                Err(error) => return Err(error),
                Ok(mutation) => mutation,
            };
            let ghost model = mutation.model();
            mutations.push(mutation);
            assert(mutation::mutation_models(mutations@) =~= mutation::mutation_models(earlier).push(model));
            left -= 1;
        }
        Ok(mutations)
    }

    fn seal(&mut self) -> (result: Result<Record, FormatError>)
        requires
            old(self).wf(),
        ensures
            final(self).wf(),
            match (result, parse_seal(old(self).rest())) {
                (Ok(record), Ok((model, rest))) => {
                    &&& record.wf()
                    &&& record.model() == model
                    &&& final(self).rest() == rest
                },
                (Err(error), Err(fault)) => error == fault,
                _ => false,
            },
    {
        let sequence: u64 = match self.double_word() {
            Err(error) => return Err(error),
            Ok(sequence) => sequence,
        };
        let entries: u64 = match self.double_word() {
            Err(error) => return Err(error),
            Ok(entries) => entries,
        };
        let digest: u32 = match self.word() {
            Err(error) => return Err(error),
            Ok(digest) => digest,
        };
        Ok(Record::Seal { sequence, entries, digest })
    }

    fn batch(&mut self, limits: Limits) -> (result: Result<Record, FormatError>)
        requires
            old(self).wf(),
        ensures
            final(self).wf(),
            match (result, parse_batch(old(self).rest(), limits)) {
                (Ok(record), Ok((model, rest))) => {
                    &&& record.wf()
                    &&& record.model() == model
                    &&& final(self).rest() == rest
                },
                (Err(error), Err(fault)) => error == fault,
                _ => false,
            },
    {
        let sequence: u64 = match self.double_word() {
            Err(error) => return Err(error),
            Ok(sequence) => sequence,
        };
        let tag: u8 = match self.byte() {
            Err(error) => return Err(error),
            Ok(tag) => tag,
        };
        let origin = if tag == 1 {
            MutationOrigin::Client
        } else if tag == 2 {
            MutationOrigin::Expiration
        } else {
            return Err(FormatError::Corrupt("origem"));
        };
        let count: u32 = match self.word() {
            Err(error) => return Err(error),
            Ok(count) => count,
        };
        let left: usize = length(&self.bytes) - self.offset;
        if count == 0 || count as usize > limits.max_mutations || count as usize > left / 5 {
            return Err(FormatError::Limit);
        }
        match self.mutations(count) {
            Err(error) => Err(error),
            Ok(mutations) => Ok(
                Record::Batch { sequence, batch: ResolvedBatch { origin, mutations } },
            ),
        }
    }
}

pub open spec fn content_of(text: Option<Bytes>) -> Option<Seq<u8>> {
    match text {
        Some(text) => Some(buffer::bytes_content(text)),
        None => None,
    }
}

pub(crate) fn comes_after(previous: &Option<Bytes>, key: &Bytes) -> (result: bool)
    ensures
        result == follows(content_of(*previous), buffer::bytes_content(*key)),
{
    match previous {
        None => true,
        Some(previous) => {
            proof {
                let before = buffer::bytes_content(*previous);
                let after = buffer::bytes_content(*key);
                ordered::lemma_precedes_irreflexive(before);
                if ordered::precedes(before, after) && ordered::precedes(after, before) {
                    ordered::lemma_precedes_transitive(before, after, before);
                }
            }
            match position(as_slice(previous), as_slice(key)) {
                Position::Before => true,
                _ => false,
            }
        },
    }
}

/// Reads the record that a body holds; nothing may follow it.
pub fn decode(body: Bytes, limits: Limits) -> (result: Result<Record, FormatError>)
    ensures
        match (result, parse_record(buffer::bytes_content(body), limits)) {
            (Ok(record), Ok(model)) => record.wf() && record.model() == model,
            (Err(error), Err(fault)) => error == fault,
            _ => false,
        },
{
    let ghost all = buffer::bytes_content(body);
    proof {
        reveal(parse_record);
    }
    let mut cursor = Cursor { bytes: body, offset: 0 };
    assert(cursor.rest() =~= all);
    let tag: u8 = match cursor.byte() {
        Err(error) => return Err(error),
        Ok(tag) => tag,
    };
    let record = if tag == 1 {
        match cursor.mutation() {
            Err(error) => return Err(error),
            Ok(mutation) => Record::Snapshot(mutation),
        }
    } else if tag == 2 {
        match cursor.seal() {
            Err(error) => return Err(error),
            Ok(record) => record,
        }
    } else if tag == 3 {
        match cursor.batch(limits) {
            Err(error) => return Err(error),
            Ok(record) => record,
        }
    } else {
        return Err(FormatError::Corrupt("tipo de registro"));
    };
    if cursor.offset != length(&cursor.bytes) {
        return Err(FormatError::Corrupt("bytes extras"));
    }
    Ok(record)
}

/// The size of the body that the twelve bytes before it announce. Length and
/// complement are checked before anything is allocated.
pub fn record_size(prefix: &[u8], limits: Limits) -> (result: Result<usize, FormatError>)
    requires
        prefix@.len() >= 12,
    ensures
        match (result, announced(prefix@, limits)) {
            (Ok(size), Ok(value)) => size == value && 0 < size <= MAX_RECORD_BYTES,
            (Err(error), Err(fault)) => error == fault,
            _ => false,
        },
{
    let size: u64 = get(prefix, 0, 4);
    let complement: u64 = get(prefix, 4, 8);
    proof {
        codec::lemma_le_bound(prefix@.subrange(0, 4));
        codec::lemma_pow256();
    }
    if complement != 0xffff_ffff - size {
        return Err(FormatError::Corrupt("comprimento"));
    }
    let size: usize = size as usize;
    if size == 0 || size > limits.max_record_bytes || size > MAX_RECORD_BYTES {
        return Err(FormatError::Limit);
    }
    Ok(size)
}

/// The record of a prefix and its body; the checksum is looked at before the
/// body is decoded.
pub fn read_body(prefix: &[u8], body: Bytes, limits: Limits) -> (result: Result<
    Record,
    FormatError,
>)
    requires
        prefix@.len() >= 12,
    ensures
        match (result, body_outcome(prefix@, buffer::bytes_content(body), limits)) {
            (Ok(record), Ok(model)) => record.wf() && record.model() == model,
            (Err(error), Err(fault)) => error == fault,
            _ => false,
        },
{
    if checksum(as_slice(&body)) as u64 != get(prefix, 8, 12) {
        return Err(FormatError::Corrupt("checksum"));
    }
    decode(body, limits)
}

/// What comes next in a log from here on.
pub fn read_record(input: &[u8], limits: Limits) -> (result: Result<Next, FormatError>)
    ensures
        match (result, next_outcome(input@, limits)) {
            (Ok(next), Ok(model)) => next.model() == model && (next matches Next::Record(record)
                ==> record.wf()),
            (Err(error), Err(fault)) => error == fault,
            _ => false,
        },
{
    if input.len() == 0 {
        return Ok(Next::End);
    }
    if input.len() < 12 {
        return Ok(Next::IncompleteTail);
    }
    let size: usize = match record_size(input, limits) {
        Err(error) => return Err(error),
        Ok(size) => size,
    };
    if input.len() - 12 < size {
        return Ok(Next::IncompleteTail);
    }
    let body = copy_from_slice(vstd::slice::slice_subrange(input, 12, 12 + size));
    assert(input@.take(12).subrange(8, 12) =~= input@.subrange(8, 12));
    match read_body(input, body, limits) {
        Err(error) => Err(error),
        Ok(record) => Ok(Next::Record(record)),
    }
}

/// A blob is read back.
proof fn lemma_blob(text: Seq<u8>, rest: Seq<u8>)
    requires
        text.len() <= u32::MAX,
    ensures
        parse_blob(codec::blob(text) + rest) == Ok::<(Seq<u8>, Seq<u8>), FormatError>((text, rest)),
        codec::blob(text).len() == text.len() + 4,
{
    codec::lemma_le_u32(text.len() as u32);
    lemma_number(text.len(), 4, text + rest);
    assert(codec::blob(text) + rest =~= codec::le(text.len(), 4) + (text + rest));
    assert((text + rest).take(text.len() as int) =~= text);
    assert((text + rest).skip(text.len() as int) =~= rest);
}

/// A number is read back.
proof fn lemma_number(value: nat, count: nat, rest: Seq<u8>)
    requires
        codec::le(value, count).len() == count,
        codec::le_value(codec::le(value, count)) == value,
    ensures
        parse_number(codec::le(value, count) + rest, count) == Ok::<(nat, Seq<u8>), FormatError>(
            (value, rest),
        ),
{
    let input = codec::le(value, count) + rest;
    assert(input.take(count as int) =~= codec::le(value, count));
    assert(input.skip(count as int) =~= rest);
}

proof fn lemma_byte(byte: u8, rest: Seq<u8>)
    ensures
        parse_byte(seq![byte] + rest) == Ok::<(u8, Seq<u8>), FormatError>((byte, rest)),
{
    let input = seq![byte] + rest;
    assert(input.take(1) =~= seq![byte]);
    assert(input.skip(1) =~= rest);
}

proof fn lemma_deadline(expires: Option<i64>, rest: Seq<u8>)
    ensures
        parse_deadline(deadline_wire(expires) + rest) == Ok::<(Option<i64>, Seq<u8>), FormatError>(
            (expires, rest),
        ),
        deadline_wire(expires).len() == 9,
{
    match expires {
        None => {
            codec::lemma_le_u64(0);
            lemma_number(0, 8, rest);
            assert(deadline_wire(expires) + rest =~= seq![0u8] + (codec::le(0, 8) + rest));
            lemma_byte(0, codec::le(0, 8) + rest);
        },
        Some(deadline) => {
            let bits = codec::unsigned(deadline);
            codec::lemma_le_i64(deadline);
            codec::lemma_pow256();
            codec::lemma_le_value(bits, 8);
            lemma_number(bits, 8, rest);
            assert(deadline_wire(expires) + rest =~= seq![1u8] + (codec::le(bits, 8) + rest));
            lemma_byte(1, codec::le(bits, 8) + rest);
        },
    }
}

/// Fields of a hash are read back.
proof fn lemma_fields(
    keys: Seq<Seq<u8>>,
    fields: Map<Seq<u8>, Seq<u8>>,
    previous: Option<Seq<u8>>,
    known: Map<Seq<u8>, Seq<u8>>,
    rest: Seq<u8>,
)
    requires
        ordered::ascending(keys),
        keys.len() > 0 ==> follows(previous, keys[0]),
        codec::joined(field_chunks(keys, fields)).len() <= u32::MAX,
    ensures
        parse_fields(
            codec::joined(field_chunks(keys, fields)) + rest,
            keys.len(),
            previous,
            known,
        ) == Ok::<(Map<Seq<u8>, Seq<u8>>, Seq<u8>), FormatError>((put_all(known, keys, fields), rest)),
    decreases keys.len(),
{
    let chunks = field_chunks(keys, fields);
    if keys.len() == 0 {
        assert(codec::joined(chunks) + rest =~= rest);
    } else {
        let tail = keys.skip(1);
        let field = keys[0];
        let value = fields[field];
        codec::lemma_joined_front(chunks);
        assert(chunks.skip(1) =~= field_chunks(tail, fields));
        let more = codec::joined(field_chunks(tail, fields)) + rest;
        codec::lemma_le_len(field.len(), 4);
        codec::lemma_le_len(value.len(), 4);
        assert(codec::joined(chunks) + rest =~= codec::blob(field) + (codec::blob(value) + more));
        lemma_blob(field, codec::blob(value) + more);
        lemma_blob(value, more);
        lemma_ascending_tail(keys);
        lemma_fields(tail, fields, Some(field), known.insert(field, value), rest);
    }
}

proof fn lemma_ascending_tail(keys: Seq<Seq<u8>>)
    requires
        ordered::ascending(keys),
        keys.len() > 0,
    ensures
        ordered::ascending(keys.skip(1)),
        keys.len() > 1 ==> ordered::precedes(keys[0], keys.skip(1)[0]),
{
    let tail = keys.skip(1);
    assert forall|i: int, j: int|
        #![trigger tail[i], tail[j]]
        0 <= i < j < tail.len() implies ordered::precedes(tail[i], tail[j]) by {
        assert(ordered::precedes(keys[i + 1], keys[j + 1]));
    }
    if keys.len() > 1 {
        assert(ordered::precedes(keys[0], keys[1]));
    }
}

/// A map with some keys of another put in.
spec fn put_all<V>(known: Map<Seq<u8>, V>, keys: Seq<Seq<u8>>, values: Map<Seq<u8>, V>) -> Map<
    Seq<u8>,
    V,
>
    decreases keys.len(),
{
    if keys.len() == 0 {
        known
    } else {
        put_all(known.insert(keys[0], values[keys[0]]), keys.skip(1), values)
    }
}

proof fn lemma_put_all<V>(
    known: Map<Seq<u8>, V>,
    keys: Seq<Seq<u8>>,
    values: Map<Seq<u8>, V>,
    key: Seq<u8>,
)
    ensures
        put_all(known, keys, values).contains_key(key) <==> known.contains_key(key)
            || keys.contains(key),
        keys.contains(key) ==> put_all(known, keys, values)[key] == values[key],
        !keys.contains(key) && known.contains_key(key) ==> put_all(known, keys, values)[key]
            == known[key],
    decreases keys.len(),
{
    if keys.len() > 0 {
        let tail = keys.skip(1);
        lemma_put_all(known.insert(keys[0], values[keys[0]]), tail, values, key);
        if keys.contains(key) {
            let i = choose|i: int| 0 <= i < keys.len() && keys[i] == key;
            if i > 0 {
                assert(tail[i - 1] == key);
            }
        }
        if tail.contains(key) {
            let i = choose|i: int| 0 <= i < tail.len() && tail[i] == key;
            assert(keys[i + 1] == key);
        }
        assert(keys[0] == keys[0]);
    }
}

proof fn lemma_members(
    keys: Seq<Seq<u8>>,
    members: Map<Seq<u8>, ScoreModel>,
    previous: Option<Seq<u8>>,
    known: Map<Seq<u8>, ScoreModel>,
    rest: Seq<u8>,
)
    requires
        ordered::ascending(keys),
        keys.len() > 0 ==> follows(previous, keys[0]),
        codec::joined(member_chunks(keys, members)).len() <= u32::MAX,
    ensures
        parse_members(
            codec::joined(member_chunks(keys, members)) + rest,
            keys.len(),
            previous,
            known,
        ) == Ok::<(Map<Seq<u8>, ScoreModel>, Seq<u8>), FormatError>(
            (put_all(known, keys, members), rest),
        ),
    decreases keys.len(),
{
    let chunks = member_chunks(keys, members);
    if keys.len() == 0 {
        assert(codec::joined(chunks) + rest =~= rest);
    } else {
        let tail = keys.skip(1);
        let member = keys[0];
        let score = members[member];
        let order = codec::le(codec::unsigned(score.order), 8);
        codec::lemma_joined_front(chunks);
        assert(chunks.skip(1) =~= member_chunks(tail, members));
        let more = codec::joined(member_chunks(tail, members)) + rest;
        codec::lemma_le_len(member.len(), 4);
        codec::lemma_le_len(score.text.len(), 4);
        codec::lemma_le_i64(score.order);
        codec::lemma_pow256();
        codec::lemma_le_value(codec::unsigned(score.order), 8);
        assert(codec::joined(chunks) + rest =~= codec::blob(member) + (order + (codec::blob(
            score.text,
        ) + more)));
        lemma_blob(member, order + (codec::blob(score.text) + more));
        lemma_number(codec::unsigned(score.order), 8, codec::blob(score.text) + more);
        lemma_blob(score.text, more);
        lemma_ascending_tail(keys);
        assert(ScoreModel {
            order: codec::signed(codec::unsigned(score.order)),
            text: score.text,
        } == score);
        lemma_members(tail, members, Some(member), known.insert(member, score), rest);
    }
}

/// Chunks hold at least as many bytes as there are of them.
proof fn lemma_chunks_count(chunks: Seq<Seq<u8>>, least: nat)
    requires
        forall|i: int| 0 <= i < chunks.len() ==> (#[trigger] chunks[i]).len() >= least,
    ensures
        codec::joined(chunks).len() >= chunks.len() * least,
    decreases chunks.len(),
{
    if chunks.len() > 0 {
        let front = chunks.drop_last();
        assert forall|i: int| 0 <= i < front.len() implies (#[trigger] front[i]).len() >= least by {
            assert(front[i] == chunks[i]);
        }
        lemma_chunks_count(front, least);
        assert(chunks[chunks.len() - 1] == chunks.last());
        assert(chunks.len() * least == front.len() * least + least) by (nonlinear_arith)
            requires
                chunks.len() == front.len() + 1,
        ;
    } else {
        assert(0 * least == 0) by (nonlinear_arith);
    }
}

proof fn lemma_value(value: ValueModel, rest: Seq<u8>)
    requires
        value::storable(value),
        value::finite_value(value),
        value_wire(value).len() <= u32::MAX,
    ensures
        parse_value(value_wire(value) + rest, value_tag(value)) == Ok::<
            (ValueModel, Seq<u8>),
            FormatError,
        >((value, rest)),
{
    match value {
        ValueModel::Text(text) => {
            codec::lemma_le_len(text.len(), 4);
            lemma_blob(text, rest);
        },
        ValueModel::Hash(fields) => {
            let keys = ordered::listing(fields.dom());
            collections::lemma_listing_exists(fields.dom());
            let chunks = field_chunks(keys, fields);
            codec::lemma_le_len(keys.len(), 4);
            assert forall|i: int| 0 <= i < chunks.len() implies (#[trigger] chunks[i]).len() >= 1 by {
                codec::lemma_le_len(keys[i].len(), 4);
            }
            lemma_chunks_count(chunks, 1);
            codec::lemma_le_u32(keys.len() as u32);
            let more = codec::joined(chunks) + rest;
            assert(value_wire(value) + rest =~= codec::le(keys.len(), 4) + more);
            lemma_number(keys.len(), 4, more);
            lemma_fields(keys, fields, None, Map::empty(), rest);
            lemma_whole(keys, fields);
        },
        ValueModel::SortedSet(members) => {
            let keys = ordered::listing(members.dom());
            collections::lemma_listing_exists(members.dom());
            let chunks = member_chunks(keys, members);
            codec::lemma_le_len(keys.len(), 4);
            assert forall|i: int| 0 <= i < chunks.len() implies (#[trigger] chunks[i]).len() >= 1 by {
                codec::lemma_le_len(keys[i].len(), 4);
            }
            lemma_chunks_count(chunks, 1);
            codec::lemma_le_u32(keys.len() as u32);
            let more = codec::joined(chunks) + rest;
            assert(value_wire(value) + rest =~= codec::le(keys.len(), 4) + more);
            lemma_number(keys.len(), 4, more);
            lemma_members(keys, members, None, Map::empty(), rest);
            lemma_whole(keys, members);
        },
    }
}

/// All keys of a map make the map.
proof fn lemma_whole<V>(keys: Seq<Seq<u8>>, values: Map<Seq<u8>, V>)
    requires
        ordered::is_listing(keys, values.dom()),
        !values.dom().is_empty(),
    ensures
        put_all(Map::empty(), keys, values) == values,
        keys.len() > 0,
{
    let whole = put_all(Map::empty(), keys, values);
    assert forall|key: Seq<u8>|
        #![trigger whole.contains_key(key)]
        whole.contains_key(key) == values.contains_key(key) && (values.contains_key(key)
            ==> whole[key] == values[key]) by {
        lemma_put_all(Map::empty(), keys, values, key);
        assert(values.dom().contains(key) <==> keys.contains(key));
    }
    assert(whole =~= values);
    let some = values.dom().choose();
    assert(values.dom().contains(some));
    assert(keys.contains(some));
}

/// Whether a mutation is one that can stand in a record.
pub open spec fn recordable(mutation: MutationModel) -> bool {
    mutation matches MutationModel::Put { value, .. } ==> value::storable(value) && value::finite_value(value)
}

/// A mutation is read back.
proof fn lemma_mutation(mutation: MutationModel, rest: Seq<u8>)
    requires
        recordable(mutation),
        mutation_wire(mutation).len() <= u32::MAX,
    ensures
        parse_mutation(mutation_wire(mutation) + rest) == Ok::<
            (MutationModel, Seq<u8>),
            FormatError,
        >((mutation, rest)),
        mutation_wire(mutation).len() >= 5,
{
    match mutation {
        MutationModel::Put { key, value, expires_at_unix_ms } => {
            codec::lemma_le_len(key.len(), 4);
            let end = deadline_wire(expires_at_unix_ms) + rest;
            let middle = value_wire(value) + end;
            assert(mutation_wire(mutation) + rest =~= seq![value_tag(value)] + (codec::blob(key)
                + middle));
            lemma_byte(value_tag(value), codec::blob(key) + middle);
            lemma_blob(key, middle);
            lemma_value(value, end);
            lemma_deadline(expires_at_unix_ms, rest);
        },
        MutationModel::Delete { key } => {
            codec::lemma_le_len(key.len(), 4);
            assert(mutation_wire(mutation) + rest =~= seq![2u8] + (codec::blob(key) + rest));
            lemma_byte(2, codec::blob(key) + rest);
            lemma_blob(key, rest);
        },
    }
}

/// The first of several mutations is read, and the others are left.
proof fn lemma_first_mutation(
    mutation: MutationModel,
    more: Seq<u8>,
    count: nat,
    known: Seq<MutationModel>,
)
    requires
        recordable(mutation),
        mutation_wire(mutation).len() <= u32::MAX,
        count > 0,
    ensures
        parse_mutations(mutation_wire(mutation) + more, count, known) == parse_mutations(
            more,
            (count - 1) as nat,
            known.push(mutation),
        ),
{
    lemma_mutation(mutation, more);
}

#[verifier::spinoff_prover]
proof fn lemma_mutations(
    mutations: Seq<MutationModel>,
    known: Seq<MutationModel>,
    rest: Seq<u8>,
)
    requires
        forall|i: int| 0 <= i < mutations.len() ==> recordable(#[trigger] mutations[i]),
        codec::joined(mutation_chunks(mutations)).len() <= u32::MAX,
    ensures
        parse_mutations(
            codec::joined(mutation_chunks(mutations)) + rest,
            mutations.len(),
            known,
        ) == Ok::<(Seq<MutationModel>, Seq<u8>), FormatError>((known + mutations, rest)),
    decreases mutations.len(),
{
    let chunks = mutation_chunks(mutations);
    if mutations.len() == 0 {
        assert(codec::joined(chunks) + rest =~= rest);
        assert(known + mutations =~= known);
    } else {
        let first = mutations[0];
        let tail = mutations.skip(1);
        let more = codec::joined(mutation_chunks(tail)) + rest;
        codec::lemma_joined_front(chunks);
        assert(chunks.skip(1) =~= mutation_chunks(tail));
        assert(codec::joined(chunks) =~= mutation_wire(first) + codec::joined(
            mutation_chunks(tail),
        ));
        assert(codec::joined(chunks) + rest =~= mutation_wire(first) + more);
        lemma_first_mutation(first, more, mutations.len(), known);
        assert forall|i: int| 0 <= i < tail.len() implies recordable(#[trigger] tail[i]) by {
            assert(tail[i] == mutations[i + 1]);
        }
        lemma_mutations(tail, known.push(first), rest);
        assert(known.push(first) + tail =~= known + mutations);
    }
}

/// Whether a record is one that can stand in a log.
pub open spec fn recordable_all(record: RecordModel) -> bool {
    match record {
        RecordModel::Snapshot(mutation) => recordable(mutation),
        RecordModel::Seal { .. } => true,
        RecordModel::Batch { mutations, .. } => forall|i: int|
            0 <= i < mutations.len() ==> recordable(#[trigger] mutations[i]),
    }
}

/// The body of a batch is read back.
proof fn lemma_batch_body(
    sequence: u64,
    origin: MutationOrigin,
    mutations: Seq<MutationModel>,
    limits: Limits,
)
    requires
        recordable_all(RecordModel::Batch { sequence, origin, mutations }),
        encodable(RecordModel::Batch { sequence, origin, mutations }, limits),
    ensures
        ({
            let record = RecordModel::Batch { sequence, origin, mutations };
            &&& parse_some(record_body(record), limits) == Ok::<(RecordModel, Seq<u8>), FormatError>(
                (record, Seq::empty()),
            )
            &&& record_body(record).len() >= 1
        }),
{
    let none = Seq::<u8>::empty();
    let record = RecordModel::Batch { sequence, origin, mutations };
    codec::lemma_le_u64(sequence);
    codec::lemma_le_len(mutations.len(), 4);
    let chunks = mutation_chunks(mutations);
    assert forall|i: int| 0 <= i < chunks.len() implies (#[trigger] chunks[i]).len() >= 5 by {
        lemma_chunk_size(mutations[i]);
    }
    lemma_chunks_count(chunks, 5);
    codec::lemma_le_u32(mutations.len() as u32);
    let last = codec::joined(chunks) + none;
    assert(last =~= codec::joined(chunks));
    let counted = codec::le(mutations.len(), 4) + last;
    let tagged = seq![origin_tag(origin)] + counted;
    let first = codec::le(sequence as nat, 8) + tagged;
    assert(record_body(record) =~= seq![3u8] + first);
    lemma_byte(3, first);
    lemma_number(sequence as nat, 8, tagged);
    lemma_byte(origin_tag(origin), counted);
    lemma_number(mutations.len(), 4, last);
    lemma_mutations(mutations, Seq::empty(), none);
    assert(Seq::<MutationModel>::empty() + mutations =~= mutations);
    assert(parse_batch(first, limits) == Ok::<(RecordModel, Seq<u8>), FormatError>((record, none)));
}

/// A body is read back.
pub proof fn lemma_body(record: RecordModel, limits: Limits)
    requires
        recordable_all(record),
        encodable(record, limits),
    ensures
        parse_record(record_body(record), limits) == Ok::<RecordModel, FormatError>(record),
        record_body(record).len() >= 1,
{
    let none = Seq::<u8>::empty();
    reveal(parse_record);
    match record {
        RecordModel::Snapshot(mutation) => {
            assert(record_body(record) =~= seq![1u8] + (mutation_wire(mutation) + none));
            lemma_byte(1, mutation_wire(mutation) + none);
            lemma_mutation(mutation, none);
        },
        RecordModel::Seal { sequence, entries, digest } => {
            codec::lemma_le_u64(sequence);
            codec::lemma_le_u64(entries);
            codec::lemma_le_u32(digest);
            let last = codec::le(digest as nat, 4) + none;
            let middle = codec::le(entries as nat, 8) + last;
            let first = codec::le(sequence as nat, 8) + middle;
            assert(record_body(record) =~= seq![2u8] + first);
            lemma_byte(2, first);
            lemma_number(sequence as nat, 8, middle);
            lemma_number(entries as nat, 8, last);
            lemma_number(digest as nat, 4, none);
        },
        RecordModel::Batch { sequence, origin, mutations } => {
            lemma_batch_body(sequence, origin, mutations, limits);
        },
    }
}

proof fn lemma_chunk_size(mutation: MutationModel)
    ensures
        mutation_wire(mutation).len() >= 5,
{
    match mutation {
        MutationModel::Put { key, .. } => {
            codec::lemma_le_len(key.len(), 4);
        },
        MutationModel::Delete { key } => {
            codec::lemma_le_len(key.len(), 4);
        },
    }
}

/// A sound mutation can stand in a record.
pub proof fn lemma_recordable(mutation: Mutation)
    requires
        mutation.wf(),
    ensures
        recordable(mutation.model()),
{
    if let Mutation::Put { value, .. } = mutation {
        value.lemma_finite();
    }
}

/// A sound record can stand in a log.
pub proof fn lemma_recordable_all(record: Record)
    requires
        record.wf(),
    ensures
        recordable_all(record.model()),
{
    match record {
        Record::Snapshot(mutation) => lemma_recordable(mutation),
        Record::Seal { .. } => {},
        Record::Batch { batch, .. } => {
            let models = mutation::mutation_models(batch.mutations@);
            assert forall|i: int| 0 <= i < models.len() implies recordable(#[trigger] models[i]) by {
                assert(batch.mutations@[i].wf());
                lemma_recordable(batch.mutations@[i]);
            }
        },
    }
}

/// A record that was written is read back, whatever follows it in the log.
pub proof fn law_records_are_read_back(record: RecordModel, limits: Limits, rest: Seq<u8>)
    requires
        recordable_all(record),
        encodable(record, limits),
    ensures
        next_outcome(record_wire(record) + rest, limits) == Ok::<NextModel, FormatError>(
            NextModel::Record(record),
        ),
        record_wire(record).len() == record_body(record).len() + 12,
{
    let body = record_body(record);
    lemma_body(record, limits);
    lemma_framed(body, rest);
    let input = record_wire(record) + rest;
    assert(input.take(12).subrange(8, 12) =~= input.subrange(8, 12));
}

pub proof fn lemma_framed(body: Seq<u8>, rest: Seq<u8>)
    requires
        body.len() <= u32::MAX,
    ensures
        ({
            let input = framed(body) + rest;
            &&& input.len() == 12 + body.len() + rest.len()
            &&& codec::le_value(input.subrange(0, 4)) == body.len()
            &&& codec::le_value(input.subrange(4, 8)) == 0xffff_ffff - body.len()
            &&& codec::le_value(input.subrange(8, 12)) == codec::crc32(body)
            &&& input.subrange(12, 12 + body.len() as int) == body
            &&& input.skip(12 + body.len() as int) == rest
        }),
{
    let input = framed(body) + rest;
    codec::lemma_le_u32(body.len() as u32);
    codec::lemma_le_u32((0xffff_ffff - body.len()) as u32);
    codec::lemma_le_u32(codec::crc32(body));
    assert(input.subrange(0, 4) =~= codec::le(body.len(), 4));
    assert(input.subrange(4, 8) =~= codec::le((0xffff_ffff - body.len()) as nat, 4));
    assert(input.subrange(8, 12) =~= codec::le(codec::crc32(body) as nat, 4));
    assert(input.subrange(12, 12 + body.len() as int) =~= body);
    assert(input.skip(12 + body.len() as int) =~= rest);
}

/// A record that was cut short is seen as an incomplete tail, and never as a
/// record or as corrupt.
pub proof fn law_cut_records_are_incomplete(record: RecordModel, limits: Limits, count: int)
    requires
        encodable(record, limits),
        recordable_all(record),
        0 < count < record_wire(record).len(),
    ensures
        next_outcome(record_wire(record).take(count), limits) == Ok::<NextModel, FormatError>(
            NextModel::IncompleteTail,
        ),
{
    let body = record_body(record);
    let wire = record_wire(record);
    lemma_body(record, limits);
    lemma_framed(body, Seq::empty());
    assert(wire + Seq::<u8>::empty() =~= wire);
    let input = wire.take(count);
    if count >= 12 {
        assert(input.subrange(0, 4) =~= wire.subrange(0, 4));
        assert(input.subrange(4, 8) =~= wire.subrange(4, 8));
    }
}

/// A record with one changed byte is not read as a record, wherever in it the
/// byte stands and whatever follows it in the log: its length no longer agrees
/// with the complement of that, or its checksum with its body.
pub proof fn law_changed_records_are_rejected(
    record: RecordModel,
    limits: Limits,
    rest: Seq<u8>,
    place: int,
    byte: u8,
)
    requires
        encodable(record, limits),
        recordable_all(record),
        0 <= place < record_wire(record).len(),
        record_wire(record)[place] != byte,
    ensures
        next_outcome(record_wire(record).update(place, byte) + rest, limits) == Err::<
            NextModel,
            FormatError,
        >(
            FormatError::Corrupt(
                if place < 8 {
                    "comprimento"
                } else {
                    "checksum"
                },
            ),
        ),
{
    let body = record_body(record);
    let wire = record_wire(record);
    lemma_body(record, limits);
    lemma_framed(body, Seq::empty());
    assert(wire + Seq::<u8>::empty() =~= wire);
    let input = wire.update(place, byte) + rest;
    if place < 4 {
        assert(input.subrange(0, 4) =~= wire.subrange(0, 4).update(place, byte));
        assert(input.subrange(4, 8) =~= wire.subrange(4, 8));
        codec::lemma_le_changes(wire.subrange(0, 4), place, byte);
    } else {
        assert(input.subrange(0, 4) =~= wire.subrange(0, 4));
    }
    if 4 <= place < 8 {
        assert(input.subrange(4, 8) =~= wire.subrange(4, 8).update(place - 4, byte));
        codec::lemma_le_changes(wire.subrange(4, 8), place - 4, byte);
    }
    if place >= 8 {
        let end = 12 + body.len() as int;
        assert(input.subrange(4, 8) =~= wire.subrange(4, 8));
        if place < 12 {
            assert(input.take(12).subrange(8, 12) =~= wire.subrange(8, 12).update(place - 8, byte));
            codec::lemma_le_changes(wire.subrange(8, 12), place - 8, byte);
            assert(input.subrange(12, end) =~= wire.subrange(12, end));
        } else {
            assert(input.take(12).subrange(8, 12) =~= wire.subrange(8, 12));
            assert(wire.subrange(12, end)[place - 12] == wire[place]);
            assert(input.subrange(12, end) =~= wire.subrange(12, end).update(place - 12, byte));
            codec::law_checksum_detects_a_changed_byte(body, place - 12, byte);
        }
    }
}

/// A record begins with the length of its body, the complement of that, and the checksum of the
/// body, which follows.
pub proof fn law_records_are_laid_out(record: RecordModel, limits: Limits)
    requires
        encodable(record, limits),
        recordable_all(record),
    ensures
        ({
            let wire = record_wire(record);
            let body = record_body(record);
            &&& wire.len() == 12 + body.len()
            &&& codec::le_value(wire.subrange(0, 4)) == body.len()
            &&& codec::le_value(wire.subrange(4, 8)) == 0xffff_ffff - body.len()
            &&& codec::le_value(wire.subrange(8, 12)) == codec::crc32(body)
            &&& wire.skip(12) == body
        }),
{
    let wire = record_wire(record);
    lemma_framed(record_body(record), Seq::empty());
    assert(wire + Seq::<u8>::empty() =~= wire);
    assert(wire.skip(12) =~= wire.subrange(12, 12 + record_body(record).len() as int));
}

} // verus!
