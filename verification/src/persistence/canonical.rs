//! What is read as a record is the one text of that record.

use super::format::{Limits, NextModel, RecordModel};
use super::record;
use crate::codec;
use crate::ordered;
use crate::storage::mutation::MutationModel;
use crate::storage::value::{ScoreModel, ValueModel};
use vstd::prelude::*;

verus! {

proof fn lemma_byte(input: Seq<u8>)
    requires
        record::parse_byte(input) is Ok,
    ensures
        ({
            let (byte, rest) = record::parse_byte(input)->Ok_0;
            input == seq![byte] + rest
        }),
{
    let (byte, rest) = record::parse_byte(input)->Ok_0;
    assert(input =~= seq![byte] + rest);
}

proof fn lemma_number(input: Seq<u8>, count: nat)
    requires
        record::parse_number(input, count) is Ok,
    ensures
        ({
            let (value, rest) = record::parse_number(input, count)->Ok_0;
            &&& value < codec::pow256(count)
            &&& input == codec::le(value, count) + rest
        }),
{
    let (value, rest) = record::parse_number(input, count)->Ok_0;
    let bytes = input.take(count as int);
    codec::lemma_le_bytes(bytes);
    codec::lemma_le_bound(bytes);
    assert(input =~= bytes + rest);
}

proof fn lemma_blob(input: Seq<u8>)
    requires
        record::parse_blob(input) is Ok,
    ensures
        ({
            let (text, rest) = record::parse_blob(input)->Ok_0;
            input == codec::blob(text) + rest
        }),
{
    let (text, rest) = record::parse_blob(input)->Ok_0;
    lemma_number(input, 4);
    let (size, more) = record::parse_number(input, 4)->Ok_0;
    assert(text.len() == size);
    assert(more =~= text + rest);
    assert(input =~= codec::blob(text) + rest);
}

proof fn lemma_deadline(input: Seq<u8>)
    requires
        record::parse_deadline(input) is Ok,
    ensures
        ({
            let (deadline, rest) = record::parse_deadline(input)->Ok_0;
            input == record::deadline_wire(deadline) + rest
        }),
{
    let (deadline, rest) = record::parse_deadline(input)->Ok_0;
    let (flag, more) = record::parse_byte(input)->Ok_0;
    lemma_byte(input);
    lemma_number(more, 8);
    codec::lemma_pow256();
    assert(input =~= record::deadline_wire(deadline) + rest);
}

/// No key of those that follow another is that one.
proof fn lemma_apart(first: Seq<u8>, keys: Seq<Seq<u8>>)
    requires
        ordered::ascending(keys),
        keys.len() > 0 ==> ordered::precedes(first, keys[0]),
    ensures
        ordered::ascending(seq![first] + keys),
        !keys.contains(first),
{
    let all = seq![first] + keys;
    assert forall|i: int| 0 <= i < keys.len() implies ordered::precedes(
        first,
        #[trigger] keys[i],
    ) by {
        if i > 0 {
            assert(ordered::precedes(keys[0], keys[i]));
            ordered::lemma_precedes_transitive(first, keys[0], keys[i]);
        }
    }
    assert forall|i: int, j: int|
        #![trigger all[i], all[j]]
        0 <= i < j < all.len() implies ordered::precedes(all[i], all[j]) by {
        assert(all[j] == keys[j - 1]);
        if i > 0 {
            assert(ordered::precedes(keys[i - 1], keys[j - 1]));
        }
    }
    ordered::lemma_precedes_irreflexive(first);
}

/// The keys of the fields that were read, in their order.
proof fn fields_read(
    input: Seq<u8>,
    count: nat,
    previous: Option<Seq<u8>>,
    fields: Map<Seq<u8>, Seq<u8>>,
) -> (keys: Seq<Seq<u8>>)
    requires
        record::parse_fields(input, count, previous, fields) is Ok,
        fields.dom().finite(),
    ensures
        ({
            let (all, rest) = record::parse_fields(input, count, previous, fields)->Ok_0;
            &&& keys.len() == count
            &&& ordered::ascending(keys)
            &&& keys.len() > 0 ==> record::follows(previous, keys[0])
            &&& all.dom().finite()
            &&& forall|key: Seq<u8>| #[trigger]
                all.contains_key(key) <==> keys.contains(key) || fields.contains_key(key)
            &&& forall|key: Seq<u8>|
                fields.contains_key(key) && !keys.contains(key) ==> #[trigger] all[key]
                    == fields[key]
            &&& input == codec::joined(record::field_chunks(keys, all)) + rest
        }),
    decreases count,
{
    let (all, rest) = record::parse_fields(input, count, previous, fields)->Ok_0;
    if count == 0 {
        let keys = Seq::<Seq<u8>>::empty();
        assert(input =~= codec::joined(record::field_chunks(keys, all)) + rest);
        keys
    } else {
        let (field, after) = record::parse_blob(input)->Ok_0;
        let (value, more) = record::parse_blob(after)->Ok_0;
        lemma_blob(input);
        lemma_blob(after);
        let known = fields.insert(field, value);
        let tail = fields_read(more, (count - 1) as nat, Some(field), known);
        let keys = seq![field] + tail;
        lemma_apart(field, tail);
        let chunks = record::field_chunks(keys, all);
        codec::lemma_joined_front(chunks);
        assert(chunks.skip(1) =~= record::field_chunks(tail, all));
        assert(known.contains_key(field) && all[field] == value);
        assert(chunks[0] == codec::blob(field) + codec::blob(value));
        assert(input =~= codec::joined(chunks) + rest);
        assert(keys[0] == field);
        assert forall|key: Seq<u8>| #[trigger] all.contains_key(key) <==> keys.contains(key)
            || fields.contains_key(key) by {
            lemma_joins(field, tail, key);
        }
        assert forall|key: Seq<u8>|
            fields.contains_key(key) && !keys.contains(key) implies #[trigger] all[key]
            == fields[key] by {
            lemma_joins(field, tail, key);
            assert(known.contains_key(key));
        }
        keys
    }
}

proof fn lemma_joins(first: Seq<u8>, tail: Seq<Seq<u8>>, key: Seq<u8>)
    ensures
        (seq![first] + tail).contains(key) <==> key == first || tail.contains(key),
{
    let all = seq![first] + tail;
    assert(all[0] == first);
    if tail.contains(key) {
        let i = choose|i: int| 0 <= i < tail.len() && tail[i] == key;
        assert(all[i + 1] == key);
    }
    if all.contains(key) && key != first {
        let i = choose|i: int| 0 <= i < all.len() && all[i] == key;
        assert(tail[i - 1] == key);
    }
}

/// The first member that was read, its score, and what comes after them.
proof fn member_read(
    input: Seq<u8>,
    count: nat,
    previous: Option<Seq<u8>>,
    members: Map<Seq<u8>, ScoreModel>,
) -> (read: (Seq<u8>, ScoreModel, Seq<u8>))
    requires
        count > 0,
        record::parse_members(input, count, previous, members) is Ok,
    ensures
        record::follows(previous, read.0),
        record::parse_members(input, count, previous, members) == record::parse_members(
            read.2,
            (count - 1) as nat,
            Some(read.0),
            members.insert(read.0, read.1),
        ),
        input == codec::blob(read.0) + (codec::le(codec::unsigned(read.1.order), 8) + codec::blob(
            read.1.text,
        )) + read.2,
{
    let (member, after) = record::parse_blob(input)->Ok_0;
    let (order, later) = record::parse_number(after, 8)->Ok_0;
    let (text, more) = record::parse_blob(later)->Ok_0;
    lemma_blob(input);
    lemma_number(after, 8);
    lemma_blob(later);
    codec::lemma_pow256();
    let score = ScoreModel { order: codec::signed(order), text };
    assert(codec::unsigned(score.order) == order);
    assert(input =~= codec::blob(member) + (codec::le(order, 8) + codec::blob(text)) + more);
    (member, score, more)
}

/// The members of the sorted set that was read, in their order.
proof fn members_read(
    input: Seq<u8>,
    count: nat,
    previous: Option<Seq<u8>>,
    members: Map<Seq<u8>, ScoreModel>,
) -> (keys: Seq<Seq<u8>>)
    requires
        record::parse_members(input, count, previous, members) is Ok,
        members.dom().finite(),
    ensures
        ({
            let (all, rest) = record::parse_members(input, count, previous, members)->Ok_0;
            &&& keys.len() == count
            &&& ordered::ascending(keys)
            &&& keys.len() > 0 ==> record::follows(previous, keys[0])
            &&& all.dom().finite()
            &&& forall|key: Seq<u8>| #[trigger]
                all.contains_key(key) <==> keys.contains(key) || members.contains_key(key)
            &&& forall|key: Seq<u8>|
                members.contains_key(key) && !keys.contains(key) ==> #[trigger] all[key]
                    == members[key]
            &&& input == codec::joined(record::member_chunks(keys, all)) + rest
        }),
    decreases count,
{
    let (all, rest) = record::parse_members(input, count, previous, members)->Ok_0;
    if count == 0 {
        let keys = Seq::<Seq<u8>>::empty();
        assert(input =~= codec::joined(record::member_chunks(keys, all)) + rest);
        keys
    } else {
        let (member, score, more) = member_read(input, count, previous, members);
        let known = members.insert(member, score);
        let tail = members_read(more, (count - 1) as nat, Some(member), known);
        let keys = seq![member] + tail;
        lemma_apart(member, tail);
        let chunks = record::member_chunks(keys, all);
        codec::lemma_joined_front(chunks);
        assert(chunks.skip(1) =~= record::member_chunks(tail, all));
        assert(known.contains_key(member) && all[member] == score);
        assert(input =~= chunks[0] + more);
        assert(input =~= codec::joined(chunks) + rest);
        assert(keys[0] == member);
        assert forall|key: Seq<u8>| #[trigger] all.contains_key(key) <==> keys.contains(key)
            || members.contains_key(key) by {
            lemma_joins(member, tail, key);
        }
        assert forall|key: Seq<u8>|
            members.contains_key(key) && !keys.contains(key) implies #[trigger] all[key]
            == members[key] by {
            lemma_joins(member, tail, key);
            assert(known.contains_key(key));
        }
        keys
    }
}

proof fn lemma_value(input: Seq<u8>, tag: u8)
    requires
        record::parse_value(input, tag) is Ok,
    ensures
        ({
            let (value, rest) = record::parse_value(input, tag)->Ok_0;
            &&& record::value_tag(value) == tag
            &&& input == record::value_wire(value) + rest
            &&& record::recordable(
                MutationModel::Put { key: Seq::empty(), value, expires_at_unix_ms: None },
            )
        }),
{
    let (value, rest) = record::parse_value(input, tag)->Ok_0;
    if tag == 1 {
        lemma_blob(input);
    } else {
        let (count, more) = record::parse_number(input, 4)->Ok_0;
        lemma_number(input, 4);
        match value {
            ValueModel::Hash(fields) => {
                let keys = fields_read(more, count, None, Map::empty());
                assert(ordered::is_listing(keys, fields.dom()));
                ordered::lemma_listing_unique(keys, ordered::listing(fields.dom()), fields.dom());
                assert(keys.contains(keys[0]));
                assert(fields.contains_key(keys[0]));
                assert(fields.dom().contains(keys[0]));
            },
            ValueModel::SortedSet(members) => {
                let keys = members_read(more, count, None, Map::empty());
                assert(ordered::is_listing(keys, members.dom()));
                ordered::lemma_listing_unique(keys, ordered::listing(members.dom()), members.dom());
                assert(keys.contains(keys[0]));
                assert(members.contains_key(keys[0]));
                assert(members.dom().contains(keys[0]));
            },
            ValueModel::Text(_) => {},
        }
        assert(input =~= record::value_wire(value) + rest);
    }
}

proof fn lemma_mutation(input: Seq<u8>)
    requires
        record::parse_mutation(input) is Ok,
    ensures
        ({
            let (mutation, rest) = record::parse_mutation(input)->Ok_0;
            &&& record::recordable(mutation)
            &&& input == record::mutation_wire(mutation) + rest
        }),
{
    let (mutation, rest) = record::parse_mutation(input)->Ok_0;
    let (tag, after) = record::parse_byte(input)->Ok_0;
    let (key, later) = record::parse_blob(after)->Ok_0;
    lemma_byte(input);
    lemma_blob(after);
    if tag != 2 {
        let (value, end) = record::parse_value(later, tag)->Ok_0;
        lemma_value(later, tag);
        lemma_deadline(end);
    }
    assert(input =~= record::mutation_wire(mutation) + rest);
}

/// The text of a mutation that can stand in a record.
#[verifier::opaque]
spec fn is_text(mutation: MutationModel, text: Seq<u8>) -> bool {
    record::recordable(mutation) && text == record::mutation_wire(mutation)
}

/// The first mutation that was read, its text, and what comes after it.
proof fn mutation_read(input: Seq<u8>, count: nat, known: Seq<MutationModel>) -> (read: (
    MutationModel,
    Seq<u8>,
    Seq<u8>,
))
    requires
        count > 0,
        record::parse_mutations(input, count, known) is Ok,
    ensures
        is_text(read.0, read.1),
        record::parse_mutations(input, count, known) == record::parse_mutations(
            read.2,
            (count - 1) as nat,
            known.push(read.0),
        ),
        input == read.1 + read.2,
{
    reveal(is_text);
    lemma_mutation(input);
    let (mutation, rest) = record::parse_mutation(input)->Ok_0;
    (mutation, record::mutation_wire(mutation), rest)
}

/// The mutations that were read and their texts.
#[verifier::spinoff_prover]
proof fn mutations_read(input: Seq<u8>, count: nat, known: Seq<MutationModel>) -> (read: (
    Seq<MutationModel>,
    Seq<Seq<u8>>,
))
    requires
        record::parse_mutations(input, count, known) is Ok,
    ensures
        ({
            let (all, rest) = record::parse_mutations(input, count, known)->Ok_0;
            &&& all == known + read.0
            &&& input == codec::joined(read.1) + rest
        }),
        read.0.len() == count,
        read.1.len() == count,
        forall|i: int| 0 <= i < count ==> is_text(#[trigger] read.0[i], read.1[i]),
    decreases count,
{
    let (all, rest) = record::parse_mutations(input, count, known)->Ok_0;
    if count == 0 {
        let read = (Seq::<MutationModel>::empty(), Seq::<Seq<u8>>::empty());
        assert(all =~= known + read.0);
        assert(input =~= codec::joined(read.1) + rest);
        read
    } else {
        let (mutation, text, more) = mutation_read(input, count, known);
        let longer = known.push(mutation);
        let tail = mutations_read(more, (count - 1) as nat, longer);
        let read = (seq![mutation] + tail.0, seq![text] + tail.1);
        assert(longer + tail.0 =~= known + read.0);
        codec::lemma_joined_front(read.1);
        assert(read.1.skip(1) =~= tail.1);
        assert(input =~= codec::joined(read.1) + rest);
        assert forall|i: int| 0 <= i < count implies is_text(#[trigger] read.0[i], read.1[i]) by {
            if i > 0 {
                assert(read.0[i] == tail.0[i - 1]);
                assert(read.1[i] == tail.1[i - 1]);
            }
        }
        read
    }
}

proof fn lemma_mutations(input: Seq<u8>, count: nat)
    requires
        record::parse_mutations(input, count, Seq::empty()) is Ok,
    ensures
        ({
            let (all, rest) = record::parse_mutations(input, count, Seq::empty())->Ok_0;
            &&& all.len() == count
            &&& forall|i: int| 0 <= i < all.len() ==> record::recordable(#[trigger] all[i])
            &&& input == codec::joined(record::mutation_chunks(all)) + rest
        }),
{
    let (all, _) = record::parse_mutations(input, count, Seq::empty())->Ok_0;
    let (read, texts) = mutations_read(input, count, Seq::empty());
    assert(Seq::<MutationModel>::empty() + read =~= read);
    reveal(is_text);
    assert forall|i: int| 0 <= i < all.len() implies record::recordable(#[trigger] all[i]) by {
        assert(is_text(read[i], texts[i]));
    }
    assert forall|i: int| 0 <= i < count implies texts[i] == record::mutation_chunks(all)[i] by {
        assert(is_text(read[i], texts[i]));
    }
    assert(texts =~= record::mutation_chunks(all));
}

/// The fields of a batch that was read.
#[verifier::spinoff_prover]
proof fn lemma_batch(input: Seq<u8>, limits: Limits)
    requires
        record::parse_batch(input, limits) is Ok,
    ensures
        record::parse_batch(input, limits)->Ok_0.0 matches RecordModel::Batch {
            sequence,
            origin,
            mutations,
        } && 0 < mutations.len() <= limits.max_mutations && (forall|i: int|
            0 <= i < mutations.len() ==> record::recordable(#[trigger] mutations[i])) && input
            == codec::le(sequence as nat, 8) + (seq![record::origin_tag(origin)] + (codec::le(
            mutations.len(),
            4,
        ) + (codec::joined(record::mutation_chunks(mutations)) + record::parse_batch(
            input,
            limits,
        )->Ok_0.1))),
{
    let (_, after) = record::parse_number(input, 8)->Ok_0;
    let (_, later) = record::parse_byte(after)->Ok_0;
    let (count, more) = record::parse_number(later, 4)->Ok_0;
    codec::lemma_pow256();
    lemma_number(input, 8);
    lemma_byte(after);
    lemma_number(later, 4);
    lemma_mutations(more, count);
}

/// A body is the one text of the record that is read from it, and that record
/// can be written.
pub proof fn law_bodies_are_those_of_their_records(body: Seq<u8>, limits: Limits)
    requires
        record::parse_record(body, limits) is Ok,
    ensures
        ({
            let read = record::parse_record(body, limits)->Ok_0;
            &&& record::recordable_all(read)
            &&& record::record_body(read) == body
            &&& read matches RecordModel::Batch { mutations, .. } ==> 0 < mutations.len()
                <= limits.max_mutations
        }),
{
    reveal(record::parse_record);
    let (read, rest) = record::parse_some(body, limits)->Ok_0;
    let (tag, more) = record::parse_byte(body)->Ok_0;
    lemma_byte(body);
    if tag == 1 {
        lemma_mutation(more);
    } else if tag == 2 {
        let (sequence, after) = record::parse_number(more, 8)->Ok_0;
        let (entries, later) = record::parse_number(after, 8)->Ok_0;
        codec::lemma_pow256();
        lemma_number(more, 8);
        lemma_number(after, 8);
        lemma_number(later, 4);
    } else {
        lemma_batch(more, limits);
    }
    assert(rest =~= Seq::empty());
    assert(body =~= record::record_body(read));
}

/// What is read as a record from a log is the one text of that record, whole
/// and unchanged, and a record that fits the limits. So no two texts are read
/// as the same record.
pub proof fn law_read_records_were_written(input: Seq<u8>, limits: Limits)
    requires
        record::next_outcome(input, limits) matches Ok(NextModel::Record(_)),
    ensures
        record::next_outcome(input, limits) matches Ok(NextModel::Record(read))
            && record::recordable_all(read) && record::encodable(read, limits)
            && record::record_wire(read).is_prefix_of(input),
{
    let size = record::announced(input, limits)->Ok_0;
    let end = 12 + size as int;
    let body = input.subrange(12, end);
    law_bodies_are_those_of_their_records(body, limits);
    let read = record::parse_record(body, limits)->Ok_0;
    codec::lemma_le_bytes(input.subrange(0, 4));
    codec::lemma_le_bytes(input.subrange(4, 8));
    codec::lemma_le_bytes(input.subrange(8, 12));
    assert(input.take(12).subrange(8, 12) =~= input.subrange(8, 12));
    assert(record::record_wire(read) =~= input.take(end));
}

} // verus!
