//! Comparison of values and mutations by content.

use super::mutation::Mutation;
use super::value::{ScoreModel, Value};
use crate::buffer::{as_slice, same_bytes};
use crate::command::score::Score;
use crate::ordered::ByteMap;
use crate::buffer;
use bytes::Bytes;
use vstd::prelude::*;

verus! {

/// Fields by content.
pub open spec fn fields_of(fields: Map<Seq<u8>, Bytes>) -> Map<Seq<u8>, Seq<u8>> {
    fields.map_values(|value: Bytes| buffer::bytes_content(value))
}

/// Members with their scores by content.
pub open spec fn scores_of(members: Map<Seq<u8>, Score>) -> Map<Seq<u8>, ScoreModel> {
    members.map_values(|score: Score| score.model())
}

fn same_fields(left: &ByteMap<Bytes>, right: &ByteMap<Bytes>) -> (result: bool)
    requires
        left.wf(),
        right.wf(),
    ensures
        result == (fields_of(left@) == fields_of(right@)),
{
    let ghost a = fields_of(left@);
    let ghost b = fields_of(right@);
    proof {
        left.lemma_keys();
        right.lemma_keys();
        assert(a.dom() =~= left@.dom());
        assert(b.dom() =~= right@.dom());
    }
    if left.len() != right.len() {
        return false;
    }
    let mut index: usize = 0;
    while index < left.items.len()
        invariant
            left.wf(),
            right.wf(),
            a == fields_of(left@),
            b == fields_of(right@),
            a == b ==> left.keys() == right.keys(),
            a.dom() == left@.dom(),
            b.dom() == right@.dom(),
            left.items@.len() == right.items@.len(),
            index <= left.items@.len(),
            forall|i: int|
                0 <= i < index ==> left.key_at(i) == #[trigger] right.key_at(i),
            forall|i: int|
                0 <= i < index ==> buffer::bytes_content(left.items@[i].1)
                    == buffer::bytes_content((#[trigger] right.items@[i]).1),
        decreases left.items@.len() - index,
    {
        proof {
            left.lemma_at(index as int);
            right.lemma_at(index as int);
            if a == b {
                assert(left.keys()[index as int] == right.keys()[index as int]);
                assert(a[left.key_at(index as int)] == b[right.key_at(index as int)]);
            }
        }
        let one = &left.items[index].1;
        let other = &right.items[index].1;
        if !same_bytes(as_slice(&left.items[index].0), as_slice(&right.items[index].0))
            || !same_bytes(as_slice(one), as_slice(other)) {
            return false;
        }
        assert(left.key_at(index as int) == right.key_at(index as int));
        assert(buffer::bytes_content(*one) == buffer::bytes_content(*other));
        index += 1;
    }
    proof {
        assert forall|key: Seq<u8>| #[trigger] a.dom().contains(key) implies b.dom().contains(key)
            && a[key] == b[key] by {
            left.lemma_place(key);
            let i = left.place(key);
            assert(left.key_at(i) == right.key_at(i));
            left.lemma_at(i);
            right.lemma_at(i);
        }
        assert forall|key: Seq<u8>| #[trigger] b.dom().contains(key) implies a.dom().contains(
            key,
        ) by {
            right.lemma_place(key);
            let i = right.place(key);
            assert(left.key_at(i) == right.key_at(i));
            left.lemma_at(i);
        }
        assert(a.dom() =~= b.dom());
        assert(a =~= b);
    }
    true
}

fn same_scores(left: &ByteMap<Score>, right: &ByteMap<Score>) -> (result: bool)
    requires
        left.wf(),
        right.wf(),
    ensures
        result == (scores_of(left@) == scores_of(right@)),
{
    let ghost a = scores_of(left@);
    let ghost b = scores_of(right@);
    proof {
        left.lemma_keys();
        right.lemma_keys();
        assert(a.dom() =~= left@.dom());
        assert(b.dom() =~= right@.dom());
    }
    if left.len() != right.len() {
        return false;
    }
    let mut index: usize = 0;
    while index < left.items.len()
        invariant
            left.wf(),
            right.wf(),
            a == scores_of(left@),
            b == scores_of(right@),
            a == b ==> left.keys() == right.keys(),
            a.dom() == left@.dom(),
            b.dom() == right@.dom(),
            left.items@.len() == right.items@.len(),
            index <= left.items@.len(),
            forall|i: int|
                0 <= i < index ==> left.key_at(i) == #[trigger] right.key_at(i),
            forall|i: int|
                0 <= i < index ==> left.items@[i].1.model() == (
                #[trigger] right.items@[i]).1.model(),
        decreases left.items@.len() - index,
    {
        proof {
            left.lemma_at(index as int);
            right.lemma_at(index as int);
            if a == b {
                assert(left.keys()[index as int] == right.keys()[index as int]);
                assert(a[left.key_at(index as int)] == b[right.key_at(index as int)]);
            }
        }
        let one = &left.items[index].1;
        let other = &right.items[index].1;
        if !same_bytes(as_slice(&left.items[index].0), as_slice(&right.items[index].0))
            || one.order != other.order || !same_bytes(
            as_slice(&one.text),
            as_slice(&other.text),
        ) {
            return false;
        }
        assert(left.key_at(index as int) == right.key_at(index as int));
        assert(one.model() == other.model());
        index += 1;
    }
    proof {
        assert forall|key: Seq<u8>| #[trigger] a.dom().contains(key) implies b.dom().contains(key)
            && a[key] == b[key] by {
            left.lemma_place(key);
            let i = left.place(key);
            assert(left.key_at(i) == right.key_at(i));
            left.lemma_at(i);
            right.lemma_at(i);
        }
        assert forall|key: Seq<u8>| #[trigger] b.dom().contains(key) implies a.dom().contains(
            key,
        ) by {
            right.lemma_place(key);
            let i = right.place(key);
            assert(left.key_at(i) == right.key_at(i));
            left.lemma_at(i);
        }
        assert(a.dom() =~= b.dom());
        assert(a =~= b);
    }
    true
}

/// Whether two values hold the same.
pub fn same_value(left: &Value, right: &Value) -> (result: bool)
    requires
        left.wf(),
        right.wf(),
    ensures
        result == (left.model() == right.model()),
{
    match (left, right) {
        (Value::String(left), Value::String(right)) => same_bytes(as_slice(left), as_slice(right)),
        (Value::Hash(left), Value::Hash(right)) => same_fields(left, right),
        (Value::SortedSet(left), Value::SortedSet(right)) => same_scores(
            left.by_member(),
            right.by_member(),
        ),
        _ => false,
    }
}

/// Whether two mutations say the same.
pub fn same_mutation(left: &Mutation, right: &Mutation) -> (result: bool)
    requires
        left.wf(),
        right.wf(),
    ensures
        result == (left.model() == right.model()),
{
    match (left, right) {
        (
            Mutation::Put { key, value, expires_at_unix_ms },
            Mutation::Put { key: other, value: second, expires_at_unix_ms: deadline },
        ) => {
            let timed = match (expires_at_unix_ms, deadline) {
                (None, None) => true,
                (Some(one), Some(two)) => *one == *two,
                _ => false,
            };
            timed && same_bytes(as_slice(key), as_slice(other)) && same_value(value, second)
        },
        (Mutation::Delete { key }, Mutation::Delete { key: other }) => same_bytes(
            as_slice(key),
            as_slice(other),
        ),
        _ => false,
    }
}

} // verus!
