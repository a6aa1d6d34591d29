//! What is counted against the quota.

use super::value::{ScoreModel, ValueModel};
use crate::ordered;
use crate::storage::collections;
use crate::storage::model;
use crate::storage::value;
use vstd::prelude::*;

verus! {

/// Taking a member out of a listing gives the listing of what is left.
proof fn lemma_listing_without(keys: Seq<Seq<u8>>, members: Set<Seq<u8>>, index: int)
    requires
        ordered::is_listing(keys, members),
        0 <= index < keys.len(),
    ensures
        ordered::is_listing(keys.remove(index), members.remove(keys[index])),
{
    let rest = keys.remove(index);
    assert forall|i: int, j: int|
        #![trigger rest[i], rest[j]]
        0 <= i < j < rest.len() implies ordered::precedes(rest[i], rest[j]) by {
        let p = if i < index {
            i
        } else {
            i + 1
        };
        let q = if j < index {
            j
        } else {
            j + 1
        };
        assert(ordered::precedes(keys[p], keys[q]));
    }
    assert forall|key: Seq<u8>| #[trigger] members.remove(keys[index]).contains(key)
        <==> rest.contains(key) by {
        if members.contains(key) && key != keys[index] {
            assert(keys.contains(key));
            let i = choose|i: int| 0 <= i < keys.len() && keys[i] == key;
            if i < index {
                assert(rest[i] == key);
            } else {
                assert(rest[i - 1] == key);
            }
        }
        if rest.contains(key) {
            let i = choose|i: int| 0 <= i < rest.len() && rest[i] == key;
            let p = if i < index {
                i
            } else {
                i + 1
            };
            assert(keys[p] == key);
            assert(keys.contains(key));
            if key == keys[index] {
                ordered::lemma_precedes_irreflexive(key);
                if p < index {
                    assert(ordered::precedes(keys[p], keys[index]));
                } else {
                    assert(ordered::precedes(keys[index], keys[p]));
                }
            }
        }
    }
}

proof fn lemma_fields_alike(
    keys: Seq<Seq<u8>>,
    left: Map<Seq<u8>, Seq<u8>>,
    right: Map<Seq<u8>, Seq<u8>>,
)
    requires
        forall|i: int| 0 <= i < keys.len() ==> left[#[trigger] keys[i]] == right[keys[i]],
    ensures
        value::fields_bytes(keys, left) == value::fields_bytes(keys, right),
    decreases keys.len(),
{
    if keys.len() > 0 {
        let front = keys.drop_last();
        assert forall|i: int| 0 <= i < front.len() implies left[#[trigger] front[i]]
            == right[front[i]] by {
            assert(front[i] == keys[i]);
        }
        lemma_fields_alike(front, left, right);
        assert(keys[keys.len() - 1] == keys.last());
    }
}

/// Every field of a hash takes its own bytes, those of its value and a fixed share; a hash
/// without fields takes nothing.
pub proof fn law_fields_take_their_bytes(fields: Map<Seq<u8>, Seq<u8>>, field: Seq<u8>)
    requires
        fields.dom().finite(),
        fields.contains_key(field),
    ensures
        value::value_bytes(ValueModel::Hash(fields)) == value::value_bytes(
            ValueModel::Hash(fields.remove(field)),
        ) + field.len() + fields[field].len() + 64,
        value::value_bytes(ValueModel::Hash(Map::empty())) == 0,
{
    let keys = ordered::listing(fields.dom());
    let fewer = fields.remove(field);
    collections::lemma_listing_exists(fields.dom());
    collections::lemma_listing_exists(fewer.dom());
    assert(fields.dom().contains(field));
    assert(keys.contains(field));
    let index = choose|i: int| 0 <= i < keys.len() && keys[i] == field;
    collections::lemma_fields_split(keys, fields, index);
    lemma_listing_without(keys, fields.dom(), index);
    assert(fewer.dom() =~= fields.dom().remove(field));
    ordered::lemma_listing_unique(
        keys.remove(index),
        ordered::listing(fewer.dom()),
        fewer.dom(),
    );
    let rest = keys.remove(index);
    assert forall|i: int| 0 <= i < rest.len() implies fields[#[trigger] rest[i]] == fewer[rest[i]] by {
        assert(rest.contains(rest[i]));
        assert(fewer.dom().contains(rest[i]));
    }
    lemma_fields_alike(rest, fields, fewer);
    lemma_empty();
}

/// Every member of a sorted set takes its own bytes and a fixed share for its score; a set
/// without members takes nothing.
pub proof fn law_members_take_their_bytes(members: Map<Seq<u8>, ScoreModel>, member: Seq<u8>)
    requires
        members.dom().finite(),
        members.contains_key(member),
    ensures
        value::value_bytes(ValueModel::SortedSet(members)) == value::value_bytes(
            ValueModel::SortedSet(members.remove(member)),
        ) + member.len() + 72,
        value::value_bytes(ValueModel::SortedSet(Map::empty())) == 0,
{
    let keys = ordered::listing(members.dom());
    let fewer = members.remove(member);
    collections::lemma_listing_exists(members.dom());
    collections::lemma_listing_exists(fewer.dom());
    assert(members.dom().contains(member));
    assert(keys.contains(member));
    let index = choose|i: int| 0 <= i < keys.len() && keys[i] == member;
    collections::lemma_members_split(keys, index);
    lemma_listing_without(keys, members.dom(), index);
    assert(fewer.dom() =~= members.dom().remove(member));
    ordered::lemma_listing_unique(
        keys.remove(index),
        ordered::listing(fewer.dom()),
        fewer.dom(),
    );
    lemma_empty();
}

proof fn lemma_empty()
    ensures
        ordered::listing(Set::<Seq<u8>>::empty()) == Seq::<Seq<u8>>::empty(),
        Map::<Seq<u8>, Seq<u8>>::empty().dom() == Set::<Seq<u8>>::empty(),
        Map::<Seq<u8>, ScoreModel>::empty().dom() == Set::<Seq<u8>>::empty(),
{
    let none = Set::<Seq<u8>>::empty();
    collections::lemma_listing_exists(none);
    collections::lemma_listing_len(ordered::listing(none), none);
    assert(ordered::listing(none) =~= Seq::<Seq<u8>>::empty());
    assert(Map::<Seq<u8>, Seq<u8>>::empty().dom() =~= none);
    assert(Map::<Seq<u8>, ScoreModel>::empty().dom() =~= none);
}

/// An entry takes its key, its value and a fixed share; a text takes its bytes.
pub proof fn law_entries_take_key_and_value(key: Seq<u8>, value: ValueModel, text: Seq<u8>)
    ensures
        model::cost(key, value) == key.len() + value::value_bytes(value) + 128,
        value::value_bytes(ValueModel::Text(text)) == text.len(),
{
}

} // verus!
