//! Listings of sets, and what parts of collections take.

use super::value::{ScoreModel, ValueModel};
use crate::ordered;
use crate::storage::value;
use vstd::prelude::*;

verus! {

/// Every finite set has a listing.
pub proof fn lemma_listing_exists(members: Set<Seq<u8>>)
    requires
        members.finite(),
    ensures
        ordered::is_listing(ordered::listing(members), members),
    decreases members.len(),
{
    if members.is_empty() {
        let none = Seq::<Seq<u8>>::empty();
        assert(ordered::is_listing(none, members)) by {
            assert forall|key: Seq<u8>| #[trigger] members.contains(key) <==> none.contains(
                key,
            ) by {}
        }
    } else {
        let key = members.choose();
        let rest = members.remove(key);
        lemma_listing_exists(rest);
        let keys = ordered::listing(rest);
        lemma_insert_listing(keys, rest, key);
        let at = choose|at: int|
            0 <= at <= keys.len() && #[trigger] ordered::is_listing(keys.insert(at, key), rest.insert(key));
        assert(rest.insert(key) =~= members);
        assert(ordered::is_listing(keys.insert(at, key), members));
    }
}

/// A listing is as long as its set.
pub proof fn lemma_listing_len(keys: Seq<Seq<u8>>, members: Set<Seq<u8>>)
    requires
        ordered::is_listing(keys, members),
    ensures
        keys.len() == members.len(),
{
    assert(keys.no_duplicates()) by {
        assert forall|i: int, j: int|
            0 <= i < keys.len() && 0 <= j < keys.len() && i != j implies keys[i] != keys[j] by {
            ordered::lemma_precedes_irreflexive(keys[i]);
            if i < j {
                assert(ordered::precedes(keys[i], keys[j]));
            } else {
                assert(ordered::precedes(keys[j], keys[i]));
            }
        }
    }
    keys.unique_seq_to_set();
    assert(keys.to_set() =~= members);
}

proof fn lemma_insert_listing(keys: Seq<Seq<u8>>, members: Set<Seq<u8>>, key: Seq<u8>)
    requires
        ordered::is_listing(keys, members),
        !members.contains(key),
    ensures
        exists|at: int|
            0 <= at <= keys.len() && #[trigger] ordered::is_listing(
                keys.insert(at, key),
                members.insert(key),
            ),
{
    let at = place_for(keys, key, keys.len() as int);
    lemma_place_for(keys, members, key, keys.len() as int);
    let grown = keys.insert(at, key);
    assert(ordered::ascending(grown)) by {
        assert forall|i: int, j: int|
            #![trigger grown[i], grown[j]]
            0 <= i < j < grown.len() implies ordered::precedes(grown[i], grown[j]) by {
            let p = if i < at {
                i
            } else {
                i - 1
            };
            let q = if j < at {
                j
            } else {
                j - 1
            };
            if i != at && j != at {
                assert(ordered::precedes(keys[p], keys[q]));
            } else if i == at {
                assert(ordered::precedes(key, keys[q]));
            } else {
                assert(ordered::precedes(keys[p], key));
            }
        }
    }
    assert forall|other: Seq<u8>| #[trigger] members.insert(key).contains(
        other,
    ) <==> grown.contains(other) by {
        if members.contains(other) {
            assert(keys.contains(other));
            let i = choose|i: int| 0 <= i < keys.len() && keys[i] == other;
            if i < at {
                assert(grown[i] == other);
            } else {
                assert(grown[i + 1] == other);
            }
        }
        if other == key {
            assert(grown[at] == key);
        }
        if grown.contains(other) {
            let i = choose|i: int| 0 <= i < grown.len() && grown[i] == other;
            if i < at {
                assert(keys[i] == other);
                assert(keys.contains(other));
            } else if i > at {
                assert(keys[i - 1] == other);
                assert(keys.contains(other));
            }
        }
    }
    assert(ordered::is_listing(keys.insert(at, key), members.insert(key)));
}

/// How many of the first `count` keys come before the key.
spec fn place_for(keys: Seq<Seq<u8>>, key: Seq<u8>, count: int) -> int
    decreases count,
{
    if count <= 0 {
        0
    } else if ordered::precedes(keys[count - 1], key) {
        count
    } else {
        place_for(keys, key, count - 1)
    }
}

proof fn lemma_place_for(keys: Seq<Seq<u8>>, members: Set<Seq<u8>>, key: Seq<u8>, count: int)
    requires
        ordered::is_listing(keys, members),
        !members.contains(key),
        0 <= count <= keys.len(),
        forall|i: int| count <= i < keys.len() ==> ordered::precedes(key, #[trigger] keys[i]),
    ensures
        0 <= place_for(keys, key, count) <= count,
        forall|i: int| 0 <= i < place_for(keys, key, count) ==> ordered::precedes(#[trigger] keys[i], key),
        forall|i: int|
            place_for(keys, key, count) <= i < keys.len() ==> ordered::precedes(key, #[trigger] keys[i]),
    decreases count,
{
    if count > 0 {
        let last = keys[count - 1];
        if ordered::precedes(last, key) {
            assert forall|i: int| 0 <= i < count implies ordered::precedes(#[trigger] keys[i], key) by {
                if i < count - 1 {
                    assert(ordered::precedes(keys[i], keys[count - 1]));
                    crate::ordered::lemma_precedes_transitive(keys[i], last, key);
                }
            }
        } else {
            assert(keys.contains(last));
            assert(members.contains(last));
            crate::ordered::lemma_precedes_total(last, key);
            lemma_place_for(keys, members, key, count - 1);
        }
    }
}

proof fn lemma_fields_cover(
    some: Seq<Seq<u8>>,
    part: Map<Seq<u8>, Seq<u8>>,
    all: Seq<Seq<u8>>,
    whole: Map<Seq<u8>, Seq<u8>>,
)
    requires
        ordered::ascending(some),
        forall|i: int|
            0 <= i < some.len() ==> all.contains(#[trigger] some[i]) && part[some[i]]
                == whole[some[i]],
    ensures
        value::fields_bytes(some, part) <= value::fields_bytes(all, whole),
    decreases some.len(),
{
    if some.len() > 0 {
        let key = some.last();
        let front = some.drop_last();
        assert(some[some.len() - 1] == key);
        assert(all.contains(key));
        let at = choose|j: int| 0 <= j < all.len() && all[j] == key;
        let rest = all.remove(at);
        lemma_fields_split(all, whole, at);
        assert(ordered::ascending(front)) by {
            assert forall|i: int, j: int|
                #![trigger front[i], front[j]]
                0 <= i < j < front.len() implies ordered::precedes(front[i], front[j]) by {
                assert(ordered::precedes(some[i], some[j]));
            }
        }
        assert forall|i: int| 0 <= i < front.len() implies rest.contains(#[trigger] front[i])
            && part[front[i]] == whole[front[i]] by {
            assert(some[i] == front[i]);
            assert(ordered::precedes(some[i], some[some.len() - 1]));
            ordered::lemma_precedes_irreflexive(key);
            assert(all.contains(some[i]));
            let j = choose|j: int| 0 <= j < all.len() && all[j] == some[i];
            if j < at {
                assert(rest[j] == front[i]);
            } else {
                assert(rest[j - 1] == front[i]);
            }
        }
        lemma_fields_cover(front, part, rest, whole);
    }
}

/// What one of the fields takes.
pub proof fn lemma_fields_split(keys: Seq<Seq<u8>>, fields: Map<Seq<u8>, Seq<u8>>, index: int)
    requires
        0 <= index < keys.len(),
    ensures
        value::fields_bytes(keys, fields) == value::fields_bytes(keys.remove(index), fields) + keys[index].len()
            + fields[keys[index]].len() + 64,
    decreases keys.len(),
{
    let rest = keys.remove(index);
    if index == keys.len() - 1 {
        assert(rest =~= keys.drop_last());
    } else {
        assert(rest.drop_last() =~= keys.drop_last().remove(index));
        assert(rest.last() == keys.last());
        lemma_fields_split(keys.drop_last(), fields, index);
    }
}

/// What one of the members takes.
pub proof fn lemma_members_split(keys: Seq<Seq<u8>>, index: int)
    requires
        0 <= index < keys.len(),
    ensures
        value::members_bytes(keys) == value::members_bytes(keys.remove(index)) + keys[index].len() + 72,
    decreases keys.len(),
{
    let rest = keys.remove(index);
    if index == keys.len() - 1 {
        assert(rest =~= keys.drop_last());
    } else {
        assert(rest.drop_last() =~= keys.drop_last().remove(index));
        assert(rest.last() == keys.last());
        lemma_members_split(keys.drop_last(), index);
    }
}

proof fn lemma_members_cover(some: Seq<Seq<u8>>, all: Seq<Seq<u8>>)
    requires
        ordered::ascending(some),
        forall|i: int| 0 <= i < some.len() ==> all.contains(#[trigger] some[i]),
    ensures
        value::members_bytes(some) <= value::members_bytes(all),
    decreases some.len(),
{
    if some.len() > 0 {
        let key = some.last();
        let front = some.drop_last();
        assert(some[some.len() - 1] == key);
        assert(all.contains(key));
        let at = choose|j: int| 0 <= j < all.len() && all[j] == key;
        let rest = all.remove(at);
        lemma_members_split(all, at);
        assert(ordered::ascending(front)) by {
            assert forall|i: int, j: int|
                #![trigger front[i], front[j]]
                0 <= i < j < front.len() implies ordered::precedes(front[i], front[j]) by {
                assert(ordered::precedes(some[i], some[j]));
            }
        }
        assert forall|i: int| 0 <= i < front.len() implies rest.contains(#[trigger] front[i]) by {
            assert(some[i] == front[i]);
            assert(ordered::precedes(some[i], some[some.len() - 1]));
            ordered::lemma_precedes_irreflexive(key);
            assert(all.contains(some[i]));
            let j = choose|j: int| 0 <= j < all.len() && all[j] == some[i];
            if j < at {
                assert(rest[j] == front[i]);
            } else {
                assert(rest[j - 1] == front[i]);
            }
        }
        lemma_members_cover(front, rest);
    }
}

/// Some of the fields of a hash take no more than all of them.
pub proof fn lemma_fields_subset(part: Map<Seq<u8>, Seq<u8>>, whole: Map<Seq<u8>, Seq<u8>>)
    requires
        part.submap_of(whole),
        part.dom().finite(),
        whole.dom().finite(),
    ensures
        value::value_bytes(ValueModel::Hash(part)) <= value::value_bytes(ValueModel::Hash(whole)),
{
    lemma_listing_exists(part.dom());
    lemma_listing_exists(whole.dom());
    let some = ordered::listing(part.dom());
    let all = ordered::listing(whole.dom());
    assert forall|i: int| 0 <= i < some.len() implies all.contains(#[trigger] some[i])
        && part[some[i]] == whole[some[i]] by {
        assert(some.contains(some[i]));
        assert(part.dom().contains(some[i]));
        assert(whole.dom().contains(some[i]));
    }
    lemma_fields_cover(some, part, all, whole);
}

/// Some of the members of a sorted set take no more than all of them.
pub proof fn lemma_members_subset(
    part: Map<Seq<u8>, ScoreModel>,
    whole: Map<Seq<u8>, ScoreModel>,
)
    requires
        part.submap_of(whole),
        part.dom().finite(),
        whole.dom().finite(),
    ensures
        value::value_bytes(ValueModel::SortedSet(part)) <= value::value_bytes(ValueModel::SortedSet(whole)),
{
    lemma_listing_exists(part.dom());
    lemma_listing_exists(whole.dom());
    let some = ordered::listing(part.dom());
    let all = ordered::listing(whole.dom());
    assert forall|i: int| 0 <= i < some.len() implies all.contains(#[trigger] some[i]) by {
        assert(some.contains(some[i]));
        assert(part.dom().contains(some[i]));
        assert(whole.dom().contains(some[i]));
    }
    lemma_members_cover(some, all);
}

} // verus!
