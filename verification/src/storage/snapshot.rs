//! The snapshots of all shards, put together in the order of the keys.

use super::changes::Change;
use super::model::Dataset;
use super::mutation::{Mutation, MutationModel};
use super::worker::DbError;
use crate::buffer::as_slice;
use crate::ordered::{position, Position};
use crate::persistence::config::AofError;
use crate::ordered;
use crate::storage::changes;
use crate::storage::collections;
use crate::storage::mutation;
use vstd::multiset::Multiset;
use vstd::prelude::*;
use vstd::seq_lib::*;

verus! {

/// The ordered state of all shards and the durable sequence of the same instant.
#[derive(Debug)]
pub struct Snapshot {
    pub mutations: Vec<Mutation>,
    pub sequence: Option<u64>,
}

#[derive(Debug)]
pub enum SnapshotError {
    /// The snapshot is not available.
    Database(DbError),
    /// The log failed.
    Persistence(AofError),
}

/// Whether no mutation comes before one with a smaller key.
pub open spec fn sorted(mutations: Seq<Mutation>) -> bool {
    forall|i: int, j: int|
        #![trigger mutations[i], mutations[j]]
        0 <= i < j < mutations.len() ==> !ordered::precedes(
            mutations[j].model().key(),
            mutations[i].model().key(),
        )
}

/// All mutations of some parts, with how often each occurs.
pub open spec fn gathered(parts: Seq<Vec<Mutation>>) -> Multiset<Mutation>
    decreases parts.len(),
{
    if parts.len() == 0 {
        Multiset::empty()
    } else {
        gathered(parts.drop_last()).add(parts.last()@.to_multiset())
    }
}

proof fn lemma_not_before(first: Seq<u8>, second: Seq<u8>, third: Seq<u8>)
    requires
        !ordered::precedes(second, first),
        !ordered::precedes(third, second),
    ensures
        !ordered::precedes(third, first),
{
    ordered::lemma_precedes_total(first, second);
    ordered::lemma_precedes_total(second, third);
    if ordered::precedes(third, first) {
        if first == second {
        } else if second == third {
        } else {
            ordered::lemma_precedes_transitive(first, second, third);
            ordered::lemma_precedes_total(first, third);
        }
    }
}

proof fn lemma_popped(mutations: Seq<Mutation>)
    requires
        mutations.len() > 0,
    ensures
        mutations.to_multiset() == mutations.drop_last().to_multiset().insert(mutations.last()),
{
    broadcast use group_to_multiset_ensures;

    assert(mutations.drop_last().push(mutations.last()) =~= mutations);
}

/// Two ordered runs as one, the greatest key first.
fn merge_backwards(left: Vec<Mutation>, right: Vec<Mutation>) -> (result: Vec<Mutation>)
    requires
        sorted(left@),
        sorted(right@),
    ensures
        sorted(result@.reverse()),
        result@.to_multiset() == left@.to_multiset().add(right@.to_multiset()),
{
    let ghost all = left@.to_multiset().add(right@.to_multiset());
    let mut left = left;
    let mut right = right;
    let mut result: Vec<Mutation> = Vec::new();
    proof {
        broadcast use group_to_multiset_ensures;

        assert(result@.to_multiset() =~= Multiset::empty());
        assert(result@.to_multiset().add(left@.to_multiset()).add(right@.to_multiset()) =~= all);
    }
    while left.len() > 0 || right.len() > 0
        invariant
            sorted(left@),
            sorted(right@),
            forall|i: int, j: int|
                #![trigger result@[i], result@[j]]
                0 <= i < j < result@.len() ==> !ordered::precedes(
                    result@[i].model().key(),
                    result@[j].model().key(),
                ),
            forall|i: int, j: int|
                #![trigger result@[i], left@[j]]
                0 <= i < result@.len() && 0 <= j < left@.len() ==> !ordered::precedes(
                    result@[i].model().key(),
                    left@[j].model().key(),
                ),
            forall|i: int, j: int|
                #![trigger result@[i], right@[j]]
                0 <= i < result@.len() && 0 <= j < right@.len() ==> !ordered::precedes(
                    result@[i].model().key(),
                    right@[j].model().key(),
                ),
            result@.to_multiset().add(left@.to_multiset()).add(right@.to_multiset()) == all,
        decreases left@.len() + right@.len(),
    {
        let from_left = if right.len() == 0 {
            true
        } else if left.len() == 0 {
            false
        } else {
            match position(
                as_slice(left[left.len() - 1].key()),
                as_slice(right[right.len() - 1].key()),
            ) {
                Position::Before => false,
                _ => true,
            }
        };
        let ghost olds = (left@, right@, result@);
        if from_left {
            if let Some(mutation) = left.pop() {
                proof {
                    lemma_popped(olds.0);
                    assert(left@ =~= olds.0.drop_last());
                    assert(mutation == olds.0[olds.0.len() - 1]);
                    if olds.1.len() > 0 {
                        let top = olds.1[olds.1.len() - 1];
                        ordered::lemma_precedes_total(mutation.model().key(), top.model().key());
                        ordered::lemma_precedes_irreflexive(top.model().key());
                        assert forall|j: int| 0 <= j < right@.len() implies !ordered::precedes(
                            mutation.model().key(),
                            (#[trigger] right@[j]).model().key(),
                        ) by {
                            if j < right@.len() - 1 {
                                lemma_not_before(
                                    right@[j].model().key(),
                                    top.model().key(),
                                    mutation.model().key(),
                                );
                            }
                        }
                    }
                }
                result.push(mutation);
                proof {
                    lemma_popped(result@);
                    assert(result@.drop_last() =~= olds.2);
                    assert(result@.to_multiset().add(left@.to_multiset()).add(
                        right@.to_multiset(),
                    ) =~= all);
                }
            }
        } else {
            if let Some(mutation) = right.pop() {
                proof {
                    lemma_popped(olds.1);
                    assert(right@ =~= olds.1.drop_last());
                    assert(mutation == olds.1[olds.1.len() - 1]);
                    if olds.0.len() > 0 {
                        let top = olds.0[olds.0.len() - 1];
                        ordered::lemma_precedes_total(mutation.model().key(), top.model().key());
                        assert forall|j: int| 0 <= j < left@.len() implies !ordered::precedes(
                            mutation.model().key(),
                            (#[trigger] left@[j]).model().key(),
                        ) by {
                            if j < left@.len() - 1 {
                                lemma_not_before(
                                    left@[j].model().key(),
                                    top.model().key(),
                                    mutation.model().key(),
                                );
                            }
                        }
                    }
                }
                result.push(mutation);
                proof {
                    lemma_popped(result@);
                    assert(result@.drop_last() =~= olds.2);
                    assert(result@.to_multiset().add(left@.to_multiset()).add(
                        right@.to_multiset(),
                    ) =~= all);
                }
            }
        }
    }
    proof {
        broadcast use group_to_multiset_ensures;

        assert(left@.to_multiset() =~= Multiset::empty());
        assert(right@.to_multiset() =~= Multiset::empty());
        assert(result@.to_multiset() =~= all);
        let forward = result@.reverse();
        assert forall|i: int, j: int|
            #![trigger forward[i], forward[j]]
            0 <= i < j < forward.len() implies !ordered::precedes(
            forward[j].model().key(),
            forward[i].model().key(),
        ) by {
            let a = result@[result@.len() - 1 - j];
            let b = result@[result@.len() - 1 - i];
            assert(forward[j] == a && forward[i] == b);
        }
    }
    result
}

/// The mutations from last to first.
fn backwards(mutations: Vec<Mutation>) -> (result: Vec<Mutation>)
    ensures
        result@ == mutations@.reverse(),
        result@.to_multiset() == mutations@.to_multiset(),
{
    let ghost all = mutations@;
    let mut left = mutations;
    let mut result: Vec<Mutation> = Vec::new();
    proof {
        broadcast use group_to_multiset_ensures;

        assert(result@.to_multiset() =~= Multiset::empty());
        assert(result@.to_multiset().add(left@.to_multiset()) =~= all.to_multiset());
    }
    while left.len() > 0
        invariant
            left@.len() + result@.len() == all.len(),
            left@ == all.take(left@.len() as int),
            forall|i: int| 0 <= i < result@.len() ==> #[trigger] result@[i] == all[all.len() - 1 - i],
            result@.to_multiset().add(left@.to_multiset()) == all.to_multiset(),
        decreases left@.len(),
    {
        let ghost olds = (left@, result@);
        if let Some(mutation) = left.pop() {
            proof {
                lemma_popped(olds.0);
                assert(left@ =~= olds.0.drop_last());
            }
            result.push(mutation);
            proof {
                lemma_popped(result@);
                assert(result@.drop_last() =~= olds.1);
                assert(result@.to_multiset().add(left@.to_multiset()) =~= all.to_multiset());
            }
        }
    }
    proof {
        broadcast use group_to_multiset_ensures;

        assert(left@.to_multiset() =~= Multiset::empty());
        assert(result@.to_multiset() =~= all.to_multiset());
        assert(result@ =~= all.reverse());
    }
    result
}

/// The mutations in the order of their keys.
fn arranged(mutations: Vec<Mutation>) -> (result: Vec<Mutation>)
    ensures
        sorted(result@),
        result@.to_multiset() == mutations@.to_multiset(),
    decreases mutations@.len(),
{
    if mutations.len() < 2 {
        return mutations;
    }
    let ghost all = mutations@;
    let half: usize = mutations.len() / 2;
    let mut left = mutations;
    let right = left.split_off(half);
    proof {
        assert(all =~= left@ + right@);
        lemma_multiset_commutative(left@, right@);
    }
    backwards(merge_backwards(arranged(left), arranged(right)))
}

/// Puts the snapshots of shards together in the order of the keys.
pub fn merge_snapshots(parts: Vec<Vec<Mutation>>) -> (result: Vec<Mutation>)
    ensures
        sorted(result@),
        result@.to_multiset() == gathered(parts@),
{
    let ghost all = parts@;
    let mut left = parts;
    let mut result: Vec<Mutation> = Vec::new();
    proof {
        broadcast use group_to_multiset_ensures;

        assert(result@.to_multiset() =~= Multiset::empty());
        assert(result@.to_multiset().add(gathered(left@)) =~= gathered(all));
    }
    while left.len() > 0
        invariant
            sorted(result@),
            result@.to_multiset().add(gathered(left@)) == gathered(all),
        decreases left@.len(),
    {
        let ghost olds = (left@, result@);
        if let Some(part) = left.pop() {
            proof {
                assert(left@ =~= olds.0.drop_last());
                assert(part == olds.0[olds.0.len() - 1]);
            }
            let merged = merge_backwards(result, arranged(part));
            result = backwards(merged);
            assert(result@.to_multiset().add(gathered(left@)) =~= gathered(all));
        }
    }
    assert(result@.to_multiset() =~= gathered(all));
    result
}

/// Whether it is time for a compaction of the whole log: none goes on, and the
/// log has grown to the threshold, where there is one.
pub fn compaction_due(threshold: u64, log_bytes: u64, compacting: bool) -> (result: bool)
    ensures
        result == (threshold > 0 && !compacting && log_bytes >= threshold),
{
    threshold > 0 && !compacting && log_bytes >= threshold
}

/// Whether the parts are the snapshots of shards that share no key and hold a whole
/// dataset between them.
pub open spec fn divides(parts: Seq<Vec<Mutation>>, shards: Seq<Dataset>, whole: Dataset) -> bool {
    &&& parts.len() == shards.len()
    &&& forall|i: int|
        0 <= i < shards.len() ==> (#[trigger] shards[i]).entries.dom().finite()
            && mutation::mutation_models(parts[i]@) == mutation::snapshot_of(shards[i])
    &&& forall|i: int, key: Seq<u8>|
        0 <= i < shards.len() && #[trigger] shards[i].entries.contains_key(key)
            ==> whole.entries.contains_key(key) && whole.entries[key] == shards[i].entries[key]
    &&& forall|key: Seq<u8>| #[trigger]
        whole.entries.contains_key(key) ==> exists|i: int|
            0 <= i < shards.len() && #[trigger] shards[i].entries.contains_key(key)
    &&& forall|i: int, j: int, key: Seq<u8>|
        0 <= i < j < shards.len() && #[trigger] shards[i].entries.contains_key(key)
            ==> !#[trigger] shards[j].entries.contains_key(key)
}

/// A snapshot holds each key of its dataset once, with its entry.
proof fn lemma_part(part: Seq<Mutation>, data: Dataset)
    requires
        data.entries.dom().finite(),
        mutation::mutation_models(part) == mutation::snapshot_of(data),
    ensures
        part.no_duplicates(),
        forall|k: int|
            0 <= k < part.len() ==> {
                let key = (#[trigger] part[k]).model().key();
                &&& data.entries.contains_key(key)
                &&& part[k].model() == told(data, key)
            },
        forall|key: Seq<u8>| #[trigger]
            data.entries.contains_key(key) ==> exists|k: int|
                0 <= k < part.len() && (#[trigger] part[k]).model().key() == key,
        forall|j: int, k: int|
            0 <= j < part.len() && 0 <= k < part.len() && j != k ==> (#[trigger] part[j]).model().key()
                != (#[trigger] part[k]).model().key(),
{
    let keys = ordered::listing(data.entries.dom());
    let models = mutation::snapshot_of(data);
    collections::lemma_listing_exists(data.entries.dom());
    assert(part.len() == keys.len()) by {
        assert(mutation::mutation_models(part).len() == part.len());
        assert(models.len() == keys.len());
    }
    assert forall|k: int| 0 <= k < part.len() implies (#[trigger] part[k]).model().key() == keys[k]
        && data.entries.contains_key(keys[k]) && part[k].model() == told(data, keys[k]) by {
        assert(mutation::mutation_models(part)[k] == part[k].model());
        assert(models[k] == told(data, keys[k]));
        assert(keys.contains(keys[k]));
        assert(data.entries.dom().contains(keys[k]));
    }
    assert forall|key: Seq<u8>| #[trigger] data.entries.contains_key(key) implies exists|k: int|
        0 <= k < part.len() && (#[trigger] part[k]).model().key() == key by {
        assert(data.entries.dom().contains(key));
        assert(keys.contains(key));
        let k = choose|k: int| 0 <= k < keys.len() && keys[k] == key;
        assert(part[k].model().key() == key);
    }
    assert forall|j: int, k: int|
        0 <= j < part.len() && 0 <= k < part.len() && j != k implies (#[trigger] part[j]).model().key()
        != (#[trigger] part[k]).model().key() by {
        ordered::lemma_precedes_total(keys[j], keys[k]);
        if j < k {
            assert(ordered::precedes(keys[j], keys[k]));
        } else {
            assert(ordered::precedes(keys[k], keys[j]));
        }
    }
}

/// Whether one of the parts holds a mutation.
spec fn occurs(parts: Seq<Vec<Mutation>>, mutation: Mutation) -> bool {
    exists|i: int| 0 <= i < parts.len() && #[trigger] parts[i]@.contains(mutation)
}

/// What a snapshot tells of one key.
pub open spec fn told(data: Dataset, key: Seq<u8>) -> MutationModel {
    mutation::mutation_of(Change { key, entry: changes::entry_at(data, key) })
}

/// How often a mutation occurs in some parts, of which at most one has it.
proof fn lemma_gathered(parts: Seq<Vec<Mutation>>, mutation: Mutation)
    requires
        forall|i: int| 0 <= i < parts.len() ==> (#[trigger] parts[i])@.no_duplicates(),
        forall|i: int, j: int|
            0 <= i < j < parts.len() && (#[trigger] parts[i])@.contains(mutation)
                ==> !(#[trigger] parts[j])@.contains(mutation),
    ensures
        gathered(parts).count(mutation) <= 1,
        gathered(parts).count(mutation) == 1 <==> exists|i: int|
            0 <= i < parts.len() && (#[trigger] parts[i])@.contains(mutation),
    decreases parts.len(),
{
    broadcast use group_to_multiset_ensures;

    if parts.len() > 0 {
        let before = parts.drop_last();
        let last = parts.last();
        assert forall|i: int, j: int|
            0 <= i < j < before.len() && (#[trigger] before[i])@.contains(mutation) implies !(
        #[trigger] before[j])@.contains(mutation) by {
            assert(before[i] == parts[i] && before[j] == parts[j]);
        }
        assert forall|i: int| 0 <= i < before.len() implies (#[trigger] before[i])@.no_duplicates() by {
            assert(before[i] == parts[i]);
        }
        lemma_gathered(before, mutation);
        last@.lemma_multiset_has_no_duplicates();
        assert(parts[parts.len() - 1] == last);
        if last@.contains(mutation) {
            assert(last@.to_multiset().contains(mutation));
            assert forall|i: int| 0 <= i < before.len() implies !(#[trigger] before[i])@.contains(
                mutation,
            ) by {
                assert(before[i] == parts[i]);
                assert(parts[parts.len() - 1]@.contains(mutation));
            }
        } else {
            assert(!last@.to_multiset().contains(mutation));
            if exists|i: int| 0 <= i < before.len() && (#[trigger] before[i])@.contains(mutation) {
                let i = choose|i: int|
                    0 <= i < before.len() && (#[trigger] before[i])@.contains(mutation);
                assert(parts[i]@.contains(mutation));
            }
            if exists|i: int| 0 <= i < parts.len() && (#[trigger] parts[i])@.contains(mutation) {
                let i = choose|i: int|
                    0 <= i < parts.len() && (#[trigger] parts[i])@.contains(mutation);
                assert(before[i]@.contains(mutation));
            }
        }
    }
}

/// The snapshots of all shards, put together in the order of the keys, are the
/// snapshot of the whole dataset.
pub proof fn law_shards_make_the_whole(
    parts: Seq<Vec<Mutation>>,
    shards: Seq<Dataset>,
    whole: Dataset,
    merged: Seq<Mutation>,
)
    requires
        divides(parts, shards, whole),
        whole.entries.dom().finite(),
        sorted(merged),
        merged.to_multiset() == gathered(parts),
    ensures
        mutation::mutation_models(merged) == mutation::snapshot_of(whole),
{
    broadcast use group_to_multiset_ensures;

    assert forall|i: int| 0 <= i < parts.len() implies (#[trigger] parts[i])@.no_duplicates() by {
        assert(shards[i].entries.dom().finite());
        lemma_part(parts[i]@, shards[i]);
    }
    assert forall|mutation: Mutation, i: int|
        0 <= i < parts.len() && #[trigger] parts[i]@.contains(mutation) implies
        shards[i].entries.contains_key(mutation.model().key()) && mutation.model() == told(
        whole,
        mutation.model().key(),
    ) by {
        assert(shards[i].entries.dom().finite());
        lemma_part(parts[i]@, shards[i]);
        let k = choose|k: int| 0 <= k < parts[i]@.len() && parts[i]@[k] == mutation;
        assert(shards[i].entries.contains_key(parts[i]@[k].model().key()));
    }
    assert forall|mutation: Mutation, i: int, j: int|
        0 <= i < j < parts.len() && #[trigger] parts[i]@.contains(mutation) implies !(
    #[trigger] parts[j]@.contains(mutation)) by {
        assert(shards[i].entries.contains_key(mutation.model().key()));
    }
    assert forall|mutation: Mutation| #[trigger] merged.to_multiset().contains(mutation) implies
        merged.to_multiset().count(mutation) == 1 && exists|i: int|
        0 <= i < parts.len() && (#[trigger] parts[i])@.contains(mutation) by {
        lemma_gathered(parts, mutation);
    }
    merged.lemma_multiset_has_no_duplicates_conv();
    let keys = merged.map_values(|mutation: Mutation| mutation.model().key());
    assert forall|k: int| 0 <= k < merged.len() implies occurs(parts, #[trigger] merged[k]) by {
        assert(merged.contains(merged[k]));
        assert(merged.to_multiset().contains(merged[k]));
        let i = choose|i: int| 0 <= i < parts.len() && (#[trigger] parts[i])@.contains(merged[k]);
        assert(parts[i]@.contains(merged[k]));
    }
    assert forall|j: int, k: int| 0 <= j < k < keys.len() implies ordered::precedes(
        #[trigger] keys[j],
        #[trigger] keys[k],
    ) by {
        ordered::lemma_precedes_total(keys[j], keys[k]);
        if keys[j] == keys[k] {
            lemma_same_key(parts, shards, whole, merged[j], merged[k]);
        }
        assert(!ordered::precedes(merged[k].model().key(), merged[j].model().key()));
    }
    assert forall|key: Seq<u8>| #[trigger] whole.entries.dom().contains(key) <==> keys.contains(key) by {
        if whole.entries.contains_key(key) {
            let i = choose|i: int|
                0 <= i < shards.len() && #[trigger] shards[i].entries.contains_key(key);
            lemma_part(parts[i]@, shards[i]);
            let k = choose|k: int|
                0 <= k < parts[i]@.len() && (#[trigger] parts[i]@[k]).model().key() == key;
            let found = parts[i]@[k];
            assert(parts[i]@.contains(found));
            lemma_gathered(parts, found);
            assert(merged.to_multiset().contains(found));
            let m = choose|m: int| 0 <= m < merged.len() && merged[m] == found;
            assert(keys[m] == key);
        }
        if keys.contains(key) {
            let k = choose|k: int| 0 <= k < keys.len() && keys[k] == key;
            let i = choose|i: int| 0 <= i < parts.len() && #[trigger] parts[i]@.contains(merged[k]);
            assert(shards[i].entries.contains_key(merged[k].model().key()));
        }
    }
    collections::lemma_listing_exists(whole.entries.dom());
    ordered::lemma_listing_unique(
        keys,
        ordered::listing(whole.entries.dom()),
        whole.entries.dom(),
    );
    let models = mutation::mutation_models(merged);
    assert forall|k: int| 0 <= k < models.len() implies #[trigger] models[k]
        == mutation::snapshot_of(whole)[k] by {
        let i = choose|i: int| 0 <= i < parts.len() && #[trigger] parts[i]@.contains(merged[k]);
        assert(merged[k].model() == told(whole, keys[k]));
    }
    assert(models =~= mutation::snapshot_of(whole));
}

/// Two mutations of some parts with one key are one mutation.
proof fn lemma_same_key(
    parts: Seq<Vec<Mutation>>,
    shards: Seq<Dataset>,
    whole: Dataset,
    left: Mutation,
    right: Mutation,
)
    requires
        divides(parts, shards, whole),
        occurs(parts, left),
        occurs(parts, right),
        left.model().key() == right.model().key(),
    ensures
        left == right,
{
    let i = choose|i: int| 0 <= i < parts.len() && #[trigger] parts[i]@.contains(left);
    let j = choose|j: int| 0 <= j < parts.len() && #[trigger] parts[j]@.contains(right);
    let key = left.model().key();
    assert(shards[i].entries.dom().finite() && shards[j].entries.dom().finite());
    lemma_part(parts[i]@, shards[i]);
    lemma_part(parts[j]@, shards[j]);
    let m = choose|m: int| 0 <= m < parts[i]@.len() && parts[i]@[m] == left;
    let n = choose|n: int| 0 <= n < parts[j]@.len() && parts[j]@[n] == right;
    assert(shards[i].entries.contains_key(parts[i]@[m].model().key()));
    assert(shards[j].entries.contains_key(parts[j]@[n].model().key()));
    assert(i == j);
    assert(m == n);
}

} // verus!
