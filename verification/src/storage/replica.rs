//! What a replica does with a received snapshot and with received batches.

use super::model::{Dataset, Moment};
use super::mutation::{Mutation, MutationModel, ResolvedBatch};
use super::store::{Store, StoreConfig};
use crate::buffer::as_slice;
use crate::error::ConfigError;
use crate::ordered::{position, Position};
use crate::persistence::layout::DurableLayout;
use crate::replication::cursor::{Cursor, CursorModel};
use crate::replication::error::Error;
use crate::replication::state::{Runtime, Status};
use crate::buffer;
use crate::ordered;
use crate::persistence::layout;
use crate::persistence::record;
use crate::replication::state;
use crate::storage::changes;
use crate::storage::laws;
use crate::storage::model;
use crate::storage::mutation;
use crate::storage::routing;
use bytes::Bytes;
use vstd::prelude::*;

verus! {

/// The shards after a snapshot was read into them. Its entries come in the order
/// of their keys, and each goes to the shard of its key.
pub open spec fn filled(
    shards: Seq<Dataset>,
    previous: Option<Seq<u8>>,
    mutations: Seq<MutationModel>,
    moment: Moment,
) -> Result<Seq<Dataset>, Error>
    decreases mutations.len(),
{
    if mutations.len() == 0 {
        Ok(shards)
    } else {
        let next = mutations[0];
        let shard = routing::shard_of(next.key(), shards.len() as int);
        if !(next is Put) || !record::follows(previous, next.key()) {
            Err(Error::Sequence)
        } else {
            match mutation::replay_outcome(shards[shard], seq![next], moment) {
                Err(error) => Err(Error::Replay(error)),
                Ok(changes) => filled(
                    shards.update(shard, changes::applied(shards[shard], changes)),
                    Some(next.key()),
                    mutations.skip(1),
                    moment,
                ),
            }
        }
    }
}

/// Empty shards with their shares of a total.
pub open spec fn empty_shards(total: int, count: nat) -> Seq<Dataset> {
    Seq::new(count, |shard: int| laws::empty_dataset(layout::share(total, count as int, shard)))
}

/// What is wrong with the shares of a total.
pub open spec fn shares_fault(layout: DurableLayout, total: usize) -> Option<&'static str> {
    if layout::layout_fault(layout) is Some {
        layout::layout_fault(layout)
    } else if total < layout.shard_count {
        Some("quota total precisa reservar ao menos um byte por shard")
    } else if layout::share(total as int, layout.shard_count as int, 0) > isize::MAX {
        Some("SIDER_MAX_DATASET_BYTES precisa estar entre 1 e isize::MAX")
    } else {
        None
    }
}

/// The datasets of some stores.
pub open spec fn datasets(stores: Seq<Store>) -> Seq<Dataset> {
    stores.map_values(|store: Store| store.data())
}

/// All stores are sound and hold all that they account.
pub open spec fn all_whole(stores: Seq<Store>) -> bool {
    forall|i: int| 0 <= i < stores.len() ==> (#[trigger] stores[i]).wf() && stores[i].outside() == 0
}

fn empty_stores(layout: DurableLayout, total: usize) -> (result: Result<Vec<Store>, ConfigError>)
    ensures
        match shares_fault(layout, total) {
            Some(reason) => result == Err::<Vec<Store>, ConfigError>(
                ConfigError::InvalidServerLimits { reason },
            ),
            None => {
                &&& result matches Ok(stores)
                &&& all_whole(stores@)
                &&& datasets(stores@) == empty_shards(total as int, layout.shard_count as nat)
            },
        },
{
    match layout.validate() {
        Err(error) => return Err(error),
        Ok(_) => {},
    }
    let count: usize = layout.shard_count as usize;
    let mut stores: Vec<Store> = Vec::new();
    let mut shard: usize = 0;
    while shard < count
        invariant
            layout::layout_fault(layout) is None,
            count == layout.shard_count,
            shard <= count,
            stores@.len() == shard,
            all_whole(stores@),
            shard > 0 ==> shares_fault(layout, total) is None,
            forall|i: int|
                0 <= i < shard ==> (#[trigger] stores@[i]).data() == laws::empty_dataset(
                    layout::share(total as int, count as int, i),
                ),
        decreases count - shard,
    {
        let quota: usize = match layout.quota(total, shard) {
            Err(error) => return Err(error),
            Ok(quota) => quota,
        };
        match Store::with_config(StoreConfig { max_dataset_bytes: quota }) {
            Err(error) => {
                return Err(error);
            },
            Ok(store) => stores.push(store),
        }
        shard += 1;
    }
    assert(datasets(stores@) =~= empty_shards(total as int, layout.shard_count as nat));
    Ok(stores)
}

/// The stores of a received snapshot, before anything is replaced.
pub fn replica_stores(
    layout: DurableLayout,
    store_config: StoreConfig,
    mutations: &Vec<Mutation>,
    moment: Moment,
) -> (result: Result<Vec<Store>, Error>)
    requires
        mutation::all_sound(mutations@),
    ensures
        match shares_fault(layout, store_config.max_dataset_bytes) {
            Some(reason) => result == Err::<Vec<Store>, Error>(
                Error::Config(ConfigError::InvalidServerLimits { reason }),
            ),
            None => match (
                result,
                filled(
                    empty_shards(
                        store_config.max_dataset_bytes as int,
                        layout.shard_count as nat,
                    ),
                    None,
                    mutation::mutation_models(mutations@),
                    moment,
                ),
            ) {
                (Ok(stores), Ok(shards)) => all_whole(stores@) && datasets(stores@) == shards,
                (Err(error), Err(fault)) => error == fault,
                _ => false,
            },
        },
{
    let mut stores = match empty_stores(layout, store_config.max_dataset_bytes) {
        Err(error) => return Err(Error::Config(error)),
        Ok(stores) => stores,
    };
    let ghost models = mutation::mutation_models(mutations@);
    let ghost start = datasets(stores@);
    let ghost count = layout.shard_count as int;
    let mut previous: Option<Bytes> = None;
    let mut index: usize = 0;
    assert(models.skip(0) =~= models);
    while index < mutations.len()
        invariant
            mutation::all_sound(mutations@),
            layout::layout_fault(layout) is None,
            shares_fault(layout, store_config.max_dataset_bytes) is None,
            start == empty_shards(
                store_config.max_dataset_bytes as int,
                layout.shard_count as nat,
            ),
            count == layout.shard_count,
            models == mutation::mutation_models(mutations@),
            index <= mutations@.len(),
            stores@.len() == count,
            all_whole(stores@),
            filled(start, None, models, moment) == filled(
                datasets(stores@),
                record::content_of(previous),
                models.skip(index as int),
                moment,
            ),
        decreases mutations@.len() - index,
    {
        let mutation = &mutations[index];
        let ghost left = models.skip(index as int);
        let ghost shards = datasets(stores@);
        proof {
            assert(left[0] == mutation.model());
            assert(left.skip(1) =~= models.skip(index + 1));
            assert(mutation.wf());
        }
        let put = match mutation {
            Mutation::Put { .. } => true,
            Mutation::Delete { .. } => false,
        };
        let follows = match &previous {
            None => true,
            Some(before) => match position(as_slice(before), as_slice(mutation.key())) {
                Position::Before => true,
                _ => false,
            },
        };
        proof {
            if let Some(before) = previous {
                ordered::lemma_precedes_total(
                    buffer::bytes_content(before),
                    mutation.model().key(),
                );
                ordered::lemma_precedes_irreflexive(mutation.model().key());
            }
        }
        if !put || !follows {
            return Err(Error::Sequence);
        }
        let shard: usize = match layout.shard_for(as_slice(mutation.key())) {
            Err(error) => return Err(Error::Config(error)),
            Ok(shard) => shard,
        };
        assert(shards[shard as int] == stores@[shard as int].data());
        let single = vstd::slice::slice_subrange(mutations.as_slice(), index, index + 1);
        proof {
            assert(mutation::mutation_models(single@) =~= seq![mutation.model()]);
            assert(mutation::all_sound(single@)) by {
                assert(single@[0] == mutations@[index as int]);
            }
        }
        let ghost before = stores@;
        match stores[shard].replay(single, moment) {
            Err(error) => return Err(Error::Replay(error)),
            Ok(_) => {},
        }
        proof {
            assert forall|i: int| 0 <= i < stores@.len() implies (#[trigger] stores@[i]).wf()
                && stores@[i].outside() == 0 by {
                if i != shard {
                    assert(stores@[i] == before[i]);
                }
            }
            assert(datasets(stores@) =~= shards.update(
                shard as int,
                stores@[shard as int].data(),
            ));
        }
        previous = Some(mutation.key().clone());
        index += 1;
    }
    assert(models.skip(index as int).len() == 0);
    Ok(stores)
}

/// Why a received batch cannot be applied next.
pub open spec fn batch_fault(
    status: Status,
    applied: CursorModel,
    generation: u64,
    cursor: CursorModel,
    mutations: Seq<MutationModel>,
    count: int,
) -> Option<Error> {
    if !state::current(status, generation) {
        Some(Error::Stale)
    } else if applied.epoch != cursor.epoch || applied.sequence + 1 != cursor.sequence {
        Some(Error::Sequence)
    } else if mutations.len() == 0 || !crate::persistence::recovery::one_shard(mutations, count) {
        Some(Error::Sequence)
    } else {
        None
    }
}

/// The shard that a received batch goes to. Only a current session may bring it,
/// it has to follow what was applied, and it may not cross shards.
pub fn replica_shard(
    runtime: &Runtime,
    generation: u64,
    cursor: Cursor,
    batch: &ResolvedBatch,
    layout: DurableLayout,
) -> (result: Result<usize, Error>)
    requires
        runtime.wf(),
        layout::layout_fault(layout) is None,
    ensures
        exists|applied: CursorModel|
            runtime.applies(applied) && match #[trigger] batch_fault(
                runtime.state(),
                applied,
                generation,
                cursor.model(),
                mutation::mutation_models(batch.mutations@),
                layout.shard_count as int,
            ) {
                Some(error) => result == Err::<usize, Error>(error),
                None => {
                    &&& result matches Ok(shard)
                    &&& shard == routing::shard_of(
                        batch.mutations@[0].model().key(),
                        layout.shard_count as int,
                    )
                    &&& shard < layout.shard_count
                },
            },
{
    let ghost models = mutation::mutation_models(batch.mutations@);
    let ghost count = layout.shard_count as int;
    let position = runtime.status().applied;
    let ghost applied = position.model();
    if !runtime.accepts(generation) {
        assert(batch_fault(runtime.state(), applied, generation, cursor.model(), models, count)
            == Some(Error::Stale));
        return Err(Error::Stale);
    }
    if !position.same_epoch(&cursor) || position.sequence == u64::MAX || position.sequence + 1
        != cursor.sequence {
        assert(batch_fault(runtime.state(), applied, generation, cursor.model(), models, count)
            == Some(Error::Sequence));
        return Err(Error::Sequence);
    }
    let mut shard: Option<usize> = None;
    let mut index: usize = 0;
    while index < batch.mutations.len()
        invariant
            layout::layout_fault(layout) is None,
            models == mutation::mutation_models(batch.mutations@),
            count == layout.shard_count,
            index <= batch.mutations@.len(),
            runtime.applies(applied),
            state::current(runtime.state(), generation),
            applied.epoch == cursor.model().epoch,
            applied.sequence + 1 == cursor.sequence,
            index == 0 ==> shard is None,
            index > 0 ==> {
                &&& shard matches Some(first)
                &&& first == routing::shard_of(models[0].key(), count)
                &&& first < count
            },
            forall|i: int|
                0 <= i < index ==> routing::shard_of((#[trigger] models[i]).key(), count)
                    == routing::shard_of(models[0].key(), count),
        decreases batch.mutations@.len() - index,
    {
        assert(models[index as int] == batch.mutations@[index as int].model());
        let next: usize = match layout.shard_for(as_slice(batch.mutations[index].key())) {
            Err(error) => return Err(Error::Config(error)),
            Ok(next) => next,
        };
        if let Some(first) = shard {
            if first != next {
                proof {
                    assert(routing::shard_of(models[index as int].key(), count)
                        != routing::shard_of(models[0].key(), count));
                    assert(batch_fault(
                        runtime.state(),
                        applied,
                        generation,
                        cursor.model(),
                        models,
                        count,
                    ) == Some(Error::Sequence));
                }
                return Err(Error::Sequence);
            }
        }
        shard = Some(next);
        index += 1;
    }
    match shard {
        None => {
            assert(batch_fault(runtime.state(), applied, generation, cursor.model(), models, count)
                == Some(Error::Sequence));
            Err(Error::Sequence)
        },
        Some(shard) => {
            assert(models[0] == batch.mutations@[0].model());
            assert(batch_fault(runtime.state(), applied, generation, cursor.model(), models, count)
                is None);
            Ok(shard)
        },
    }
}

} // verus!
