//! What entries of a snapshot take, shard by shard, without holding them all.

use super::layout::DurableLayout;
use crate::buffer::as_slice;
use crate::error::ConfigError;
use crate::storage::model;
use crate::storage::model::Moment;
use crate::storage::value::ValueModel;
use crate::storage::mutation::{Mutation, MutationModel, ReplayError};
use crate::storage::store::{Store, StoreConfig};
use crate::persistence::layout;
use crate::storage::changes;
use crate::storage::laws;
use crate::storage::mutation;
use crate::storage::routing;
use vstd::prelude::*;

verus! {

/// Logical bytes that one entry takes at a moment, and whether it is there; an
/// entry that has ended takes nothing.
#[verifier::opaque]
pub open spec fn entry_usage(mutation: MutationModel, moment: Moment) -> Result<
    (int, bool),
    ReplayError,
> {
    let empty = laws::empty_dataset(isize::MAX as int);
    match mutation::replay_outcome(empty, seq![mutation], moment) {
        Err(error) => Err(error),
        Ok(changes) => {
            let data = changes::applied(empty, changes);
            Ok((data.used, !data.entries.dom().is_empty()))
        },
    }
}

/// What stops an entry from being counted.
#[derive(Debug)]
pub enum UsageError {
    Replay(ReplayError),
    /// The count exceeds a size.
    Overflow,
    Quota { shard: usize, used: usize, quota: usize },
    Config(ConfigError),
}

/// The usage of shards after one more entry.
#[verifier::opaque]
pub open spec fn used_more(
    usage: Seq<usize>,
    mutation: MutationModel,
    total: int,
    moment: Moment,
) -> Result<Seq<usize>, UsageError> {
    let count = usage.len() as int;
    let shard = routing::shard_of(mutation.key(), count);
    match entry_usage(mutation, moment) {
        Err(error) => Err(UsageError::Replay(error)),
        Ok((size, _)) => {
            let used = usage[shard] + size;
            let quota = layout::share(total, count, shard);
            if used > usize::MAX {
                Err(UsageError::Overflow)
            } else if used > quota {
                Err(
                    UsageError::Quota {
                        shard: shard as usize,
                        used: used as usize,
                        quota: quota as usize,
                    },
                )
            } else {
                Ok(usage.update(shard, used as usize))
            }
        },
    }
}

/// The usage of shards after all entries.
pub open spec fn used_all(
    usage: Seq<usize>,
    mutations: Seq<MutationModel>,
    total: int,
    moment: Moment,
) -> Result<Seq<usize>, UsageError>
    decreases mutations.len(),
{
    if mutations.len() == 0 {
        Ok(usage)
    } else {
        match used_more(usage, mutations[0], total, moment) {
            Err(error) => Err(error),
            Ok(more) => used_all(more, mutations.skip(1), total, moment),
        }
    }
}

/// No shard uses anything.
pub open spec fn nothing_used(count: nat) -> Seq<usize> {
    Seq::new(count, |i: int| 0usize)
}

/// How many entries are there at a moment.
pub open spec fn live(mutations: Seq<MutationModel>, moment: Moment) -> nat
    decreases mutations.len(),
{
    if mutations.len() == 0 {
        0
    } else {
        live(mutations.drop_last(), moment) + match entry_usage(mutations.last(), moment) {
            Ok((_, true)) => 1nat,
            _ => 0,
        }
    }
}

/// Measures one entry in a store of its own.
fn measure(mutations: &[Mutation], moment: Moment) -> (result: Result<(usize, bool), UsageError>)
    requires
        mutations@.len() == 1,
        mutations@[0].wf(),
    ensures
        match (result, entry_usage(mutations@[0].model(), moment)) {
            (Ok((size, there)), Ok((used, holds))) => size == used && there == holds,
            (Err(UsageError::Replay(error)), Err(fault)) => error == fault,
            _ => false,
        },
{
    reveal(entry_usage);
    assert(mutation::mutation_models(mutations@) =~= seq![mutations@[0].model()]);
    match Store::with_config(StoreConfig { max_dataset_bytes: isize::MAX as usize }) {
        Err(error) => Err(UsageError::Config(error)),
        Ok(store) => {
            let mut store = store;
            match store.replay(mutations, moment) {
                Err(error) => Err(UsageError::Replay(error)),
                Ok(_) => {
                    proof {
                        store.lemma_data();
                    }
                    let size: usize = store.used_bytes();
                    let there = !store.is_empty();
                    Ok((size, there))
                },
            }
        },
    }
}

/// Counts entries against the shares of a total.
pub struct Quotas {
    layout: DurableLayout,
    total: usize,
    usage: Vec<usize>,
    live: u64,
}

impl Quotas {
    /// What each shard uses.
    pub closed spec fn used(&self) -> Seq<usize> {
        self.usage@
    }

    /// How many entries were there.
    pub closed spec fn present(&self) -> u64 {
        self.live
    }

    /// The total that is shared.
    pub closed spec fn shared(&self) -> usize {
        self.total
    }

    pub closed spec fn wf(&self) -> bool {
        &&& layout::layout_fault(self.layout) is None
        &&& self.total >= self.layout.shard_count
        &&& self.usage@.len() == self.layout.shard_count
    }

    pub fn new(layout: DurableLayout, total: usize) -> (result: Result<Self, ConfigError>)
        ensures
            match layout::layout_fault(layout) {
                Some(reason) => result == Err::<Self, ConfigError>(
                    ConfigError::InvalidServerLimits { reason },
                ),
                None => if total < layout.shard_count {
                    result == Err::<Self, ConfigError>(
                        ConfigError::InvalidServerLimits {
                            reason: "quota total precisa reservar ao menos um byte por shard",
                        },
                    )
                } else {
                    &&& result matches Ok(quotas)
                    &&& quotas.wf()
                    &&& quotas.used() == nothing_used(layout.shard_count as nat)
                    &&& quotas.present() == 0
                    &&& quotas.shared() == total
                },
            },
    {
        match layout.quota(total, 0) {
            Err(error) => return Err(error),
            Ok(_) => {},
        }
        let count: usize = layout.shard_count as usize;
        let mut usage: Vec<usize> = Vec::new();
        while usage.len() < count
            invariant
                usage@.len() <= count,
                forall|i: int| 0 <= i < usage@.len() ==> #[trigger] usage@[i] == 0,
            decreases count - usage@.len(),
        {
            usage.push(0);
        }
        assert(usage@ =~= nothing_used(count as nat));
        Ok(Quotas { layout, total, usage, live: 0 })
    }

    /// Counts one entry, which is the only one of the slice.
    pub fn add(&mut self, mutations: &[Mutation], moment: Moment) -> (result: Result<(), UsageError>)
        requires
            old(self).wf(),
            mutations@.len() == 1,
            mutations@[0].wf(),
            old(self).present() < u64::MAX,
        ensures
            match (
                result,
                used_more(
                    old(self).used(),
                    mutations@[0].model(),
                    old(self).shared() as int,
                    moment,
                ),
            ) {
                (Ok(_), Ok(usage)) => {
                    &&& final(self).wf()
                    &&& final(self).used() == usage
                    &&& final(self).shared() == old(self).shared()
                    &&& final(self).present() == old(self).present() + match entry_usage(
                        mutations@[0].model(),
                        moment,
                    ) {
                        Ok((_, true)) => 1int,
                        _ => 0,
                    }
                },
                (Err(error), Err(fault)) => error == fault,
                _ => false,
            },
    {
        reveal(used_more);
        let ghost before = self.usage@;
        let shard: usize = match self.layout.shard_for(as_slice(mutations[0].key())) {
            Err(error) => return Err(UsageError::Config(error)),
            Ok(shard) => shard,
        };
        let (size, there) = match measure(mutations, moment) {
            Err(error) => return Err(error),
            Ok(found) => found,
        };
        if size > usize::MAX - self.usage[shard] {
            return Err(UsageError::Overflow);
        }
        let used: usize = self.usage[shard] + size;
        let quota: usize = match self.layout.quota(self.total, shard) {
            Err(error) => return Err(UsageError::Config(error)),
            Ok(quota) => quota,
        };
        if used > quota {
            return Err(UsageError::Quota { shard, used, quota });
        }
        self.usage.set(shard, used);
        if there {
            self.live = self.live + 1;
        }
        assert(self.usage@ =~= before.update(shard as int, used));
        Ok(())
    }

    /// What was counted.
    pub fn finish(self) -> (result: (Vec<usize>, u64))
        ensures
            result.0@ == self.used(),
            result.1 == self.present(),
    {
        (self.usage, self.live)
    }
}

/// An entry that has not ended counts what it takes in a store, and is there; one that has ended
/// counts nothing, and is not.
pub proof fn law_entries_are_counted_as_stored(
    key: Seq<u8>,
    value: ValueModel,
    expires_at_unix_ms: Option<i64>,
    moment: Moment,
)
    requires
        entry_usage(MutationModel::Put { key, value, expires_at_unix_ms }, moment) is Ok,
    ensures
        entry_usage(MutationModel::Put { key, value, expires_at_unix_ms }, moment)->Ok_0 == if (
        expires_at_unix_ms matches Some(end) && end <= moment.unix_ms) {
            (0int, false)
        } else {
            (model::cost(key, value), true)
        },
{
    reveal(entry_usage);
    let mutation = MutationModel::Put { key, value, expires_at_unix_ms };
    let one = seq![mutation];
    let empty = laws::empty_dataset(isize::MAX as int);
    let keys = mutation::mutation_keys(one);
    assert(keys =~= seq![key]);
    reveal_with_fuel(model::costs_of, 2);
    reveal_with_fuel(mutation::resolved_all, 2);
    reveal_with_fuel(changes::change_costs, 2);
    reveal_with_fuel(changes::changed_entries, 2);
    assert(one.drop_last() =~= Seq::empty());
    assert(one.last() == mutation);
    let list = mutation::replay_outcome(empty, one, moment)->Ok_0;
    assert(list.len() == 1);
    assert(list.drop_last() =~= Seq::empty());
    assert(changes::change_keys(list) =~= seq![key]);
    let data = changes::applied(empty, list);
    if list[0].entry is Some {
        assert(data.entries.dom().contains(key));
    } else {
        assert(data.entries.dom() =~= Set::empty());
    }
}

/// One more entry is counted in the shard of its key, within its share, and nowhere else.
pub proof fn law_entries_count_in_their_shard(
    usage: Seq<usize>,
    mutation: MutationModel,
    total: int,
    moment: Moment,
    shard: int,
)
    requires
        usage.len() > 0,
        mutation is Put,
        used_more(usage, mutation, total, moment) is Ok,
        0 <= shard < usage.len(),
    ensures
        ({
            let after = used_more(usage, mutation, total, moment)->Ok_0;
            let home = routing::shard_of(mutation.key(), usage.len() as int);
            &&& after.len() == usage.len()
            &&& entry_usage(mutation, moment) matches Ok((size, _)) && after[shard] == usage[shard]
                + if shard == home {
                size
            } else {
                0
            }
            &&& shard == home ==> after[shard] <= layout::share(total, usage.len() as int, shard)
        }),
{
    reveal(used_more);
    if let MutationModel::Put { key, value, expires_at_unix_ms } = mutation {
        law_entries_are_counted_as_stored(key, value, expires_at_unix_ms, moment);
    }
}

} // verus!
