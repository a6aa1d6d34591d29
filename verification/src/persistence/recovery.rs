//! Reads a log back: the snapshot, its seal, and the batches after it.

use super::config::{AofConfig, AofError};
use super::format::{read_header_with_layout, FormatError, Header, Limits, Next, NextModel, Record, RecordModel};
use super::layout::DurableLayout;
use super::record::{comes_after, encode, read_record, record_size};
use crate::buffer::as_slice;
use crate::codec::snapshot_digest;
use crate::error::ConfigError;
use crate::storage::model::{Dataset, Moment};
use crate::storage::mutation::{Mutation, MutationModel};
use crate::storage::store::{Store, StoreConfig};
use bytes::Bytes;
use crate::buffer;
use crate::codec;
use crate::ordered;
use crate::persistence::config;
use crate::persistence::layout;
use crate::persistence::record;
use crate::storage::accounting;
use crate::storage::changes;
use crate::storage::collections;
use crate::storage::laws;
use crate::storage::model;
use crate::storage::mutation;
use crate::storage::routing;
use vstd::prelude::*;

verus! {

/// What a log is read under.
#[derive(Clone, Copy, Debug, PartialEq, Eq, Structural)]
pub struct Rules {
    pub layout: DurableLayout,
    pub limits: Limits,
    /// The quota of all shards together.
    pub total: usize,
}

impl Rules {
    pub open spec fn wf(self) -> bool {
        layout::layout_fault(self.layout) is None && self.total >= self.layout.shard_count
    }

    pub open spec fn count(self) -> int {
        self.layout.shard_count as int
    }
}

/// Whether all mutations go to one shard.
pub open spec fn one_shard(mutations: Seq<MutationModel>, count: int) -> bool {
    forall|i: int|
        0 <= i < mutations.len() ==> routing::shard_of((#[trigger] mutations[i]).key(), count) == routing::shard_of(
            mutations[0].key(),
            count,
        )
}

/// The shard that mutations go to; the first one if there are none.
pub open spec fn shard_of_all(mutations: Seq<MutationModel>, count: int) -> int {
    if mutations.len() == 0 {
        0
    } else {
        routing::shard_of(mutations[0].key(), count)
    }
}

/// The shard of a batch.
pub fn batch_shard(mutations: &[Mutation], layout: DurableLayout) -> (result: Result<
    usize,
    AofError,
>)
    ensures
        ({
            let models = mutation::mutation_models(mutations@);
            let count = layout.shard_count as int;
            if models.len() == 0 {
                result == Ok::<usize, AofError>(0)
            } else {
                match layout::layout_fault(layout) {
                    Some(reason) => result == Err::<usize, AofError>(
                        AofError::Config(ConfigError::InvalidServerLimits { reason }),
                    ),
                    None => if one_shard(models, count) {
                        result matches Ok(shard) && shard == shard_of_all(models, count) && shard
                            < count
                    } else {
                        result == Err::<usize, AofError>(AofError::CrossShard)
                    },
                }
            }
        }),
{
    let ghost models = mutation::mutation_models(mutations@);
    let ghost count = layout.shard_count as int;
    let mut selected: Option<usize> = None;
    let mut index: usize = 0;
    while index < mutations.len()
        invariant
            index <= mutations@.len(),
            models == mutation::mutation_models(mutations@),
            count == layout.shard_count,
            index == 0 ==> selected is None,
            index > 0 ==> {
                &&& layout::layout_fault(layout) is None
                &&& selected matches Some(shard) && shard == routing::shard_of(models[0].key(), count)
                    && shard < count
            },
            forall|i: int|
                0 <= i < index ==> routing::shard_of((#[trigger] models[i]).key(), count) == routing::shard_of(
                    models[0].key(),
                    count,
                ),
        decreases mutations@.len() - index,
    {
        assert(models[index as int] == mutations@[index as int].model());
        let shard: usize = match layout.shard_for(as_slice(mutations[index].key())) {
            Err(error) => return Err(AofError::Config(error)),
            Ok(shard) => shard,
        };
        if let Some(previous) = selected {
            if previous != shard {
                assert(!one_shard(models, count));
                return Err(AofError::CrossShard);
            }
        }
        selected = Some(shard);
        index += 1;
    }
    match selected {
        Some(shard) => Ok(shard),
        None => Ok(0),
    }
}

/// The entries of one shard.
pub open spec fn shard_view(data: Dataset, shard: int, count: int) -> Dataset {
    Dataset {
        entries: data.entries.restrict(
            Set::new(|key: Seq<u8>| routing::shard_of(key, count) == shard),
        ),
        ..data
    }
}

/// Logical bytes that the entries of a shard take.
pub open spec fn shard_usage(data: Dataset, shard: int, count: int) -> int {
    model::costs_of(shard_view(data, shard, count), ordered::listing(data.entries.dom()))
}

/// Keys that hold all entries take what the entries take.
pub proof fn lemma_costs_cover(data: Dataset, left: Seq<Seq<u8>>, right: Seq<Seq<u8>>)
    requires
        accounting::distinct(left),
        accounting::distinct(right),
        forall|key: Seq<u8>| #[trigger]
            data.entries.contains_key(key) ==> left.contains(key) && right.contains(key),
    ensures
        model::costs_of(data, left) == model::costs_of(data, right),
{
    accounting::lemma_costs_subset(data, left, right);
    accounting::lemma_costs_subset(data, right, left);
}

proof fn lemma_costs_part(old: Dataset, new: Dataset, keys: Seq<Seq<u8>>, shard: int, count: int)
    requires
        forall|key: Seq<u8>|
            routing::shard_of(key, count) != shard ==> #[trigger] model::cost_of(old, key) == model::cost_of(new, key),
    ensures
        model::costs_of(new, keys) - model::costs_of(old, keys) == model::costs_of(shard_view(new, shard, count), keys)
            - model::costs_of(shard_view(old, shard, count), keys),
    decreases keys.len(),
{
    if keys.len() > 0 {
        lemma_costs_part(old, new, keys.drop_last(), shard, count);
        let key = keys.last();
        assert(model::cost_of(shard_view(old, shard, count), key) == if routing::shard_of(key, count) == shard {
            model::cost_of(old, key)
        } else {
            0
        });
        assert(model::cost_of(shard_view(new, shard, count), key) == if routing::shard_of(key, count) == shard {
            model::cost_of(new, key)
        } else {
            0
        });
    }
}

proof fn lemma_costs_other(
    old: Dataset,
    new: Dataset,
    keys: Seq<Seq<u8>>,
    shard: int,
    other: int,
    count: int,
)
    requires
        other != shard,
        forall|key: Seq<u8>|
            routing::shard_of(key, count) != shard ==> #[trigger] model::cost_of(old, key) == model::cost_of(new, key),
    ensures
        model::costs_of(shard_view(new, other, count), keys) == model::costs_of(
            shard_view(old, other, count),
            keys,
        ),
    decreases keys.len(),
{
    if keys.len() > 0 {
        lemma_costs_other(old, new, keys.drop_last(), shard, other, count);
        let key = keys.last();
        assert(model::cost_of(shard_view(old, other, count), key) == if routing::shard_of(key, count) == other {
            model::cost_of(old, key)
        } else {
            0
        });
        assert(model::cost_of(shard_view(new, other, count), key) == if routing::shard_of(key, count) == other {
            model::cost_of(new, key)
        } else {
            0
        });
    }
}

pub proof fn lemma_view_smaller(data: Dataset, keys: Seq<Seq<u8>>, shard: int, count: int)
    ensures
        0 <= model::costs_of(shard_view(data, shard, count), keys) <= model::costs_of(data, keys),
    decreases keys.len(),
{
    if keys.len() > 0 {
        lemma_view_smaller(data, keys.drop_last(), shard, count);
    }
}

/// What changes in one shard changes the usage of that shard.
proof fn lemma_usage_moves(old: Dataset, new: Dataset, shard: int, count: int)
    requires
        old.entries.dom().finite(),
        new.entries.dom().finite(),
        forall|key: Seq<u8>|
            routing::shard_of(key, count) != shard ==> #[trigger] changes::entry_at(old, key) == changes::entry_at(new, key),
    ensures
        shard_usage(new, shard, count) - shard_usage(old, shard, count) == model::costs_of(
            new,
            ordered::listing(new.entries.dom()),
        ) - model::costs_of(old, ordered::listing(old.entries.dom())),
        forall|other: int|
            other != shard ==> #[trigger] shard_usage(new, other, count) == shard_usage(
                old,
                other,
                count,
            ),
        0 <= shard_usage(new, shard, count) <= model::costs_of(new, ordered::listing(new.entries.dom())),
        0 <= shard_usage(old, shard, count) <= model::costs_of(old, ordered::listing(old.entries.dom())),
{
    let both = old.entries.dom().union(new.entries.dom());
    let keys = ordered::listing(both);
    let before = ordered::listing(old.entries.dom());
    let after = ordered::listing(new.entries.dom());
    collections::lemma_listing_exists(both);
    collections::lemma_listing_exists(old.entries.dom());
    collections::lemma_listing_exists(new.entries.dom());
    accounting::lemma_ascending_distinct(keys);
    accounting::lemma_ascending_distinct(before);
    accounting::lemma_ascending_distinct(after);
    assert forall|key: Seq<u8>| #[trigger] old.entries.contains_key(key) implies before.contains(
        key,
    ) && keys.contains(key) by {
        assert(old.entries.dom().contains(key));
        assert(both.contains(key));
    }
    assert forall|key: Seq<u8>| #[trigger] new.entries.contains_key(key) implies after.contains(
        key,
    ) && keys.contains(key) by {
        assert(new.entries.dom().contains(key));
        assert(both.contains(key));
    }
    assert forall|key: Seq<u8>| routing::shard_of(key, count) != shard implies #[trigger] model::cost_of(old, key)
        == model::cost_of(new, key) by {
        assert(changes::entry_at(old, key) == changes::entry_at(new, key));
    }
    lemma_costs_cover(old, before, keys);
    lemma_costs_cover(new, after, keys);
    lemma_view_cover(old, before, keys, shard, count);
    lemma_view_cover(new, after, keys, shard, count);
    lemma_costs_part(old, new, keys, shard, count);
    lemma_view_smaller(new, after, shard, count);
    lemma_view_smaller(old, before, shard, count);
    assert forall|other: int| other != shard implies #[trigger] shard_usage(new, other, count)
        == shard_usage(old, other, count) by {
        lemma_view_cover(old, before, keys, other, count);
        lemma_view_cover(new, after, keys, other, count);
        lemma_costs_other(old, new, keys, shard, other, count);
    }
}

proof fn lemma_view_cover(
    data: Dataset,
    left: Seq<Seq<u8>>,
    right: Seq<Seq<u8>>,
    shard: int,
    count: int,
)
    requires
        accounting::distinct(left),
        accounting::distinct(right),
        forall|key: Seq<u8>| #[trigger]
            data.entries.contains_key(key) ==> left.contains(key) && right.contains(key),
    ensures
        model::costs_of(shard_view(data, shard, count), left) == model::costs_of(
            shard_view(data, shard, count),
            right,
        ),
{
    let view = shard_view(data, shard, count);
    assert forall|key: Seq<u8>| #[trigger] view.entries.contains_key(key) implies left.contains(key)
        && right.contains(key) by {
        assert(data.entries.contains_key(key));
    }
    lemma_costs_cover(view, left, right);
}

/// What replaying mutations leads to, the shares of the shards included.
pub open spec fn routed_outcome(
    data: Dataset,
    mutations: Seq<MutationModel>,
    rules: Rules,
    moment: Moment,
) -> Result<Dataset, AofError> {
    let shard = shard_of_all(mutations, rules.count());
    if !one_shard(mutations, rules.count()) {
        Err(AofError::CrossShard)
    } else {
        match mutation::replay_outcome(data, mutations, moment) {
            Err(error) => Err(AofError::Replay(error)),
            Ok(changes) => {
                let after = changes::applied(data, changes);
                let used = shard_usage(after, shard, rules.count());
                let quota = layout::share(rules.total as int, rules.count(), shard);
                if used > quota {
                    Err(
                        AofError::ShardQuota {
                            shard: shard as usize,
                            used: used as usize,
                            quota: quota as usize,
                        },
                    )
                } else {
                    Ok(after)
                }
            },
        }
    }
}

/// How far a log has been read.
#[verifier::ext_equal]
pub struct Progress {
    pub data: Dataset,
    /// Sequence of the snapshot.
    pub base: u64,
    /// Sequence of the last batch.
    pub sequence: u64,
    pub sealed: bool,
    /// Key of the last snapshot entry.
    pub previous: Option<Seq<u8>>,
    pub entries: u64,
    pub digest: u32,
}

/// Where reading begins.
pub open spec fn fresh(sequence: u64, limit: int) -> Progress {
    Progress {
        data: laws::empty_dataset(limit),
        base: sequence,
        sequence,
        sealed: false,
        previous: None,
        entries: 0,
        digest: 0,
    }
}

/// What one more record leads to. Snapshot entries come in the order of their
/// keys and before the seal, batches after it and without a gap.
#[verifier::opaque]
pub open spec fn advanced(progress: Progress, record: RecordModel, rules: Rules, moment: Moment)
    -> Result<Progress, AofError> {
    match record {
        RecordModel::Snapshot(mutation) => if progress.sealed || !(mutation is Put) || !record::follows(
            progress.previous,
            mutation.key(),
        ) || progress.entries == u64::MAX {
            Err(AofError::Sequence)
        } else if !record::encodable(record, rules.limits) {
            Err(AofError::Format(FormatError::Limit))
        } else {
            match routed_outcome(progress.data, seq![mutation], rules, moment) {
                Err(error) => Err(error),
                Ok(data) => Ok(
                    Progress {
                        data,
                        previous: Some(mutation.key()),
                        entries: (progress.entries + 1) as u64,
                        digest: codec::crc32_after(progress.digest, record::record_wire(record)),
                        ..progress
                    },
                ),
            }
        },
        RecordModel::Seal { sequence, entries, digest } => if !progress.sealed && sequence
            == progress.base && entries == progress.entries && digest == progress.digest {
            Ok(Progress { sealed: true, ..progress })
        } else {
            Err(AofError::Sequence)
        },
        RecordModel::Batch { sequence, mutations, .. } => if !progress.sealed || sequence
            != progress.sequence + 1 {
            Err(AofError::Sequence)
        } else {
            match routed_outcome(progress.data, mutations, rules, moment) {
                Err(error) => Err(error),
                Ok(data) => Ok(Progress { data, sequence, ..progress }),
            }
        },
    }
}

/// What reading the rest of a log leads to, and how many bytes of an
/// incomplete record end it.
pub open spec fn log_outcome(progress: Progress, input: Seq<u8>, rules: Rules, moment: Moment)
    -> Result<(Progress, int), AofError>
    decreases input.len(),
{
    match record::next_outcome(input, rules.limits) {
        Err(error) => Err(AofError::Format(error)),
        Ok(NextModel::End) => Ok((progress, 0)),
        Ok(NextModel::IncompleteTail) => Ok((progress, input.len() as int)),
        Ok(NextModel::Record(record)) => match advanced(progress, record, rules, moment) {
            Err(error) => Err(error),
            Ok(next) => log_outcome(next, after_record(input), rules, moment),
        },
    }
}

/// What follows the first record.
pub open spec fn after_record(input: Seq<u8>) -> Seq<u8> {
    input.skip(12 + codec::le_value(input.subrange(0, 4)) as int)
}

/// What recovering a log gives: how far it was read, and how many bytes of an
/// incomplete record end it.
pub open spec fn recovery_outcome(
    image: Seq<u8>,
    layout: DurableLayout,
    limits: Limits,
    total: usize,
    moment: Moment,
) -> Result<(Progress, int), AofError> {
    match crate::persistence::format::layout_outcome(image) {
        Err(error) => Err(AofError::Format(error)),
        Ok(header) => if header.layout != layout {
            Err(AofError::LayoutMismatch { expected: layout, actual: header.layout })
        } else {
            match log_outcome(
                fresh(header.sequence, total as int),
                image.skip(header.bytes as int),
                Rules { layout, limits, total },
                moment,
            ) {
                Err(error) => Err(error),
                Ok((progress, tail)) => if !progress.sealed {
                    Err(AofError::Sequence)
                } else {
                    Ok((progress, tail))
                },
            }
        },
    }
}

#[derive(Clone, Debug, PartialEq, Eq)]
pub struct RecoveryMetadata {
    pub layout: DurableLayout,
    pub sequence: u64,
    pub format_version: u32,
    pub shard_usage: Vec<usize>,
    pub valid_bytes: u64,
    pub incomplete_tail_bytes: u64,
}

/// Whether the metadata tells a log that was recovered up to here, with this many
/// bytes of an incomplete record behind.
pub open spec fn tells(
    metadata: RecoveryMetadata,
    image: Seq<u8>,
    layout: DurableLayout,
    progress: Progress,
    tail: int,
) -> bool {
    &&& metadata.layout == layout
    &&& metadata.sequence == progress.sequence
    &&& metadata.format_version == crate::persistence::format::layout_outcome(
        image,
    )->Ok_0.format_version
    &&& metadata.valid_bytes == image.len() - tail
    &&& metadata.incomplete_tail_bytes == tail
    &&& metadata.shard_usage@.len() == layout.shard_count
    &&& forall|shard: int|
        0 <= shard < layout.shard_count ==> #[trigger] metadata.shard_usage@[shard] == shard_usage(
            progress.data,
            shard,
            layout.shard_count as int,
        )
}

/// A dataset that was read back from a log.
pub struct Recovered {
    pub store: Store,
    pub metadata: RecoveryMetadata,
}

/// Reads the records of a log one after the other.
pub struct Recovery {
    rules: Rules,
    store: Store,
    base: u64,
    sequence: u64,
    sealed: bool,
    previous: Option<Bytes>,
    entries: u64,
    digest: u32,
    usage: Vec<usize>,
}

impl Recovery {
    pub closed spec fn rules(&self) -> Rules {
        self.rules
    }

    pub closed spec fn progress(&self) -> Progress {
        Progress {
            data: self.store.data(),
            base: self.base,
            sequence: self.sequence,
            sealed: self.sealed,
            previous: record::content_of(self.previous),
            entries: self.entries,
            digest: self.digest,
        }
    }

    /// The usage of each shard is what its entries take.
    pub closed spec fn wf(&self) -> bool {
        &&& self.rules.wf()
        &&& self.store.wf()
        &&& self.store.outside() == 0
        &&& self.usage@.len() == self.rules.count()
        &&& forall|shard: int|
            0 <= shard < self.usage@.len() ==> #[trigger] self.usage@[shard] == shard_usage(
                self.store.data(),
                shard,
                self.rules.count(),
            )
    }

    /// Begins with an empty store.
    pub fn begin(header: Header, rules: Rules) -> (result: Result<Self, AofError>)
        requires
            rules.wf(),
        ensures
            if !(1 <= rules.total <= isize::MAX) {
                result == Err::<Self, AofError>(
                    AofError::Config(
                        ConfigError::InvalidServerLimits {
                            reason: "SIDER_MAX_DATASET_BYTES precisa estar entre 1 e isize::MAX",
                        },
                    ),
                )
            } else if header.layout != rules.layout {
                result == Err::<Self, AofError>(
                    AofError::LayoutMismatch { expected: rules.layout, actual: header.layout },
                )
            } else {
                result matches Ok(recovery) && recovery.wf() && recovery.rules() == rules
                    && recovery.progress() == fresh(header.sequence, rules.total as int)
            },
    {
        let store = match Store::with_config(StoreConfig { max_dataset_bytes: rules.total }) {
            Err(error) => return Err(AofError::Config(error)),
            Ok(store) => store,
        };
        if header.layout != rules.layout {
            return Err(
                AofError::LayoutMismatch { expected: rules.layout, actual: header.layout },
            );
        }
        let count: usize = rules.layout.shard_count as usize;
        let mut usage: Vec<usize> = Vec::new();
        while usage.len() < count
            invariant
                usage@.len() <= count,
                forall|i: int| 0 <= i < usage@.len() ==> #[trigger] usage@[i] == 0,
            decreases count - usage@.len(),
        {
            usage.push(0);
        }
        proof {
            let data = store.data();
            collections::lemma_listing_exists(data.entries.dom());
            assert(ordered::listing(data.entries.dom()).len() == 0) by {
                if ordered::listing(data.entries.dom()).len() > 0 {
                    let key = ordered::listing(data.entries.dom())[0];
                    assert(ordered::listing(data.entries.dom()).contains(key));
                    assert(data.entries.dom().contains(key));
                }
            }
        }
        Ok(
            Recovery {
                rules,
                store,
                base: header.sequence,
                sequence: header.sequence,
                sealed: false,
                previous: None,
                entries: 0,
                digest: 0,
                usage,
            },
        )
    }

    /// Replays mutations, and holds the shard to its share.
    fn replay_routed(&mut self, mutations: &[Mutation], moment: Moment) -> (result: Result<
        (),
        AofError,
    >)
        requires
            old(self).wf(),
            mutation::all_sound(mutations@),
        ensures
            match (
                result,
                routed_outcome(
                    old(self).store.data(),
                    mutation::mutation_models(mutations@),
                    old(self).rules,
                    moment,
                ),
            ) {
                (Ok(_), Ok(data)) => final(self).wf() && final(self).store.data() == data,
                (Err(error), Err(fault)) => error == fault,
                _ => false,
            },
            final(self).rules == old(self).rules,
            final(self).base == old(self).base,
            final(self).sequence == old(self).sequence,
            final(self).sealed == old(self).sealed,
            final(self).previous == old(self).previous,
            final(self).entries == old(self).entries,
            final(self).digest == old(self).digest,
    {
        let ghost models = mutation::mutation_models(mutations@);
        let ghost count = self.rules.count();
        let shard: usize = match batch_shard(mutations, self.rules.layout) {
            Err(error) => return Err(error),
            Ok(shard) => shard,
        };
        let before: usize = self.store.used_bytes();
        let ghost data = self.store.data();
        proof {
            self.store.lemma_used();
        }
        match self.store.replay(mutations, moment) {
            Err(error) => return Err(AofError::Replay(error)),
            Ok(_) => {},
        }
        let after: usize = self.store.used_bytes();
        let ghost now = self.store.data();
        proof {
            self.store.lemma_used();
            let changes = mutation::replay_outcome(data, models, moment)->Ok_0;
            lemma_replayed_keys(data, models, moment);
            assert forall|key: Seq<u8>| routing::shard_of(key, count) != shard implies #[trigger] changes::entry_at(
                data,
                key,
            ) == changes::entry_at(now, key) by {
                changes::lemma_changed_entries(data.entries, changes, key);
                assert(!changes::change_keys(changes).contains(key)) by {
                    if changes::change_keys(changes).contains(key) {
                        let i = choose|i: int|
                            0 <= i < changes::change_keys(changes).len() && changes::change_keys(changes)[i] == key;
                        assert(mutation::mutation_keys(models)[i] == models[i].key());
                    }
                }
            }
            lemma_usage_moves(data, now, shard as int, count);
            assert(self.usage@[shard as int] == shard_usage(data, shard as int, count));
        }
        let former: usize = self.usage[shard];
        let used: usize = if after >= before {
            former + (after - before)
        } else {
            former - (before - after)
        };
        self.usage.set(shard, used);
        let quota: usize = match self.rules.layout.quota(self.rules.total, shard) {
            Err(error) => return Err(AofError::Config(error)),
            Ok(quota) => quota,
        };
        if used > quota {
            return Err(AofError::ShardQuota { shard, used, quota });
        }
        proof {
            assert forall|other: int| 0 <= other < self.usage@.len() implies #[trigger] self.usage@[other]
                == shard_usage(now, other, count) by {
                if other != shard {
                    assert(self.usage@[other] == old(self).usage@[other]);
                    assert(shard_usage(now, other, count) == shard_usage(data, other, count));
                }
            }
        }
        Ok(())
    }

    /// Takes one more record in. After an error nothing more is read.
    pub fn accept(&mut self, record: Record, moment: Moment) -> (result: Result<(), AofError>)
        requires
            old(self).wf(),
            record.wf(),
        ensures
            final(self).rules() == old(self).rules(),
            match (
                result,
                advanced(old(self).progress(), record.model(), old(self).rules(), moment),
            ) {
                (Ok(_), Ok(progress)) => final(self).wf() && final(self).progress() == progress,
                (Err(error), Err(fault)) => error == fault,
                _ => false,
            },
    {
        proof {
            reveal(advanced);
        }
        match record {
            Record::Snapshot(mutation) => {
                let put = match &mutation {
                    Mutation::Put { .. } => true,
                    Mutation::Delete { .. } => false,
                };
                if self.sealed || !put || !comes_after(&self.previous, mutation.key())
                    || self.entries == u64::MAX {
                    return Err(AofError::Sequence);
                }
                let key = mutation.key().clone();
                let record = Record::Snapshot(mutation);
                let encoded = match encode(&record, self.rules.limits) {
                    Err(error) => return Err(AofError::Format(error)),
                    Ok(encoded) => encoded,
                };
                let digest: u32 = snapshot_digest(self.digest, encoded.as_slice());
                let mut list: Vec<Mutation> = Vec::new();
                if let Record::Snapshot(mutation) = record {
                    list.push(mutation);
                }
                proof {
                    assert(mutation::mutation_models(list@) =~= seq![mutation.model()]);
                }
                match self.replay_routed(list.as_slice(), moment) {
                    Err(error) => return Err(error),
                    Ok(_) => {},
                }
                self.previous = Some(key);
                self.entries = self.entries + 1;
                self.digest = digest;
                Ok(())
            },
            Record::Seal { sequence, entries, digest } => {
                if self.sealed || sequence != self.base || entries != self.entries || digest
                    != self.digest {
                    return Err(AofError::Sequence);
                }
                self.sealed = true;
                Ok(())
            },
            Record::Batch { sequence, batch } => {
                if !self.sealed || self.sequence == u64::MAX || sequence != self.sequence + 1 {
                    return Err(AofError::Sequence);
                }
                match self.replay_routed(batch.mutations.as_slice(), moment) {
                    Err(error) => return Err(error),
                    Ok(_) => {},
                }
                self.sequence = sequence;
                Ok(())
            },
        }
    }

    /// Takes all records from a place on; tells how many bytes of an incomplete
    /// record end the log.
    fn read_all(self, image: &[u8], start: usize, moment: Moment) -> (result: Result<
        (Recovery, usize),
        AofError,
    >)
        requires
            self.wf(),
            start <= image@.len(),
        ensures
            match (
                result,
                log_outcome(self.progress(), image@.skip(start as int), self.rules(), moment),
            ) {
                (Ok((recovery, tail)), Ok((progress, left))) => {
                    &&& recovery.wf()
                    &&& recovery.rules() == self.rules()
                    &&& recovery.progress() == progress
                    &&& tail == left
                    &&& tail <= image@.len()
                },
                (Err(error), Err(fault)) => error == fault,
                _ => false,
            },
    {
        let ghost first = self;
        let ghost wanted = log_outcome(
            self.progress(),
            image@.skip(start as int),
            self.rules(),
            moment,
        );
        let limits = self.rules.limits;
        let mut recovery = self;
        let mut offset: usize = start;
        loop
            invariant
                recovery.wf(),
                recovery.rules() == first.rules(),
                limits == first.rules().limits,
                offset <= image@.len(),
                wanted == log_outcome(
                    recovery.progress(),
                    image@.skip(offset as int),
                    first.rules(),
                    moment,
                ),
                first == self,
                wanted == log_outcome(
                    self.progress(),
                    image@.skip(start as int),
                    self.rules(),
                    moment,
                ),
            decreases image@.len() - offset,
        {
            let rest = vstd::slice::slice_subrange(image, offset, image.len());
            assert(rest@ =~= image@.skip(offset as int));
            match read_record(rest, limits) {
                Err(error) => return Err(AofError::Format(error)),
                Ok(Next::End) => return Ok((recovery, 0)),
                Ok(Next::IncompleteTail) => return Ok((recovery, rest.len())),
                Ok(Next::Record(record)) => {
                    let size: usize = match record_size(rest, limits) {
                        Err(error) => return Err(AofError::Format(error)),
                        Ok(size) => size,
                    };
                    match recovery.accept(record, moment) {
                        Err(error) => return Err(error),
                        Ok(_) => {},
                    }
                    offset = offset + 12 + size;
                    assert(after_record(rest@) =~= image@.skip(offset as int));
                },
            }
        }
    }

    /// The dataset and what is known of the log, once its snapshot was sealed.
    pub fn finish(self, format_version: u32, valid_bytes: u64, incomplete_tail_bytes: u64) -> (result:
        Result<Recovered, AofError>)
        requires
            self.wf(),
        ensures
            if !self.progress().sealed {
                result == Err::<Recovered, AofError>(AofError::Sequence)
            } else {
                result matches Ok(recovered) && {
                    &&& recovered.store.wf()
                    &&& recovered.store.outside() == 0
                    &&& recovered.store.data() == self.progress().data
                    &&& recovered.metadata.layout == self.rules().layout
                    &&& recovered.metadata.sequence == self.progress().sequence
                    &&& recovered.metadata.format_version == format_version
                    &&& recovered.metadata.valid_bytes == valid_bytes
                    &&& recovered.metadata.incomplete_tail_bytes == incomplete_tail_bytes
                    &&& recovered.metadata.shard_usage@.len() == self.rules().count()
                    &&& forall|shard: int|
                        0 <= shard < self.rules().count()
                            ==> #[trigger] recovered.metadata.shard_usage@[shard] == shard_usage(
                            self.progress().data,
                            shard,
                            self.rules().count(),
                        )
                }
            },
    {
        if !self.sealed {
            return Err(AofError::Sequence);
        }
        Ok(
            Recovered {
                store: self.store,
                metadata: RecoveryMetadata {
                    layout: self.rules.layout,
                    sequence: self.sequence,
                    format_version,
                    shard_usage: self.usage,
                    valid_bytes,
                    incomplete_tail_bytes,
                },
            },
        )
    }
}

/// Changes have the keys of the mutations that they come from.
proof fn lemma_replayed_keys(data: Dataset, mutations: Seq<MutationModel>, moment: Moment)
    requires
        mutation::replay_outcome(data, mutations, moment) is Ok,
    ensures
        changes::change_keys(mutation::replay_outcome(data, mutations, moment)->Ok_0) == mutation::mutation_keys(mutations),
        accounting::distinct(mutation::mutation_keys(mutations)),
{
    let base = data.used - model::costs_of(data, mutation::mutation_keys(mutations));
    crate::storage::mutation::lemma_resolved_keys(mutations, base, moment);
}

/// Recovers a log from all of its bytes. Nothing is changed on disk, and an
/// incomplete record at the end is told, not taken.
pub fn recover_log(
    image: &[u8],
    config: &AofConfig,
    store_config: StoreConfig,
    moment: Moment,
) -> (result: Result<Recovered, AofError>)
    ensures
        match config::aof_fault(config.model()) {
            Some(reason) => result == Err::<Recovered, AofError>(
                AofError::Config(ConfigError::InvalidServerLimits { reason }),
            ),
            None => if !store_config.is_valid() {
                result == Err::<Recovered, AofError>(
                    AofError::Config(
                        ConfigError::InvalidServerLimits {
                            reason: "SIDER_MAX_DATASET_BYTES precisa estar entre 1 e isize::MAX",
                        },
                    ),
                )
            } else if store_config.max_dataset_bytes < config.layout.shard_count {
                result == Err::<Recovered, AofError>(
                    AofError::Config(
                        ConfigError::InvalidServerLimits {
                            reason: "quota total precisa reservar ao menos um byte por shard",
                        },
                    ),
                )
            } else {
                match (
                    result,
                    recovery_outcome(
                        image@,
                        config.layout,
                        config.limits,
                        store_config.max_dataset_bytes,
                        moment,
                    ),
                ) {
                    (Ok(recovered), Ok((progress, tail))) => {
                        &&& recovered.store.wf()
                        &&& recovered.store.outside() == 0
                        &&& recovered.store.data() == progress.data
                        &&& tells(recovered.metadata, image@, config.layout, progress, tail)
                    },
                    (Err(error), Err(fault)) => error == fault,
                    _ => false,
                }
            },
        },
{
    match config.validate() {
        Err(error) => return Err(AofError::Config(error)),
        Ok(_) => {},
    }
    match store_config.validate() {
        Err(error) => return Err(AofError::Config(error)),
        Ok(_) => {},
    }
    match config.layout.quota(store_config.max_dataset_bytes, 0) {
        Err(error) => return Err(AofError::Config(error)),
        Ok(_) => {},
    }
    let rules = Rules {
        layout: config.layout,
        limits: config.limits,
        total: store_config.max_dataset_bytes,
    };
    let header = match read_header_with_layout(image) {
        Err(error) => return Err(AofError::Format(error)),
        Ok(header) => header,
    };
    let recovery = match Recovery::begin(header, rules) {
        Err(error) => return Err(error),
        Ok(recovery) => recovery,
    };
    match recovery.read_all(image, header.bytes, moment) {
        Err(error) => Err(error),
        Ok((recovery, tail)) => recovery.finish(
            header.format_version,
            (image.len() - tail) as u64,
            tail as u64,
        ),
    }
}

} // verus!
