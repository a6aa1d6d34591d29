//! What a log is for: what was recorded is what comes back.

use super::config::AofError;
use super::format::{Limits, RecordModel};
use super::layout::DurableLayout;
use super::recovery::{Progress, Rules};
use crate::command::types::Command;
use crate::persistence::record;
use crate::persistence::recovery;
use crate::storage::changes;
use crate::storage::changes::Change;
use crate::storage::laws;
use crate::storage::model;
use crate::storage::model::{Dataset, Deadline, EntryModel, Moment};
use crate::storage::mutation;
use crate::storage::mutation::{MutationModel, MutationOrigin};
use crate::storage::string_laws;
use vstd::prelude::*;

verus! {

/// What a recorded mutation leaves under its key when it is replayed: a removal nothing, a
/// value itself, unless the absolute time at which it ends has come.
pub open spec fn effect(mutation: MutationModel, moment: Moment) -> Option<EntryModel> {
    match mutation {
        MutationModel::Delete { .. } => None,
        MutationModel::Put { value, expires_at_unix_ms: None, .. } => Some(
            EntryModel { value, deadline: None },
        ),
        MutationModel::Put { value, expires_at_unix_ms: Some(end), .. } => if end
            <= moment.unix_ms {
            None
        } else {
            Some(
                EntryModel {
                    value,
                    deadline: Some(
                        Deadline {
                            at: (moment.now + (end - moment.unix_ms) * 1_000_000) as u128,
                            unix_ms: end,
                        },
                    ),
                },
            )
        },
    }
}

/// Whether one of the mutations is about the key.
pub open spec fn about(mutations: Seq<MutationModel>, key: Seq<u8>) -> bool {
    exists|i: int| 0 <= i < mutations.len() && (#[trigger] mutations[i]).key() == key
}

/// Replayed mutations have their effect, each under its key, and no other key changes. No key
/// may come twice.
pub proof fn law_replayed_mutations_take_effect(
    data: Dataset,
    mutations: Seq<MutationModel>,
    moment: Moment,
    index: int,
    key: Seq<u8>,
)
    requires
        mutation::replay_outcome(data, mutations, moment) is Ok,
    ensures
        ({
            let after = changes::applied(
                data,
                mutation::replay_outcome(data, mutations, moment)->Ok_0,
            );
            &&& 0 <= index < mutations.len() ==> changes::entry_at(after, mutations[index].key())
                == effect(mutations[index], moment)
            &&& !about(mutations, key) ==> changes::entry_at(after, key) == changes::entry_at(
                data,
                key,
            )
            &&& after.limit == data.limit
            &&& forall|i: int, j: int|
                0 <= i < j < mutations.len() ==> (#[trigger] mutations[i]).key() != (
                #[trigger] mutations[j]).key()
        }),
{
    let list = mutation::replay_outcome(data, mutations, moment)->Ok_0;
    let keys = mutation::mutation_keys(mutations);
    let base = data.used - model::costs_of(data, keys);
    laws::lemma_resolved_each(mutations, base, moment);
    assert forall|i: int| 0 <= i < list.len() implies changes::change_keys(list)[i] == keys[i] by {
        assert(list[i].key == mutations[i].key());
    }
    assert(changes::change_keys(list) =~= keys);
    assert forall|i: int, j: int| 0 <= i < j < mutations.len() implies (
    #[trigger] mutations[i]).key() != (#[trigger] mutations[j]).key() by {
        assert(keys[i] != keys[j]);
    }
    if 0 <= index < mutations.len() {
        changes::lemma_changed_entries(data.entries, list, mutations[index].key());
        assert(list[index].key == mutations[index].key());
    }
    if !about(mutations, key) {
        if keys.contains(key) {
            let i = choose|i: int| 0 <= i < keys.len() && keys[i] == key;
            assert(mutations[i].key() == key);
        }
        changes::lemma_changed_entries(data.entries, list, key);
    }
}

/// A batch that recovery takes follows the one before without a gap and after the snapshot was
/// complete, and all of it has its effect.
pub proof fn law_recovered_batches_take_effect(
    progress: Progress,
    sequence: u64,
    origin: MutationOrigin,
    mutations: Seq<MutationModel>,
    rules: Rules,
    moment: Moment,
    index: int,
    key: Seq<u8>,
)
    requires
        recovery::advanced(
            progress,
            RecordModel::Batch { sequence, origin, mutations },
            rules,
            moment,
        ) is Ok,
    ensures
        ({
            let next = recovery::advanced(
                progress,
                RecordModel::Batch { sequence, origin, mutations },
                rules,
                moment,
            )->Ok_0;
            &&& progress.sealed && next.sealed
            &&& sequence == progress.sequence + 1 && next.sequence == sequence
            &&& next.base == progress.base
            &&& 0 <= index < mutations.len() ==> changes::entry_at(
                next.data,
                mutations[index].key(),
            ) == effect(mutations[index], moment)
            &&& !about(mutations, key) ==> changes::entry_at(next.data, key) == changes::entry_at(
                progress.data,
                key,
            )
        }),
{
    reveal(recovery::advanced);
    law_replayed_mutations_take_effect(progress.data, mutations, moment, index, key);
}

/// A snapshot entry that recovery takes comes before the snapshot is complete and behind all
/// smaller keys, and has its effect.
pub proof fn law_recovered_entries_take_effect(
    progress: Progress,
    entry: MutationModel,
    rules: Rules,
    moment: Moment,
    key: Seq<u8>,
)
    requires
        recovery::advanced(progress, RecordModel::Snapshot(entry), rules, moment) is Ok,
    ensures
        ({
            let next = recovery::advanced(
                progress,
                RecordModel::Snapshot(entry),
                rules,
                moment,
            )->Ok_0;
            &&& !progress.sealed && !next.sealed
            &&& entry is Put
            &&& record::follows(progress.previous, entry.key())
            &&& next.previous == Some(entry.key())
            &&& next.entries == progress.entries + 1
            &&& next.sequence == progress.sequence
            &&& changes::entry_at(next.data, entry.key()) == effect(entry, moment)
            &&& key != entry.key() ==> changes::entry_at(next.data, key) == changes::entry_at(
                progress.data,
                key,
            )
        }),
{
    reveal(recovery::advanced);
    let one = seq![entry];
    law_replayed_mutations_take_effect(progress.data, one, moment, 0, key);
    if key != entry.key() && about(one, key) {
        let i = choose|i: int| 0 <= i < one.len() && (#[trigger] one[i]).key() == key;
        assert(one[i] == entry);
    }
    assert(one[0] == entry);
}

/// Batches out of order, before the snapshot is complete or behind a gap are refused, and so is
/// a snapshot that is closed with another count, digest or sequence, or closed twice.
pub proof fn law_logs_with_gaps_are_refused(
    progress: Progress,
    record: RecordModel,
    rules: Rules,
    moment: Moment,
)
    requires
        match record {
            RecordModel::Batch { sequence, .. } => !progress.sealed || sequence
                != progress.sequence + 1,
            RecordModel::Seal { sequence, entries, digest } => progress.sealed || sequence
                != progress.base || entries != progress.entries || digest != progress.digest,
            RecordModel::Snapshot(mutation) => progress.sealed || mutation is Delete,
        },
    ensures
        recovery::advanced(progress, record, rules, moment) == Err::<Progress, AofError>(
            AofError::Sequence,
        ),
{
    reveal(recovery::advanced);
}

/// Replaying what was recorded of a command, on the data that it worked on, leaves what the
/// command left: every key that the command changed has the value that the command gave it, with
/// the same absolute time of its end, unless that has come; every other key is as it was.
pub proof fn law_replay_repeats_a_command(
    data: Dataset,
    command: Command,
    moment: Moment,
    mutations: Seq<MutationModel>,
    later: Moment,
    key: Seq<u8>,
)
    requires
        mutations == changes::changes_of(
            model::ran(model::begin(data), command, moment).0,
        ).map_values(|change: Change| mutation::mutation_of(change)),
        mutation::replay_outcome(data, mutations, later) is Ok,
    ensures
        ({
            let executed = string_laws::left(data, command, moment);
            let replayed = changes::applied(
                data,
                mutation::replay_outcome(data, mutations, later)->Ok_0,
            );
            if !about(mutations, key) {
                &&& changes::entry_at(executed, key) == changes::entry_at(data, key)
                &&& changes::entry_at(replayed, key) == changes::entry_at(data, key)
            } else {
                match changes::entry_at(executed, key) {
                    None => changes::entry_at(replayed, key) is None,
                    Some(entry) => match entry.deadline {
                        None => changes::entry_at(replayed, key) == Some(entry),
                        Some(deadline) => if deadline.unix_ms <= later.unix_ms {
                            changes::entry_at(replayed, key) is None
                        } else {
                            changes::entry_at(replayed, key) matches Some(again) && again.value
                                == entry.value && (again.deadline matches Some(end) && end.unix_ms
                                == deadline.unix_ms)
                        },
                    },
                }
            }
        }),
{
    let trace = model::ran(model::begin(data), command, moment).0;
    let list = changes::changes_of(trace);
    changes::law_changes_tell_a_command(data, command, moment);
    if about(mutations, key) {
        let i = choose|i: int| 0 <= i < mutations.len() && (#[trigger] mutations[i]).key() == key;
        assert(mutations[i] == mutation::mutation_of(list[i]));
        assert(list[i].key == key);
        law_replayed_mutations_take_effect(data, mutations, later, i, key);
        assert(list[i].entry == changes::entry_at(trace.data, key));
    } else {
        law_replayed_mutations_take_effect(data, mutations, later, -1, key);
        if changes::change_keys(list).contains(key) {
            let i = choose|i: int|
                0 <= i < changes::change_keys(list).len() && changes::change_keys(list)[i] == key;
            assert(mutations[i].key() == key);
        }
        lemma_untouched(data, command, moment, key);
    }
}

proof fn lemma_untouched(data: Dataset, command: Command, moment: Moment, key: Seq<u8>)
    requires
        !changes::change_keys(
            changes::changes_of(model::ran(model::begin(data), command, moment).0),
        ).contains(key),
    ensures
        changes::entry_at(string_laws::left(data, command, moment), key) == changes::entry_at(
            data,
            key,
        ),
{
    let list = changes::changes_of(model::ran(model::begin(data), command, moment).0);
    let trace = model::ran(model::begin(data), command, moment).0;
    changes::law_changes_tell_a_command(data, command, moment);
    let keys = changes::named(command);
    let part = model::begin(Dataset { entries: data.entries.restrict(keys), ..data });
    changes::lemma_link_begin(data, keys);
    changes::lemma_link_ran(data, model::begin(data), part, keys, command, moment);
    changes::lemma_changes_suffice(data, trace);
    changes::lemma_changed_entries(data.entries, list, key);
}

/// A log is recovered only if its header can be read, is that of the layout that is asked for, and
/// its snapshot is complete.
pub proof fn law_recovered_logs_are_complete(
    image: Seq<u8>,
    layout: DurableLayout,
    limits: Limits,
    total: usize,
    moment: Moment,
)
    ensures
        recovery::recovery_outcome(image, layout, limits, total, moment) matches Ok((progress, _))
            ==> progress.sealed && (crate::persistence::format::layout_outcome(image) matches Ok(
            header,
        ) && header.layout == layout),
        (crate::persistence::format::layout_outcome(image) matches Ok(header) && header.layout
            != layout) ==> (recovery::recovery_outcome(
            image,
            layout,
            limits,
            total,
            moment,
        ) matches Err(AofError::LayoutMismatch { expected, .. }) && expected == layout),
        crate::persistence::format::layout_outcome(image) matches Err(fault)
            ==> recovery::recovery_outcome(image, layout, limits, total, moment) == Err::<
            (Progress, int),
            AofError,
        >(AofError::Format(fault)),
{
}

} // verus!
