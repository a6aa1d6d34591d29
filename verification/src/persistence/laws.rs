//! What is written to a log is read back from it.

use super::config::AofError;
use super::format::{Limits, NextModel, RecordModel, LAYOUT_HEADER_BYTES};
use super::layout::DurableLayout;
use super::recovery::{Progress, Rules};
use crate::storage::changes::Change;
use crate::storage::model::{Dataset, Deadline, EntryModel, Moment};
use crate::storage::mutation::MutationModel;
use crate::codec;
use crate::ordered;
use crate::persistence::layout;
use crate::persistence::record;
use crate::persistence::recovery;
use crate::persistence::writer;
use crate::storage::accounting;
use crate::storage::changes;
use crate::storage::collections;
use crate::storage::laws;
use crate::storage::model;
use crate::storage::mutation;
use crate::storage::routing;
use crate::storage::value;
use vstd::prelude::*;

verus! {

/// The bytes of records, one after the other.
pub open spec fn wires(records: Seq<RecordModel>) -> Seq<Seq<u8>> {
    records.map_values(|record: RecordModel| record::record_wire(record))
}

/// What records lead to, one after the other.
pub open spec fn advanced_all(
    progress: Progress,
    records: Seq<RecordModel>,
    rules: Rules,
    moment: Moment,
) -> Result<Progress, AofError>
    decreases records.len(),
{
    if records.len() == 0 {
        Ok(progress)
    } else {
        match recovery::advanced(progress, records[0], rules, moment) {
            Err(error) => Err(error),
            Ok(next) => advanced_all(next, records.skip(1), rules, moment),
        }
    }
}

/// Whether all records can be written.
pub open spec fn writable(records: Seq<RecordModel>, limits: Limits) -> bool {
    forall|i: int|
        0 <= i < records.len() ==> record::encodable(#[trigger] records[i], limits) && record::recordable_all(
            records[i],
        )
}

/// Reading a log takes exactly the records in that were written to it, in
/// their order.
pub proof fn law_log_tells_its_records(
    progress: Progress,
    records: Seq<RecordModel>,
    rest: Seq<u8>,
    rules: Rules,
    moment: Moment,
)
    requires
        writable(records, rules.limits),
    ensures
        recovery::log_outcome(progress, codec::joined(wires(records)) + rest, rules, moment) == (match advanced_all(
            progress,
            records,
            rules,
            moment,
        ) {
            Err(error) => Err(error),
            Ok(next) => recovery::log_outcome(next, rest, rules, moment),
        }),
    decreases records.len(),
{
    let chunks = wires(records);
    if records.len() == 0 {
        assert(codec::joined(chunks) + rest =~= rest);
    } else {
        let record = records[0];
        let tail = records.skip(1);
        codec::lemma_joined_front(chunks);
        assert(chunks.skip(1) =~= wires(tail));
        let more = codec::joined(wires(tail)) + rest;
        let input = codec::joined(chunks) + rest;
        assert(input =~= record::record_wire(record) + more);
        record::law_records_are_read_back(record, rules.limits, more);
        record::lemma_framed(record::record_body(record), more);
        assert(recovery::after_record(input) =~= more);
        assert forall|i: int| 0 <= i < tail.len() implies record::encodable(#[trigger] tail[i], rules.limits)
            && record::recordable_all(tail[i]) by {
            assert(tail[i] == records[i + 1]);
        }
        match recovery::advanced(progress, record, rules, moment) {
            Err(_) => {},
            Ok(next) => {
                law_log_tells_its_records(next, tail, rest, rules, moment);
            },
        }
    }
}

/// A crash in the middle of a write loses that record and nothing else: the
/// log is read as if the record had not been begun, and its bytes are told as
/// an incomplete tail.
pub proof fn law_torn_writes_lose_one_record(
    progress: Progress,
    records: Seq<RecordModel>,
    torn: RecordModel,
    kept: int,
    rules: Rules,
    moment: Moment,
)
    requires
        writable(records, rules.limits),
        record::encodable(torn, rules.limits),
        record::recordable_all(torn),
        0 < kept < record::record_wire(torn).len(),
    ensures
        recovery::log_outcome(
            progress,
            codec::joined(wires(records)) + record::record_wire(torn).take(kept),
            rules,
            moment,
        ) == (match advanced_all(progress, records, rules, moment) {
            Err(error) => Err(error),
            Ok(next) => Ok((next, kept)),
        }),
{
    let tail = record::record_wire(torn).take(kept);
    law_log_tells_its_records(progress, records, tail, rules, moment);
    record::law_cut_records_are_incomplete(torn, rules.limits, kept);
}

/// A record is read the same way, whatever follows it.
proof fn lemma_more_follows(input: Seq<u8>, rest: Seq<u8>, limits: Limits)
    requires
        record::next_outcome(input, limits) matches Ok(NextModel::Record(_)),
    ensures
        record::next_outcome(input + rest, limits) == record::next_outcome(input, limits),
        recovery::after_record(input + rest) == recovery::after_record(input) + rest,
        recovery::after_record(input).len() < input.len(),
{
    let longer = input + rest;
    assert(longer.subrange(0, 4) =~= input.subrange(0, 4));
    assert(longer.subrange(4, 8) =~= input.subrange(4, 8));
    assert(longer.take(12) =~= input.take(12));
    let size = record::announced(input, limits)->Ok_0;
    assert(longer.subrange(12, 12 + size as int) =~= input.subrange(12, 12 + size as int));
    assert(recovery::after_record(longer) =~= recovery::after_record(input) + rest);
}

proof fn lemma_log_goes_on(
    progress: Progress,
    input: Seq<u8>,
    rest: Seq<u8>,
    rules: Rules,
    moment: Moment,
)
    requires
        recovery::log_outcome(progress, input, rules, moment) matches Ok((_, tail)) && tail == 0,
    ensures
        recovery::log_outcome(progress, input + rest, rules, moment) == recovery::log_outcome(
            recovery::log_outcome(progress, input, rules, moment)->Ok_0.0,
            rest,
            rules,
            moment,
        ),
    decreases input.len(),
{
    match record::next_outcome(input, rules.limits) {
        Ok(NextModel::Record(record)) => {
            lemma_more_follows(input, rest, rules.limits);
            let next = recovery::advanced(progress, record, rules, moment)->Ok_0;
            lemma_log_goes_on(next, recovery::after_record(input), rest, rules, moment);
        },
        _ => {
            assert(input.len() == 0);
            assert(input + rest =~= rest);
        },
    }
}

/// A sealed log stays sealed.
proof fn lemma_stays_sealed(
    progress: Progress,
    records: Seq<RecordModel>,
    rules: Rules,
    moment: Moment,
)
    requires
        progress.sealed,
    ensures
        advanced_all(progress, records, rules, moment) matches Ok(next) ==> next.sealed,
    decreases records.len(),
{
    reveal(recovery::advanced);
    if records.len() > 0 {
        match recovery::advanced(progress, records[0], rules, moment) {
            Err(_) => {},
            Ok(next) => {
                lemma_stays_sealed(next, records.skip(1), rules, moment);
            },
        }
    }
}

/// What is appended to a log is recovered after all that the log held before:
/// nothing is lost, and nothing else is added.
pub proof fn law_appended_records_are_recovered(
    image: Seq<u8>,
    records: Seq<RecordModel>,
    layout: DurableLayout,
    limits: Limits,
    total: usize,
    moment: Moment,
)
    requires
        writable(records, limits),
        recovery::recovery_outcome(image, layout, limits, total, moment) matches Ok((_, tail)) && tail == 0,
    ensures
        recovery::recovery_outcome(
            image + codec::joined(wires(records)),
            layout,
            limits,
            total,
            moment,
        ) == (match advanced_all(
            recovery::recovery_outcome(image, layout, limits, total, moment)->Ok_0.0,
            records,
            Rules { layout, limits, total },
            moment,
        ) {
            Err(error) => Err::<(Progress, int), AofError>(error),
            Ok(next) => Ok((next, 0)),
        }),
{
    let rules = Rules { layout, limits, total };
    let rest = codec::joined(wires(records));
    let header = crate::persistence::format::layout_outcome(image)->Ok_0;
    let start = recovery::fresh(header.sequence, total as int);
    let input = image.skip(header.bytes as int);
    super::format::lemma_header_goes_on(image, rest);
    assert((image + rest).skip(header.bytes as int) =~= input + rest);
    lemma_log_goes_on(start, input, rest, rules, moment);
    let held = recovery::log_outcome(start, input, rules, moment)->Ok_0.0;
    law_log_tells_its_records(held, records, Seq::empty(), rules, moment);
    assert(rest + Seq::<u8>::empty() =~= rest);
    lemma_stays_sealed(held, records, rules, moment);
}

/// The entry that recovery makes of an entry: none once its time has come.
pub open spec fn renewed(entry: EntryModel, moment: Moment) -> Option<EntryModel> {
    match entry.deadline {
        None => Some(entry),
        Some(deadline) => if deadline.unix_ms <= moment.unix_ms {
            None
        } else {
            Some(
                EntryModel {
                    value: entry.value,
                    deadline: Some(
                        Deadline {
                            at: (moment.now + (deadline.unix_ms - moment.unix_ms)
                                * 1_000_000) as u128,
                            unix_ms: deadline.unix_ms,
                        },
                    ),
                },
            )
        },
    }
}

/// Whether the clock can show the deadline of an entry.
pub open spec fn showable(entry: EntryModel, moment: Moment) -> bool {
    entry.deadline matches Some(deadline) ==> deadline.unix_ms <= moment.unix_ms || moment.now + (
    deadline.unix_ms - moment.unix_ms) * 1_000_000 <= u128::MAX
}

/// Whether the dataset holds what recovery makes of the first keys.
spec fn restored(after: Dataset, data: Dataset, count: int, limit: int, moment: Moment) -> bool {
    let keys = ordered::listing(data.entries.dom());
    &&& after.limit == limit
    &&& after.entries.dom().finite()
    &&& after.used == model::costs_of(after, ordered::listing(after.entries.dom()))
    &&& forall|key: Seq<u8>| #[trigger]
        changes::entry_at(after, key) == if keys.take(count).contains(key) {
            renewed(data.entries[key], moment)
        } else {
            None
        }
}

/// A part of the entries takes no more than all of them, in each shard.
proof fn lemma_part_costs(part: Dataset, whole: Dataset, shard: int, count: int)
    requires
        part.entries.dom().finite(),
        whole.entries.dom().finite(),
        forall|key: Seq<u8>| #[trigger]
            part.entries.contains_key(key) ==> whole.entries.contains_key(key)
                && part.entries[key].value == whole.entries[key].value,
    ensures
        model::costs_of(part, ordered::listing(part.entries.dom())) <= model::costs_of(
            whole,
            ordered::listing(whole.entries.dom()),
        ),
        recovery::shard_usage(part, shard, count) <= recovery::shard_usage(whole, shard, count),
{
    let some = ordered::listing(part.entries.dom());
    let all = ordered::listing(whole.entries.dom());
    collections::lemma_listing_exists(part.entries.dom());
    collections::lemma_listing_exists(whole.entries.dom());
    accounting::lemma_ascending_distinct(some);
    lemma_pointwise(part, whole, some);
    lemma_pointwise(recovery::shard_view(part, shard, count), recovery::shard_view(whole, shard, count), some);
    assert forall|i: int| 0 <= i < some.len() implies all.contains(#[trigger] some[i]) by {
        assert(some.contains(some[i]));
        assert(part.entries.dom().contains(some[i]));
        assert(part.entries.contains_key(some[i]));
        assert(whole.entries.dom().contains(some[i]));
    }
    accounting::lemma_costs_subset(whole, some, all);
    accounting::lemma_costs_subset(recovery::shard_view(whole, shard, count), some, all);
}

proof fn lemma_pointwise(part: Dataset, whole: Dataset, keys: Seq<Seq<u8>>)
    requires
        forall|key: Seq<u8>| #[trigger]
            part.entries.contains_key(key) ==> whole.entries.contains_key(key)
                && part.entries[key].value == whole.entries[key].value,
    ensures
        model::costs_of(part, keys) <= model::costs_of(whole, keys),
    decreases keys.len(),
{
    if keys.len() > 0 {
        lemma_pointwise(part, whole, keys.drop_last());
    }
}

/// Replaying one entry under a key that is absent.
proof fn lemma_replay_one(
    data: Dataset,
    after: Dataset,
    count: int,
    rules: Rules,
    moment: Moment,
)
    requires
        rules.wf(),
        data.entries.dom().finite(),
        0 <= count < ordered::listing(data.entries.dom()).len(),
        restored(after, data, count, rules.total as int, moment),
        forall|key: Seq<u8>| #[trigger]
            data.entries.contains_key(key) ==> showable(data.entries[key], moment),
        model::costs_of(data, ordered::listing(data.entries.dom())) <= rules.total,
        forall|shard: int|
            0 <= shard < rules.count() ==> #[trigger] recovery::shard_usage(data, shard, rules.count())
                <= layout::share(rules.total as int, rules.count(), shard),
    ensures
        ({
            let outcome = recovery::routed_outcome(after, seq![mutation::snapshot_of(data)[count]], rules, moment);
            &&& outcome is Ok
            &&& restored(outcome->Ok_0, data, count + 1, rules.total as int, moment)
        }),
{
    let keys = ordered::listing(data.entries.dom());
    let key = keys[count];
    let entry = data.entries[key];
    let mutation = mutation::snapshot_of(data)[count];
    let list = seq![mutation];
    collections::lemma_listing_exists(data.entries.dom());
    assert(keys.contains(key));
    assert(data.entries.dom().contains(key));
    assert(data.entries.contains_key(key));
    let part = keys.take(count);
    let more = keys.take(count + 1);
    accounting::lemma_ascending_distinct(keys);
    assert(!part.contains(key)) by {
        if part.contains(key) {
            let i = choose|i: int| 0 <= i < part.len() && part[i] == key;
            assert(keys[i] != keys[count]);
        }
    }
    assert(changes::entry_at(after, key) is None);
    assert(mutation.key() == key);
    assert(mutation::mutation_keys(list) =~= seq![key]);
    assert(accounting::distinct(seq![key]));
    assert(seq![key].drop_last() =~= Seq::<Seq<u8>>::empty());
    assert(seq![key].last() == key);
    assert(model::costs_of(after, Seq::<Seq<u8>>::empty()) == 0);
    assert(model::costs_of(after, seq![key]) == model::costs_of(after, seq![key].drop_last()) + model::cost_of(
        after,
        seq![key].last(),
    ));
    assert(model::costs_of(after, seq![key]) == 0);
    let left = mutation::resolved(mutation, moment);
    assert(left == Ok::<Option<EntryModel>, crate::storage::mutation::ReplayError>(
        renewed(entry, moment),
    ));
    let change = Change { key, entry: renewed(entry, moment) };
    let changes = seq![change];
    assert(list.drop_last() =~= Seq::<MutationModel>::empty());
    assert(Seq::<Change>::empty().push(change) =~= changes);
    assert(changes.drop_last() =~= Seq::<Change>::empty());
    assert(changes::change_keys(changes) =~= seq![key]);
    let next = changes::applied(after, changes);
    // What the dataset becomes.
    assert(changes::changed_entries(after.entries, changes) == match renewed(entry, moment) {
        Some(value) => after.entries.insert(key, value),
        None => after.entries.remove(key),
    }) by {
        assert(changes::changed_entries(after.entries, Seq::<Change>::empty()) == after.entries);
    }
    assert(changes::change_costs(Seq::<Change>::empty()) == 0);
    assert forall|other: Seq<u8>| #[trigger] changes::entry_at(next, other) == (if more.contains(other) {
        renewed(data.entries[other], moment)
    } else {
        None
    }) by {
        assert(changes::entry_at(after, other) == if part.contains(other) {
            renewed(data.entries[other], moment)
        } else {
            None
        });
        if more.contains(other) {
            let i = choose|i: int| 0 <= i < more.len() && more[i] == other;
            if i < count {
                assert(part[i] == other);
            }
        }
        if part.contains(other) {
            let i = choose|i: int| 0 <= i < part.len() && part[i] == other;
            assert(more[i] == other);
        }
        assert(more[count] == key);
    }
    // Usage stays what the entries take.
    lemma_used_after(after, next, key);
    assert forall|other: Seq<u8>| #[trigger] next.entries.contains_key(other) implies
        data.entries.contains_key(other) && next.entries[other].value == data.entries[other].value by {
        assert(changes::entry_at(next, other) is Some);
        assert(more.contains(other));
        let i = choose|i: int| 0 <= i < more.len() && more[i] == other;
        assert(keys[i] == other);
        assert(keys.contains(other));
        assert(data.entries.dom().contains(other));
    }
    let shard = routing::shard_of(key, rules.count());
    lemma_part_costs(next, data, shard, rules.count());
    assert(recovery::shard_usage(data, shard, rules.count()) <= layout::share(
        rules.total as int,
        rules.count(),
        shard,
    ));
    assert(recovery::one_shard(list, rules.count()));
    assert(recovery::shard_of_all(list, rules.count()) == shard);
    reveal_with_fuel(mutation::resolved_all, 2);
    assert(mutation::resolved_all(list, after.used as int, moment) == Ok::<
        Seq<Change>,
        crate::storage::mutation::ReplayError,
    >(changes));
}

/// Usage follows one key.
proof fn lemma_used_after(before: Dataset, after: Dataset, key: Seq<u8>)
    requires
        before.entries.dom().finite(),
        before.used == model::costs_of(before, ordered::listing(before.entries.dom())),
        !before.entries.contains_key(key),
        after.entries == before.entries.remove(key) || exists|entry: EntryModel|
            after.entries == #[trigger] before.entries.insert(key, entry),
        after.used == before.used + model::cost_of(after, key),
    ensures
        after.entries.dom().finite(),
        after.used == model::costs_of(after, ordered::listing(after.entries.dom())),
{
    let old_keys = ordered::listing(before.entries.dom());
    collections::lemma_listing_exists(before.entries.dom());
    accounting::lemma_ascending_distinct(old_keys);
    if after.entries.contains_key(key) {
        let entry = after.entries[key];
        assert(after.entries =~= before.entries.insert(key, entry));
        assert(after.entries.dom() =~= before.entries.dom().insert(key));
        let new_keys = ordered::listing(after.entries.dom());
        collections::lemma_listing_exists(after.entries.dom());
        accounting::lemma_ascending_distinct(new_keys);
        assert(after.entries.dom().contains(key));
        assert(new_keys.contains(key));
        crate::storage::accounting::lemma_costs_change(before, after, new_keys, key);
        assert forall|other: Seq<u8>| #[trigger] before.entries.contains_key(other) implies
            old_keys.contains(other) && new_keys.contains(other) by {
            assert(before.entries.dom().contains(other));
            assert(after.entries.dom().contains(other));
        }
        super::recovery::lemma_costs_cover(before, old_keys, new_keys);
    } else {
        assert(after.entries =~= before.entries);
        assert(after.entries.dom() =~= before.entries.dom());
        crate::storage::accounting::lemma_costs_same(before, after, old_keys);
    }
}

/// The first snapshot records lead to the first entries.
proof fn lemma_snapshot_advances(
    data: Dataset,
    sequence: u64,
    count: int,
    rules: Rules,
    moment: Moment,
)
    requires
        rules.wf(),
        data.entries.dom().finite(),
        0 <= count <= ordered::listing(data.entries.dom()).len() < u64::MAX,
        writer::snapshot_fault(mutation::snapshot_of(data), rules.limits) is None,
        forall|key: Seq<u8>| #[trigger]
            data.entries.contains_key(key) ==> showable(data.entries[key], moment),
        model::costs_of(data, ordered::listing(data.entries.dom())) <= rules.total,
        forall|shard: int|
            0 <= shard < rules.count() ==> #[trigger] recovery::shard_usage(data, shard, rules.count())
                <= layout::share(rules.total as int, rules.count(), shard),
    ensures
        ({
            let models = mutation::snapshot_of(data);
            let records = snapshot_records(models.take(count));
            let outcome = advanced_all(
                recovery::fresh(sequence, rules.total as int),
                records,
                rules,
                moment,
            );
            &&& outcome is Ok
            &&& restored(outcome->Ok_0.data, data, count, rules.total as int, moment)
            &&& outcome->Ok_0.base == sequence
            &&& outcome->Ok_0.sequence == sequence
            &&& !outcome->Ok_0.sealed
            &&& outcome->Ok_0.entries == count
            &&& outcome->Ok_0.digest == writer::digest_of(writer::snapshot_wires(models.take(count)))
            &&& outcome->Ok_0.previous == (if count > 0 {
                Some(models[count - 1].key())
            } else {
                None
            })
        }),
    decreases count,
{
    let models = mutation::snapshot_of(data);
    let keys = ordered::listing(data.entries.dom());
    collections::lemma_listing_exists(data.entries.dom());
    if count == 0 {
        assert(models.take(0) =~= Seq::<MutationModel>::empty());
        assert(writer::snapshot_wires(models.take(0)) =~= Seq::<Seq<u8>>::empty());
        let blank = laws::empty_dataset(rules.total as int);
        collections::lemma_listing_exists(blank.entries.dom());
        assert(ordered::listing(blank.entries.dom()).len() == 0) by {
            if ordered::listing(blank.entries.dom()).len() > 0 {
                let key = ordered::listing(blank.entries.dom())[0];
                assert(ordered::listing(blank.entries.dom()).contains(key));
                assert(blank.entries.dom().contains(key));
            }
        }
        assert(keys.take(0) =~= Seq::<Seq<u8>>::empty());
    } else {
        lemma_snapshot_advances(data, sequence, count - 1, rules, moment);
        let part = snapshot_records(models.take(count - 1));
        let record = RecordModel::Snapshot(models[count - 1]);
        assert(snapshot_records(models.take(count)) =~= part.push(record));
        let start = recovery::fresh(sequence, rules.total as int);
        lemma_advanced_push(start, part, record, rules, moment);
        let before = advanced_all(start, part, rules, moment)->Ok_0;
        lemma_replay_one(data, before.data, count - 1, rules, moment);
        let key = keys[count - 1];
        assert(keys.contains(key));
        assert(data.entries.dom().contains(key));
        assert(models[count - 1] is Put);
        assert(models[count - 1].key() == key);
        if count > 1 {
            assert(ordered::precedes(keys[count - 2], keys[count - 1]));
            assert(keys.contains(keys[count - 2]));
            assert(data.entries.dom().contains(keys[count - 2]));
            assert(models[count - 2].key() == keys[count - 2]);
        }
        lemma_fault_free(models, rules.limits, count);
        assert(writer::snapshot_wires(models.take(count)) =~= writer::snapshot_wires(models.take(count - 1)).push(
            record::record_wire(record),
        ));
        assert(writer::snapshot_wires(models.take(count)).drop_last() =~= writer::snapshot_wires(
            models.take(count - 1),
        ));
        reveal(recovery::advanced);
    }
}

/// Entries without a fault fit in records.
proof fn lemma_fault_free(mutations: Seq<MutationModel>, limits: Limits, count: int)
    requires
        0 < count <= mutations.len(),
        writer::snapshot_fault(mutations, limits) is None,
    ensures
        record::encodable(RecordModel::Snapshot(mutations[count - 1]), limits),
    decreases mutations.len(),
{
    if count < mutations.len() {
        lemma_fault_free(mutations.drop_last(), limits, count);
    }
}

/// Snapshot entries as records.
pub open spec fn snapshot_records(mutations: Seq<MutationModel>) -> Seq<RecordModel> {
    mutations.map_values(|mutation: MutationModel| RecordModel::Snapshot(mutation))
}

proof fn lemma_advanced_push(
    progress: Progress,
    records: Seq<RecordModel>,
    record: RecordModel,
    rules: Rules,
    moment: Moment,
)
    ensures
        advanced_all(progress, records.push(record), rules, moment) == (match advanced_all(
            progress,
            records,
            rules,
            moment,
        ) {
            Err(error) => Err(error),
            Ok(next) => recovery::advanced(next, record, rules, moment),
        }),
    decreases records.len(),
{
    let all = records.push(record);
    if records.len() == 0 {
        assert(all.skip(1) =~= Seq::<RecordModel>::empty());
        assert(all[0] == record);
        reveal_with_fuel(advanced_all, 2);
    } else {
        assert(all[0] == records[0]);
        assert(all.skip(1) =~= records.skip(1).push(record));
        match recovery::advanced(progress, records[0], rules, moment) {
            Err(_) => {},
            Ok(next) => {
                lemma_advanced_push(next, records.skip(1), record, rules, moment);
            },
        }
    }
}

/// A log that starts with the snapshot of a dataset, followed by nothing, is
/// recovered to that dataset: every entry whose deadline is ahead is back, with
/// its value and the absolute time of its deadline, and nothing else.
#[verifier::spinoff_prover]
#[verifier::rlimit(50)]
pub proof fn law_snapshot_logs_recover(
    data: Dataset,
    sequence: u64,
    layout: DurableLayout,
    limits: Limits,
    total: usize,
    moment: Moment,
)
    requires
        layout::layout_fault(layout) is None,
        total >= layout.shard_count,
        data.entries.dom().finite(),
        ordered::listing(data.entries.dom()).len() < u64::MAX,
        laws::finite_values(data),
        forall|key: Seq<u8>| #[trigger]
            data.entries.contains_key(key) ==> value::storable(data.entries[key].value) && showable(
                data.entries[key],
                moment,
            ),
        writer::snapshot_fault(mutation::snapshot_of(data), limits) is None,
        record::encodable(writer::seal_of(mutation::snapshot_of(data), sequence), limits),
        model::costs_of(data, ordered::listing(data.entries.dom())) <= total,
        forall|shard: int|
            0 <= shard < layout.shard_count ==> #[trigger] recovery::shard_usage(
                data,
                shard,
                layout.shard_count as int,
            ) <= layout::share(total as int, layout.shard_count as int, shard),
    ensures
        ({
            let outcome = recovery::recovery_outcome(
                writer::snapshot_log(mutation::snapshot_of(data), sequence, layout),
                layout,
                limits,
                total,
                moment,
            );
            &&& outcome is Ok
            &&& outcome->Ok_0.1 == 0
            &&& outcome->Ok_0.0.sequence == sequence
            &&& forall|key: Seq<u8>| #[trigger]
                changes::entry_at(outcome->Ok_0.0.data, key) == if data.entries.contains_key(key) {
                    renewed(data.entries[key], moment)
                } else {
                    None
                }
        }),
{
    let rules = Rules { layout, limits, total };
    let models = mutation::snapshot_of(data);
    let keys = ordered::listing(data.entries.dom());
    let count = keys.len() as int;
    let seal = writer::seal_of(models, sequence);
    let records = snapshot_records(models).push(seal);
    let start = recovery::fresh(sequence, total as int);
    collections::lemma_listing_exists(data.entries.dom());
    lemma_snapshot_advances(data, sequence, count, rules, moment);
    assert(models.take(count) =~= models);
    lemma_advanced_push(start, snapshot_records(models), seal, rules, moment);
    let before = advanced_all(start, snapshot_records(models), rules, moment)->Ok_0;
    let last = Progress { sealed: true, ..before };
    assert(recovery::advanced(before, seal, rules, moment) == Ok::<Progress, AofError>(last)) by {
        reveal(recovery::advanced);
    }
    assert(writable(records, limits)) by {
        assert forall|i: int| 0 <= i < records.len() implies record::encodable(#[trigger] records[i], limits)
            && record::recordable_all(records[i]) by {
            if i < models.len() {
                assert(records[i] == RecordModel::Snapshot(models[i]));
                lemma_fault_free(models, limits, i + 1);
                let key = keys[i];
                assert(keys.contains(key));
                assert(data.entries.dom().contains(key));
                assert(data.entries.contains_key(key));
            }
        }
    }
    assert(wires(records) =~= writer::snapshot_wires(models).push(record::record_wire(seal))) by {
        assert forall|i: int| 0 <= i < records.len() implies wires(records)[i] == writer::snapshot_wires(
            models,
        ).push(record::record_wire(seal))[i] by {
            if i < models.len() {
                assert(records[i] == RecordModel::Snapshot(models[i]));
            }
        }
    }
    assert(wires(records).drop_last() =~= writer::snapshot_wires(models));
    let image = writer::snapshot_log(models, sequence, layout);
    let body = codec::joined(wires(records)) + Seq::<u8>::empty();
    assert(image =~= crate::persistence::format::layout_header(sequence, layout) + body);
    crate::persistence::format::law_headers_are_read_back(sequence, layout, body);
    assert(crate::persistence::format::layout_header(sequence, layout).len() == LAYOUT_HEADER_BYTES) by {
        super::format::lemma_header_size(sequence, layout);
    }
    assert(image.skip(LAYOUT_HEADER_BYTES as int) =~= body);
    law_log_tells_its_records(start, records, Seq::empty(), rules, moment);
    let outcome = recovery::recovery_outcome(image, layout, limits, total, moment);
    assert forall|key: Seq<u8>| #[trigger] changes::entry_at(outcome->Ok_0.0.data, key) == (
    if data.entries.contains_key(key) {
        renewed(data.entries[key], moment)
    } else {
        None
    }) by {
        assert(keys.take(count) =~= keys);
        assert(data.entries.dom().contains(key) <==> keys.contains(key));
        assert(changes::entry_at(before.data, key) == if keys.contains(key) {
            renewed(data.entries[key], moment)
        } else {
            None
        });
    }
}

} // verus!
