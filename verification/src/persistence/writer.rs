//! What the writer of a log decides: the bytes of each record, what a
//! compaction has to carry over, and when to sync. Files stay with the caller.

use super::config::{AofConfig, AofError, SyncPolicy};
use super::format::{write_header_with_layout, FormatError, Limits, Record, RecordModel};
use super::layout::DurableLayout;
use super::record::{comes_after, encode};
use super::recovery::batch_shard;
use crate::buffer::append;
use crate::codec::snapshot_digest;
use crate::storage::mutation::{Mutation, MutationModel, ResolvedBatch};
use bytes::Bytes;
use crate::buffer;
use crate::codec;
use crate::persistence::layout;
use crate::persistence::record;
use crate::persistence::recovery;
use crate::storage::mutation;
use vstd::prelude::*;

verus! {

/// The record of a snapshot entry.
pub open spec fn snapshot_wires(mutations: Seq<MutationModel>) -> Seq<Seq<u8>> {
    mutations.map_values(|mutation: MutationModel| record::record_wire(RecordModel::Snapshot(mutation)))
}

/// The digest of snapshot entries, one after the other.
pub open spec fn digest_of(wires: Seq<Seq<u8>>) -> u32
    decreases wires.len(),
{
    if wires.len() == 0 {
        0
    } else {
        codec::crc32_after(digest_of(wires.drop_last()), wires.last())
    }
}

/// What stops snapshot entries from being written: they are entries, in the
/// order of their keys, and each fits in a record.
pub open spec fn snapshot_fault(mutations: Seq<MutationModel>, limits: Limits) -> Option<AofError>
    decreases mutations.len(),
{
    if mutations.len() == 0 {
        None
    } else {
        match snapshot_fault(mutations.drop_last(), limits) {
            Some(error) => Some(error),
            None => {
                let mutation = mutations.last();
                let previous = if mutations.len() > 1 {
                    Some(mutations[mutations.len() - 2].key())
                } else {
                    None
                };
                if !(mutation is Put) || !record::follows(previous, mutation.key()) {
                    Some(AofError::Sequence)
                } else if !record::encodable(RecordModel::Snapshot(mutation), limits) {
                    Some(AofError::Format(FormatError::Limit))
                } else {
                    None
                }
            },
        }
    }
}

/// The seal of a snapshot.
pub open spec fn seal_of(mutations: Seq<MutationModel>, sequence: u64) -> RecordModel {
    RecordModel::Seal {
        sequence,
        entries: mutations.len() as u64,
        digest: digest_of(snapshot_wires(mutations)),
    }
}

/// The log that starts with this snapshot.
pub open spec fn snapshot_log(
    mutations: Seq<MutationModel>,
    sequence: u64,
    layout: DurableLayout,
) -> Seq<u8> {
    crate::persistence::format::layout_header(sequence, layout) + codec::joined(snapshot_wires(mutations)) + record::record_wire(
        seal_of(mutations, sequence),
    )
}

/// The bytes of a log that starts with a snapshot.
pub fn snapshot_image(
    snapshot: Vec<Mutation>,
    sequence: u64,
    layout: DurableLayout,
    limits: Limits,
) -> (result: Result<Vec<u8>, AofError>)
    requires
        mutation::all_sound(snapshot@),
    ensures
        ({
            let models = mutation::mutation_models(snapshot@);
            match snapshot_fault(models, limits) {
                Some(error) => result == Err::<Vec<u8>, AofError>(error),
                None => if !record::encodable(seal_of(models, sequence), limits) {
                    result == Err::<Vec<u8>, AofError>(AofError::Format(FormatError::Limit))
                } else {
                    result matches Ok(image) && image@ == snapshot_log(models, sequence, layout)
                },
            }
        }),
{
    let ghost models = mutation::mutation_models(snapshot@);
    let ghost wires = snapshot_wires(models);
    let count: usize = snapshot.len();
    let mut image: Vec<u8> = Vec::new();
    write_header_with_layout(&mut image, sequence, layout);
    let ghost header = image@;
    let mut previous: Option<Bytes> = None;
    let mut entries: u64 = 0;
    let mut digest: u32 = 0;
    let mut left = reversed(snapshot);
    let ghost mut done: int = 0;
    proof {
        assert(models.take(0) =~= Seq::<MutationModel>::empty());
        assert(wires.take(0) =~= Seq::<Seq<u8>>::empty());
        assert(header + codec::joined(wires.take(0)) =~= header);
        assert(header =~= crate::persistence::format::layout_header(sequence, layout));
    }
    while left.len() > 0
        invariant
            mutation::all_sound(snapshot@),
            models == mutation::mutation_models(snapshot@),
            wires == snapshot_wires(models),
            count == snapshot@.len(),
            0 <= done,
            left@.len() + done == count,
            entries == done,
            forall|i: int| 0 <= i < left@.len() ==> #[trigger] left@[i] == snapshot@[count - 1 - i],
            record::content_of(previous) == (if done > 0 {
                Some(models[done - 1].key())
            } else {
                None
            }),
            snapshot_fault(models.take(done), limits) is None,
            digest == digest_of(wires.take(done)),
            header == crate::persistence::format::layout_header(sequence, layout),
            image@ == header + codec::joined(wires.take(done)),
        decreases left@.len(),
    {
        let mutation = match left.pop() {
            None => return Err(AofError::Sequence),
            Some(mutation) => mutation,
        };
        proof {
            assert(mutation == snapshot@[done]);
            assert(models[done] == mutation.model());
            assert(mutation.wf());
            assert(models.take(done + 1).drop_last() =~= models.take(done));
            assert(wires.take(done + 1).drop_last() =~= wires.take(done));
            if snapshot_fault(models.take(done + 1), limits) is Some {
                lemma_snapshot_fault(models, limits, done + 1);
            }
        }
        let put = match &mutation {
            Mutation::Put { .. } => true,
            Mutation::Delete { .. } => false,
        };
        if !put || !comes_after(&previous, mutation.key()) {
            return Err(AofError::Sequence);
        }
        previous = Some(mutation.key().clone());
        let encoded = match encode(&Record::Snapshot(mutation), limits) {
            Err(error) => return Err(AofError::Format(error)),
            Ok(encoded) => encoded,
        };
        entries = entries + 1;
        digest = snapshot_digest(digest, encoded.as_slice());
        append(&mut image, encoded.as_slice());
        proof {
            assert(wires[done] == encoded@);
            assert(image@ =~= header + codec::joined(wires.take(done + 1)));
            done = done + 1;
        }
    }
    assert(models.take(done) =~= models);
    assert(wires.take(done) =~= wires);
    match encode(&Record::Seal { sequence, entries, digest }, limits) {
        Err(error) => Err(AofError::Format(error)),
        Ok(encoded) => {
            append(&mut image, encoded.as_slice());
            assert(image@ =~= snapshot_log(models, sequence, layout));
            Ok(image)
        },
    }
}

/// The mutations from last to first.
fn reversed(mutations: Vec<Mutation>) -> (result: Vec<Mutation>)
    ensures
        result@ == mutations@.reverse(),
{
    let ghost all = mutations@;
    let mut left = mutations;
    let mut result: Vec<Mutation> = Vec::new();
    while left.len() > 0
        invariant
            left@.len() + result@.len() == all.len(),
            left@ == all.take(left@.len() as int),
            forall|i: int| 0 <= i < result@.len() ==> #[trigger] result@[i] == all[all.len() - 1 - i],
        decreases left@.len(),
    {
        if let Some(mutation) = left.pop() {
            result.push(mutation);
        }
    }
    assert(result@ =~= all.reverse());
    result
}

/// A fault in the first entries is the fault of all.
proof fn lemma_snapshot_fault(mutations: Seq<MutationModel>, limits: Limits, count: int)
    requires
        0 <= count <= mutations.len(),
        snapshot_fault(mutations.take(count), limits) is Some,
    ensures
        snapshot_fault(mutations, limits) == snapshot_fault(mutations.take(count), limits),
    decreases mutations.len() - count,
{
    if count < mutations.len() {
        assert(mutations.take(count + 1).drop_last() =~= mutations.take(count));
        lemma_snapshot_fault(mutations, limits, count + 1);
    } else {
        assert(mutations.take(count) =~= mutations);
    }
}

/// What a compaction carries over: the batches that were written since its
/// snapshot, up to a limit.
#[derive(Debug)]
pub struct Delta {
    pub records: Vec<Vec<u8>>,
    pub bytes: usize,
    /// The limit was exceeded; the compaction will not be published.
    pub aborted: bool,
}

/// The bytes that a compaction has to append to its snapshot.
pub open spec fn delta_content(records: Seq<Vec<u8>>) -> Seq<u8> {
    codec::joined(records.map_values(|record: Vec<u8>| record@))
}

impl Delta {
    pub open spec fn wf(&self) -> bool {
        &&& self.bytes == delta_content(self.records@).len()
        &&& self.aborted ==> self.records@.len() == 0
    }
}

/// The state of a writer.
#[derive(Debug)]
pub struct Writer {
    pub layout: DurableLayout,
    pub limits: Limits,
    pub sync: SyncPolicy,
    pub max_delta_bytes: usize,
    pub generation: u64,
    pub sequence: u64,
    pub bytes_since_compact: u64,
    /// Something was written that may not be on disk.
    pub dirty: bool,
    pub compaction: Option<Delta>,
}

/// The sum, or the greatest number if it is more.
pub open spec fn capped_sum(left: u64, right: int) -> u64 {
    if left + right > u64::MAX {
        u64::MAX
    } else {
        (left + right) as u64
    }
}

/// The record that a batch becomes.
pub open spec fn batch_record(batch: ResolvedBatch, sequence: u64) -> RecordModel {
    RecordModel::Batch {
        sequence,
        origin: batch.origin,
        mutations: mutation::mutation_models(batch.mutations@),
    }
}

/// Whether a writer went on as it has to when a record was written, and told whether the file
/// has to be synced before the reply.
pub open spec fn appending(
    before: Writer,
    sequence: u64,
    encoded: Vec<u8>,
    must_sync: bool,
    after: Writer,
) -> bool {
    &&& must_sync == (before.sync == SyncPolicy::Always)
    &&& after.sequence == sequence
    &&& after.dirty
    &&& after.bytes_since_compact == capped_sum(before.bytes_since_compact, encoded@.len() as int)
    &&& after.layout == before.layout
    &&& after.limits == before.limits
    &&& after.sync == before.sync
    &&& after.max_delta_bytes == before.max_delta_bytes
    &&& after.generation == before.generation
    &&& match (before.compaction, after.compaction) {
        (None, None) => true,
        (Some(older), Some(newer)) => if older.aborted {
            newer == older
        } else if older.bytes + encoded@.len() > before.max_delta_bytes {
            newer.aborted && newer.records@.len() == 0
        } else {
            !newer.aborted && newer.records@ == older.records@.push(encoded)
        },
        _ => false,
    }
}

/// A batch that is written while a compaction goes on is carried over by it, behind those before,
/// as it was written; or the compaction is given up, for good. What is written has to reach the
/// disk before the reply where the policy is to sync always.
pub proof fn law_compactions_carry_batches_over(
    before: Writer,
    sequence: u64,
    encoded: Vec<u8>,
    must_sync: bool,
    after: Writer,
)
    requires
        before.wf(),
        after.wf(),
        appending(before, sequence, encoded, must_sync, after),
    ensures
        before.sync is Always <==> must_sync,
        after.dirty,
        after.sequence == sequence,
        before.compaction is Some <==> after.compaction is Some,
        (after.compaction matches Some(delta) && !delta.aborted) ==> (
        before.compaction matches Some(older) && !older.aborted && delta_content(
            after.compaction->Some_0.records@,
        ) == delta_content(older.records@) + encoded@ && delta_content(
            after.compaction->Some_0.records@,
        ).len() <= before.max_delta_bytes),
        (before.compaction matches Some(older) && !older.aborted && delta_content(
            older.records@,
        ).len() + encoded@.len() <= before.max_delta_bytes) ==> (
        after.compaction matches Some(newer) && !newer.aborted),
{
    if let (Some(older), Some(newer)) = (before.compaction, after.compaction) {
        if !newer.aborted {
            let texts = newer.records@.map_values(|record: Vec<u8>| record@);
            assert(texts.drop_last() =~= older.records@.map_values(|record: Vec<u8>| record@));
            assert(texts.last() == encoded@);
        }
    }
}

impl Writer {
    pub open spec fn wf(&self) -> bool {
        self.compaction matches Some(delta) ==> delta.wf()
    }

    /// The writer of a log that was read up to here.
    pub fn resume(config: &AofConfig, generation: u64, sequence: u64, valid_bytes: u64) -> (result:
        Self)
        ensures
            result.wf(),
            result.layout == config.layout,
            result.limits == config.limits,
            result.sync == config.sync,
            result.max_delta_bytes == config.max_delta_bytes,
            result.generation == generation,
            result.sequence == sequence,
            result.bytes_since_compact == valid_bytes,
            !result.dirty,
            result.compaction is None,
    {
        Writer {
            layout: config.layout,
            limits: config.limits,
            sync: config.sync,
            max_delta_bytes: config.max_delta_bytes,
            generation,
            sequence,
            bytes_since_compact: valid_bytes,
            dirty: false,
            compaction: None,
        }
    }

    /// The sequence and the bytes of the record that a batch becomes. A batch
    /// belongs to one shard.
    pub fn next_record(&self, batch: ResolvedBatch) -> (result: Result<(u64, Vec<u8>), AofError>)
        requires
            mutation::all_sound(batch.mutations@),
            layout::layout_fault(self.layout) is None,
        ensures
            if !recovery::one_shard(mutation::mutation_models(batch.mutations@), self.layout.shard_count as int) {
                result == Err::<(u64, Vec<u8>), AofError>(AofError::CrossShard)
            } else if self.sequence == u64::MAX {
                result == Err::<(u64, Vec<u8>), AofError>(AofError::Sequence)
            } else {
                let sequence = (self.sequence + 1) as u64;
                let record = batch_record(batch, sequence);
                if record::encodable(record, self.limits) {
                    result matches Ok((number, encoded)) && number == sequence && encoded@
                        == record::record_wire(record)
                } else {
                    result == Err::<(u64, Vec<u8>), AofError>(
                        AofError::Format(FormatError::Limit),
                    )
                }
            },
    {
        match batch_shard(batch.mutations.as_slice(), self.layout) {
            Err(error) => return Err(error),
            Ok(_) => {},
        }
        if self.sequence == u64::MAX {
            return Err(AofError::Sequence);
        }
        let sequence: u64 = self.sequence + 1;
        match encode(&Record::Batch { sequence, batch }, self.limits) {
            Err(error) => Err(AofError::Format(error)),
            Ok(encoded) => Ok((sequence, encoded)),
        }
    }

    /// The record was written. A compaction that is going on has to carry it
    /// over, or is given up when that is too much. Tells whether the file has
    /// to be synced before the reply.
    pub fn appended(&mut self, sequence: u64, encoded: Vec<u8>) -> (must_sync: bool)
        requires
            old(self).wf(),
        ensures
            final(self).wf(),
            appending(*old(self), sequence, encoded, must_sync, *final(self)),
    {
        let size: usize = encoded.len();
        self.sequence = sequence;
        self.dirty = true;
        self.bytes_since_compact = match self.bytes_since_compact.checked_add(size as u64) {
            Some(sum) => sum,
            None => u64::MAX,
        };
        let ghost before = self.compaction;
        self.compaction = match self.compaction.take() {
            None => None,
            Some(delta) => {
                let mut delta = delta;
                if !delta.aborted {
                    let over = match delta.bytes.checked_add(size) {
                        None => true,
                        Some(bytes) => bytes > self.max_delta_bytes,
                    };
                    if over {
                        delta = Delta { records: Vec::new(), bytes: 0, aborted: true };
                    } else {
                        let ghost records = delta.records@;
                        delta.bytes = delta.bytes + size;
                        delta.records.push(encoded);
                        proof {
                            let chunks = records.map_values(|record: Vec<u8>| record@);
                            let more = delta.records@.map_values(|record: Vec<u8>| record@);
                            assert(more =~= chunks.push(encoded@));
                            assert(more.drop_last() =~= chunks);
                        }
                    }
                }
                Some(delta)
            },
        };
        self.sync == SyncPolicy::Always
    }

    /// The file was synced.
    pub fn synced(&mut self)
        requires
            old(self).wf(),
        ensures
            *final(self) == (Writer { dirty: false, ..*old(self) }),
            final(self).wf(),
    {
        self.dirty = false;
    }

    /// Whether a periodic sync is due, this long after the last one.
    pub fn sync_due(&self, elapsed_ms: u64) -> (result: bool)
        ensures
            result == (self.dirty && (self.sync matches SyncPolicy::Periodic(period) && elapsed_ms
                >= period)),
    {
        match self.sync {
            SyncPolicy::Always => false,
            SyncPolicy::Periodic(period) => self.dirty && elapsed_ms >= period,
        }
    }

    /// Starts a compaction; returns the generation that it will publish. One
    /// goes on at a time.
    pub fn begin_compaction(&mut self) -> (result: Result<u64, AofError>)
        requires
            old(self).wf(),
        ensures
            final(self).wf(),
            if old(self).compaction is Some {
                result == Err::<u64, AofError>(AofError::Compacting) && *final(self) == *old(self)
            } else if old(self).generation == u64::MAX {
                result == Err::<u64, AofError>(AofError::Sequence) && *final(self) == *old(self)
            } else {
                &&& result == Ok::<u64, AofError>((old(self).generation + 1) as u64)
                &&& final(self).compaction matches Some(delta) && !delta.aborted
                    && delta.records@.len() == 0
                &&& final(self).generation == old(self).generation
                &&& final(self).sequence == old(self).sequence
                &&& final(self).bytes_since_compact == old(self).bytes_since_compact
                &&& final(self).dirty == old(self).dirty
                &&& final(self).layout == old(self).layout
                &&& final(self).limits == old(self).limits
                &&& final(self).sync == old(self).sync
                &&& final(self).max_delta_bytes == old(self).max_delta_bytes
            },
    {
        if self.compaction.is_some() {
            return Err(AofError::Compacting);
        }
        if self.generation == u64::MAX {
            return Err(AofError::Sequence);
        }
        self.compaction = Some(Delta { records: Vec::new(), bytes: 0, aborted: false });
        Ok(self.generation + 1)
    }

    /// The snapshot of a compaction is ready: hands over the batches that have
    /// to follow it. Too many of them end the compaction; the former log stays.
    pub fn take_delta(&mut self) -> (result: Result<Vec<Vec<u8>>, AofError>)
        requires
            old(self).wf(),
        ensures
            final(self).wf(),
            *final(self) == (Writer { compaction: None, ..*old(self) }),
            match old(self).compaction {
                None => result == Err::<Vec<Vec<u8>>, AofError>(AofError::Unavailable),
                Some(delta) => if delta.aborted {
                    result == Err::<Vec<Vec<u8>>, AofError>(AofError::DeltaLimit)
                } else {
                    result == Ok::<Vec<Vec<u8>>, AofError>(delta.records)
                },
            },
    {
        match self.compaction.take() {
            None => Err(AofError::Unavailable),
            Some(delta) => if delta.aborted {
                Err(AofError::DeltaLimit)
            } else {
                Ok(delta.records)
            },
        }
    }

    /// The new generation was published. Returns the generation that became
    /// obsolete: one complete former generation is kept.
    pub fn published(&mut self) -> (obsolete: Option<u64>)
        requires
            old(self).wf(),
            old(self).generation < u64::MAX,
        ensures
            final(self).wf(),
            *final(self) == (Writer {
                generation: (old(self).generation + 1) as u64,
                bytes_since_compact: 0,
                dirty: false,
                ..*old(self)
            }),
            obsolete == if old(self).generation >= 1 {
                Some((old(self).generation - 1) as u64)
            } else {
                None
            },
    {
        self.generation = self.generation + 1;
        self.bytes_since_compact = 0;
        self.dirty = false;
        if self.generation >= 2 {
            Some(self.generation - 2)
        } else {
            None
        }
    }
}

/// What a failed step means for the writer: a rejected record leaves it
/// running, everything else stops it.
pub fn append_failure_is_fatal(error: &AofError) -> (result: bool)
    ensures
        result == !(*error == AofError::Format(FormatError::Limit)),
{
    match error {
        AofError::Format(FormatError::Limit) => false,
        _ => true,
    }
}

} // verus!
