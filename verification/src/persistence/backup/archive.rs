//! Reading a backup through, entry by entry, before it is trusted.

use super::digest::{checksums, hash_image};
use super::limits::{usage_error, Error, Limits, MAX_BACKUP_BYTES};
use super::manifest::{Manifest, ManifestModel};
use crate::buffer::{as_slice, same_bytes};
use crate::codec::snapshot_digest;
use crate::error::ConfigError;
use crate::ordered::{position, Position};
use crate::persistence::format::{
    read_header_with_layout, FormatError, Next, NextModel, Record, RecordModel,
    LAYOUT_VERSION,
};
use crate::persistence::layout::DurableLayout;
use crate::persistence::migration::{is_seal, record_end};
use crate::persistence::record::{encode, read_record};
use crate::persistence::usage::Quotas;
use crate::replication::protocol::{duplicate_mutation, Message, MessageModel};
use crate::storage::model::Moment;
use crate::storage::mutation::{Mutation, MutationModel};
use bytes::Bytes;
use crate::buffer;
use crate::codec;
use crate::ordered;
use crate::persistence::backup::digest;
use crate::persistence::backup::limits;
use crate::persistence::backup::manifest;
use crate::persistence::layout;
use crate::persistence::record;
use crate::persistence::recovery;
use crate::persistence::usage;
use crate::replication::protocol;
use vstd::prelude::*;

verus! {

pub const MAX_MANIFEST_BYTES: u64 = 65536;

/// The file that a restored backup becomes.
pub const GENERATION: &'static str = "generation-00000000000000000000.aof";

/// A backup that was read through.
pub struct VerifiedBackup {
    pub manifest: Manifest,
    pub shard_usage: Vec<usize>,
    pub live_entries: u64,
}

/// How far a snapshot was read.
#[verifier::ext_equal]
pub struct Reading {
    /// What is left of it.
    pub rest: Seq<u8>,
    pub previous: Option<Seq<u8>>,
    pub usage: Seq<usize>,
    pub live: nat,
    /// The digest of the records.
    pub digest: u32,
    /// The digest of the frames that carry them.
    pub transport_digest: u32,
}

/// One entry more, where it is there.
pub open spec fn one_if_there(mutation: MutationModel, moment: Moment) -> nat {
    match usage::entry_usage(mutation, moment) {
        Ok((_, true)) => 1,
        _ => 0,
    }
}

/// What taking one entry leads to.
#[verifier::opaque]
pub open spec fn entry_read(
    reading: Reading,
    mutation: MutationModel,
    limits: Limits,
    moment: Moment,
) -> Result<Reading, Error> {
    if !record::follows(reading.previous, mutation.key()) {
        Err(Error::Invalid("ordem ou duplicata de chave"))
    } else {
        match usage::used_more(
            reading.usage,
            mutation,
            limits.max_dataset_bytes as int,
            moment,
        ) {
            Err(error) => Err(limits::usage_failure(error)),
            Ok(usage) => if protocol::send_fault(
                MessageModel::SnapshotEntry(mutation),
                limits.frames(),
            ) is Some {
                Err(
                    Error::Transport(
                        protocol::send_fault(
                            MessageModel::SnapshotEntry(mutation),
                            limits.frames(),
                        )->Some_0,
                    ),
                )
            } else if !record::encodable(RecordModel::Snapshot(mutation), limits.records()) {
                Err(Error::Format(FormatError::Limit))
            } else {
                Ok(
                    Reading {
                        rest: recovery::after_record(reading.rest),
                        previous: Some(mutation.key()),
                        usage,
                        live: reading.live + one_if_there(mutation, moment),
                        digest: codec::crc32_after(
                            reading.digest,
                            record::record_wire(RecordModel::Snapshot(mutation)),
                        ),
                        transport_digest: codec::crc32_after(
                            reading.transport_digest,
                            protocol::frame_wire(MessageModel::SnapshotEntry(mutation)),
                        ),
                    },
                )
            },
        }
    }
}

/// What reading one entry leads to.
#[verifier::opaque]
pub open spec fn step_read(reading: Reading, limits: Limits, moment: Moment) -> Result<
    Reading,
    Error,
> {
    match record::next_outcome(reading.rest, limits.records()) {
        Err(error) => Err(Error::Format(error)),
        Ok(NextModel::Record(RecordModel::Snapshot(mutation))) => if mutation is Delete {
            Err(Error::Invalid("entrada de snapshot ausente"))
        } else {
            entry_read(reading, mutation, limits, moment)
        },
        Ok(_) => Err(Error::Invalid("entrada de snapshot ausente")),
    }
}

/// What reading this many entries leads to.
pub open spec fn entries_read(reading: Reading, count: nat, limits: Limits, moment: Moment) -> Result<
    Reading,
    Error,
>
    decreases count,
{
    if count == 0 {
        Ok(reading)
    } else {
        match step_read(reading, limits, moment) {
            Err(error) => Err(error),
            Ok(next) => entries_read(next, (count - 1) as nat, limits, moment),
        }
    }
}

/// What is wrong behind the entries.
pub open spec fn ending_fault(
    reading: Reading,
    manifest: ManifestModel,
    limits: Limits,
) -> Option<Error> {
    let broken = Error::Invalid("selo, EOF ou integridade do snapshot");
    match record::next_outcome(reading.rest, limits.records()) {
        Err(error) => Some(Error::Format(error)),
        Ok(next) => if next != NextModel::Record(
            RecordModel::Seal {
                sequence: manifest.cursor.sequence,
                entries: manifest.entries,
                digest: reading.digest,
            },
        ) {
            Some(broken)
        } else {
            match record::next_outcome(recovery::after_record(reading.rest), limits.records()) {
                Err(error) => Some(Error::Format(error)),
                Ok(NextModel::End) => if reading.transport_digest != manifest.transport_digest {
                    Some(broken)
                } else {
                    None
                },
                Ok(_) => Some(broken),
            }
        },
    }
}

/// What reading the entries and what comes behind them leads to: what each
/// shard uses, and how many entries are there.
pub open spec fn content_outcome(
    rest: Seq<u8>,
    manifest: ManifestModel,
    limits: Limits,
    moment: Moment,
) -> Result<(Seq<usize>, nat), Error> {
    let start = Reading {
        rest,
        previous: None,
        usage: usage::nothing_used(manifest.layout.shard_count as nat),
        live: 0,
        digest: 0,
        transport_digest: 0,
    };
    match entries_read(start, manifest.entries as nat, limits, moment) {
        Err(error) => Err(error),
        Ok(reading) => match ending_fault(reading, manifest, limits) {
            Some(error) => Err(error),
            None => Ok((reading.usage, reading.live)),
        },
    }
}

/// What is wrong with a total that a layout has to share.
pub open spec fn sharing_fault(layout: DurableLayout, total: usize) -> Option<Error> {
    if layout::layout_fault(layout) is Some {
        Some(
            Error::Configuration(
                ConfigError::InvalidServerLimits { reason: layout::layout_fault(layout)->Some_0 },
            ),
        )
    } else if total < layout.shard_count {
        Some(
            Error::Configuration(
                ConfigError::InvalidServerLimits {
                    reason: "quota total precisa reservar ao menos um byte por shard",
                },
            ),
        )
    } else {
        None
    }
}

/// What reading a whole snapshot leads to.
pub open spec fn image_outcome(
    image: Seq<u8>,
    manifest: ManifestModel,
    limits: Limits,
    moment: Moment,
) -> Result<(Seq<usize>, nat), Error> {
    if image.len() > MAX_BACKUP_BYTES {
        Err(Error::Invalid("arquivo excede teto de backup"))
    } else if digest::hex(digest::sha256_of(image)) != manifest.snapshot_sha256 || image.len()
        != manifest.snapshot_bytes {
        Err(Error::Invalid("checksum ou tamanho do snapshot"))
    } else {
        match crate::persistence::format::layout_outcome(image) {
            Err(error) => Err(Error::Format(error)),
            Ok(header) => if header.format_version != LAYOUT_VERSION || header.sequence
                != manifest.cursor.sequence || header.layout != manifest.layout {
                Err(Error::Invalid("identidade do cabeçalho do snapshot"))
            } else if sharing_fault(manifest.layout, limits.max_dataset_bytes) is Some {
                Err(sharing_fault(manifest.layout, limits.max_dataset_bytes)->Some_0)
            } else {
                content_outcome(image.skip(header.bytes as int), manifest, limits, moment)
            },
        }
    }
}

/// Reads a snapshot entry by entry.
struct Reader {
    quotas: Quotas,
    previous: Option<Bytes>,
    digest: u32,
    transport_digest: u32,
}

impl Reader {
    spec fn reading(&self, rest: Seq<u8>) -> Reading {
        Reading {
            rest,
            previous: record::content_of(self.previous),
            usage: self.quotas.used(),
            live: self.quotas.present() as nat,
            digest: self.digest,
            transport_digest: self.transport_digest,
        }
    }

    /// Takes one entry, which is the only one of the slice.
    fn take(&mut self, entry: &[Mutation], limits: Limits, moment: Moment, Ghost(rest): Ghost<Seq<u8>>)
        -> (result: Result<(), Error>)
        requires
            limits.is_valid(true),
            old(self).quotas.wf(),
            old(self).quotas.shared() == limits.max_dataset_bytes,
            old(self).quotas.present() < u64::MAX,
            entry@.len() == 1,
            entry@[0].wf(),
        ensures
            match (
                result,
                entry_read(old(self).reading(rest), entry@[0].model(), limits, moment),
            ) {
                (Ok(_), Ok(next)) => {
                    &&& final(self).reading(recovery::after_record(rest)) == next
                    &&& final(self).quotas.wf()
                    &&& final(self).quotas.shared() == old(self).quotas.shared()
                    &&& final(self).quotas.present() <= old(self).quotas.present() + 1
                },
                (Err(error), Err(fault)) => error == fault,
                _ => false,
            },
    {
        reveal(entry_read);
        let ghost before = self.reading(rest);
        let ghost mutation = entry@[0].model();
        match &self.previous {
            None => {},
            Some(previous) => {
                proof {
                    ordered::lemma_precedes_total(
                        buffer::bytes_content(*previous),
                        mutation.key(),
                    );
                    ordered::lemma_precedes_irreflexive(mutation.key());
                }
                match position(as_slice(previous), as_slice(entry[0].key())) {
                    Position::Before => {},
                    _ => return Err(Error::Invalid("ordem ou duplicata de chave")),
                }
            },
        }
        self.previous = Some(entry[0].key().clone());
        match self.quotas.add(entry, moment) {
            Err(error) => return Err(usage_error(error)),
            Ok(_) => {},
        }
        let message = Message::SnapshotEntry(duplicate_mutation(&entry[0]));
        let frame = match crate::replication::protocol::encode(&message, limits.transport()) {
            Err(error) => return Err(Error::Transport(error)),
            Ok(frame) => frame,
        };
        self.transport_digest = snapshot_digest(self.transport_digest, as_slice(&frame));
        match encode(&Record::Snapshot(duplicate_mutation(&entry[0])), limits.record()) {
            Err(error) => return Err(Error::Format(error)),
            Ok(bytes) => {
                self.digest = snapshot_digest(self.digest, bytes.as_slice());
            },
        }
        Ok(())
    }

    /// Reads one entry; returns how many bytes it takes.
    fn step(&mut self, rest: &[u8], limits: Limits, moment: Moment) -> (result: Result<usize, Error>)
        requires
            limits.is_valid(true),
            old(self).quotas.wf(),
            old(self).quotas.shared() == limits.max_dataset_bytes,
            old(self).quotas.present() < u64::MAX,
        ensures
            match (result, step_read(old(self).reading(rest@), limits, moment)) {
                (Ok(size), Ok(next)) => {
                    &&& size <= rest@.len()
                    &&& final(self).reading(rest@.skip(size as int)) == next
                    &&& final(self).quotas.wf()
                    &&& final(self).quotas.shared() == old(self).quotas.shared()
                    &&& final(self).quotas.present() <= old(self).quotas.present() + 1
                },
                (Err(error), Err(fault)) => error == fault,
                _ => false,
            },
    {
        reveal(step_read);
        let next = match read_record(rest, limits.record()) {
            Err(error) => return Err(Error::Format(error)),
            Ok(next) => next,
        };
        let mutation = match next {
            Next::Record(Record::Snapshot(mutation)) => mutation,
            _ => return Err(Error::Invalid("entrada de snapshot ausente")),
        };
        match &mutation {
            Mutation::Delete { .. } => return Err(Error::Invalid("entrada de snapshot ausente")),
            Mutation::Put { .. } => {},
        }
        let size: usize = record_end(rest, limits.record());
        let mut entry: Vec<Mutation> = Vec::new();
        entry.push(mutation);
        match self.take(entry.as_slice(), limits, moment, Ghost(rest@)) {
            Err(error) => return Err(error),
            Ok(_) => {},
        }
        Ok(size)
    }
}

/// Reads the entries of a snapshot, from a place on, and what comes behind them.
fn validate_content(
    image: &[u8],
    start: usize,
    manifest: &Manifest,
    limits: Limits,
    moment: Moment,
) -> (result: Result<(Vec<usize>, u64), Error>)
    requires
        limits.is_valid(true),
        start <= image@.len(),
        sharing_fault(manifest.layout, limits.max_dataset_bytes) is None,
    ensures
        match (
            result,
            content_outcome(image@.skip(start as int), manifest.model(), limits, moment),
        ) {
            (Ok((usage, live)), Ok((used, present))) => usage@ == used && live == present,
            (Err(error), Err(fault)) => error == fault,
            _ => false,
        },
{
    let ghost wanted = content_outcome(image@.skip(start as int), manifest.model(), limits, moment);
    let quotas = match Quotas::new(manifest.layout, limits.max_dataset_bytes) {
        Err(error) => return Err(Error::Configuration(error)),
        Ok(quotas) => quotas,
    };
    let mut reader = Reader { quotas, previous: None, digest: 0, transport_digest: 0 };
    let mut place: usize = start;
    let mut index: u64 = 0;
    let ghost total = entries_read(
        reader.reading(image@.skip(start as int)),
        manifest.entries as nat,
        limits,
        moment,
    );
    while index < manifest.entries
        invariant
            limits.is_valid(true),
            index <= manifest.entries,
            place <= image@.len(),
            reader.quotas.wf(),
            reader.quotas.shared() == limits.max_dataset_bytes,
            reader.quotas.present() <= index,
            wanted == content_outcome(image@.skip(start as int), manifest.model(), limits, moment),
            total is Err ==> wanted is Err && wanted->Err_0 == total->Err_0,
            total == entries_read(
                reader.reading(image@.skip(place as int)),
                (manifest.entries - index) as nat,
                limits,
                moment,
            ),
        decreases manifest.entries - index,
    {
        let rest = vstd::slice::slice_subrange(image, place, image.len());
        assert(rest@ =~= image@.skip(place as int));
        let size: usize = match reader.step(rest, limits, moment) {
            Err(error) => return Err(error),
            Ok(size) => size,
        };
        assert(rest@.skip(size as int) =~= image@.skip(place + size));
        place = place + size;
        index += 1;
    }
    let ghost reading = reader.reading(image@.skip(place as int));
    assert(total == Ok::<Reading, Error>(reading));
    let rest = vstd::slice::slice_subrange(image, place, image.len());
    assert(rest@ =~= image@.skip(place as int));
    let next = match read_record(rest, limits.record()) {
        Err(error) => return Err(Error::Format(error)),
        Ok(next) => next,
    };
    if !is_seal(&next, manifest.cursor.sequence, manifest.entries, reader.digest) {
        return Err(Error::Invalid("selo, EOF ou integridade do snapshot"));
    }
    let size: usize = record_end(rest, limits.record());
    let last = vstd::slice::slice_subrange(rest, size, rest.len());
    assert(last@ =~= rest@.skip(size as int));
    match read_record(last, limits.record()) {
        Err(error) => return Err(Error::Format(error)),
        Ok(Next::End) => {},
        Ok(_) => return Err(Error::Invalid("selo, EOF ou integridade do snapshot")),
    }
    if reader.transport_digest != manifest.transport_digest {
        return Err(Error::Invalid("selo, EOF ou integridade do snapshot"));
    }
    Ok(reader.quotas.finish())
}

/// Reads a snapshot through: its sum and size, its header, the order of its
/// entries, the share of each shard, both digests, the seal and the end.
pub fn validate_image(image: &[u8], manifest: &Manifest, limits: Limits, moment: Moment) -> (result:
    Result<(Vec<usize>, u64), Error>)
    requires
        limits.is_valid(true),
    ensures
        match (result, image_outcome(image@, manifest.model(), limits, moment)) {
            (Ok((usage, live)), Ok((used, present))) => usage@ == used && live == present,
            (Err(error), Err(fault)) => error == fault,
            _ => false,
        },
{
    let (sum, size) = match hash_image(image) {
        Err(error) => return Err(error),
        Ok(found) => found,
    };
    if !same_bytes(sum.as_slice(), as_slice(&manifest.snapshot_sha256)) || size
        != manifest.snapshot_bytes {
        return Err(Error::Invalid("checksum ou tamanho do snapshot"));
    }
    let header = match read_header_with_layout(image) {
        Err(error) => return Err(Error::Format(error)),
        Ok(header) => header,
    };
    if header.format_version != LAYOUT_VERSION || header.sequence != manifest.cursor.sequence
        || header.layout != manifest.layout {
        return Err(Error::Invalid("identidade do cabeçalho do snapshot"));
    }
    match manifest.layout.quota(limits.max_dataset_bytes, 0) {
        Err(error) => return Err(Error::Configuration(error)),
        Ok(_) => {},
    }
    validate_content(image, header.bytes, manifest, limits, moment)
}

/// What reading the manifest of a backup of this layout leads to.
pub open spec fn opening_outcome(
    text: Seq<u8>,
    layout: DurableLayout,
    limits: Limits,
    counted: bool,
    version: Seq<u8>,
) -> Result<ManifestModel, Error> {
    if !limits.is_valid(counted) {
        Err(Error::Invalid("backup limits"))
    } else if layout::layout_fault(layout) is Some {
        Err(
            Error::Configuration(
                ConfigError::InvalidServerLimits { reason: layout::layout_fault(layout)->Some_0 },
            ),
        )
    } else if text.len() > MAX_MANIFEST_BYTES {
        Err(Error::Invalid("manifesto excede limite"))
    } else {
        match manifest::manifest_outcome(text, limits, counted, version) {
            Err(error) => Err(error),
            Ok(manifest) => if manifest.layout != layout {
                Err(Error::Invalid("layout solicitado difere do backup"))
            } else {
                Ok(manifest)
            },
        }
    }
}

/// Reads the manifest of a backup, which has to have this layout.
pub fn read_manifest(
    text: &[u8],
    layout: DurableLayout,
    limits: Limits,
    counted: bool,
    version: &[u8],
) -> (result: Result<Manifest, Error>)
    ensures
        match (result, opening_outcome(text@, layout, limits, counted, version@)) {
            (Ok(manifest), Ok(model)) => manifest.model() == model && manifest.wf(),
            (Err(error), Err(fault)) => error == fault,
            _ => false,
        },
{
    match limits.check(counted) {
        Err(error) => return Err(error),
        Ok(_) => {},
    }
    match layout.validate() {
        Err(error) => return Err(Error::Configuration(error)),
        Ok(_) => {},
    }
    if text.len() as u64 > MAX_MANIFEST_BYTES {
        return Err(Error::Invalid("manifesto excede limite"));
    }
    let manifest = match Manifest::parse(text, limits, counted, version) {
        Err(error) => return Err(error),
        Ok(manifest) => manifest,
    };
    if manifest.layout != layout {
        return Err(Error::Invalid("layout solicitado difere do backup"));
    }
    Ok(manifest)
}

/// Refuses sums that are not those of the manifest and of its snapshot.
pub fn check_sums(text: &[u8], manifest: &Manifest, sums: &[u8]) -> (result: Result<(), Error>)
    ensures
        result == if sums@ == digest::sums(text@, manifest.model().snapshot_sha256) {
            Ok::<(), Error>(())
        } else {
            Err(Error::Invalid("checksums do manifesto"))
        },
{
    let expected = checksums(text, as_slice(&manifest.snapshot_sha256));
    if !same_bytes(sums, expected.as_slice()) {
        return Err(Error::Invalid("checksums do manifesto"));
    }
    Ok(())
}

/// What reading a whole backup leads to.
pub open spec fn backup_outcome(
    text: Seq<u8>,
    sums: Seq<u8>,
    image: Seq<u8>,
    layout: DurableLayout,
    limits: Limits,
    counted: bool,
    version: Seq<u8>,
    moment: Moment,
) -> Result<(ManifestModel, Seq<usize>, nat), Error> {
    match opening_outcome(text, layout, limits, counted, version) {
        Err(error) => Err(error),
        Ok(manifest) => if sums != digest::sums(text, manifest.snapshot_sha256) {
            Err(Error::Invalid("checksums do manifesto"))
        } else {
            match image_outcome(image, manifest, limits, moment) {
                Err(error) => Err(error),
                Ok((usage, live)) => Ok((manifest, usage, live)),
            }
        },
    }
}

/// Reads all bytes of a backup and counts its entries against the shares.
pub fn verify(
    text: &[u8],
    sums: &[u8],
    image: &[u8],
    layout: DurableLayout,
    limits: Limits,
    counted: bool,
    version: &[u8],
    moment: Moment,
) -> (result: Result<VerifiedBackup, Error>)
    ensures
        match (
            result,
            backup_outcome(text@, sums@, image@, layout, limits, counted, version@, moment),
        ) {
            (Ok(verified), Ok((manifest, usage, live))) => {
                &&& verified.manifest.model() == manifest
                &&& verified.shard_usage@ == usage
                &&& verified.live_entries == live
            },
            (Err(error), Err(fault)) => error == fault,
            _ => false,
        },
{
    let manifest = match read_manifest(text, layout, limits, counted, version) {
        Err(error) => return Err(error),
        Ok(manifest) => manifest,
    };
    match check_sums(text, &manifest, sums) {
        Err(error) => return Err(error),
        Ok(_) => {},
    }
    match validate_image(image, &manifest, limits, moment) {
        Err(error) => Err(error),
        Ok((shard_usage, live_entries)) => Ok(
            VerifiedBackup { manifest, shard_usage, live_entries },
        ),
    }
}

} // verus!
