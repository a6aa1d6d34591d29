//! What a backup is for: what passes verification is a whole snapshot, and nothing else.

use super::archive::Reading;
use super::client::{Download, Origin};
use super::limits::{Limits, MAX_BACKUP_BYTES};
use super::manifest::ManifestModel;
use crate::codec;
use crate::ordered;
use crate::persistence::backup::archive;
use crate::persistence::backup::client;
use crate::persistence::backup::digest;
use crate::persistence::canonical;
use crate::persistence::format::{NextModel, RecordModel};
use crate::persistence::layout::DurableLayout;
use crate::persistence::record;
use crate::persistence::recovery;
use crate::persistence::writer;
use crate::replication::protocol;
use crate::replication::protocol::MessageModel;
use crate::replication::session;
use crate::storage::model::Moment;
use crate::storage::mutation::MutationModel;
use vstd::prelude::*;

verus! {

/// The digest of some texts, one after the other, going on from another.
spec fn digested(start: u32, texts: Seq<Seq<u8>>) -> u32
    decreases texts.len(),
{
    if texts.len() == 0 {
        start
    } else {
        digested(codec::crc32_after(start, texts[0]), texts.skip(1))
    }
}

proof fn lemma_digested(start: u32, texts: Seq<Seq<u8>>)
    requires
        texts.len() > 0,
    ensures
        digested(start, texts) == codec::crc32_after(
            digested(start, texts.drop_last()),
            texts.last(),
        ),
    decreases texts.len(),
{
    let rest = texts.skip(1);
    if texts.len() == 1 {
        reveal_with_fuel(digested, 2);
        assert(rest =~= Seq::empty());
        assert(texts.drop_last() =~= Seq::empty());
    } else {
        let next = codec::crc32_after(start, texts[0]);
        lemma_digested(next, rest);
        assert(rest.drop_last() =~= texts.drop_last().skip(1));
        assert(rest.last() == texts.last());
        assert(texts.drop_last()[0] == texts[0]);
    }
}

proof fn lemma_digest_of(texts: Seq<Seq<u8>>)
    ensures
        digested(0, texts) == writer::digest_of(texts),
    decreases texts.len(),
{
    if texts.len() > 0 {
        lemma_digest_of(texts.drop_last());
        lemma_digested(0, texts);
    }
}

/// Whether the entries come in the order of their keys, behind a key.
spec fn rising(previous: Option<Seq<u8>>, entries: Seq<MutationModel>) -> bool {
    &&& forall|i: int|
        0 <= i < entries.len() ==> (#[trigger] entries[i]) is Put && record::follows(
            previous,
            entries[i].key(),
        )
    &&& forall|i: int, j: int|
        #![trigger entries[i], entries[j]]
        0 <= i < j < entries.len() ==> ordered::precedes(entries[i].key(), entries[j].key())
}

/// What a record is, that was read at the start of some bytes.
proof fn lemma_record(input: Seq<u8>, limits: crate::persistence::format::Limits)
    requires
        record::next_outcome(input, limits) matches Ok(NextModel::Record(_)),
    ensures
        record::next_outcome(input, limits) matches Ok(NextModel::Record(read)) && input
            == record::record_wire(read) + recovery::after_record(input),
{
    canonical::law_read_records_were_written(input, limits);
    let read = record::next_outcome(input, limits)->Ok_0->Record_0;
    let wire = record::record_wire(read);
    record::lemma_framed(record::record_body(read), Seq::empty());
    assert(wire + Seq::<u8>::empty() =~= wire);
    assert(input.subrange(0, 4) =~= wire.subrange(0, 4));
    assert(input =~= wire + input.skip(wire.len() as int));
}

/// Whether these are the record of an entry and the frame that carries it.
#[verifier::opaque]
spec fn carries(entry: MutationModel, wire: Seq<u8>, frame: Seq<u8>) -> bool {
    &&& wire == record::record_wire(RecordModel::Snapshot(entry))
    &&& frame == protocol::frame_wire(
        MessageModel::SnapshotEntry(entry),
    )
}

/// The entry that was read first, with its record and its frame.
proof fn entry_of(reading: Reading, limits: Limits, moment: Moment) -> (read: (
    MutationModel,
    Seq<u8>,
    Seq<u8>,
))
    requires
        archive::step_read(reading, limits, moment) is Ok,
    ensures
        ({
            let next = archive::step_read(reading, limits, moment)->Ok_0;
            &&& read.0 is Put
            &&& record::follows(reading.previous, read.0.key())
            &&& next.previous == Some(read.0.key())
            &&& carries(read.0, read.1, read.2)
            &&& reading.rest == read.1 + next.rest
            &&& next.digest == codec::crc32_after(reading.digest, read.1)
            &&& next.transport_digest == codec::crc32_after(reading.transport_digest, read.2)
        }),
{
    reveal(archive::step_read);
    reveal(archive::entry_read);
    reveal(carries);
    let entry = record::next_outcome(reading.rest, limits.records())->Ok_0->Record_0->Snapshot_0;
    lemma_record(reading.rest, limits.records());
    (
        entry,
        record::record_wire(RecordModel::Snapshot(entry)),
        protocol::frame_wire(
            MessageModel::SnapshotEntry(entry),
        ),
    )
}

proof fn lemma_rising(previous: Option<Seq<u8>>, first: MutationModel, tail: Seq<MutationModel>)
    requires
        first is Put,
        record::follows(previous, first.key()),
        rising(Some(first.key()), tail),
    ensures
        rising(previous, seq![first] + tail),
{
    let entries = seq![first] + tail;
    assert forall|i: int| 0 <= i < entries.len() implies (#[trigger] entries[i]) is Put
        && record::follows(previous, entries[i].key()) by {
        if i > 0 {
            assert(entries[i] == tail[i - 1]);
            if let Some(before) = previous {
                ordered::lemma_precedes_transitive(before, first.key(), entries[i].key());
            }
        }
    }
    assert forall|i: int, j: int|
        #![trigger entries[i], entries[j]]
        0 <= i < j < entries.len() implies ordered::precedes(entries[i].key(), entries[j].key()) by {
        assert(entries[j] == tail[j - 1]);
        if i > 0 {
            assert(entries[i] == tail[i - 1]);
        }
    }
}

/// The entries that were read, with their records and their frames.
proof fn entries_of(reading: Reading, count: nat, limits: Limits, moment: Moment) -> (read: (
    Seq<MutationModel>,
    Seq<Seq<u8>>,
    Seq<Seq<u8>>,
))
    requires
        archive::entries_read(reading, count, limits, moment) is Ok,
    ensures
        ({
            let next = archive::entries_read(reading, count, limits, moment)->Ok_0;
            &&& read.0.len() == count && read.1.len() == count && read.2.len() == count
            &&& rising(reading.previous, read.0)
            &&& forall|i: int|
                0 <= i < count ==> carries(#[trigger] read.0[i], read.1[i], read.2[i])
            &&& reading.rest == codec::joined(read.1) + next.rest
            &&& next.digest == digested(reading.digest, read.1)
            &&& next.transport_digest == digested(reading.transport_digest, read.2)
        }),
    decreases count,
{
    let end = archive::entries_read(reading, count, limits, moment)->Ok_0;
    if count == 0 {
        let none = (
            Seq::<MutationModel>::empty(),
            Seq::<Seq<u8>>::empty(),
            Seq::<Seq<u8>>::empty(),
        );
        assert(reading.rest =~= codec::joined(none.1) + end.rest);
        none
    } else {
        let next = archive::step_read(reading, limits, moment)->Ok_0;
        let (entry, wire, frame) = entry_of(reading, limits, moment);
        let tail = entries_of(next, (count - 1) as nat, limits, moment);
        let read = (seq![entry] + tail.0, seq![wire] + tail.1, seq![frame] + tail.2);
        codec::lemma_joined_front(read.1);
        assert(read.1.skip(1) =~= tail.1);
        assert(read.2.skip(1) =~= tail.2);
        assert(reading.rest =~= codec::joined(read.1) + end.rest);
        lemma_rising(reading.previous, entry, tail.0);
        assert forall|i: int| 0 <= i < count implies carries(
            #[trigger] read.0[i],
            read.1[i],
            read.2[i],
        ) by {
            if i > 0 {
                assert(read.0[i] == tail.0[i - 1]);
            }
        }
        read
    }
}

/// The image of a backup that passes verification is the log that starts with its entries and
/// ends behind their seal: as many as the manifest says, each a value, in the order of their
/// keys, under the sequence and the layout of the manifest. It has the size and the SHA-256 that
/// the manifest tells, and the frames that brought the entries have its digest.
pub proof fn law_verified_images_are_whole_snapshots(
    image: Seq<u8>,
    manifest: ManifestModel,
    limits: Limits,
    moment: Moment,
) -> (entries: Seq<MutationModel>)
    requires
        archive::image_outcome(image, manifest, limits, moment) is Ok,
    ensures
        entries.len() == manifest.entries,
        image == writer::snapshot_log(entries, manifest.cursor.sequence, manifest.layout),
        forall|i: int| 0 <= i < entries.len() ==> (#[trigger] entries[i]) is Put,
        forall|i: int, j: int|
            #![trigger entries[i], entries[j]]
            0 <= i < j < entries.len() ==> ordered::precedes(entries[i].key(), entries[j].key()),
        image.len() == manifest.snapshot_bytes,
        digest::hex(digest::sha256_of(image)) == manifest.snapshot_sha256,
        writer::digest_of(session::entry_frames(entries)) == manifest.transport_digest,
{
    let header = crate::persistence::format::layout_outcome(image)->Ok_0;
    let rest = image.skip(header.bytes as int);
    let start = Reading {
        rest,
        previous: None,
        usage: crate::persistence::usage::nothing_used(manifest.layout.shard_count as nat),
        live: 0,
        digest: 0,
        transport_digest: 0,
    };
    let count = manifest.entries as nat;
    let (entries, wires, frames) = entries_of(start, count, limits, moment);
    let reading = archive::entries_read(start, count, limits, moment)->Ok_0;
    assert(wires =~= writer::snapshot_wires(entries) && frames =~= session::entry_frames(entries))
        by {
        reveal(carries);
        assert forall|i: int| 0 <= i < count implies wires[i] == writer::snapshot_wires(entries)[i]
            && frames[i] == session::entry_frames(entries)[i] by {
            assert(carries(entries[i], wires[i], frames[i]));
        }
    }
    lemma_digest_of(wires);
    lemma_digest_of(session::entry_frames(entries));
    lemma_record(reading.rest, limits.records());
    let seal = writer::seal_of(entries, manifest.cursor.sequence);
    let after = recovery::after_record(reading.rest);
    assert(after.len() == 0);
    assert(after =~= Seq::empty());
    assert(reading.rest =~= record::record_wire(seal));
    crate::persistence::format::law_read_headers_were_written(image);
    let start_bytes = crate::persistence::format::layout_header(
        manifest.cursor.sequence,
        manifest.layout,
    );
    crate::persistence::format::lemma_header_size(manifest.cursor.sequence, manifest.layout);
    assert(image =~= start_bytes + rest);
    assert(image =~= writer::snapshot_log(entries, manifest.cursor.sequence, manifest.layout));
    entries
}

/// A backup passes as a whole only if its manifest can be read, has the layout that is asked for,
/// and its sums are those of the manifest and of the snapshot; then the snapshot itself has to
/// pass.
pub proof fn law_backups_pass_by_all_their_parts(
    text: Seq<u8>,
    sums: Seq<u8>,
    image: Seq<u8>,
    layout: DurableLayout,
    limits: Limits,
    counted: bool,
    version: Seq<u8>,
    moment: Moment,
)
    requires
        archive::backup_outcome(text, sums, image, layout, limits, counted, version, moment) is Ok,
    ensures
        ({
            let (manifest, usage, live) = archive::backup_outcome(
                text,
                sums,
                image,
                layout,
                limits,
                counted,
                version,
                moment,
            )->Ok_0;
            &&& manifest.layout == layout
            &&& sums == digest::sums(text, manifest.snapshot_sha256)
            &&& archive::image_outcome(image, manifest, limits, moment) is Ok
            &&& archive::image_outcome(image, manifest, limits, moment)->Ok_0 == (usage, live)
        }),
{
}

/// An export is published only if it passes the verification that a backup has to pass, and its
/// manifest tells the position, the layout, the number of entries, the size and the SHA-256 of
/// what came.
pub proof fn law_published_exports_pass_verification(
    state: Download,
    origin: Origin,
    limits: Limits,
    moment: Moment,
)
    requires
        client::finish_fault(state, origin, limits, moment) is None,
    ensures
        ({
            let image = client::exported_image(state);
            let manifest = client::exported_manifest(state, origin, limits);
            &&& archive::image_outcome(image, manifest, limits, moment) is Ok
            &&& manifest.cursor == state.cursor && manifest.layout == state.layout
            &&& manifest.entries == state.entries
            &&& manifest.snapshot_bytes == image.len()
            &&& manifest.snapshot_sha256 == digest::hex(digest::sha256_of(image))
            &&& manifest.source_sha == origin.source_sha && manifest.sider_version
                == origin.version
            &&& image.len() <= MAX_BACKUP_BYTES
        }),
{
}

/// What is taken for a backup are values in the order of their keys, within the budget; the log
/// grows by the record that each frame carries.
pub proof fn law_downloads_keep_order_and_budget(
    state: Download,
    frame: Seq<u8>,
    message: MessageModel,
    limits: Limits,
    moment: Moment,
)
    requires
        client::downloaded(state, frame, message, limits, moment) is Ok,
    ensures
        ({
            let next = client::downloaded(state, frame, message, limits, moment)->Ok_0;
            &&& message matches MessageModel::SnapshotEntry(entry) && entry is Put
                && record::follows(state.previous, entry.key()) && next.previous == Some(
                entry.key(),
            )
            &&& next.taken == state.taken + 1
            &&& next.bytes == state.bytes + frame.len() && next.bytes <= limits.max_snapshot_bytes
            &&& next.image == state.image + frame.skip(24)
            &&& next.cursor == state.cursor && next.layout == state.layout && next.entries
                == state.entries
        }),
{
    reveal(client::downloaded);
}

} // verus!
