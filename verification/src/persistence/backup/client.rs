//! What the receiving side of an export decides: it takes one snapshot from the
//! inner listener and follows nothing afterwards.

use super::archive::validate_image;
use super::digest::{checksums, hash_image, require_hex};
use super::limits::{usage_error, Error, Limits, MAX_BACKUP_BYTES};
use super::manifest::{Manifest, ManifestModel};
use crate::buffer::{append, as_slice, from_vec, same_bytes};
use crate::codec::snapshot_digest;
use crate::error::ConfigError;
use crate::ordered::{position, Position};
use crate::persistence::format::{
    write_header_with_layout, FormatError, Record, RecordModel, VERSION,
};
use crate::persistence::layout::DurableLayout;
use crate::persistence::record::encode;
use crate::persistence::usage::Quotas;
use crate::replication::cursor::{Cursor, CursorModel};
use crate::replication::protocol::{Hello, HelloModel, Message, MessageModel, HEADER_BYTES};
use crate::settings::{Address, NativeModel, NativeText};
use crate::storage::model::Moment;
use crate::storage::mutation::{Mutation, MutationModel};
use bytes::Bytes;
use crate::buffer;
use crate::codec;
use crate::ordered;
use crate::persistence::backup::archive;
use crate::persistence::backup::digest;
use crate::persistence::backup::limits;
use crate::persistence::backup::manifest;
use crate::persistence::layout;
use crate::persistence::record;
use crate::persistence::usage;
use crate::persistence::writer;
use crate::replication::protocol;
use crate::replication::session;
use vstd::prelude::*;
use vstd::utf8::*;

verus! {

#[derive(Clone, Debug)]
pub struct ExportOptions {
    pub source: Address,
    pub destination: NativeText,
    pub source_sha: Bytes,
    pub limits: Limits,
}

/// The options by content.
#[verifier::ext_equal]
pub struct ExportModel {
    pub source: Address,
    pub destination: NativeModel,
    pub source_sha: Seq<u8>,
    pub limits: Limits,
}

/// What is wrong with the options of an export.
pub open spec fn export_fault(options: ExportModel, counted: bool) -> Option<Error> {
    if !options.limits.is_valid(counted) {
        Some(Error::Invalid("backup limits"))
    } else if !digest::is_hex(options.source_sha, 40) {
        Some(Error::Invalid("hash ou identidade hexadecimal"))
    } else if options.source.port == 0 {
        Some(Error::Invalid("porta de origem precisa ser explícita"))
    } else {
        None
    }
}

impl ExportOptions {
    pub open spec fn model(&self) -> ExportModel {
        ExportModel {
            source: self.source,
            destination: self.destination.model(),
            source_sha: buffer::bytes_content(self.source_sha),
            limits: self.limits,
        }
    }

    pub fn validate(&self, counted: bool) -> (result: Result<(), Error>)
        ensures
            result == match export_fault(self.model(), counted) {
                None => Ok::<(), Error>(()),
                Some(error) => Err(error),
            },
    {
        match self.limits.check(counted) {
            Err(error) => return Err(error),
            Ok(_) => {},
        }
        match require_hex(as_slice(&self.source_sha), 40) {
            Err(error) => return Err(error),
            Ok(_) => {},
        }
        if self.source.port == 0 {
            return Err(Error::Invalid("porta de origem precisa ser explícita"));
        }
        Ok(())
    }
}

/// What asks for an export.
pub fn request(limits: Limits, version: &Bytes) -> (message: Message)
    requires
        limits.is_valid(true),
    ensures
        message.model() == (MessageModel::Export {
            sider_version: buffer::bytes_content(*version),
            max_record_bytes: limits.max_record_bytes as u32,
            max_snapshot_bytes: limits.max_snapshot_bytes,
        }),
        message.wf(),
{
    Message::Export {
        sider_version: version.clone(),
        max_record_bytes: limits.max_record_bytes as u32,
        max_snapshot_bytes: limits.max_snapshot_bytes,
    }
}

/// The layout that a source announces.
pub open spec fn layout_of(hello: HelloModel) -> DurableLayout {
    DurableLayout { shard_count: hello.shard_count, routing_version: hello.routing_version }
}

/// What is wrong with the first answer of a source.
pub open spec fn greeting_fault(message: MessageModel, limits: Limits, version: Seq<u8>) -> Option<
    Error,
> {
    match message {
        MessageModel::Hello(hello) => if hello.sider_version != version || hello.record_version
            != VERSION || hello.max_record_bytes > limits.max_record_bytes || hello.max_mutations
            > limits.max_mutations || hello.max_snapshot_bytes > limits.max_snapshot_bytes {
            Some(Error::Invalid("versão ou capacidade incompatível com a origem"))
        } else if layout::layout_fault(layout_of(hello)) is Some {
            Some(
                Error::Configuration(
                    ConfigError::InvalidServerLimits {
                        reason: layout::layout_fault(layout_of(hello))->Some_0,
                    },
                ),
            )
        } else {
            None
        },
        _ => Some(Error::Invalid("origem recusou exportação ou não enviou Hello")),
    }
}

/// Takes the first answer of a source.
pub fn greet(message: Message, limits: Limits, version: &[u8]) -> (result: Result<Hello, Error>)
    ensures
        match (result, greeting_fault(message.model(), limits, version@)) {
            (Ok(hello), None) => message.model() == MessageModel::Hello(hello.model()),
            (Err(error), Some(fault)) => error == fault,
            _ => false,
        },
{
    let hello = match message {
        Message::Hello(hello) => hello,
        _ => return Err(Error::Invalid("origem recusou exportação ou não enviou Hello")),
    };
    if !same_bytes(as_slice(&hello.sider_version), version) || hello.record_version != VERSION
        || hello.max_record_bytes as usize > limits.max_record_bytes || hello.max_mutations as usize
        > limits.max_mutations || hello.max_snapshot_bytes > limits.max_snapshot_bytes {
        return Err(Error::Invalid("versão ou capacidade incompatível com a origem"));
    }
    let layout = DurableLayout {
        shard_count: hello.shard_count,
        routing_version: hello.routing_version,
    };
    match layout.validate() {
        Err(error) => Err(Error::Configuration(error)),
        Ok(_) => Ok(hello),
    }
}

/// A snapshot on its way, by content.
#[verifier::ext_equal]
pub struct Download {
    pub cursor: CursorModel,
    pub layout: DurableLayout,
    pub entries: u64,
    /// How many entries have come.
    pub taken: nat,
    /// The log so far.
    pub image: Seq<u8>,
    pub previous: Option<Seq<u8>>,
    /// The bytes of the frames so far.
    pub bytes: nat,
    pub digest: u32,
    pub record_digest: u32,
    pub usage: Seq<usize>,
    pub live: nat,
}

/// A snapshot of which nothing has come yet.
pub open spec fn nothing_yet(cursor: CursorModel, entries: u64, layout: DurableLayout) -> Download {
    Download {
        cursor,
        layout,
        entries,
        taken: 0,
        image: crate::persistence::format::layout_header(cursor.sequence, layout),
        previous: None,
        bytes: 0,
        digest: 0,
        record_digest: 0,
        usage: usage::nothing_used(layout.shard_count as nat),
        live: 0,
    }
}

/// How a snapshot begins.
pub open spec fn started(hello: HelloModel, message: MessageModel, limits: Limits) -> Result<
    Download,
    Error,
> {
    match message {
        MessageModel::FullStart { cursor, entries } => if hello.cursor != Some(cursor) || entries
            > limits.max_snapshot_bytes / 36 {
            Err(Error::Invalid("cursor ou quantidade de entradas incompatível"))
        } else {
            match archive::sharing_fault(layout_of(hello), limits.max_dataset_bytes) {
                Some(error) => Err(error),
                None => Ok(nothing_yet(cursor, entries, layout_of(hello))),
            }
        },
        _ => Err(Error::Invalid("FullStart ausente")),
    }
}

/// What one more message leads to.
#[verifier::opaque]
pub open spec fn downloaded(
    state: Download,
    frame: Seq<u8>,
    message: MessageModel,
    limits: Limits,
    moment: Moment,
) -> Result<Download, Error> {
    match message {
        MessageModel::SnapshotEntry(mutation) => if mutation is Delete {
            Err(Error::Invalid("snapshot incompleto ou mensagem inesperada"))
        } else if !record::follows(state.previous, mutation.key()) {
            Err(Error::Invalid("snapshot fora de ordem ou com chave duplicada"))
        } else if state.bytes + frame.len() > limits.max_snapshot_bytes {
            Err(Error::Invalid("snapshot excede orçamento de transferência"))
        } else {
            match usage::used_more(
                state.usage,
                mutation,
                limits.max_dataset_bytes as int,
                moment,
            ) {
                Err(error) => Err(limits::usage_failure(error)),
                Ok(usage) => Ok(
                    Download {
                        taken: state.taken + 1,
                        image: state.image + frame.skip(HEADER_BYTES as int),
                        previous: Some(mutation.key()),
                        bytes: state.bytes + frame.len(),
                        digest: codec::crc32_after(state.digest, frame),
                        record_digest: codec::crc32_after(
                            state.record_digest,
                            frame.skip(HEADER_BYTES as int),
                        ),
                        usage,
                        live: state.live + archive::one_if_there(mutation, moment),
                        ..state
                    },
                ),
            }
        },
        _ => Err(Error::Invalid("snapshot incompleto ou mensagem inesperada")),
    }
}

/// Refuses bytes behind the end: what is read there has to be nothing.
pub fn closed(read: usize) -> (result: Result<(), Error>)
    ensures
        result == if read == 0 {
            Ok::<(), Error>(())
        } else {
            Err(Error::Invalid("dados depois do FullEnd"))
        },
{
    if read != 0 {
        return Err(Error::Invalid("dados depois do FullEnd"));
    }
    Ok(())
}

/// A backup that is ready to be published.
#[derive(Debug)]
pub struct Export {
    pub manifest: Manifest,
    /// The text of the manifest.
    pub text: Vec<u8>,
    /// The sums of the manifest and of the snapshot.
    pub sums: Vec<u8>,
    pub image: Vec<u8>,
}

/// What the operator and the source say of an export.
#[verifier::ext_equal]
pub struct Origin {
    pub version: Seq<u8>,
    pub source_sha: Seq<u8>,
    pub hello: HelloModel,
    pub received_at_unix_ms: i64,
}

/// The whole log of a snapshot that has come.
pub open spec fn exported_image(state: Download) -> Seq<u8> {
    state.image + record::record_wire(exported_seal(state))
}

pub open spec fn exported_seal(state: Download) -> RecordModel {
    RecordModel::Seal {
        sequence: state.cursor.sequence,
        entries: state.entries,
        digest: state.record_digest,
    }
}

/// The manifest of a snapshot that has come.
pub open spec fn exported_manifest(state: Download, origin: Origin, limits: Limits) -> ManifestModel {
    let image = exported_image(state);
    ManifestModel {
        sider_version: origin.version,
        source_sha: origin.source_sha,
        cursor: state.cursor,
        layout: state.layout,
        source_max_record_bytes: origin.hello.max_record_bytes,
        source_max_mutations: origin.hello.max_mutations,
        source_max_snapshot_bytes: origin.hello.max_snapshot_bytes,
        validation_max_dataset_bytes: limits.max_dataset_bytes as u64,
        entries: state.entries,
        snapshot_bytes: image.len() as u64,
        snapshot_sha256: digest::hex(digest::sha256_of(image)),
        transport_digest: state.digest,
        received_at_unix_ms: origin.received_at_unix_ms,
    }
}

/// What stops a snapshot that has come from being published.
pub open spec fn finish_fault(state: Download, origin: Origin, limits: Limits, moment: Moment) -> Option<
    Error,
> {
    if !record::encodable(exported_seal(state), limits.records()) {
        Some(Error::Format(FormatError::Limit))
    } else if exported_image(state).len() > MAX_BACKUP_BYTES {
        Some(Error::Invalid("arquivo excede teto de backup"))
    } else {
        let manifest = exported_manifest(state, origin, limits);
        match manifest::manifest_fault(manifest, limits, true, origin.version) {
            Some(error) => Some(error),
            None => match archive::image_outcome(exported_image(state), manifest, limits, moment) {
                Err(error) => Some(error),
                Ok(_) => None,
            },
        }
    }
}

/// Takes a snapshot and makes a log of it.
pub struct Receiver {
    cursor: Cursor,
    layout: DurableLayout,
    entries: u64,
    taken: u64,
    image: Vec<u8>,
    previous: Option<Bytes>,
    bytes: u64,
    digest: u32,
    record_digest: u32,
    quotas: Quotas,
}

impl Receiver {
    pub closed spec fn state(&self) -> Download {
        Download {
            cursor: self.cursor.model(),
            layout: self.layout,
            entries: self.entries,
            taken: self.taken as nat,
            image: self.image@,
            previous: record::content_of(self.previous),
            bytes: self.bytes as nat,
            digest: self.digest,
            record_digest: self.record_digest,
            usage: self.quotas.used(),
            live: self.quotas.present() as nat,
        }
    }

    /// The total that the shards share is this one.
    pub closed spec fn wf(&self, limits: Limits) -> bool {
        &&& self.quotas.wf()
        &&& self.quotas.shared() == limits.max_dataset_bytes
        &&& self.quotas.present() <= self.taken <= self.entries
    }

    /// Takes the announcement of a snapshot.
    pub fn start(hello: &Hello, message: Message, limits: Limits) -> (result: Result<Self, Error>)
        ensures
            match (result, started(hello.model(), message.model(), limits)) {
                (Ok(receiver), Ok(state)) => receiver.state() == state && receiver.wf(limits),
                (Err(error), Err(fault)) => error == fault,
                _ => false,
            },
    {
        let (cursor, entries) = match message {
            Message::FullStart { cursor, entries } => (cursor, entries),
            _ => return Err(Error::Invalid("FullStart ausente")),
        };
        let expected = match &hello.cursor {
            Some(position) => position.same(&cursor),
            None => false,
        };
        if !expected || entries > limits.max_snapshot_bytes / 36 {
            return Err(Error::Invalid("cursor ou quantidade de entradas incompatível"));
        }
        let layout = DurableLayout {
            shard_count: hello.shard_count,
            routing_version: hello.routing_version,
        };
        let quotas = match Quotas::new(layout, limits.max_dataset_bytes) {
            Err(error) => return Err(Error::Configuration(error)),
            Ok(quotas) => quotas,
        };
        let mut image: Vec<u8> = Vec::new();
        write_header_with_layout(&mut image, cursor.sequence, layout);
        let receiver = Receiver {
            cursor,
            layout,
            entries,
            taken: 0,
            image,
            previous: None,
            bytes: 0,
            digest: 0,
            record_digest: 0,
            quotas,
        };
        assert(receiver.state() =~= nothing_yet(cursor.model(), entries, layout));
        Ok(receiver)
    }

    /// Whether entries are still to come.
    pub fn wants_more(&self) -> (result: bool)
        ensures
            result == (self.state().taken < self.state().entries),
    {
        self.taken < self.entries
    }

    /// Takes one message with its frame where entries are still to come.
    pub fn accept(&mut self, frame: &[u8], message: Message, limits: Limits, moment: Moment) -> (result:
        Result<(), Error>)
        requires
            limits.is_valid(true),
            old(self).wf(limits),
            old(self).state().taken < old(self).state().entries,
            frame@.len() >= HEADER_BYTES,
            message.wf(),
        ensures
            match (
                result,
                downloaded(old(self).state(), frame@, message.model(), limits, moment),
            ) {
                (Ok(_), Ok(state)) => final(self).state() == state && final(self).wf(limits),
                (Err(error), Err(fault)) => error == fault,
                _ => false,
            },
    {
        reveal(downloaded);
        let ghost before = self.state();
        let mutation = match message {
            Message::SnapshotEntry(mutation) => mutation,
            _ => return Err(Error::Invalid("snapshot incompleto ou mensagem inesperada")),
        };
        let key = match &mutation {
            Mutation::Delete { .. } => return Err(
                Error::Invalid("snapshot incompleto ou mensagem inesperada"),
            ),
            Mutation::Put { key, .. } => key.clone(),
        };
        match &self.previous {
            None => {},
            Some(previous) => {
                proof {
                    ordered::lemma_precedes_total(
                        buffer::bytes_content(*previous),
                        mutation.model().key(),
                    );
                    ordered::lemma_precedes_irreflexive(mutation.model().key());
                }
                match position(as_slice(previous), as_slice(&key)) {
                    Position::Before => {},
                    _ => return Err(
                        Error::Invalid("snapshot fora de ordem ou com chave duplicada"),
                    ),
                }
            },
        }
        let size: u64 = frame.len() as u64;
        if size > limits.max_snapshot_bytes || self.bytes > limits.max_snapshot_bytes - size {
            return Err(Error::Invalid("snapshot excede orçamento de transferência"));
        }
        let mut entry: Vec<Mutation> = Vec::new();
        entry.push(mutation);
        match self.quotas.add(entry.as_slice(), moment) {
            Err(error) => return Err(usage_error(error)),
            Ok(_) => {},
        }
        let carried = vstd::slice::slice_subrange(frame, HEADER_BYTES, frame.len());
        assert(carried@ =~= frame@.skip(HEADER_BYTES as int));
        self.previous = Some(key);
        self.bytes = self.bytes + size;
        self.digest = snapshot_digest(self.digest, frame);
        self.record_digest = snapshot_digest(self.record_digest, carried);
        append(&mut self.image, carried);
        self.taken = self.taken + 1;
        Ok(())
    }

    /// Takes the end of a snapshot, which has to confirm what came.
    pub fn end(&self, message: Message) -> (result: Result<(), Error>)
        ensures
            result == if message.model() == (MessageModel::FullEnd {
                cursor: self.state().cursor,
                entries: self.state().entries,
                digest: self.state().digest,
            }) {
                Ok::<(), Error>(())
            } else {
                Err(Error::Invalid("cursor, contagem ou digest final divergente"))
            },
    {
        match message {
            Message::FullEnd { cursor, entries, digest } => if cursor.same(&self.cursor)
                && entries == self.entries && digest == self.digest {
                Ok(())
            } else {
                Err(Error::Invalid("cursor, contagem ou digest final divergente"))
            },
            _ => Err(Error::Invalid("cursor, contagem ou digest final divergente")),
        }
    }

    /// Seals the log, writes the manifest and reads both through. Whoever
    /// verifies the backup afterwards finds it whole, unless its manifest is
    /// longer than one may be.
    pub fn finish(
        self,
        version: &Bytes,
        source_sha: &Bytes,
        hello: &Hello,
        limits: Limits,
        received_at_unix_ms: i64,
        moment: Moment,
    ) -> (result: Result<Export, Error>)
        requires
            limits.is_valid(true),
            self.state().taken == self.state().entries,
            valid_utf8(buffer::bytes_content(*version)),
            valid_utf8(buffer::bytes_content(*source_sha)),
        ensures
            ({
                let origin = Origin {
                    version: buffer::bytes_content(*version),
                    source_sha: buffer::bytes_content(*source_sha),
                    hello: hello.model(),
                    received_at_unix_ms,
                };
                let manifest = exported_manifest(self.state(), origin, limits);
                match (result, finish_fault(self.state(), origin, limits, moment)) {
                    (Ok(export), None) => {
                        &&& export.manifest.model() == manifest
                        &&& export.image@ == exported_image(self.state())
                        &&& export.text@ == manifest::manifest_text(manifest)
                        &&& export.sums@ == digest::sums(export.text@, manifest.snapshot_sha256)
                        &&& export.text@.len() <= archive::MAX_MANIFEST_BYTES
                            ==> (archive::backup_outcome(
                            export.text@,
                            export.sums@,
                            export.image@,
                            manifest.layout,
                            limits,
                            true,
                            origin.version,
                            moment,
                        ) matches Ok((found, _, _)) && found == manifest)
                    },
                    (Err(error), Some(fault)) => error == fault,
                    _ => false,
                }
            }),
    {
        let ghost state = self.state();
        let ghost origin = Origin {
            version: buffer::bytes_content(*version),
            source_sha: buffer::bytes_content(*source_sha),
            hello: hello.model(),
            received_at_unix_ms,
        };
        let seal = Record::Seal {
            sequence: self.cursor.sequence,
            entries: self.entries,
            digest: self.record_digest,
        };
        let sealed = match encode(&seal, limits.record()) {
            Err(error) => return Err(Error::Format(error)),
            Ok(sealed) => sealed,
        };
        let mut image = self.image;
        append(&mut image, sealed.as_slice());
        let (sum, snapshot_bytes) = match hash_image(image.as_slice()) {
            Err(error) => return Err(error),
            Ok(found) => found,
        };
        proof {
            digest::law_hexadecimal_is_read_back(digest::sha256_of(image@));
            assert forall|i: int| 0 <= i < sum@.len() implies #[trigger] sum@[i] < 128 by {
                assert(digest::is_hex_digit(sum@[i]));
            }
            manifest::lemma_ascii_valid(sum@);
        }
        let manifest = Manifest {
            sider_version: version.clone(),
            source_sha: source_sha.clone(),
            cursor: self.cursor,
            layout: self.layout,
            source_max_record_bytes: hello.max_record_bytes,
            source_max_mutations: hello.max_mutations,
            source_max_snapshot_bytes: hello.max_snapshot_bytes,
            validation_max_dataset_bytes: limits.max_dataset_bytes as u64,
            entries: self.entries,
            snapshot_bytes,
            snapshot_sha256: from_vec(sum),
            transport_digest: self.digest,
            received_at_unix_ms,
        };
        assert(manifest.model() =~= exported_manifest(state, origin, limits));
        match manifest.validate(limits, true, as_slice(version)) {
            Err(error) => return Err(error),
            Ok(_) => {},
        }
        match validate_image(image.as_slice(), &manifest, limits, moment) {
            Err(error) => return Err(error),
            Ok(_) => {},
        }
        let text = manifest.text();
        let sums = checksums(text.as_slice(), as_slice(&manifest.snapshot_sha256));
        Ok(Export { manifest, text, sums, image })
    }
}

/// What has come after some entries, each as it was sent.
pub open spec fn downloaded_all(
    state: Download,
    mutations: Seq<MutationModel>,
    limits: Limits,
    moment: Moment,
) -> Result<Download, Error>
    decreases mutations.len(),
{
    if mutations.len() == 0 {
        Ok(state)
    } else {
        match downloaded_all(state, mutations.drop_last(), limits, moment) {
            Err(error) => Err(error),
            Ok(before) => {
                let message = MessageModel::SnapshotEntry(mutations.last());
                downloaded(before, protocol::frame_wire(message), message, limits, moment)
            },
        }
    }
}

/// A snapshot that has come whole is the log that starts with its entries, and
/// its digest is that of the frames.
pub proof fn law_exports_are_logs_of_their_entries(
    cursor: CursorModel,
    layout: DurableLayout,
    mutations: Seq<MutationModel>,
    limits: Limits,
    moment: Moment,
)
    requires
        mutations.len() <= u64::MAX,
        downloaded_all(
            nothing_yet(cursor, mutations.len() as u64, layout),
            mutations,
            limits,
            moment,
        ) is Ok,
    ensures
        ({
            let state = downloaded_all(
                nothing_yet(cursor, mutations.len() as u64, layout),
                mutations,
                limits,
                moment,
            )->Ok_0;
            &&& state.taken == state.entries
            &&& exported_image(state) == writer::snapshot_log(mutations, cursor.sequence, layout)
            &&& state.digest == writer::digest_of(session::entry_frames(mutations))
        }),
{
    let start = nothing_yet(cursor, mutations.len() as u64, layout);
    lemma_downloaded(start, mutations, limits, moment);
    let state = downloaded_all(start, mutations, limits, moment)->Ok_0;
    assert(exported_seal(state) == writer::seal_of(mutations, cursor.sequence));
    assert(exported_image(state) =~= writer::snapshot_log(mutations, cursor.sequence, layout));
}

proof fn lemma_downloaded(
    start: Download,
    mutations: Seq<MutationModel>,
    limits: Limits,
    moment: Moment,
)
    requires
        start.taken == 0,
        start.digest == 0,
        start.record_digest == 0,
        downloaded_all(start, mutations, limits, moment) is Ok,
    ensures
        ({
            let state = downloaded_all(start, mutations, limits, moment)->Ok_0;
            &&& state.cursor == start.cursor
            &&& state.layout == start.layout
            &&& state.entries == start.entries
            &&& state.taken == mutations.len()
            &&& state.image == start.image + codec::joined(writer::snapshot_wires(mutations))
            &&& state.digest == writer::digest_of(session::entry_frames(mutations))
            &&& state.record_digest == writer::digest_of(writer::snapshot_wires(mutations))
        }),
    decreases mutations.len(),
{
    reveal(downloaded);
    let wires = writer::snapshot_wires(mutations);
    let frames = session::entry_frames(mutations);
    if mutations.len() == 0 {
        assert(wires =~= Seq::empty());
        assert(frames =~= Seq::empty());
        assert(start.image + codec::joined(wires) =~= start.image);
    } else {
        let front = mutations.drop_last();
        lemma_downloaded(start, front, limits, moment);
        let before = downloaded_all(start, front, limits, moment)->Ok_0;
        let message = MessageModel::SnapshotEntry(mutations.last());
        let frame = protocol::frame_wire(message);
        let carried = record::record_wire(RecordModel::Snapshot(mutations.last()));
        assert(wires.drop_last() =~= writer::snapshot_wires(front));
        assert(frames.drop_last() =~= session::entry_frames(front));
        assert(wires.last() == carried);
        assert(frames.last() == frame);
        assert(protocol::payload(message) == carried);
        assert(frame.skip(HEADER_BYTES as int) =~= carried) by {
            lemma_frame_body(message);
        }
        let state = downloaded_all(start, mutations, limits, moment)->Ok_0;
        assert(state.image =~= start.image + codec::joined(wires));
    }
}

/// Behind its header a frame carries the payload.
proof fn lemma_frame_body(message: MessageModel)
    ensures
        protocol::frame_wire(message).skip(HEADER_BYTES as int) == protocol::payload(message),
{
    let body = protocol::payload(message);
    protocol::lemma_magic();
    codec::lemma_le_len(protocol::VERSION as nat, 2);
    codec::lemma_le_len(body.len(), 4);
    codec::lemma_le_len((0xffff_ffff - body.len()) as nat, 4);
    let start = protocol::head(protocol::kind_of(message), body.len());
    let sum = codec::crc32_after(codec::crc32(start), body);
    codec::lemma_le_len(sum as nat, 4);
    assert(start.len() == 20);
    assert(protocol::frame_wire(message).skip(24) =~= body);
}

} // verus!
