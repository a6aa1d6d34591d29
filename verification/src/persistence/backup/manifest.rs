//! The manifest of a backup and its JSON text.

use super::digest::{hex_text, read_hex, require_hex};
use super::json::{look, render, Leaf, LeafModel};
use super::limits::{Error, Limits, SNAPSHOT};
use crate::buffer::{append, as_slice, copy_from_slice, same_bytes};
use crate::error::ConfigError;
use crate::persistence::format::{LAYOUT_HEADER_BYTES, LAYOUT_VERSION, VERSION};
use crate::persistence::layout::DurableLayout;
use crate::replication::cursor::{Cursor, CursorModel};
use bytes::Bytes;
use crate::buffer;
use crate::persistence::backup::digest;
use crate::persistence::backup::json;
use crate::persistence::layout;
use crate::persistence::options;
use vstd::prelude::*;
use vstd::string::*;
use vstd::utf8::*;

verus! {

/// What a backup says of itself. Texts are in UTF-8.
#[derive(Clone, Debug, PartialEq, Eq)]
pub struct Manifest {
    pub sider_version: Bytes,
    /// What the operator declares; neither the connection nor the program tells.
    pub source_sha: Bytes,
    pub cursor: Cursor,
    pub layout: DurableLayout,
    pub source_max_record_bytes: u32,
    pub source_max_mutations: u32,
    pub source_max_snapshot_bytes: u64,
    pub validation_max_dataset_bytes: u64,
    pub entries: u64,
    pub snapshot_bytes: u64,
    pub snapshot_sha256: Bytes,
    pub transport_digest: u32,
    pub received_at_unix_ms: i64,
}

/// A manifest by content.
#[verifier::ext_equal]
pub struct ManifestModel {
    pub sider_version: Seq<u8>,
    pub source_sha: Seq<u8>,
    pub cursor: CursorModel,
    pub layout: DurableLayout,
    pub source_max_record_bytes: u32,
    pub source_max_mutations: u32,
    pub source_max_snapshot_bytes: u64,
    pub validation_max_dataset_bytes: u64,
    pub entries: u64,
    pub snapshot_bytes: u64,
    pub snapshot_sha256: Seq<u8>,
    pub transport_digest: u32,
    pub received_at_unix_ms: i64,
}

/// The values of a manifest's text, before they are checked.
#[derive(Debug)]
pub struct Document {
    /// The text as a whole.
    pub keys: Leaf,
    pub schema_version: Leaf,
    pub sider_version: Leaf,
    pub source_sha: Leaf,
    pub epoch: Leaf,
    pub sequence: Leaf,
    pub shard_count: Leaf,
    pub routing_version: Leaf,
    pub aof_header_version: Leaf,
    pub record_version: Leaf,
    pub max_record_bytes: Leaf,
    pub max_mutations: Leaf,
    pub max_snapshot_bytes: Leaf,
    pub max_dataset_bytes: Leaf,
    pub file: Leaf,
    pub bytes: Leaf,
    pub sha256: Leaf,
    pub entries: Leaf,
    pub transport_digest: Leaf,
    pub received_at: Leaf,
}

/// The values, by content.
#[verifier::ext_equal]
pub struct DocumentModel {
    pub keys: LeafModel,
    pub schema_version: LeafModel,
    pub sider_version: LeafModel,
    pub source_sha: LeafModel,
    pub epoch: LeafModel,
    pub sequence: LeafModel,
    pub shard_count: LeafModel,
    pub routing_version: LeafModel,
    pub aof_header_version: LeafModel,
    pub record_version: LeafModel,
    pub max_record_bytes: LeafModel,
    pub max_mutations: LeafModel,
    pub max_snapshot_bytes: LeafModel,
    pub max_dataset_bytes: LeafModel,
    pub file: LeafModel,
    pub bytes: LeafModel,
    pub sha256: LeafModel,
    pub entries: LeafModel,
    pub transport_digest: LeafModel,
    pub received_at: LeafModel,
}

impl Document {
    pub open spec fn model(&self) -> DocumentModel {
        DocumentModel {
            keys: self.keys.model(),
            schema_version: self.schema_version.model(),
            sider_version: self.sider_version.model(),
            source_sha: self.source_sha.model(),
            epoch: self.epoch.model(),
            sequence: self.sequence.model(),
            shard_count: self.shard_count.model(),
            routing_version: self.routing_version.model(),
            aof_header_version: self.aof_header_version.model(),
            record_version: self.record_version.model(),
            max_record_bytes: self.max_record_bytes.model(),
            max_mutations: self.max_mutations.model(),
            max_snapshot_bytes: self.max_snapshot_bytes.model(),
            max_dataset_bytes: self.max_dataset_bytes.model(),
            file: self.file.model(),
            bytes: self.bytes.model(),
            sha256: self.sha256.model(),
            entries: self.entries.model(),
            transport_digest: self.transport_digest.model(),
            received_at: self.received_at.model(),
        }
    }

    /// All texts are in UTF-8.
    pub open spec fn wf(&self) -> bool {
        &&& readable(self.sider_version.model())
        &&& readable(self.source_sha.model())
        &&& readable(self.sha256.model())
    }
}

/// Whether a value, if it is a text, is in UTF-8.
pub open spec fn readable(leaf: LeafModel) -> bool {
    leaf matches LeafModel::Text(text) ==> valid_utf8(text)
}

/// What stands at a place of a text.
pub open spec fn leaf_at(text: Seq<u8>, outer: &'static str, inner: Option<&'static str>) -> LeafModel {
    match json::json_at(text, Some(outer@), json::name_model(inner)) {
        Some(leaf) => leaf,
        None => LeafModel::Other,
    }
}

/// The values of a manifest's text, where the text is JSON.
pub open spec fn document_of(text: Seq<u8>) -> Option<DocumentModel> {
    match json::json_at(text, None, None) {
        None => None,
        Some(keys) => Some(
            DocumentModel {
                keys,
                schema_version: leaf_at(text, "schema_version", None),
                sider_version: leaf_at(text, "sider_version", None),
                source_sha: leaf_at(text, "source_sha_declared", None),
                epoch: leaf_at(text, "cursor", Some("epoch")),
                sequence: leaf_at(text, "cursor", Some("sequence")),
                shard_count: leaf_at(text, "layout", Some("shard_count")),
                routing_version: leaf_at(text, "layout", Some("routing_version")),
                aof_header_version: leaf_at(text, "aof_header_version", None),
                record_version: leaf_at(text, "record_version", None),
                max_record_bytes: leaf_at(text, "source_limits", Some("max_record_bytes")),
                max_mutations: leaf_at(text, "source_limits", Some("max_mutations")),
                max_snapshot_bytes: leaf_at(text, "source_limits", Some("max_snapshot_bytes")),
                max_dataset_bytes: leaf_at(text, "validation_max_dataset_bytes", None),
                file: leaf_at(text, "snapshot", Some("file")),
                bytes: leaf_at(text, "snapshot", Some("bytes")),
                sha256: leaf_at(text, "snapshot", Some("sha256")),
                entries: leaf_at(text, "snapshot", Some("entries")),
                transport_digest: leaf_at(text, "transport_digest_crc32", None),
                received_at: leaf_at(text, "received_at_unix_ms", None),
            },
        ),
    }
}

fn value_at(text: &[u8], outer: &'static str, inner: Option<&'static str>) -> (leaf: Leaf)
    ensures
        leaf.model() == leaf_at(text@, outer, inner),
        readable(leaf.model()),
{
    match look(text, Some(outer), inner) {
        Some(leaf) => leaf,
        None => Leaf::Other,
    }
}

/// Reads the values of a manifest's text.
pub fn read_document(text: &[u8]) -> (result: Option<Document>)
    ensures
        match (result, document_of(text@)) {
            (Some(document), Some(model)) => document.model() == model && document.wf(),
            (None, None) => true,
            _ => false,
        },
{
    let keys = match look(text, None, None) {
        None => return None,
        Some(keys) => keys,
    };
    Some(
        Document {
            keys,
            schema_version: value_at(text, "schema_version", None),
            sider_version: value_at(text, "sider_version", None),
            source_sha: value_at(text, "source_sha_declared", None),
            epoch: value_at(text, "cursor", Some("epoch")),
            sequence: value_at(text, "cursor", Some("sequence")),
            shard_count: value_at(text, "layout", Some("shard_count")),
            routing_version: value_at(text, "layout", Some("routing_version")),
            aof_header_version: value_at(text, "aof_header_version", None),
            record_version: value_at(text, "record_version", None),
            max_record_bytes: value_at(text, "source_limits", Some("max_record_bytes")),
            max_mutations: value_at(text, "source_limits", Some("max_mutations")),
            max_snapshot_bytes: value_at(text, "source_limits", Some("max_snapshot_bytes")),
            max_dataset_bytes: value_at(text, "validation_max_dataset_bytes", None),
            file: value_at(text, "snapshot", Some("file")),
            bytes: value_at(text, "snapshot", Some("bytes")),
            sha256: value_at(text, "snapshot", Some("sha256")),
            entries: value_at(text, "snapshot", Some("entries")),
            transport_digest: value_at(text, "transport_digest_crc32", None),
            received_at: value_at(text, "received_at_unix_ms", None),
        },
    )
}

/// The keys of a manifest.
pub open spec fn manifest_keys() -> Seq<&'static str> {
    seq![
        "schema_version",
        "sider_version",
        "source_sha_declared",
        "cursor",
        "layout",
        "aof_header_version",
        "record_version",
        "source_limits",
        "validation_max_dataset_bytes",
        "snapshot",
        "transport_digest_crc32",
        "received_at_unix_ms",
    ]
}

fn key_names() -> (names: Vec<&'static str>)
    ensures
        names@ == manifest_keys(),
{
    let mut names: Vec<&'static str> = Vec::new();
    names.push("schema_version");
    names.push("sider_version");
    names.push("source_sha_declared");
    names.push("cursor");
    names.push("layout");
    names.push("aof_header_version");
    names.push("record_version");
    names.push("source_limits");
    names.push("validation_max_dataset_bytes");
    names.push("snapshot");
    names.push("transport_digest_crc32");
    names.push("received_at_unix_ms");
    assert(names@ =~= manifest_keys());
    names
}

/// Whether an object has the keys of a manifest and no others.
pub open spec fn keys_hold(leaf: LeafModel) -> bool {
    match leaf {
        LeafModel::Keys(keys) => {
            &&& keys.len() == 12
            &&& forall|i: int|
                0 <= i < keys.len() ==> options::name_index(
                    manifest_keys(),
                    encode_utf8(#[trigger] keys[i]),
                ) is Some
        },
        _ => false,
    }
}

/// Whether a document is a manifest of this version.
pub open spec fn schema_holds(document: DocumentModel) -> bool {
    &&& keys_hold(document.keys)
    &&& signed_of(document.schema_version) == Some(1i64)
    &&& number_of(document.aof_header_version) == Some(LAYOUT_VERSION as u64)
    &&& number_of(document.record_version) == Some(VERSION as u64)
    &&& text_of(document.file) == Some(SNAPSHOT.spec_bytes())
}

pub open spec fn text_of(leaf: LeafModel) -> Option<Seq<u8>> {
    match leaf {
        LeafModel::Text(text) => Some(text),
        _ => None,
    }
}

pub open spec fn number_of(leaf: LeafModel) -> Option<u64> {
    match leaf {
        LeafModel::Number(unsigned, _) => unsigned,
        _ => None,
    }
}

pub open spec fn small_of(leaf: LeafModel) -> Option<u32> {
    match number_of(leaf) {
        Some(number) => if number <= u32::MAX {
            Some(number as u32)
        } else {
            None
        },
        None => None,
    }
}

pub open spec fn signed_of(leaf: LeafModel) -> Option<i64> {
    match leaf {
        LeafModel::Number(_, signed) => signed,
        _ => None,
    }
}

/// What stops a document from being read.
pub open spec fn document_fault(document: DocumentModel) -> Option<Error> {
    if !schema_holds(document) {
        Some(Error::Invalid("schema do manifesto"))
    } else if text_of(document.epoch) is None {
        Some(Error::Invalid("texto do manifesto"))
    } else if !digest::is_hex(text_of(document.epoch)->Some_0, 32) {
        Some(Error::Invalid("hash ou identidade hexadecimal"))
    } else if text_of(document.sider_version) is None || text_of(document.source_sha) is None {
        Some(Error::Invalid("texto do manifesto"))
    } else if number_of(document.sequence) is None || small_of(document.shard_count) is None
        || small_of(document.routing_version) is None || small_of(document.max_record_bytes) is None
        || small_of(document.max_mutations) is None || number_of(document.max_snapshot_bytes)
        is None || number_of(document.max_dataset_bytes) is None || number_of(document.entries)
        is None || number_of(document.bytes) is None {
        Some(Error::Invalid("inteiro do manifesto"))
    } else if text_of(document.sha256) is None {
        Some(Error::Invalid("texto do manifesto"))
    } else if small_of(document.transport_digest) is None {
        Some(Error::Invalid("inteiro do manifesto"))
    } else if signed_of(document.received_at) is None {
        Some(Error::Invalid("relógio do manifesto"))
    } else {
        None
    }
}

/// The manifest of a document.
pub open spec fn manifest_of(document: DocumentModel) -> ManifestModel {
    ManifestModel {
        sider_version: text_of(document.sider_version)->Some_0,
        source_sha: text_of(document.source_sha)->Some_0,
        cursor: CursorModel {
            epoch: digest::unhex(text_of(document.epoch)->Some_0),
            sequence: number_of(document.sequence)->Some_0,
        },
        layout: DurableLayout {
            shard_count: small_of(document.shard_count)->Some_0,
            routing_version: small_of(document.routing_version)->Some_0,
        },
        source_max_record_bytes: small_of(document.max_record_bytes)->Some_0,
        source_max_mutations: small_of(document.max_mutations)->Some_0,
        source_max_snapshot_bytes: number_of(document.max_snapshot_bytes)->Some_0,
        validation_max_dataset_bytes: number_of(document.max_dataset_bytes)->Some_0,
        entries: number_of(document.entries)->Some_0,
        snapshot_bytes: number_of(document.bytes)->Some_0,
        snapshot_sha256: text_of(document.sha256)->Some_0,
        transport_digest: small_of(document.transport_digest)->Some_0,
        received_at_unix_ms: signed_of(document.received_at)->Some_0,
    }
}

/// What is wrong with what a manifest says, for a program of this version.
pub open spec fn manifest_fault(
    manifest: ManifestModel,
    limits: Limits,
    counted: bool,
    version: Seq<u8>,
) -> Option<Error> {
    if !limits.is_valid(counted) {
        Some(Error::Invalid("backup limits"))
    } else if !digest::is_hex(manifest.source_sha, 40) || !digest::is_hex(
        manifest.snapshot_sha256,
        64,
    ) {
        Some(Error::Invalid("hash ou identidade hexadecimal"))
    } else if layout::layout_fault(manifest.layout) is Some {
        Some(
            Error::Configuration(
                ConfigError::InvalidServerLimits {
                    reason: layout::layout_fault(manifest.layout)->Some_0,
                },
            ),
        )
    } else if manifest.sider_version != version || manifest.source_max_record_bytes == 0
        || manifest.source_max_record_bytes > limits.max_record_bytes
        || manifest.source_max_mutations == 0 || manifest.source_max_mutations
        > limits.max_mutations || manifest.source_max_snapshot_bytes == 0
        || manifest.source_max_snapshot_bytes > limits.max_snapshot_bytes
        || manifest.snapshot_bytes < LAYOUT_HEADER_BYTES || manifest.snapshot_bytes
        > limits.max_snapshot_bytes || manifest.entries > manifest.snapshot_bytes / 12
        || manifest.validation_max_dataset_bytes == 0 || manifest.validation_max_dataset_bytes
        > isize::MAX {
        Some(Error::Invalid("versão ou limites do manifesto"))
    } else {
        None
    }
}

/// What reading a manifest leads to.
pub open spec fn manifest_outcome(
    text: Seq<u8>,
    limits: Limits,
    counted: bool,
    version: Seq<u8>,
) -> Result<ManifestModel, Error> {
    match document_of(text) {
        None => Err(Error::Manifest),
        Some(document) => if document_fault(document) is Some {
            Err(document_fault(document)->Some_0)
        } else {
            match manifest_fault(manifest_of(document), limits, counted, version) {
                Some(error) => Err(error),
                None => Ok(manifest_of(document)),
            }
        },
    }
}

/// The JSON value of a natural number.
pub open spec fn number_leaf(value: u64) -> LeafModel {
    LeafModel::Number(
        Some(value),
        if value <= i64::MAX {
            Some(value as i64)
        } else {
            None
        },
    )
}

/// The JSON value of a number with a sign.
pub open spec fn signed_leaf(value: i64) -> LeafModel {
    LeafModel::Number(
        if value >= 0 {
            Some(value as u64)
        } else {
            None
        },
        Some(value),
    )
}

/// The values of a manifest, each at its place.
pub open spec fn manifest_values(manifest: ManifestModel) -> Seq<
    (Seq<char>, Option<Seq<char>>, LeafModel),
> {
    seq![
        ("schema_version"@, None, number_leaf(1)),
        ("sider_version"@, None, LeafModel::Text(manifest.sider_version)),
        ("source_sha_declared"@, None, LeafModel::Text(manifest.source_sha)),
        ("cursor"@, Some("epoch"@), LeafModel::Text(digest::hex(manifest.cursor.epoch))),
        ("cursor"@, Some("sequence"@), number_leaf(manifest.cursor.sequence)),
        ("layout"@, Some("shard_count"@), number_leaf(manifest.layout.shard_count as u64)),
        ("layout"@, Some("routing_version"@), number_leaf(manifest.layout.routing_version as u64)),
        ("aof_header_version"@, None, number_leaf(LAYOUT_VERSION as u64)),
        ("record_version"@, None, number_leaf(VERSION as u64)),
        ("source_limits"@, Some("max_record_bytes"@), number_leaf(manifest.source_max_record_bytes as u64)),
        ("source_limits"@, Some("max_mutations"@), number_leaf(manifest.source_max_mutations as u64)),
        ("source_limits"@, Some("max_snapshot_bytes"@), number_leaf(manifest.source_max_snapshot_bytes)),
        ("validation_max_dataset_bytes"@, None, number_leaf(manifest.validation_max_dataset_bytes)),
        ("snapshot"@, Some("file"@), LeafModel::Text(SNAPSHOT.spec_bytes())),
        ("snapshot"@, Some("bytes"@), number_leaf(manifest.snapshot_bytes)),
        ("snapshot"@, Some("sha256"@), LeafModel::Text(manifest.snapshot_sha256)),
        ("snapshot"@, Some("entries"@), number_leaf(manifest.entries)),
        ("transport_digest_crc32"@, None, number_leaf(manifest.transport_digest as u64)),
        ("received_at_unix_ms"@, None, signed_leaf(manifest.received_at_unix_ms)),
    ]
}

/// The text of a manifest, which ends with a line feed.
pub open spec fn manifest_text(manifest: ManifestModel) -> Seq<u8> {
    json::json_text(manifest_values(manifest)).push(10)
}

/// The place of a value among those of a manifest.
spec fn place_of(outer: Seq<char>, inner: Option<Seq<char>>) -> int {
    if outer == "schema_version"@ && inner == None::<Seq<char>> {
        0
    } else if outer == "sider_version"@ && inner == None::<Seq<char>> {
        1
    } else if outer == "source_sha_declared"@ && inner == None::<Seq<char>> {
        2
    } else if outer == "cursor"@ && inner == Some("epoch"@) {
        3
    } else if outer == "cursor"@ && inner == Some("sequence"@) {
        4
    } else if outer == "layout"@ && inner == Some("shard_count"@) {
        5
    } else if outer == "layout"@ && inner == Some("routing_version"@) {
        6
    } else if outer == "aof_header_version"@ && inner == None::<Seq<char>> {
        7
    } else if outer == "record_version"@ && inner == None::<Seq<char>> {
        8
    } else if outer == "source_limits"@ && inner == Some("max_record_bytes"@) {
        9
    } else if outer == "source_limits"@ && inner == Some("max_mutations"@) {
        10
    } else if outer == "source_limits"@ && inner == Some("max_snapshot_bytes"@) {
        11
    } else if outer == "validation_max_dataset_bytes"@ && inner == None::<Seq<char>> {
        12
    } else if outer == "snapshot"@ && inner == Some("file"@) {
        13
    } else if outer == "snapshot"@ && inner == Some("bytes"@) {
        14
    } else if outer == "snapshot"@ && inner == Some("sha256"@) {
        15
    } else if outer == "snapshot"@ && inner == Some("entries"@) {
        16
    } else if outer == "transport_digest_crc32"@ && inner == None::<Seq<char>> {
        17
    } else if outer == "received_at_unix_ms"@ && inner == None::<Seq<char>> {
        18
    } else {
        19
    }
}

/// The place of a key among those of a manifest.
spec fn key_place(outer: Seq<char>) -> int {
    if outer == "schema_version"@ {
        0
    } else if outer == "sider_version"@ {
        1
    } else if outer == "source_sha_declared"@ {
        2
    } else if outer == "cursor"@ {
        3
    } else if outer == "layout"@ {
        4
    } else if outer == "aof_header_version"@ {
        5
    } else if outer == "record_version"@ {
        6
    } else if outer == "source_limits"@ {
        7
    } else if outer == "validation_max_dataset_bytes"@ {
        8
    } else if outer == "snapshot"@ {
        9
    } else if outer == "transport_digest_crc32"@ {
        10
    } else if outer == "received_at_unix_ms"@ {
        11
    } else {
        12
    }
}

/// Whether an object stands under a key.
spec fn nests(outer: Seq<char>) -> bool {
    outer == "cursor"@ || outer == "layout"@ || outer == "source_limits"@ || outer == "snapshot"@
}

/// The keys and the places of a manifest differ from each other.
proof fn lemma_places(manifest: ManifestModel)
    ensures
        manifest_values(manifest).len() == 19,
        forall|i: int|
            0 <= i < 19 ==> place_of(
                (#[trigger] manifest_values(manifest)[i]).0,
                manifest_values(manifest)[i].1,
            ) == i,
        forall|i: int|
            0 <= i < 19 ==> nests((#[trigger] manifest_values(manifest)[i]).0) == (
            manifest_values(manifest)[i].1 is Some),
        forall|i: int| 0 <= i < 12 ==> key_place((#[trigger] manifest_keys()[i])@) == i,
{
    reveal_strlit("schema_version");
    assert("schema_version"@.len() == 14);
    reveal_strlit("sider_version");
    assert("sider_version"@.len() == 13);
    reveal_strlit("source_sha_declared");
    assert("source_sha_declared"@.len() == 19);
    reveal_strlit("cursor");
    assert("cursor"@.len() == 6);
    reveal_strlit("layout");
    assert("layout"@.len() == 6);
    reveal_strlit("aof_header_version");
    assert("aof_header_version"@.len() == 18);
    reveal_strlit("record_version");
    assert("record_version"@.len() == 14);
    reveal_strlit("source_limits");
    assert("source_limits"@.len() == 13);
    reveal_strlit("validation_max_dataset_bytes");
    assert("validation_max_dataset_bytes"@.len() == 28);
    reveal_strlit("snapshot");
    assert("snapshot"@.len() == 8);
    reveal_strlit("transport_digest_crc32");
    assert("transport_digest_crc32"@.len() == 22);
    reveal_strlit("received_at_unix_ms");
    assert("received_at_unix_ms"@.len() == 19);
    reveal_strlit("bytes");
    assert("bytes"@.len() == 5);
    reveal_strlit("entries");
    assert("entries"@.len() == 7);
    reveal_strlit("epoch");
    assert("epoch"@.len() == 5);
    reveal_strlit("file");
    assert("file"@.len() == 4);
    reveal_strlit("max_mutations");
    assert("max_mutations"@.len() == 13);
    reveal_strlit("max_record_bytes");
    assert("max_record_bytes"@.len() == 16);
    reveal_strlit("max_snapshot_bytes");
    assert("max_snapshot_bytes"@.len() == 18);
    reveal_strlit("routing_version");
    assert("routing_version"@.len() == 15);
    reveal_strlit("sequence");
    assert("sequence"@.len() == 8);
    reveal_strlit("sha256");
    assert("sha256"@.len() == 6);
    reveal_strlit("shard_count");
    assert("shard_count"@.len() == 11);
    assert("layout"@[0] != "cursor"@[0]);
    assert("record_version"@[0] != "schema_version"@[0]);
    assert("source_limits"@[1] != "sider_version"@[1]);
    assert("received_at_unix_ms"@[0] != "source_sha_declared"@[0]);
    assert("epoch"@[0] != "bytes"@[0]);
    let values = manifest_values(manifest);
    assert(place_of(values[0].0, values[0].1) == 0);
    assert(place_of(values[1].0, values[1].1) == 1);
    assert(place_of(values[2].0, values[2].1) == 2);
    assert(place_of(values[3].0, values[3].1) == 3);
    assert(place_of(values[4].0, values[4].1) == 4);
    assert(place_of(values[5].0, values[5].1) == 5);
    assert(place_of(values[6].0, values[6].1) == 6);
    assert(place_of(values[7].0, values[7].1) == 7);
    assert(place_of(values[8].0, values[8].1) == 8);
    assert(place_of(values[9].0, values[9].1) == 9);
    assert(place_of(values[10].0, values[10].1) == 10);
    assert(place_of(values[11].0, values[11].1) == 11);
    assert(place_of(values[12].0, values[12].1) == 12);
    assert(place_of(values[13].0, values[13].1) == 13);
    assert(place_of(values[14].0, values[14].1) == 14);
    assert(place_of(values[15].0, values[15].1) == 15);
    assert(place_of(values[16].0, values[16].1) == 16);
    assert(place_of(values[17].0, values[17].1) == 17);
    assert(place_of(values[18].0, values[18].1) == 18);
    assert(key_place(manifest_keys()[0]@) == 0);
    assert(key_place(manifest_keys()[1]@) == 1);
    assert(key_place(manifest_keys()[2]@) == 2);
    assert(key_place(manifest_keys()[3]@) == 3);
    assert(key_place(manifest_keys()[4]@) == 4);
    assert(key_place(manifest_keys()[5]@) == 5);
    assert(key_place(manifest_keys()[6]@) == 6);
    assert(key_place(manifest_keys()[7]@) == 7);
    assert(key_place(manifest_keys()[8]@) == 8);
    assert(key_place(manifest_keys()[9]@) == 9);
    assert(key_place(manifest_keys()[10]@) == 10);
    assert(key_place(manifest_keys()[11]@) == 11);
}

/// The values of a manifest do not get in each other's way.
proof fn lemma_apart(manifest: ManifestModel, i: int, j: int)
    requires
        0 <= i < j < manifest_values(manifest).len(),
    ensures
        json::apart(manifest_values(manifest)[i], manifest_values(manifest)[j]),
{
    lemma_places(manifest);
    let values = manifest_values(manifest);
    assert(place_of(values[i].0, values[i].1) == i);
    assert(place_of(values[j].0, values[j].1) == j);
    assert(nests(values[i].0) == (values[i].1 is Some));
    assert(nests(values[j].0) == (values[j].1 is Some));
}

/// Text of visible bytes is in UTF-8.
pub proof fn lemma_ascii_valid(text: Seq<u8>)
    requires
        forall|i: int| 0 <= i < text.len() ==> #[trigger] text[i] < 128,
    ensures
        valid_utf8(text),
{
    let chars = Seq::new(text.len(), |i: int| text[i] as char);
    assert(is_ascii_chars(chars));
    is_ascii_chars_encode_utf8(chars);
    assert(encode_utf8(chars) =~= text);
    encode_utf8_valid_utf8(chars);
}

/// Every value of a manifest can be written.
proof fn lemma_writable(manifest: ManifestModel)
    requires
        valid_utf8(manifest.sider_version),
        valid_utf8(manifest.source_sha),
        valid_utf8(manifest.snapshot_sha256),
    ensures
        forall|i: int|
            0 <= i < manifest_values(manifest).len() ==> json::writable(
                (#[trigger] manifest_values(manifest)[i]).2,
            ),
{
    digest::law_hexadecimal_is_read_back(manifest.cursor.epoch);
    let epoch = digest::hex(manifest.cursor.epoch);
    assert forall|i: int| 0 <= i < epoch.len() implies #[trigger] epoch[i] < 128 by {
        assert(digest::is_hex_digit(epoch[i]));
    }
    lemma_ascii_valid(epoch);
    encode_utf8_valid_utf8(SNAPSHOT@);
}

proof fn lemma_known_name(names: Seq<&'static str>, name: Seq<u8>, index: int)
    requires
        0 <= index < names.len(),
        names[index].spec_bytes() == name,
    ensures
        options::name_index(names, name) is Some,
    decreases names.len(),
{
    if index < names.len() - 1 {
        lemma_known_name(names.drop_last(), name, index);
    }
}

/// An object with the values of a manifest has its keys and no others.
proof fn lemma_keys(manifest: ManifestModel, keys: Seq<Seq<char>>)
    requires
        keys.no_duplicates(),
        keys.to_set() == manifest_values(manifest).map_values(
            |value: (Seq<char>, Option<Seq<char>>, LeafModel)| value.0,
        ).to_set(),
    ensures
        keys_hold(LeafModel::Keys(keys)),
{
    lemma_places(manifest);
    let values = manifest_values(manifest);
    let outers = values.map_values(
        |value: (Seq<char>, Option<Seq<char>>, LeafModel)| value.0,
    );
    let names = manifest_keys().map_values(|name: &'static str| name@);
    assert(names.no_duplicates()) by {
        assert forall|i: int, j: int| 0 <= i < j < names.len() implies names[i] != names[j] by {
            assert(key_place(manifest_keys()[i]@) == i);
            assert(key_place(manifest_keys()[j]@) == j);
        }
    }
    // Each value stands under one of the keys, and each key has a value.
    assert(outers[0] == names[0]);
    assert(outers[1] == names[1]);
    assert(outers[2] == names[2]);
    assert(outers[3] == names[3]);
    assert(outers[4] == names[3]);
    assert(outers[5] == names[4]);
    assert(outers[6] == names[4]);
    assert(outers[7] == names[5]);
    assert(outers[8] == names[6]);
    assert(outers[9] == names[7]);
    assert(outers[10] == names[7]);
    assert(outers[11] == names[7]);
    assert(outers[12] == names[8]);
    assert(outers[13] == names[9]);
    assert(outers[14] == names[9]);
    assert(outers[15] == names[9]);
    assert(outers[16] == names[9]);
    assert(outers[17] == names[10]);
    assert(outers[18] == names[11]);
    assert forall|key: Seq<char>| outers.to_set().contains(key) implies names.to_set().contains(
        key,
    ) by {
        let i = choose|i: int| 0 <= i < outers.len() && outers[i] == key;
        assert(0 <= i < 19);
    }
    assert forall|key: Seq<char>| names.to_set().contains(key) implies outers.to_set().contains(
        key,
    ) by {
        let i = choose|i: int| 0 <= i < names.len() && names[i] == key;
        assert(0 <= i < 12);
    }
    assert(outers.to_set() =~= names.to_set());
    keys.unique_seq_to_set();
    names.unique_seq_to_set();
    assert forall|i: int| 0 <= i < keys.len() implies options::name_index(
        manifest_keys(),
        encode_utf8(#[trigger] keys[i]),
    ) is Some by {
        assert(keys.to_set().contains(keys[i]));
        assert(names.to_set().contains(keys[i]));
        let place = choose|place: int| 0 <= place < names.len() && names[place] == keys[i];
        lemma_known_name(manifest_keys(), encode_utf8(keys[i]), place);
    }
}

/// Whoever reads a text with the values of a manifest finds the manifest.
proof fn lemma_read_back(manifest: ManifestModel, text: Seq<u8>)
    requires
        json::holds(text, manifest_values(manifest)),
        manifest.cursor.epoch.len() == 16,
    ensures
        document_of(text) matches Some(document) && document_fault(document) is None
            && manifest_of(document) == manifest,
{
    let values = manifest_values(manifest);
    lemma_places(manifest);
    digest::law_hexadecimal_is_read_back(manifest.cursor.epoch);
    let keys = json::json_at(text, None, None)->Some_0->Keys_0;
    lemma_keys(manifest, keys);
    let document = document_of(text)->Some_0;
    assert(document.schema_version == values[0].2) by {
        assert(json::name_model(None) == values[0].1);
    }
    assert(document.sider_version == values[1].2) by {
        assert(json::name_model(None) == values[1].1);
    }
    assert(document.source_sha == values[2].2) by {
        assert(json::name_model(None) == values[2].1);
    }
    assert(document.epoch == values[3].2) by {
        assert(json::name_model(Some("epoch")) == values[3].1);
    }
    assert(document.sequence == values[4].2) by {
        assert(json::name_model(Some("sequence")) == values[4].1);
    }
    assert(document.shard_count == values[5].2) by {
        assert(json::name_model(Some("shard_count")) == values[5].1);
    }
    assert(document.routing_version == values[6].2) by {
        assert(json::name_model(Some("routing_version")) == values[6].1);
    }
    assert(document.aof_header_version == values[7].2) by {
        assert(json::name_model(None) == values[7].1);
    }
    assert(document.record_version == values[8].2) by {
        assert(json::name_model(None) == values[8].1);
    }
    assert(document.max_record_bytes == values[9].2) by {
        assert(json::name_model(Some("max_record_bytes")) == values[9].1);
    }
    assert(document.max_mutations == values[10].2) by {
        assert(json::name_model(Some("max_mutations")) == values[10].1);
    }
    assert(document.max_snapshot_bytes == values[11].2) by {
        assert(json::name_model(Some("max_snapshot_bytes")) == values[11].1);
    }
    assert(document.max_dataset_bytes == values[12].2) by {
        assert(json::name_model(None) == values[12].1);
    }
    assert(document.file == values[13].2) by {
        assert(json::name_model(Some("file")) == values[13].1);
    }
    assert(document.bytes == values[14].2) by {
        assert(json::name_model(Some("bytes")) == values[14].1);
    }
    assert(document.sha256 == values[15].2) by {
        assert(json::name_model(Some("sha256")) == values[15].1);
    }
    assert(document.entries == values[16].2) by {
        assert(json::name_model(Some("entries")) == values[16].1);
    }
    assert(document.transport_digest == values[17].2) by {
        assert(json::name_model(None) == values[17].1);
    }
    assert(document.received_at == values[18].2) by {
        assert(json::name_model(None) == values[18].1);
    }
    assert(manifest_of(document) =~= manifest);
}

/// Whether an object has the keys of a manifest and no others.
fn has_keys(leaf: &Leaf) -> (result: bool)
    ensures
        result == keys_hold(leaf.model()),
{
    let keys = match leaf {
        Leaf::Keys(keys) => keys,
        _ => return false,
    };
    let ghost models = keys@.map_values(|key: String| key@);
    if keys.len() != 12 {
        return false;
    }
    let names = key_names();
    let mut index: usize = 0;
    while index < keys.len()
        invariant
            names@ == manifest_keys(),
            leaf matches Leaf::Keys(found) && found == keys,
            models == keys@.map_values(|key: String| key@),
            index <= keys@.len(),
            forall|i: int|
                0 <= i < index ==> options::name_index(
                    manifest_keys(),
                    encode_utf8(#[trigger] models[i]),
                ) is Some,
        decreases keys@.len() - index,
    {
        assert(models[index as int] == keys@[index as int]@);
        if options::find_name(&names, keys[index].as_str().as_bytes()).is_none() {
            return false;
        }
        index += 1;
    }
    true
}

fn read_text(leaf: &Leaf) -> (result: Result<Bytes, Error>)
    ensures
        match (result, text_of(leaf.model())) {
            (Ok(text), Some(content)) => buffer::bytes_content(text) == content,
            (Err(error), None) => error == Error::Invalid("texto do manifesto"),
            _ => false,
        },
{
    match leaf {
        Leaf::Text(text) => Ok(copy_from_slice(text.as_slice())),
        _ => Err(Error::Invalid("texto do manifesto")),
    }
}

fn read_number(leaf: &Leaf) -> (result: Result<u64, Error>)
    ensures
        match number_of(leaf.model()) {
            Some(number) => result == Ok::<u64, Error>(number),
            None => result == Err::<u64, Error>(Error::Invalid("inteiro do manifesto")),
        },
{
    match leaf {
        Leaf::Number(Some(number), _) => Ok(*number),
        _ => Err(Error::Invalid("inteiro do manifesto")),
    }
}

fn read_small(leaf: &Leaf) -> (result: Result<u32, Error>)
    ensures
        match small_of(leaf.model()) {
            Some(number) => result == Ok::<u32, Error>(number),
            None => result == Err::<u32, Error>(Error::Invalid("inteiro do manifesto")),
        },
{
    match leaf {
        Leaf::Number(Some(number), _) => if *number <= u32::MAX as u64 {
            Ok(*number as u32)
        } else {
            Err(Error::Invalid("inteiro do manifesto"))
        },
        _ => Err(Error::Invalid("inteiro do manifesto")),
    }
}

fn has_schema(document: &Document) -> (result: bool)
    ensures
        result == schema_holds(document.model()),
{
    if !has_keys(&document.keys) {
        return false;
    }
    let schema = match &document.schema_version {
        Leaf::Number(_, Some(number)) => *number == 1,
        _ => false,
    };
    let header = match &document.aof_header_version {
        Leaf::Number(Some(number), _) => *number == LAYOUT_VERSION as u64,
        _ => false,
    };
    let record = match &document.record_version {
        Leaf::Number(Some(number), _) => *number == VERSION as u64,
        _ => false,
    };
    let file = match &document.file {
        Leaf::Text(text) => same_bytes(text.as_slice(), SNAPSHOT.as_bytes()),
        _ => false,
    };
    schema && header && record && file
}

impl Manifest {
    pub open spec fn model(&self) -> ManifestModel {
        ManifestModel {
            sider_version: buffer::bytes_content(self.sider_version),
            source_sha: buffer::bytes_content(self.source_sha),
            cursor: self.cursor.model(),
            layout: self.layout,
            source_max_record_bytes: self.source_max_record_bytes,
            source_max_mutations: self.source_max_mutations,
            source_max_snapshot_bytes: self.source_max_snapshot_bytes,
            validation_max_dataset_bytes: self.validation_max_dataset_bytes,
            entries: self.entries,
            snapshot_bytes: self.snapshot_bytes,
            snapshot_sha256: buffer::bytes_content(self.snapshot_sha256),
            transport_digest: self.transport_digest,
            received_at_unix_ms: self.received_at_unix_ms,
        }
    }

    /// All texts are in UTF-8.
    pub open spec fn wf(&self) -> bool {
        &&& valid_utf8(buffer::bytes_content(self.sider_version))
        &&& valid_utf8(buffer::bytes_content(self.source_sha))
        &&& valid_utf8(buffer::bytes_content(self.snapshot_sha256))
    }

    /// The manifest of a document whose values are what they have to be.
    pub fn from_document(document: &Document) -> (result: Result<Self, Error>)
        requires
            document.wf(),
        ensures
            match (result, document_fault(document.model())) {
                (Ok(manifest), None) => manifest.model() == manifest_of(document.model())
                    && manifest.wf(),
                (Err(error), Some(fault)) => error == fault,
                _ => false,
            },
    {
        if !has_schema(document) {
            return Err(Error::Invalid("schema do manifesto"));
        }
        let epoch = read_text(&document.epoch)?;
        match require_hex(as_slice(&epoch), 32) {
            Err(error) => return Err(error),
            Ok(_) => {},
        }
        let epoch: [u8; 16] = read_hex(as_slice(&epoch));
        let sider_version = read_text(&document.sider_version)?;
        let source_sha = read_text(&document.source_sha)?;
        let sequence: u64 = read_number(&document.sequence)?;
        let shard_count: u32 = read_small(&document.shard_count)?;
        let routing_version: u32 = read_small(&document.routing_version)?;
        let source_max_record_bytes: u32 = read_small(&document.max_record_bytes)?;
        let source_max_mutations: u32 = read_small(&document.max_mutations)?;
        let source_max_snapshot_bytes: u64 = read_number(&document.max_snapshot_bytes)?;
        let validation_max_dataset_bytes: u64 = read_number(&document.max_dataset_bytes)?;
        let entries: u64 = read_number(&document.entries)?;
        let snapshot_bytes: u64 = read_number(&document.bytes)?;
        let snapshot_sha256 = read_text(&document.sha256)?;
        let transport_digest: u32 = read_small(&document.transport_digest)?;
        let received_at_unix_ms: i64 = match &document.received_at {
            Leaf::Number(_, Some(number)) => *number,
            _ => return Err(Error::Invalid("relógio do manifesto")),
        };
        Ok(
            Manifest {
                sider_version,
                source_sha,
                cursor: Cursor { epoch, sequence },
                layout: DurableLayout { shard_count, routing_version },
                source_max_record_bytes,
                source_max_mutations,
                source_max_snapshot_bytes,
                validation_max_dataset_bytes,
                entries,
                snapshot_bytes,
                snapshot_sha256,
                transport_digest,
                received_at_unix_ms,
            },
        )
    }

    /// Reads a manifest and checks what it says.
    pub fn parse(text: &[u8], limits: Limits, counted: bool, version: &[u8]) -> (result: Result<
        Self,
        Error,
    >)
        ensures
            match (result, manifest_outcome(text@, limits, counted, version@)) {
                (Ok(manifest), Ok(model)) => manifest.model() == model && manifest.wf(),
                (Err(error), Err(fault)) => error == fault,
                _ => false,
            },
    {
        let document = match read_document(text) {
            None => return Err(Error::Manifest),
            Some(document) => document,
        };
        let manifest = match Self::from_document(&document) {
            Err(error) => return Err(error),
            Ok(manifest) => manifest,
        };
        match manifest.validate(limits, counted, version) {
            Err(error) => Err(error),
            Ok(_) => Ok(manifest),
        }
    }

    pub fn validate(&self, limits: Limits, counted: bool, version: &[u8]) -> (result: Result<
        (),
        Error,
    >)
        ensures
            result == match manifest_fault(self.model(), limits, counted, version@) {
                None => Ok::<(), Error>(()),
                Some(error) => Err(error),
            },
    {
        match limits.check(counted) {
            Err(error) => return Err(error),
            Ok(_) => {},
        }
        match require_hex(as_slice(&self.source_sha), 40) {
            Err(error) => return Err(error),
            Ok(_) => {},
        }
        match require_hex(as_slice(&self.snapshot_sha256), 64) {
            Err(error) => return Err(error),
            Ok(_) => {},
        }
        match self.layout.validate() {
            Err(error) => return Err(Error::Configuration(error)),
            Ok(_) => {},
        }
        if !same_bytes(as_slice(&self.sider_version), version) || self.source_max_record_bytes == 0
            || self.source_max_record_bytes as usize > limits.max_record_bytes
            || self.source_max_mutations == 0 || self.source_max_mutations as usize
            > limits.max_mutations || self.source_max_snapshot_bytes == 0
            || self.source_max_snapshot_bytes > limits.max_snapshot_bytes || self.snapshot_bytes
            < LAYOUT_HEADER_BYTES as u64 || self.snapshot_bytes > limits.max_snapshot_bytes
            || self.entries > self.snapshot_bytes / 12 || self.validation_max_dataset_bytes == 0
            || self.validation_max_dataset_bytes > isize::MAX as u64 {
            return Err(Error::Invalid("versão ou limites do manifesto"));
        }
        Ok(())
    }

    /// The JSON text. Reading it gives the manifest back.
    pub fn text(&self) -> (text: Vec<u8>)
        requires
            self.wf(),
        ensures
            text@ == manifest_text(self.model()),
            document_of(text@) matches Some(document) && document_fault(document) is None
                && manifest_of(document) == self.model(),
    {
        let ghost manifest = self.model();
        let mut values: Vec<(&'static str, Option<&'static str>, Leaf)> = Vec::new();
        values.push(("schema_version", None, number(1)));
        values.push(("sider_version", None, text(&self.sider_version)));
        values.push(("source_sha_declared", None, text(&self.source_sha)));
        values.push(("cursor", Some("epoch"), Leaf::Text(hex_text(self.cursor.epoch.as_slice()))));
        values.push(("cursor", Some("sequence"), number(self.cursor.sequence)));
        values.push(("layout", Some("shard_count"), number(self.layout.shard_count as u64)));
        values.push(("layout", Some("routing_version"), number(self.layout.routing_version as u64)));
        values.push(("aof_header_version", None, number(LAYOUT_VERSION as u64)));
        values.push(("record_version", None, number(VERSION as u64)));
        values.push(("source_limits", Some("max_record_bytes"), number(self.source_max_record_bytes as u64)));
        values.push(("source_limits", Some("max_mutations"), number(self.source_max_mutations as u64)));
        values.push(("source_limits", Some("max_snapshot_bytes"), number(self.source_max_snapshot_bytes)));
        values.push(("validation_max_dataset_bytes", None, number(self.validation_max_dataset_bytes)));
        values.push(("snapshot", Some("file"), Leaf::Text(SNAPSHOT.as_bytes_vec())));
        values.push(("snapshot", Some("bytes"), number(self.snapshot_bytes)));
        values.push(("snapshot", Some("sha256"), text(&self.snapshot_sha256)));
        values.push(("snapshot", Some("entries"), number(self.entries)));
        values.push(("transport_digest_crc32", None, number(self.transport_digest as u64)));
        values.push(("received_at_unix_ms", None, signed(self.received_at_unix_ms)));
        proof {
            assert(json::value_models(values@) =~= manifest_values(manifest));
            lemma_places(manifest);
            lemma_writable(manifest);
            assert forall|i: int, j: int| 0 <= i < j < values@.len() implies json::apart(
                #[trigger] json::value_models(values@)[i],
                #[trigger] json::value_models(values@)[j],
            ) by {
                lemma_apart(manifest, i, j);
            }
        }
        let mut text = render(&values);
        text.push(10);
        proof {
            lemma_read_back(manifest, text@);
        }
        text
    }
}

fn text(content: &Bytes) -> (leaf: Leaf)
    ensures
        leaf.model() == LeafModel::Text(buffer::bytes_content(*content)),
{
    let mut copied: Vec<u8> = Vec::new();
    append(&mut copied, as_slice(content));
    assert(copied@ =~= buffer::bytes_content(*content));
    Leaf::Text(copied)
}

fn number(value: u64) -> (leaf: Leaf)
    ensures
        leaf.model() == number_leaf(value),
{
    if value <= i64::MAX as u64 {
        Leaf::Number(Some(value), Some(value as i64))
    } else {
        Leaf::Number(Some(value), None)
    }
}

fn signed(value: i64) -> (leaf: Leaf)
    ensures
        leaf.model() == signed_leaf(value),
{
    if value >= 0 {
        Leaf::Number(Some(value as u64), Some(value))
    } else {
        Leaf::Number(None, Some(value))
    }
}

} // verus!
