//! Offline migration to another layout, which keeps the source log and its
//! sequence.

use super::config::{AofConfig, AofError, AofModel, SyncPolicy};
use super::format::{read_header_with_layout, FormatError, Limits, Next, NextModel, Record, RecordModel};
use super::layout::DurableLayout;
use super::options::{read_number, read_pairs, Number, NumberModel, OptionError, OptionFlaw};
use super::record::{encode, read_record};
use super::recovery::{recover_log, RecoveryMetadata};
use super::usage::{Quotas, UsageError};
use super::writer::snapshot_image;
use crate::codec::{get, snapshot_digest};
use crate::replication::protocol::duplicate_mutation;
use crate::error::ConfigError;
use crate::settings::{Flaw, NativeModel, NativeText};
use crate::storage::equality::same_mutation;
use crate::storage::model::Moment;
use crate::storage::mutation::{Mutation, MutationModel};
use crate::storage::store::StoreConfig;
use crate::codec;
use crate::persistence::config;
use crate::persistence::layout;
use crate::persistence::options;
use crate::persistence::record;
use crate::persistence::recovery;
use crate::persistence::usage;
use crate::persistence::writer;
use crate::settings;
use crate::storage::mutation;
use vstd::prelude::*;

verus! {

#[derive(Clone, Debug)]
pub struct MigrationOptions {
    pub source: AofConfig,
    pub destination: AofConfig,
    pub source_store: StoreConfig,
    pub destination_store: StoreConfig,
}

/// The options by content.
#[verifier::ext_equal]
pub struct MigrationModel {
    pub source: AofModel,
    pub destination: AofModel,
    pub source_store: StoreConfig,
    pub destination_store: StoreConfig,
}

#[derive(Clone, Debug)]
pub struct MigrationReport {
    pub source: RecoveryMetadata,
    pub destination_layout: DurableLayout,
    pub sequence: u64,
    pub entries: usize,
    pub destination_shard_usage: Vec<usize>,
}

/// The options that a migration knows.
pub open spec fn known_options() -> Seq<&'static str> {
    seq![
        "--source",
        "--source-shards",
        "--source-routing",
        "--destination",
        "--shards",
        "--routing",
        "--source-max-dataset-bytes",
        "--max-dataset-bytes",
        "--source-max-record-bytes",
        "--max-record-bytes",
    ]
}

fn option_names() -> (names: Vec<&'static str>)
    ensures
        names@ == known_options(),
{
    let mut names: Vec<&'static str> = Vec::new();
    names.push("--source");
    names.push("--source-shards");
    names.push("--source-routing");
    names.push("--destination");
    names.push("--shards");
    names.push("--routing");
    names.push("--source-max-dataset-bytes");
    names.push("--max-dataset-bytes");
    names.push("--source-max-record-bytes");
    names.push("--max-record-bytes");
    assert(names@ =~= known_options());
    names
}

/// What is wrong with a number that belongs to a layout.
pub open spec fn layout_number_fault(slot: Option<NativeModel>, name: &'static str) -> Option<
    OptionFlaw,
> {
    match slot {
        None => Some(OptionFlaw::Missing(name)),
        Some(value) => match options::number_of(value, usize::MAX as nat) {
            NumberModel::NotNumber => Some(OptionFlaw::NotNumber(name)),
            NumberModel::TooGreat => Some(OptionFlaw::TooGreat(name)),
            NumberModel::Number(number) => if number > u32::MAX {
                Some(OptionFlaw::TooGreatForLayout(name))
            } else {
                None
            },
        },
    }
}

pub open spec fn layout_number(slot: Option<NativeModel>) -> u32 {
    match options::number_of(slot->Some_0, usize::MAX as nat) {
        NumberModel::Number(number) => number as u32,
        _ => 0,
    }
}

/// What is wrong with a size that may be left out.
pub open spec fn size_fault(slot: Option<NativeModel>, name: &'static str) -> Option<OptionFlaw> {
    match slot {
        None => None,
        Some(value) => match options::number_of(value, usize::MAX as nat) {
            NumberModel::NotNumber => Some(OptionFlaw::NotNumber(name)),
            NumberModel::TooGreat => Some(OptionFlaw::TooGreat(name)),
            NumberModel::Number(_) => None,
        },
    }
}

pub open spec fn size_or(slot: Option<NativeModel>, default: usize) -> usize {
    match slot {
        None => default,
        Some(value) => match options::number_of(value, usize::MAX as nat) {
            NumberModel::Number(number) => number as usize,
            _ => default,
        },
    }
}

/// A log in a directory, with the default limits but for these.
pub open spec fn log_of(
    directory: NativeModel,
    layout: DurableLayout,
    max_record_bytes: usize,
) -> AofModel {
    AofModel {
        directory,
        layout,
        sync: SyncPolicy::Always,
        queue_capacity: 32,
        limits: Limits { max_record_bytes, max_mutations: 100000 },
        compact_after_bytes: 67108864,
        max_delta_bytes: 16777216,
    }
}

/// The options that the slots give.
pub open spec fn slots_model(slots: Seq<Option<NativeModel>>) -> MigrationModel {
    MigrationModel {
        source: log_of(
            slots[0]->Some_0,
            DurableLayout {
                shard_count: layout_number(slots[1]),
                routing_version: layout_number(slots[2]),
            },
            size_or(slots[8], 8388608),
        ),
        destination: log_of(
            slots[3]->Some_0,
            DurableLayout {
                shard_count: layout_number(slots[4]),
                routing_version: layout_number(slots[5]),
            },
            size_or(slots[9], 8388608),
        ),
        source_store: StoreConfig { max_dataset_bytes: size_or(slots[6], 67108864) },
        destination_store: StoreConfig { max_dataset_bytes: size_or(slots[7], 67108864) },
    }
}

/// The first slot that cannot be read.
pub open spec fn slots_fault(slots: Seq<Option<NativeModel>>) -> Option<OptionFlaw> {
    if slots[0] is None {
        Some(OptionFlaw::Missing("--source"))
    } else if slots[3] is None {
        Some(OptionFlaw::Missing("--destination"))
    } else if layout_number_fault(slots[1], "--source-shards") is Some {
        layout_number_fault(slots[1], "--source-shards")
    } else if layout_number_fault(slots[2], "--source-routing") is Some {
        layout_number_fault(slots[2], "--source-routing")
    } else if layout_number_fault(slots[4], "--shards") is Some {
        layout_number_fault(slots[4], "--shards")
    } else if layout_number_fault(slots[5], "--routing") is Some {
        layout_number_fault(slots[5], "--routing")
    } else if size_fault(slots[6], "--source-max-dataset-bytes") is Some {
        size_fault(slots[6], "--source-max-dataset-bytes")
    } else if size_fault(slots[7], "--max-dataset-bytes") is Some {
        size_fault(slots[7], "--max-dataset-bytes")
    } else if size_fault(slots[8], "--source-max-record-bytes") is Some {
        size_fault(slots[8], "--source-max-record-bytes")
    } else {
        size_fault(slots[9], "--max-record-bytes")
    }
}

/// The first rule that the options break.
pub open spec fn options_fault(options: MigrationModel) -> Option<Flaw> {
    if config::aof_fault(options.source) is Some {
        Some(Flaw::Limits(config::aof_fault(options.source)->Some_0))
    } else if config::aof_fault(options.destination) is Some {
        Some(Flaw::Limits(config::aof_fault(options.destination)->Some_0))
    } else if !options.source_store.is_valid() || !options.destination_store.is_valid() {
        Some(Flaw::Limits("SIDER_MAX_DATASET_BYTES precisa estar entre 1 e isize::MAX"))
    } else if options.source_store.max_dataset_bytes < options.source.layout.shard_count
        || options.destination_store.max_dataset_bytes < options.destination.layout.shard_count {
        Some(Flaw::Limits("quota total precisa reservar ao menos um byte por shard"))
    } else {
        None
    }
}

impl MigrationOptions {
    pub open spec fn model(&self) -> MigrationModel {
        MigrationModel {
            source: self.source.model(),
            destination: self.destination.model(),
            source_store: self.source_store,
            destination_store: self.destination_store,
        }
    }

    pub fn validate(&self) -> (result: Result<(), ConfigError>)
        ensures
            match (result, options_fault(self.model())) {
                (Ok(_), None) => true,
                (Err(error), Some(flaw)) => settings::flaw_of(error) == flaw && (flaw matches
                    Flaw::Limits(reason) && error == ConfigError::InvalidServerLimits { reason }),
                _ => false,
            },
    {
        match self.source.validate() {
            Err(error) => return Err(error),
            Ok(_) => {},
        }
        match self.destination.validate() {
            Err(error) => return Err(error),
            Ok(_) => {},
        }
        match self.source_store.validate() {
            Err(error) => return Err(error),
            Ok(_) => {},
        }
        match self.destination_store.validate() {
            Err(error) => return Err(error),
            Ok(_) => {},
        }
        match self.source.layout.quota(self.source_store.max_dataset_bytes, 0) {
            Err(error) => return Err(error),
            Ok(_) => {},
        }
        match self.destination.layout.quota(self.destination_store.max_dataset_bytes, 0) {
            Err(error) => return Err(error),
            Ok(_) => Ok(()),
        }
    }
}

fn read_layout_number(slot: &Option<NativeText>, name: &'static str) -> (result: Result<
    u32,
    OptionError,
>)
    ensures
        match (result, layout_number_fault(options::slot_model(*slot), name)) {
            (Ok(number), None) => number == layout_number(options::slot_model(*slot)),
            (Err(error), Some(flaw)) => error.flaw() == flaw,
            _ => false,
        },
{
    match slot {
        None => Err(OptionError::Missing(name)),
        Some(value) => match read_number(value, usize::MAX as u64) {
            Number::NotNumber => Err(OptionError::NotNumber(name)),
            Number::TooGreat => Err(OptionError::TooGreat(name)),
            Number::Number(number) => if number > u32::MAX as u64 {
                Err(OptionError::TooGreatForLayout(name))
            } else {
                Ok(number as u32)
            },
        },
    }
}

fn read_size(slot: &Option<NativeText>, name: &'static str, default: usize) -> (result: Result<
    usize,
    OptionError,
>)
    ensures
        match (result, size_fault(options::slot_model(*slot), name)) {
            (Ok(size), None) => size == size_or(options::slot_model(*slot), default),
            (Err(error), Some(flaw)) => error.flaw() == flaw,
            _ => false,
        },
{
    match slot {
        None => Ok(default),
        Some(value) => match read_number(value, usize::MAX as u64) {
            Number::NotNumber => Err(OptionError::NotNumber(name)),
            Number::TooGreat => Err(OptionError::TooGreat(name)),
            Number::Number(number) => Ok(number as usize),
        },
    }
}

fn options_from_slots(slots: &Vec<Option<NativeText>>) -> (result: Result<
    MigrationOptions,
    OptionError,
>)
    requires
        slots@.len() == 10,
    ensures
        match (result, slots_fault(options::slot_models(slots@))) {
            (Ok(options), None) => options.model() == slots_model(options::slot_models(slots@)),
            (Err(error), Some(flaw)) => error.flaw() == flaw,
            _ => false,
        },
{
    let ghost models = options::slot_models(slots@);
    assert(forall|i: int| 0 <= i < 10 ==> #[trigger] models[i] == options::slot_model(slots@[i]));
    let from = match &slots[0] {
        None => return Err(OptionError::Missing("--source")),
        Some(value) => value.duplicate(),
    };
    let to = match &slots[3] {
        None => return Err(OptionError::Missing("--destination")),
        Some(value) => value.duplicate(),
    };
    let mut source = AofConfig::new(from);
    let mut destination = AofConfig::new(to);
    match read_layout_number(&slots[1], "--source-shards") {
        Err(error) => return Err(error),
        Ok(number) => source.layout.shard_count = number,
    }
    match read_layout_number(&slots[2], "--source-routing") {
        Err(error) => return Err(error),
        Ok(number) => source.layout.routing_version = number,
    }
    match read_layout_number(&slots[4], "--shards") {
        Err(error) => return Err(error),
        Ok(number) => destination.layout.shard_count = number,
    }
    match read_layout_number(&slots[5], "--routing") {
        Err(error) => return Err(error),
        Ok(number) => destination.layout.routing_version = number,
    }
    let mut source_store = StoreConfig::default();
    let mut destination_store = StoreConfig::default();
    match read_size(&slots[6], "--source-max-dataset-bytes", source_store.max_dataset_bytes) {
        Err(error) => return Err(error),
        Ok(size) => source_store.max_dataset_bytes = size,
    }
    match read_size(&slots[7], "--max-dataset-bytes", destination_store.max_dataset_bytes) {
        Err(error) => return Err(error),
        Ok(size) => destination_store.max_dataset_bytes = size,
    }
    match read_size(&slots[8], "--source-max-record-bytes", source.limits.max_record_bytes) {
        Err(error) => return Err(error),
        Ok(size) => source.limits.max_record_bytes = size,
    }
    match read_size(&slots[9], "--max-record-bytes", destination.limits.max_record_bytes) {
        Err(error) => return Err(error),
        Ok(size) => destination.limits.max_record_bytes = size,
    }
    Ok(MigrationOptions { source, destination, source_store, destination_store })
}

/// The options of a command line; paths are kept as they are.
pub fn options_from_args(arguments: &[NativeText]) -> (result: Result<MigrationOptions, OptionError>)
    ensures
        match options::pairs(
            options::native_models(arguments@),
            known_options(),
            options::no_values(10),
        ) {
            Err(flaw) => result matches Err(error) && error.flaw() == flaw,
            Ok(slots) => if slots_fault(slots) is Some {
                result matches Err(error) && Some(error.flaw()) == slots_fault(slots)
            } else {
                match options_fault(slots_model(slots)) {
                    Some(flaw) => result matches Err(error) && error.flaw() == OptionFlaw::Config(
                        flaw,
                    ),
                    None => result matches Ok(options) && options.model() == slots_model(slots),
                }
            },
        },
{
    let names = option_names();
    assert(known_options().len() == 10);
    let slots = match read_pairs(arguments, &names) {
        Err(error) => return Err(error),
        Ok(slots) => slots,
    };
    let options = match options_from_slots(&slots) {
        Err(error) => return Err(error),
        Ok(options) => options,
    };
    match options.validate() {
        Err(error) => Err(OptionError::Config(error)),
        Ok(_) => Ok(options),
    }
}

/// What an error of counting means for a migration.
pub open spec fn usage_failure(error: UsageError) -> AofError {
    match error {
        UsageError::Replay(error) => AofError::Replay(error),
        UsageError::Overflow => AofError::Migration(
            "contabilidade excedeu o tamanho representável",
        ),
        UsageError::Quota { shard, used, quota } => AofError::ShardQuota { shard, used, quota },
        UsageError::Config(error) => AofError::Config(error),
    }
}

fn usage_error(error: UsageError) -> (result: AofError)
    ensures
        result == usage_failure(error),
{
    match error {
        UsageError::Replay(error) => AofError::Replay(error),
        UsageError::Overflow => AofError::Migration(
            "contabilidade excedeu o tamanho representável",
        ),
        UsageError::Quota { shard, used, quota } => AofError::ShardQuota { shard, used, quota },
        UsageError::Config(error) => AofError::Config(error),
    }
}

/// What each shard of the destination would use; no shard may exceed its share.
pub fn validate_snapshot(
    snapshot: &Vec<Mutation>,
    layout: DurableLayout,
    config: StoreConfig,
    moment: Moment,
) -> (result: Result<Vec<usize>, AofError>)
    requires
        mutation::all_sound(snapshot@),
        layout::layout_fault(layout) is None,
        config.max_dataset_bytes >= layout.shard_count,
    ensures
        match (
            result,
            usage::used_all(
                usage::nothing_used(layout.shard_count as nat),
                mutation::mutation_models(snapshot@),
                config.max_dataset_bytes as int,
                moment,
            ),
        ) {
            (Ok(usage), Ok(used)) => usage@ == used,
            (Err(error), Err(fault)) => error == usage_failure(fault),
            _ => false,
        },
{
    let ghost models = mutation::mutation_models(snapshot@);
    let ghost total = config.max_dataset_bytes as int;
    let ghost start = usage::nothing_used(layout.shard_count as nat);
    let mut quotas = match Quotas::new(layout, config.max_dataset_bytes) {
        Err(error) => return Err(AofError::Config(error)),
        Ok(quotas) => quotas,
    };
    let mut index: usize = 0;
    assert(models.skip(0) =~= models);
    while index < snapshot.len()
        invariant
            mutation::all_sound(snapshot@),
            models == mutation::mutation_models(snapshot@),
            total == config.max_dataset_bytes,
            start == usage::nothing_used(layout.shard_count as nat),
            index <= snapshot@.len(),
            quotas.wf(),
            quotas.shared() == total,
            quotas.present() <= index,
            usage::used_all(start, models, total, moment) == usage::used_all(
                quotas.used(),
                models.skip(index as int),
                total,
                moment,
            ),
        decreases snapshot@.len() - index,
    {
        let ghost left = models.skip(index as int);
        let single = vstd::slice::slice_subrange(snapshot.as_slice(), index, index + 1);
        proof {
            assert(single@[0] == snapshot@[index as int]);
            assert(left[0] == snapshot@[index as int].model());
            assert(left.skip(1) =~= models.skip(index + 1));
        }
        match quotas.add(single, moment) {
            Err(error) => return Err(usage_error(error)),
            Ok(_) => {},
        }
        index += 1;
    }
    assert(models.skip(index as int).len() == 0);
    let (usage, _) = quotas.finish();
    Ok(usage)
}

/// What is wrong with the records of a copied snapshot from here on.
pub open spec fn copy_fault(
    input: Seq<u8>,
    mutations: Seq<MutationModel>,
    seal: RecordModel,
    limits: Limits,
) -> Option<AofError>
    decreases mutations.len(),
{
    match record::next_outcome(input, limits) {
        Err(error) => Some(AofError::Format(error)),
        Ok(next) => if mutations.len() == 0 {
            if next != NextModel::Record(seal) {
                Some(AofError::Migration("selo ou fim do destino divergiu"))
            } else {
                match record::next_outcome(recovery::after_record(input), limits) {
                    Err(error) => Some(AofError::Format(error)),
                    Ok(NextModel::End) => None,
                    Ok(_) => Some(AofError::Migration("selo ou fim do destino divergiu")),
                }
            }
        } else if next != NextModel::Record(RecordModel::Snapshot(mutations[0])) {
            Some(AofError::Migration("snapshot do destino divergiu"))
        } else {
            copy_fault(recovery::after_record(input), mutations.skip(1), seal, limits)
        },
    }
}

/// What is wrong with a copied log.
pub open spec fn image_fault(
    image: Seq<u8>,
    mutations: Seq<MutationModel>,
    sequence: u64,
    layout: DurableLayout,
    limits: Limits,
) -> Option<AofError> {
    match crate::persistence::format::layout_outcome(image) {
        Err(error) => Some(AofError::Format(error)),
        Ok(header) => if header.sequence != sequence || header.layout != layout {
            Some(AofError::Migration("cabeçalho do destino divergiu"))
        } else {
            copy_fault(
                image.skip(header.bytes as int),
                mutations,
                writer::seal_of(mutations, sequence),
                limits,
            )
        },
    }
}

/// Whether what comes next is this entry.
fn is_entry(next: &Next, mutation: &Mutation) -> (result: bool)
    requires
        mutation.wf(),
        next matches Next::Record(record) ==> record.wf(),
    ensures
        result == (next.model() == NextModel::Record(RecordModel::Snapshot(mutation.model()))),
{
    match next {
        Next::Record(Record::Snapshot(found)) => same_mutation(found, mutation),
        _ => false,
    }
}

/// Whether what comes next is this seal.
pub fn is_seal(next: &Next, sequence: u64, entries: u64, digest: u32) -> (result: bool)
    ensures
        result == (next.model() == NextModel::Record(
            RecordModel::Seal { sequence, entries, digest },
        )),
{
    match next {
        Next::Record(Record::Seal { sequence: found, entries: count, digest: sum }) => *found
            == sequence && *count == entries && *sum == digest,
        _ => false,
    }
}

/// How many bytes the record at the start of a text takes.
pub fn record_end(input: &[u8], limits: Limits) -> (result: usize)
    requires
        record::next_outcome(input@, limits) matches Ok(NextModel::Record(_)),
    ensures
        result <= input@.len(),
        input@.skip(result as int) == recovery::after_record(input@),
        result >= 12,
{
    proof {
        codec::lemma_le_bound(input@.subrange(0, 4));
        codec::lemma_pow256();
    }
    let size: usize = get(input, 0, 4) as usize;
    12 + size
}

/// Reads a copied log back and compares it with what was to be copied.
pub fn verify_image(
    image: &[u8],
    snapshot: &Vec<Mutation>,
    sequence: u64,
    digest: u32,
    layout: DurableLayout,
    limits: Limits,
) -> (result: Result<(), AofError>)
    requires
        mutation::all_sound(snapshot@),
        digest == writer::digest_of(
            writer::snapshot_wires(mutation::mutation_models(snapshot@)),
        ),
    ensures
        match image_fault(
            image@,
            mutation::mutation_models(snapshot@),
            sequence,
            layout,
            limits,
        ) {
            None => result == Ok::<(), AofError>(()),
            Some(error) => result == Err::<(), AofError>(error),
        },
{
    let ghost models = mutation::mutation_models(snapshot@);
    let ghost seal = writer::seal_of(models, sequence);
    let header = match read_header_with_layout(image) {
        Err(error) => return Err(AofError::Format(error)),
        Ok(header) => header,
    };
    if header.sequence != sequence || header.layout != layout {
        return Err(AofError::Migration("cabeçalho do destino divergiu"));
    }
    let mut place: usize = header.bytes;
    let mut index: usize = 0;
    let ghost wanted = copy_fault(image@.skip(place as int), models, seal, limits);
    assert(models.skip(0) =~= models);
    while index < snapshot.len()
        invariant
            mutation::all_sound(snapshot@),
            models == mutation::mutation_models(snapshot@),
            index <= snapshot@.len(),
            place <= image@.len(),
            wanted == image_fault(image@, models, sequence, layout, limits),
            wanted == copy_fault(
                image@.skip(place as int),
                models.skip(index as int),
                seal,
                limits,
            ),
        decreases snapshot@.len() - index,
    {
        let ghost left = models.skip(index as int);
        let rest = vstd::slice::slice_subrange(image, place, image.len());
        proof {
            assert(rest@ =~= image@.skip(place as int));
            assert(left[0] == snapshot@[index as int].model());
            assert(left.skip(1) =~= models.skip(index + 1));
            assert(snapshot@[index as int].wf());
        }
        let next = match read_record(rest, limits) {
            Err(error) => return Err(AofError::Format(error)),
            Ok(next) => next,
        };
        if !is_entry(&next, &snapshot[index]) {
            return Err(AofError::Migration("snapshot do destino divergiu"));
        }
        let size: usize = record_end(rest, limits);
        assert(rest@.skip(size as int) =~= image@.skip(place + size));
        place = place + size;
        index += 1;
    }
    assert(models.skip(index as int).len() == 0);
    let rest = vstd::slice::slice_subrange(image, place, image.len());
    assert(rest@ =~= image@.skip(place as int));
    let next = match read_record(rest, limits) {
        Err(error) => return Err(AofError::Format(error)),
        Ok(next) => next,
    };
    if !is_seal(&next, sequence, snapshot.len() as u64, digest) {
        return Err(AofError::Migration("selo ou fim do destino divergiu"));
    }
    let size: usize = record_end(rest, limits);
    let last = vstd::slice::slice_subrange(rest, size, rest.len());
    assert(last@ =~= rest@.skip(size as int));
    match read_record(last, limits) {
        Err(error) => Err(AofError::Format(error)),
        Ok(Next::End) => Ok(()),
        Ok(_) => Err(AofError::Migration("selo ou fim do destino divergiu")),
    }
}

/// Whether entries can be written one by one where all of them can.
proof fn lemma_entry_fits(mutations: Seq<MutationModel>, limits: Limits, index: int)
    requires
        writer::snapshot_fault(mutations, limits) is None,
        0 <= index < mutations.len(),
    ensures
        record::encodable(RecordModel::Snapshot(mutations[index]), limits),
    decreases mutations.len(),
{
    if index < mutations.len() - 1 {
        lemma_entry_fits(mutations.drop_last(), limits, index);
    }
}

/// The digest of the entries as they are written.
fn copy_digest(snapshot: &Vec<Mutation>, limits: Limits) -> (digest: u32)
    requires
        mutation::all_sound(snapshot@),
        writer::snapshot_fault(mutation::mutation_models(snapshot@), limits) is None,
    ensures
        digest == writer::digest_of(
            writer::snapshot_wires(mutation::mutation_models(snapshot@)),
        ),
{
    let ghost models = mutation::mutation_models(snapshot@);
    let ghost wires = writer::snapshot_wires(models);
    let mut digest: u32 = 0;
    let mut index: usize = 0;
    assert(wires.take(0) =~= Seq::empty());
    while index < snapshot.len()
        invariant
            mutation::all_sound(snapshot@),
            models == mutation::mutation_models(snapshot@),
            wires == writer::snapshot_wires(models),
            writer::snapshot_fault(models, limits) is None,
            index <= snapshot@.len(),
            digest == writer::digest_of(wires.take(index as int)),
        decreases snapshot@.len() - index,
    {
        proof {
            assert(snapshot@[index as int].wf());
            assert(models[index as int] == snapshot@[index as int].model());
            assert(wires[index as int] == record::record_wire(
                RecordModel::Snapshot(models[index as int]),
            ));
            assert(wires.take(index + 1).drop_last() =~= wires.take(index as int));
            lemma_entry_fits(models, limits, index as int);
        }
        match encode(&Record::Snapshot(duplicate_mutation(&snapshot[index])), limits) {
            Ok(bytes) => {
                digest = snapshot_digest(digest, bytes.as_slice());
            },
            Err(_) => {},
        }
        index += 1;
    }
    assert(wires.take(index as int) =~= wires);
    digest
}

/// What a migration leads to: the log of the destination, the sequence that it
/// keeps, its entries and what each shard uses.
#[verifier::ext_equal]
pub struct Migrated {
    pub image: Seq<u8>,
    pub sequence: u64,
    pub entries: Seq<MutationModel>,
    pub usage: Seq<usize>,
    pub tail: int,
}

pub open spec fn migration_outcome(options: MigrationModel, image: Seq<u8>, moment: Moment) -> Result<
    Migrated,
    AofError,
> {
    if options_fault(options) is Some {
        Err(
            AofError::Config(
                ConfigError::InvalidServerLimits {
                    reason: options_fault(options)->Some_0->Limits_0,
                },
            ),
        )
    } else {
        match recovery::recovery_outcome(
            image,
            options.source.layout,
            options.source.limits,
            options.source_store.max_dataset_bytes,
            moment,
        ) {
            Err(error) => Err(error),
            Ok((progress, tail)) => copy_outcome(
                options,
                mutation::snapshot_of(progress.data),
                progress.sequence,
                tail,
                moment,
            ),
        }
    }
}

/// What copying a recovered snapshot leads to.
pub open spec fn copy_outcome(
    options: MigrationModel,
    entries: Seq<MutationModel>,
    sequence: u64,
    tail: int,
    moment: Moment,
) -> Result<Migrated, AofError> {
    let layout = options.destination.layout;
    let limits = options.destination.limits;
    match usage::used_all(
        usage::nothing_used(layout.shard_count as nat),
        entries,
        options.destination_store.max_dataset_bytes as int,
        moment,
    ) {
        Err(error) => Err(usage_failure(error)),
        Ok(usage) => if writer::snapshot_fault(entries, limits) is Some {
            Err(writer::snapshot_fault(entries, limits)->Some_0)
        } else if !record::encodable(writer::seal_of(entries, sequence), limits) {
            Err(AofError::Format(FormatError::Limit))
        } else {
            let image = writer::snapshot_log(entries, sequence, layout);
            match image_fault(image, entries, sequence, layout, limits) {
                Some(error) => Err(error),
                None => Ok(Migrated { image, sequence, entries, usage, tail }),
            }
        },
    }
}

fn copies(snapshot: &Vec<Mutation>) -> (result: Vec<Mutation>)
    requires
        mutation::all_sound(snapshot@),
    ensures
        mutation::all_sound(result@),
        mutation::mutation_models(result@) == mutation::mutation_models(snapshot@),
{
    let mut result: Vec<Mutation> = Vec::new();
    let mut index: usize = 0;
    while index < snapshot.len()
        invariant
            mutation::all_sound(snapshot@),
            mutation::all_sound(result@),
            index <= snapshot@.len(),
            result@.len() == index,
            forall|i: int|
                0 <= i < index ==> (#[trigger] result@[i]).model() == snapshot@[i].model(),
        decreases snapshot@.len() - index,
    {
        assert(snapshot@[index as int].wf());
        result.push(duplicate_mutation(&snapshot[index]));
        index += 1;
    }
    assert(mutation::mutation_models(result@) =~= mutation::mutation_models(snapshot@));
    result
}

fn copy(
    options: &MigrationOptions,
    snapshot: Vec<Mutation>,
    source: RecoveryMetadata,
    moment: Moment,
) -> (result: Result<(Vec<u8>, MigrationReport), AofError>)
    requires
        options_fault(options.model()) is None,
        mutation::all_sound(snapshot@),
    ensures
        match (
            result,
            copy_outcome(
                options.model(),
                mutation::mutation_models(snapshot@),
                source.sequence,
                source.incomplete_tail_bytes as int,
                moment,
            ),
        ) {
            (Ok((image, report)), Ok(migrated)) => {
                &&& image@ == migrated.image
                &&& report.source == source
                &&& report.destination_layout == options.destination.layout
                &&& report.sequence == migrated.sequence
                &&& report.entries == migrated.entries.len()
                &&& report.destination_shard_usage@ == migrated.usage
            },
            (Err(error), Err(fault)) => error == fault,
            _ => false,
        },
{
    let layout = options.destination.layout;
    let limits = options.destination.limits;
    let sequence: u64 = source.sequence;
    let destination_shard_usage = match validate_snapshot(
        &snapshot,
        layout,
        options.destination_store,
        moment,
    ) {
        Err(error) => return Err(error),
        Ok(usage) => usage,
    };
    let image = match snapshot_image(copies(&snapshot), sequence, layout, limits) {
        Err(error) => return Err(error),
        Ok(image) => image,
    };
    let digest: u32 = copy_digest(&snapshot, limits);
    match verify_image(image.as_slice(), &snapshot, sequence, digest, layout, limits) {
        Err(error) => return Err(error),
        Ok(_) => {},
    }
    let entries: usize = snapshot.len();
    Ok(
        (
            image,
            MigrationReport {
                source,
                destination_layout: layout,
                sequence,
                entries,
                destination_shard_usage,
            },
        ),
    )
}

/// Copies a stopped log into another layout. The source is only read: an
/// incomplete record at its end is told in the report and left where it is.
pub fn migrate_offline(options: &MigrationOptions, image: &[u8], moment: Moment) -> (result: Result<
    (Vec<u8>, MigrationReport),
    AofError,
>)
    ensures
        match (result, migration_outcome(options.model(), image@, moment)) {
            (Ok((copied, report)), Ok(migrated)) => {
                &&& copied@ == migrated.image
                &&& report.destination_layout == options.destination.layout
                &&& report.sequence == migrated.sequence
                &&& report.entries == migrated.entries.len()
                &&& report.destination_shard_usage@ == migrated.usage
                &&& recovery::recovery_outcome(
                    image@,
                    options.source.layout,
                    options.source.limits,
                    options.source_store.max_dataset_bytes,
                    moment,
                ) matches Ok((progress, tail)) && recovery::tells(
                    report.source,
                    image@,
                    options.source.layout,
                    progress,
                    tail,
                )
            },
            (Err(error), Err(fault)) => error == fault,
            _ => false,
        },
{
    match options.validate() {
        Err(error) => return Err(AofError::Config(error)),
        Ok(_) => {},
    }
    let recovered = match recover_log(image, &options.source, options.source_store, moment) {
        Err(error) => return Err(error),
        Ok(recovered) => recovered,
    };
    let snapshot = recovered.store.snapshot();
    copy(options, snapshot, recovered.metadata, moment)
}

proof fn lemma_copy_reads(mutations: Seq<MutationModel>, seal: RecordModel, limits: Limits)
    requires
        forall|i: int|
            0 <= i < mutations.len() ==> record::encodable(
                RecordModel::Snapshot(#[trigger] mutations[i]),
                limits,
            ) && record::recordable(mutations[i]),
        seal is Seal,
        record::encodable(seal, limits),
    ensures
        copy_fault(
            codec::joined(writer::snapshot_wires(mutations)) + record::record_wire(seal),
            mutations,
            seal,
            limits,
        ) is None,
    decreases mutations.len(),
{
    let chunks = writer::snapshot_wires(mutations);
    let last = record::record_wire(seal);
    let input = codec::joined(chunks) + last;
    if mutations.len() == 0 {
        assert(input =~= last + Seq::empty());
        record::law_records_are_read_back(seal, limits, Seq::empty());
        record::lemma_framed(record::record_body(seal), Seq::empty());
        assert(recovery::after_record(input) =~= Seq::empty());
    } else {
        let first = RecordModel::Snapshot(mutations[0]);
        let tail = mutations.skip(1);
        codec::lemma_joined_front(chunks);
        assert(chunks.skip(1) =~= writer::snapshot_wires(tail));
        let more = codec::joined(writer::snapshot_wires(tail)) + last;
        assert(input =~= record::record_wire(first) + more);
        record::law_records_are_read_back(first, limits, more);
        record::lemma_framed(record::record_body(first), more);
        assert(recovery::after_record(input) =~= more);
        assert forall|i: int| 0 <= i < tail.len() implies record::encodable(
            RecordModel::Snapshot(#[trigger] tail[i]),
            limits,
        ) && record::recordable(tail[i]) by {
            assert(tail[i] == mutations[i + 1]);
        }
        lemma_copy_reads(tail, seal, limits);
    }
}

/// A copy that could be written is read back as it was written: comparing it
/// with the source finds nothing.
pub proof fn law_copies_are_read_back(
    mutations: Seq<MutationModel>,
    sequence: u64,
    layout: DurableLayout,
    limits: Limits,
)
    requires
        writer::snapshot_fault(mutations, limits) is None,
        record::encodable(writer::seal_of(mutations, sequence), limits),
        forall|i: int| 0 <= i < mutations.len() ==> record::recordable(#[trigger] mutations[i]),
    ensures
        image_fault(
            writer::snapshot_log(mutations, sequence, layout),
            mutations,
            sequence,
            layout,
            limits,
        ) is None,
{
    let seal = writer::seal_of(mutations, sequence);
    let header = crate::persistence::format::layout_header(sequence, layout);
    let rest = codec::joined(writer::snapshot_wires(mutations)) + record::record_wire(seal);
    let image = writer::snapshot_log(mutations, sequence, layout);
    assert(image =~= header + rest);
    crate::persistence::format::law_headers_are_read_back(sequence, layout, rest);
    crate::persistence::format::lemma_header_size(sequence, layout);
    assert(image.skip(header.len() as int) =~= rest);
    assert forall|i: int| 0 <= i < mutations.len() implies record::encodable(
        RecordModel::Snapshot(#[trigger] mutations[i]),
        limits,
    ) && record::recordable(mutations[i]) by {
        lemma_entry_fits(mutations, limits, i);
    }
    lemma_copy_reads(mutations, seal, limits);
}

/// A migration copies what the log recovers to, all of it and nothing else, with its sequence, into
/// a log of the other layout.
pub proof fn law_migrations_copy_the_data(
    options: MigrationModel,
    image: Seq<u8>,
    moment: Moment,
    key: Seq<u8>,
)
    requires
        migration_outcome(options, image, moment) is Ok,
    ensures
        ({
            let migrated = migration_outcome(options, image, moment)->Ok_0;
            recovery::recovery_outcome(
                image,
                options.source.layout,
                options.source.limits,
                options.source_store.max_dataset_bytes,
                moment,
            ) matches Ok((progress, tail)) && {
                &&& migrated.sequence == progress.sequence
                &&& migrated.tail == tail
                &&& migrated.image == writer::snapshot_log(
                    migrated.entries,
                    progress.sequence,
                    options.destination.layout,
                )
                &&& progress.data.entries.dom().finite() ==> {
                    &&& migrated.entries.len() == progress.data.entries.dom().len()
                    &&& progress.data.entries.contains_key(key) <==> exists|i: int|
                        0 <= i < migrated.entries.len() && (#[trigger] migrated.entries[i]).key()
                            == key
                    &&& forall|i: int|
                        0 <= i < migrated.entries.len() ==> (#[trigger] migrated.entries[i]) == (
                        MutationModel::Put {
                            key: migrated.entries[i].key(),
                            value: progress.data.entries[migrated.entries[i].key()].value,
                            expires_at_unix_ms: match progress.data.entries[migrated.entries[i].key()].deadline {
                                Some(deadline) => Some(deadline.unix_ms),
                                None => None,
                            },
                        })
                }
            }
        }),
{
    let migrated = migration_outcome(options, image, moment)->Ok_0;
    let (progress, _) = recovery::recovery_outcome(
        image,
        options.source.layout,
        options.source.limits,
        options.source_store.max_dataset_bytes,
        moment,
    )->Ok_0;
    if progress.data.entries.dom().finite() {
        crate::storage::laws::law_snapshot_holds_the_entries(progress.data);
        let keys = mutation::mutation_keys(migrated.entries);
        if keys.contains(key) {
            let i = choose|i: int| 0 <= i < keys.len() && keys[i] == key;
            assert(migrated.entries[i].key() == key);
        }
        if exists|i: int|
            0 <= i < migrated.entries.len() && (#[trigger] migrated.entries[i]).key() == key {
            let i = choose|i: int|
                0 <= i < migrated.entries.len() && (#[trigger] migrated.entries[i]).key() == key;
            assert(keys[i] == key);
        }
    }
}

} // verus!
