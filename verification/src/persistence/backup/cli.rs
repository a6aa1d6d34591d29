//! The command line of backups. Paths are kept as they are, and errors repeat
//! no value that was given.

use super::client::{ExportModel, ExportOptions};
use super::digest::require_hex;
use super::limits::{Error, Limits};
use crate::buffer::{copy_from_slice, same_bytes};
use crate::clock;
use crate::persistence::layout::DurableLayout;
use crate::persistence::options::{read_number, read_pairs, Number, NumberModel, OptionError, OptionFlaw};
use crate::settings::{Address, NativeModel, NativeText};
use crate::buffer;
use crate::persistence::backup::archive;
use crate::persistence::backup::client;
use crate::persistence::backup::digest;
use crate::persistence::format::MAX_RECORD_BYTES;
use crate::persistence::options;
use vstd::prelude::*;
use vstd::string::*;
use vstd::utf8::*;

verus! {

#[derive(Clone, Debug)]
pub struct RestoreOptions {
    pub source: NativeText,
    pub destination: NativeText,
    pub layout: DurableLayout,
    pub limits: Limits,
}

pub enum Action {
    Export(ExportOptions),
    Verify { source: NativeText, layout: DurableLayout, limits: Limits },
    Restore(RestoreOptions),
}

/// An action by content.
#[verifier::ext_equal]
pub enum ActionModel {
    Export(ExportModel),
    Verify { source: NativeModel, layout: DurableLayout, limits: Limits },
    Restore {
        source: NativeModel,
        destination: NativeModel,
        layout: DurableLayout,
        limits: Limits,
    },
}

impl Action {
    pub open spec fn model(&self) -> ActionModel {
        match self {
            Action::Export(options) => ActionModel::Export(options.model()),
            Action::Verify { source, layout, limits } => ActionModel::Verify {
                source: source.model(),
                layout: *layout,
                limits: *limits,
            },
            Action::Restore(options) => ActionModel::Restore {
                source: options.source.model(),
                destination: options.destination.model(),
                layout: options.layout,
                limits: options.limits,
            },
        }
    }
}

#[derive(Clone, Copy, Debug, PartialEq, Eq, Structural)]
pub enum Subcommand {
    Export,
    Verify,
    Restore,
}

/// The subcommand of a word.
pub open spec fn subcommand_of(word: Seq<u8>) -> Option<Subcommand> {
    if word == "export".spec_bytes() {
        Some(Subcommand::Export)
    } else if word == "verify".spec_bytes() {
        Some(Subcommand::Verify)
    } else if word == "restore".spec_bytes() {
        Some(Subcommand::Restore)
    } else {
        None
    }
}

/// The options that backups know.
pub open spec fn known_options() -> Seq<&'static str> {
    seq![
        "--source",
        "--destination",
        "--source-sha",
        "--shards",
        "--routing",
        "--max-record-bytes",
        "--max-mutations",
        "--max-snapshot-bytes",
        "--max-dataset-bytes",
        "--timeout-ms",
    ]
}

fn option_names() -> (names: Vec<&'static str>)
    ensures
        names@ == known_options(),
{
    let mut names: Vec<&'static str> = Vec::new();
    names.push("--source");
    names.push("--destination");
    names.push("--source-sha");
    names.push("--shards");
    names.push("--routing");
    names.push("--max-record-bytes");
    names.push("--max-mutations");
    names.push("--max-snapshot-bytes");
    names.push("--max-dataset-bytes");
    names.push("--timeout-ms");
    assert(names@ =~= known_options());
    names
}

/// What an error of reading options means for a backup.
pub open spec fn pairs_failure(flaw: OptionFlaw) -> Error {
    match flaw {
        OptionFlaw::NameNotText => Error::Invalid("nome de opção inválido"),
        OptionFlaw::Unknown(_) => Error::Invalid("opção desconhecida"),
        OptionFlaw::Repeated(_) => Error::Invalid("opção repetida"),
        _ => Error::Invalid("opção sem valor"),
    }
}

fn pairs_error(error: OptionError) -> (result: Error)
    ensures
        result == pairs_failure(error.flaw()),
{
    match error {
        OptionError::NameNotText => Error::Invalid("nome de opção inválido"),
        OptionError::Unknown(_) => Error::Invalid("opção desconhecida"),
        OptionError::Repeated(_) => Error::Invalid("opção repetida"),
        _ => Error::Invalid("opção sem valor"),
    }
}

/// What a number that has to be there is, or what is wrong with it.
pub open spec fn number_outcome(value: NativeModel, max: nat) -> Result<nat, Error> {
    match options::number_of(value, max) {
        NumberModel::Number(number) => Ok(number),
        NumberModel::NotNumber => Err(Error::Invalid("inteiro decimal inválido")),
        NumberModel::TooGreat => Err(Error::Invalid("inteiro fora do limite")),
    }
}

/// What is wrong with a number that may be left out.
pub open spec fn slot_fault(slot: Option<NativeModel>, max: nat) -> Option<Error> {
    match slot {
        None => None,
        Some(value) => match number_outcome(value, max) {
            Ok(_) => None,
            Err(error) => Some(error),
        },
    }
}

/// A number that may be left out.
pub open spec fn slot_or(slot: Option<NativeModel>, max: nat, default: nat) -> nat {
    match slot {
        None => default,
        Some(value) => match number_outcome(value, max) {
            Ok(number) => number,
            Err(_) => default,
        },
    }
}

/// What is wrong with the limits that the options give.
pub open spec fn limits_fault(slots: Seq<Option<NativeModel>>) -> Option<Error> {
    if slot_fault(slots[5], usize::MAX as nat) is Some {
        slot_fault(slots[5], usize::MAX as nat)
    } else if slot_fault(slots[6], usize::MAX as nat) is Some {
        slot_fault(slots[6], usize::MAX as nat)
    } else if slot_fault(slots[8], usize::MAX as nat) is Some {
        slot_fault(slots[8], usize::MAX as nat)
    } else if slot_fault(slots[7], u64::MAX as nat) is Some {
        slot_fault(slots[7], u64::MAX as nat)
    } else {
        slot_fault(slots[9], u64::MAX as nat)
    }
}

/// The limits that the options give.
pub open spec fn limits_of(slots: Seq<Option<NativeModel>>) -> Limits {
    Limits {
        max_record_bytes: slot_or(slots[5], usize::MAX as nat, MAX_RECORD_BYTES as nat) as usize,
        max_mutations: slot_or(slots[6], usize::MAX as nat, 100_000) as usize,
        max_snapshot_bytes: slot_or(slots[7], u64::MAX as nat, 268435456) as u64,
        max_dataset_bytes: slot_or(slots[8], usize::MAX as nat, 67108864) as usize,
        timeout: (slot_or(slots[9], u64::MAX as nat, 120_000) * 1_000_000) as u128,
    }
}

fn read_slot(slot: &Option<NativeText>, max: u64, default: u64) -> (result: Result<u64, Error>)
    requires
        default <= max,
    ensures
        match (result, slot_fault(options::slot_model(*slot), max as nat)) {
            (Ok(number), None) => number == slot_or(
                options::slot_model(*slot),
                max as nat,
                default as nat,
            ) && number <= max,
            (Err(error), Some(fault)) => error == fault,
            _ => false,
        },
{
    match slot {
        None => Ok(default),
        Some(value) => match read_number(value, max) {
            Number::Number(number) => Ok(number),
            Number::NotNumber => Err(Error::Invalid("inteiro decimal inválido")),
            Number::TooGreat => Err(Error::Invalid("inteiro fora do limite")),
        },
    }
}

fn read_limits(slots: &Vec<Option<NativeText>>) -> (result: Result<Limits, Error>)
    requires
        slots@.len() == 10,
    ensures
        match (result, limits_fault(options::slot_models(slots@))) {
            (Ok(limits), None) => limits == limits_of(options::slot_models(slots@)),
            (Err(error), Some(fault)) => error == fault,
            _ => false,
        },
{
    let ghost models = options::slot_models(slots@);
    assert(forall|i: int| 0 <= i < 10 ==> #[trigger] models[i] == options::slot_model(slots@[i]));
    let most: u64 = usize::MAX as u64;
    let max_record_bytes: u64 = match read_slot(&slots[5], most, MAX_RECORD_BYTES as u64) {
        Err(error) => return Err(error),
        Ok(number) => number,
    };
    let max_mutations: u64 = match read_slot(&slots[6], most, 100_000) {
        Err(error) => return Err(error),
        Ok(number) => number,
    };
    let max_dataset_bytes: u64 = match read_slot(&slots[8], most, 67108864) {
        Err(error) => return Err(error),
        Ok(number) => number,
    };
    let max_snapshot_bytes: u64 = match read_slot(&slots[7], u64::MAX, 268435456) {
        Err(error) => return Err(error),
        Ok(number) => number,
    };
    let timeout: u64 = match read_slot(&slots[9], u64::MAX, 120_000) {
        Err(error) => return Err(error),
        Ok(number) => number,
    };
    Ok(
        Limits {
            max_record_bytes: max_record_bytes as usize,
            max_mutations: max_mutations as usize,
            max_snapshot_bytes,
            max_dataset_bytes: max_dataset_bytes as usize,
            timeout: timeout as u128 * 1_000_000,
        },
    )
}

/// A number of a layout, or what is wrong with it.
pub open spec fn layout_number(slot: Option<NativeModel>, reason: &'static str) -> Result<u32, Error> {
    match slot {
        None => Err(Error::Invalid("opção obrigatória ausente")),
        Some(value) => match number_outcome(value, u64::MAX as nat) {
            Err(error) => Err(error),
            Ok(number) => if number > u32::MAX {
                Err(Error::Invalid(reason))
            } else {
                Ok(number as u32)
            },
        },
    }
}

fn read_layout_number(slot: &Option<NativeText>, reason: &'static str) -> (result: Result<
    u32,
    Error,
>)
    ensures
        result == layout_number(options::slot_model(*slot), reason),
{
    match slot {
        None => Err(Error::Invalid("opção obrigatória ausente")),
        Some(_) => match read_slot(slot, u64::MAX, 0) {
            Err(error) => Err(error),
            Ok(number) => if number > u32::MAX as u64 {
                Err(Error::Invalid(reason))
            } else {
                Ok(number as u32)
            },
        },
    }
}

/// The layout that the options give.
pub open spec fn layout_outcome(slots: Seq<Option<NativeModel>>, limits: Limits) -> Result<
    DurableLayout,
    Error,
> {
    match (
        layout_number(slots[3], "quantidade de shards"),
        layout_number(slots[4], "versão de roteamento"),
    ) {
        (Err(error), _) => Err(error),
        (_, Err(error)) => Err(error),
        (Ok(shard_count), Ok(routing_version)) => {
            let layout = DurableLayout { shard_count, routing_version };
            match archive::sharing_fault(layout, limits.max_dataset_bytes) {
                Some(error) => Err(error),
                None => Ok(layout),
            }
        },
    }
}

fn read_layout(slots: &Vec<Option<NativeText>>, limits: Limits) -> (result: Result<
    DurableLayout,
    Error,
>)
    requires
        slots@.len() == 10,
    ensures
        result == layout_outcome(options::slot_models(slots@), limits),
{
    let ghost models = options::slot_models(slots@);
    assert(models[3] == options::slot_model(slots@[3]));
    assert(models[4] == options::slot_model(slots@[4]));
    let shard_count: u32 = match read_layout_number(&slots[3], "quantidade de shards") {
        Err(error) => return Err(error),
        Ok(number) => number,
    };
    let routing_version: u32 = match read_layout_number(&slots[4], "versão de roteamento") {
        Err(error) => return Err(error),
        Ok(number) => number,
    };
    let layout = DurableLayout { shard_count, routing_version };
    match layout.quota(limits.max_dataset_bytes, 0) {
        Err(error) => Err(Error::Configuration(error)),
        Ok(_) => Ok(layout),
    }
}

/// What the options of an export lead to.
pub open spec fn export_outcome(
    slots: Seq<Option<NativeModel>>,
    limits: Limits,
    address: Option<Address>,
) -> Result<ActionModel, Error> {
    if slots[0]->Some_0 is Raw {
        Err(Error::Invalid("endereço inválido"))
    } else if address is None {
        Err(Error::Invalid("origem exige IP literal e porta"))
    } else if slots[1] is None || slots[2] is None {
        Err(Error::Invalid("opção obrigatória ausente"))
    } else {
        match slots[2]->Some_0 {
            NativeModel::Raw(_) => Err(Error::Invalid("SHA inválido")),
            NativeModel::Text(sha) => if !digest::is_hex(encode_utf8(sha), 40) {
                Err(Error::Invalid("hash ou identidade hexadecimal"))
            } else if slots[3] is Some || slots[4] is Some {
                Err(Error::Invalid("opção incompatível com subcomando"))
            } else {
                Ok(
                    ActionModel::Export(
                        ExportModel {
                            source: address->Some_0,
                            destination: slots[1]->Some_0,
                            source_sha: encode_utf8(sha),
                            limits,
                        },
                    ),
                )
            },
        }
    }
}

/// What the options of reading a backup lead to.
pub open spec fn reading_outcome(
    subcommand: Subcommand,
    slots: Seq<Option<NativeModel>>,
    limits: Limits,
) -> Result<ActionModel, Error> {
    match layout_outcome(slots, limits) {
        Err(error) => Err(error),
        Ok(layout) => if subcommand == Subcommand::Restore {
            if slots[1] is None {
                Err(Error::Invalid("opção obrigatória ausente"))
            } else if slots[2] is Some {
                Err(Error::Invalid("opção incompatível com subcomando"))
            } else {
                Ok(
                    ActionModel::Restore {
                        source: slots[0]->Some_0,
                        destination: slots[1]->Some_0,
                        layout,
                        limits,
                    },
                )
            }
        } else if slots[1] is Some || slots[2] is Some {
            Err(Error::Invalid("opção incompatível com subcomando"))
        } else {
            Ok(ActionModel::Verify { source: slots[0]->Some_0, layout, limits })
        },
    }
}

/// What a command line leads to, where the source names this address, and the
/// clock counts the time or not.
pub open spec fn cli_outcome(
    arguments: Seq<NativeModel>,
    address: Option<Address>,
    counted: bool,
) -> Result<ActionModel, Error> {
    if arguments.len() == 0 || arguments[0] is Raw {
        Err(Error::Invalid("subcomando ausente"))
    } else {
        match subcommand_of(encode_utf8(arguments[0]->Text_0)) {
            None => Err(Error::Invalid("subcomando desconhecido")),
            Some(subcommand) => match options::pairs(
                arguments.skip(1),
                known_options(),
                options::no_values(10),
            ) {
                Err(flaw) => Err(pairs_failure(flaw)),
                Ok(slots) => action_outcome(subcommand, slots, address, counted),
            },
        }
    }
}

/// What a subcommand and its options lead to.
pub open spec fn action_outcome(
    subcommand: Subcommand,
    slots: Seq<Option<NativeModel>>,
    address: Option<Address>,
    counted: bool,
) -> Result<ActionModel, Error> {
    let limits = limits_of(slots);
    if limits_fault(slots) is Some {
        Err(limits_fault(slots)->Some_0)
    } else if !limits.is_valid(counted) {
        Err(Error::Invalid("backup limits"))
    } else if slots[0] is None {
        Err(Error::Invalid("opção obrigatória ausente"))
    } else if subcommand == Subcommand::Export {
        export_outcome(slots, limits, address)
    } else {
        reading_outcome(subcommand, slots, limits)
    }
}

fn read_subcommand(word: &[u8]) -> (result: Option<Subcommand>)
    ensures
        result == subcommand_of(word@),
{
    if same_bytes(word, "export".as_bytes()) {
        Some(Subcommand::Export)
    } else if same_bytes(word, "verify".as_bytes()) {
        Some(Subcommand::Verify)
    } else if same_bytes(word, "restore".as_bytes()) {
        Some(Subcommand::Restore)
    } else {
        None
    }
}

fn export_action(slots: &Vec<Option<NativeText>>, limits: Limits, address: Option<Address>) -> (result:
    Result<Action, Error>)
    requires
        slots@.len() == 10,
        slots@[0] is Some,
    ensures
        match (result, export_outcome(options::slot_models(slots@), limits, address)) {
            (Ok(action), Ok(model)) => action.model() == model,
            (Err(error), Err(fault)) => error == fault,
            _ => false,
        },
{
    let ghost models = options::slot_models(slots@);
    assert(forall|i: int| 0 <= i < 10 ==> #[trigger] models[i] == options::slot_model(slots@[i]));
    assert(models[0] == options::slot_model(slots@[0]));
    assert(models[3] == options::slot_model(slots@[3]));
    assert(models[4] == options::slot_model(slots@[4]));
    match &slots[0] {
        Some(NativeText::Text(_)) => {},
        _ => return Err(Error::Invalid("endereço inválido")),
    }
    let source = match address {
        None => return Err(Error::Invalid("origem exige IP literal e porta")),
        Some(source) => source,
    };
    let destination = match &slots[1] {
        None => return Err(Error::Invalid("opção obrigatória ausente")),
        Some(destination) => destination.duplicate(),
    };
    let sha = match &slots[2] {
        None => return Err(Error::Invalid("opção obrigatória ausente")),
        Some(NativeText::Raw(_)) => return Err(Error::Invalid("SHA inválido")),
        Some(NativeText::Text(sha)) => sha.as_str().as_bytes(),
    };
    match require_hex(sha, 40) {
        Err(error) => return Err(error),
        Ok(_) => {},
    }
    if slots[3].is_some() || slots[4].is_some() {
        return Err(Error::Invalid("opção incompatível com subcomando"));
    }
    Ok(
        Action::Export(
            ExportOptions { source, destination, source_sha: copy_from_slice(sha), limits },
        ),
    )
}

fn reading_action(subcommand: Subcommand, slots: &Vec<Option<NativeText>>, limits: Limits) -> (result:
    Result<Action, Error>)
    requires
        slots@.len() == 10,
        slots@[0] is Some,
        subcommand != Subcommand::Export,
    ensures
        match (result, reading_outcome(subcommand, options::slot_models(slots@), limits)) {
            (Ok(action), Ok(model)) => action.model() == model,
            (Err(error), Err(fault)) => error == fault,
            _ => false,
        },
{
    let ghost models = options::slot_models(slots@);
    assert(models[0] == options::slot_model(slots@[0]));
    assert(models[1] == options::slot_model(slots@[1]));
    assert(models[2] == options::slot_model(slots@[2]));
    let layout = match read_layout(slots, limits) {
        Err(error) => return Err(error),
        Ok(layout) => layout,
    };
    let source = match &slots[0] {
        None => return Err(Error::Invalid("opção obrigatória ausente")),
        Some(source) => source.duplicate(),
    };
    match subcommand {
        Subcommand::Restore => {
            let destination = match &slots[1] {
                None => return Err(Error::Invalid("opção obrigatória ausente")),
                Some(destination) => destination.duplicate(),
            };
            if slots[2].is_some() {
                return Err(Error::Invalid("opção incompatível com subcomando"));
            }
            Ok(Action::Restore(RestoreOptions { source, destination, layout, limits }))
        },
        _ => {
            if slots[1].is_some() || slots[2].is_some() {
                return Err(Error::Invalid("opção incompatível com subcomando"));
            }
            Ok(Action::Verify { source, layout, limits })
        },
    }
}

/// Reads the subcommand and its options.
fn read_arguments(arguments: &[NativeText]) -> (result: Result<
    (Subcommand, Vec<Option<NativeText>>),
    Error,
>)
    ensures
        match result {
            Ok((subcommand, slots)) => {
                &&& slots@.len() == 10
                &&& options::pairs(
                    options::native_models(arguments@).skip(1),
                    known_options(),
                    options::no_values(10),
                ) == Ok::<Seq<Option<NativeModel>>, OptionFlaw>(options::slot_models(slots@))
                &&& forall|address: Option<Address>, counted: bool| #[trigger]
                    cli_outcome(options::native_models(arguments@), address, counted)
                        == action_outcome(
                        subcommand,
                        options::slot_models(slots@),
                        address,
                        counted,
                    )
            },
            Err(error) => forall|address: Option<Address>, counted: bool| #[trigger]
                cli_outcome(options::native_models(arguments@), address, counted) == Err::<
                    ActionModel,
                    Error,
                >(error),
        },
{
    let ghost models = options::native_models(arguments@);
    if arguments.len() == 0 {
        return Err(Error::Invalid("subcomando ausente"));
    }
    assert(models[0] == arguments@[0].model());
    let word = match &arguments[0] {
        NativeText::Raw(_) => return Err(Error::Invalid("subcomando ausente")),
        NativeText::Text(word) => word.as_str().as_bytes(),
    };
    let subcommand = match read_subcommand(word) {
        None => return Err(Error::Invalid("subcomando desconhecido")),
        Some(subcommand) => subcommand,
    };
    let names = option_names();
    let rest = vstd::slice::slice_subrange(arguments, 1, arguments.len());
    assert(options::native_models(rest@) =~= models.skip(1));
    assert(known_options().len() == 10);
    match read_pairs(rest, &names) {
        Err(error) => Err(pairs_error(error)),
        Ok(slots) => Ok((subcommand, slots)),
    }
}

fn action(
    subcommand: Subcommand,
    slots: &Vec<Option<NativeText>>,
    address: Option<Address>,
    counted: bool,
) -> (result: Result<Action, Error>)
    requires
        slots@.len() == 10,
    ensures
        match (
            result,
            action_outcome(subcommand, options::slot_models(slots@), address, counted),
        ) {
            (Ok(action), Ok(model)) => action.model() == model,
            (Err(error), Err(fault)) => error == fault,
            _ => false,
        },
{
    let limits = match read_limits(slots) {
        Err(error) => return Err(error),
        Ok(limits) => limits,
    };
    match limits.check(counted) {
        Err(error) => return Err(error),
        Ok(_) => {},
    }
    assert(options::slot_models(slots@)[0] == options::slot_model(slots@[0]));
    if slots[0].is_none() {
        return Err(Error::Invalid("opção obrigatória ausente"));
    }
    match subcommand {
        Subcommand::Export => export_action(slots, limits, address),
        _ => reading_action(subcommand, slots, limits),
    }
}

/// The text that a command line gives for the source, where its options can be
/// read and it gives one.
pub open spec fn source_text(arguments: Seq<NativeModel>) -> Option<NativeModel> {
    if arguments.len() == 0 {
        None
    } else {
        match options::pairs(arguments.skip(1), known_options(), options::no_values(10)) {
            Err(_) => None,
            Ok(slots) => slots[0],
        }
    }
}

/// Finds the text of the source. What address it names is for [`parse`] to be
/// told.
pub fn source_of(arguments: &[NativeText]) -> (result: Option<NativeText>)
    ensures
        match result {
            Some(text) => source_text(options::native_models(arguments@)) == Some(text.model()),
            None => source_text(options::native_models(arguments@)) is None,
        },
{
    if arguments.len() == 0 {
        return None;
    }
    let names = option_names();
    let rest = vstd::slice::slice_subrange(arguments, 1, arguments.len());
    assert(options::native_models(rest@) =~= options::native_models(arguments@).skip(1));
    assert(known_options().len() == 10);
    match read_pairs(rest, &names) {
        Err(_) => None,
        Ok(slots) => {
            assert(options::slot_models(slots@)[0] == options::slot_model(slots@[0]));
            match &slots[0] {
                None => None,
                Some(text) => Some(text.duplicate()),
            }
        },
    }
}

/// Reads a command line where it is known whether the clock counts the time.
/// The address is the one that the source of an export names, where it names
/// one.
pub fn parse_when(arguments: &[NativeText], address: Option<Address>, counted: bool) -> (result: Result<
    Action,
    Error,
>)
    ensures
        match (result, cli_outcome(options::native_models(arguments@), address, counted)) {
            (Ok(action), Ok(model)) => action.model() == model,
            (Err(error), Err(fault)) => error == fault,
            _ => false,
        },
{
    match read_arguments(arguments) {
        Err(error) => Err(error),
        Ok((subcommand, slots)) => action(subcommand, &slots, address, counted),
    }
}

/// What the clock may answer about the time that a command line allows, where the
/// command line goes as far as to allow one.
pub open spec fn answer_suits(arguments: Seq<NativeModel>, counted: bool) -> bool {
    options::pairs(arguments.skip(1), known_options(), options::no_values(10)) matches Ok(slots)
        ==> limits_fault(slots) is None ==> clock::answerable(limits_of(slots).timeout, counted)
}

/// Reads a command line.
pub fn parse(arguments: &[NativeText], address: Option<Address>) -> (result: Result<Action, Error>)
    ensures
        exists|counted: bool|
            answer_suits(options::native_models(arguments@), counted) && match (
                result,
                #[trigger] cli_outcome(options::native_models(arguments@), address, counted),
            ) {
                (Ok(action), Ok(model)) => action.model() == model,
                (Err(error), Err(fault)) => error == fault,
                _ => false,
            },
{
    let ghost models = options::native_models(arguments@);
    let (subcommand, slots) = match read_arguments(arguments) {
        Err(error) => {
            proof {
                let time = match options::pairs(
                    models.skip(1),
                    known_options(),
                    options::no_values(10),
                ) {
                    Ok(slots) => limits_of(slots).timeout,
                    Err(_) => 0,
                };
                let counted = time / 1_000_000_000 <= u64::MAX;
                assert(answer_suits(models, counted));
                assert(cli_outcome(models, address, counted) is Err);
            }
            return Err(error);
        },
        Ok(found) => found,
    };
    let counted: bool = match read_limits(&slots) {
        Err(_) => true,
        Ok(limits) => limits.counted(),
    };
    let result = action(subcommand, &slots, address, counted);
    assert(answer_suits(models, counted));
    assert(cli_outcome(models, address, counted) == action_outcome(
        subcommand,
        options::slot_models(slots@),
        address,
        counted,
    ));
    result
}

} // verus!
