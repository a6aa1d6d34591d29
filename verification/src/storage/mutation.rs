//! Prepares the touched keys only; the real state changes after the record is
//! durable.

use super::changes::Change;
use super::model::{Dataset, Deadline, EntryModel, Moment, Trace};
use super::store::{Entry, Store};
use super::value::{Value, ValueModel};
use super::watch::WatchToken;
use crate::buffer::as_slice;
use crate::command::reply::{Reply, ReplyModel};
use crate::command::types::{Command, HashCommand, ListCommand, SetCommand, SortedSetCommand};
use crate::ordered::ByteMap;
use bytes::Bytes;
use crate::buffer;
use crate::ordered;
use crate::storage::accounting;
use crate::storage::changes;
use crate::storage::model;
use crate::storage::store;
use crate::storage::value;
use crate::storage::watch;
use vstd::prelude::*;

verus! {

/// Final state, resolved; independent of the command and of the clock at replay.
#[derive(Debug, PartialEq)]
pub enum Mutation {
    Put { key: Bytes, value: Value, expires_at_unix_ms: Option<i64> },
    Delete { key: Bytes },
}

/// A mutation by content.
#[verifier::ext_equal]
pub enum MutationModel {
    Put { key: Seq<u8>, value: ValueModel, expires_at_unix_ms: Option<i64> },
    Delete { key: Seq<u8> },
}

impl MutationModel {
    pub open spec fn key(self) -> Seq<u8> {
        match self {
            MutationModel::Put { key, .. } => key,
            MutationModel::Delete { key } => key,
        }
    }
}

impl Mutation {
    pub open spec fn model(self) -> MutationModel {
        match self {
            Mutation::Put { key, value, expires_at_unix_ms } => MutationModel::Put {
                key: buffer::bytes_content(key),
                value: value.model(),
                expires_at_unix_ms,
            },
            Mutation::Delete { key } => MutationModel::Delete { key: buffer::bytes_content(key) },
        }
    }

    /// Values are sound, and no collection is empty.
    pub open spec fn wf(&self) -> bool {
        *self matches Mutation::Put { value, .. } ==> value.wf() && value::storable(value.model())
    }

    pub fn key(&self) -> (result: &Bytes)
        ensures
            buffer::bytes_content(*result) == self.model().key(),
    {
        match self {
            Mutation::Put { key, .. } => key,
            Mutation::Delete { key } => key,
        }
    }
}

/// Mutations by content.
pub open spec fn mutation_models(mutations: Seq<Mutation>) -> Seq<MutationModel> {
    mutations.map_values(|mutation: Mutation| mutation.model())
}

/// All mutations are sound.
pub open spec fn all_sound(mutations: Seq<Mutation>) -> bool {
    forall|i: int| 0 <= i < mutations.len() ==> (#[trigger] mutations[i]).wf()
}

/// Upkeep of deadlines is no write of a client.
#[derive(Clone, Copy, Debug, PartialEq, Eq, Structural)]
pub enum MutationOrigin {
    Client,
    Expiration,
}

/// Indivisible unit of persistence; the sequence is assigned by the global writer.
#[derive(Debug, PartialEq)]
pub struct ResolvedBatch {
    pub origin: MutationOrigin,
    pub mutations: Vec<Mutation>,
}

/// What applying does to which version of a store.
pub struct Plan {
    generation: u64,
    /// The final states of the keys that change.
    entries: Vec<(Bytes, Option<Entry>)>,
}

/// Validated result. It is applied to the same store, before another mutation.
pub struct Prepared {
    pub reply: Reply,
    pub batch: ResolvedBatch,
    pub plan: Plan,
}

#[derive(Clone, Copy, Debug, PartialEq, Eq, Structural)]
pub enum ReplayError {
    DuplicateKey,
    Quota,
    Deadline,
}

impl ReplayError {
    pub fn message(self) -> (result: &'static str)
        ensures
            result@ == (match self {
                ReplayError::DuplicateKey => "lote contém chaves duplicadas"@,
                ReplayError::Quota => "dataset recuperado excede a quota configurada"@,
                ReplayError::Deadline => "prazo absoluto não é representável pelo relógio"@,
            }),
    {
        match self {
            ReplayError::DuplicateKey => "lote contém chaves duplicadas",
            ReplayError::Quota => "dataset recuperado excede a quota configurada",
            ReplayError::Deadline => "prazo absoluto não é representável pelo relógio",
        }
    }
}

/// What is recorded of a change.
pub open spec fn mutation_of(change: Change) -> MutationModel {
    match change.entry {
        Some(entry) => MutationModel::Put {
            key: change.key,
            value: entry.value,
            expires_at_unix_ms: match entry.deadline {
                Some(deadline) => Some(deadline.unix_ms),
                None => None,
            },
        },
        None => MutationModel::Delete { key: change.key },
    }
}

/// Whether the changes remove entries that have ended, at most this many, the
/// earliest first. Where there are fewer than may be, none is left that has ended.
pub open spec fn expiring(data: Dataset, changes: Seq<Change>, budget: usize, now: u128) -> bool {
    &&& changes.len() <= budget
    &&& forall|i: int|
        0 <= i < changes.len() ==> {
            let change = #[trigger] changes[i];
            &&& change.entry is None
            &&& data.entries.contains_key(change.key)
            &&& model::is_due(data.entries[change.key], now)
            &&& forall|other: Seq<u8>| #[trigger]
                data.entries.contains_key(other) && data.entries[other].deadline is Some
                    && !changes::change_keys(changes).contains(other)
                    ==> data.entries[change.key].deadline->Some_0.at
                    <= data.entries[other].deadline->Some_0.at
        }
    &&& forall|i: int, j: int|
        #![trigger changes[i], changes[j]]
        0 <= i < j < changes.len() ==> data.entries[changes[i].key].deadline->Some_0.at
            <= data.entries[changes[j].key].deadline->Some_0.at
    &&& changes.len() < budget ==> forall|key: Seq<u8>| #[trigger]
        data.entries.contains_key(key) && model::is_due(data.entries[key], now)
            ==> changes::change_keys(changes).contains(key)
}

/// Whether the command only reads: what it changes is upkeep.
pub open spec fn is_read(command: Command) -> bool {
    match command {
        Command::Get { .. } => true,
        Command::MGet { .. } => true,
        Command::Exists { .. } => true,
        Command::Ttl { .. } => true,
        Command::Hash { operation, .. } => operation is Get || operation is Exists || operation
            is Len || operation is GetAll,
        Command::List { operation, .. } => operation is Len || operation is Range,
        Command::SetCollection { operation, .. } => operation is IsMember || operation is Card
            || operation is Members,
        Command::SortedSet { operation, .. } => operation is Score || operation is Card
            || operation is Range,
        _ => false,
    }
}

fn reads(command: &Command) -> (result: bool)
    ensures
        result == is_read(*command),
{
    match command {
        Command::Get { .. } => true,
        Command::MGet { .. } => true,
        Command::Exists { .. } => true,
        Command::Ttl { .. } => true,
        Command::Hash { operation, .. } => match operation {
            HashCommand::Get { .. } => true,
            HashCommand::Exists { .. } => true,
            HashCommand::Len => true,
            HashCommand::GetAll => true,
            _ => false,
        },
        Command::List { operation, .. } => match operation {
            ListCommand::Len => true,
            ListCommand::Range { .. } => true,
            _ => false,
        },
        Command::SetCollection { operation, .. } => match operation {
            SetCommand::IsMember { .. } => true,
            SetCommand::Card => true,
            SetCommand::Members => true,
            _ => false,
        },
        Command::SortedSet { operation, .. } => match operation {
            SortedSetCommand::Score { .. } => true,
            SortedSetCommand::Card => true,
            SortedSetCommand::Range { .. } => true,
            _ => false,
        },
        _ => false,
    }
}

/// What a prepared entry makes of its key.
pub open spec fn change_of(entry: (Bytes, Option<Entry>)) -> Change {
    Change {
        key: buffer::bytes_content(entry.0),
        entry: match entry.1 {
            Some(entry) => Some(entry.model()),
            None => None,
        },
    }
}

pub open spec fn changes_in(entries: Seq<(Bytes, Option<Entry>)>) -> Seq<Change> {
    entries.map_values(|entry: (Bytes, Option<Entry>)| change_of(entry))
}

/// All entries are sound.
pub open spec fn sound_entries(entries: Seq<(Bytes, Option<Entry>)>) -> bool {
    forall|i: int| 0 <= i < entries.len() ==> ((#[trigger] entries[i]).1 matches Some(entry)
        ==> entry.wf())
}

impl Plan {
    /// The final states as changes.
    pub closed spec fn changes(&self) -> Seq<Change> {
        changes_in(self.entries@)
    }

    /// The version of the store that it was made for.
    pub closed spec fn version(&self) -> u64 {
        self.generation
    }

    /// All values that will be stored are sound.
    pub closed spec fn sound(&self) -> bool {
        sound_entries(self.entries@)
    }
}

impl Prepared {
    /// What applying will change.
    pub open spec fn changes(&self) -> Seq<Change> {
        self.plan.changes()
    }

    /// The version of the store that this was prepared for.
    pub open spec fn version(&self) -> u64 {
        self.plan.version()
    }

    /// Whether the store is at the version that this was prepared for.
    pub fn is_current(&self, store: &Store) -> (result: bool)
        ensures
            result == (self.version() == store.version()),
    {
        self.plan.generation == store.generation()
    }

    /// The record tells the changes.
    pub open spec fn wf(&self) -> bool {
        &&& self.plan.sound()
        &&& all_sound(self.batch.mutations@)
        &&& mutation_models(self.batch.mutations@) == self.changes().map_values(
            |change: Change| mutation_of(change),
        )
    }

    /// Whether this can be applied to the store.
    pub open spec fn suits(&self, store: &Store) -> bool {
        &&& self.wf()
        &&& self.version() == store.version()
        &&& changes::applicable(store.data(), self.changes())
    }
}

/// The keys that commands name, each once.
pub(crate) fn collect_keys(commands: &Vec<Command>) -> (keys: ByteMap<()>)
    ensures
        keys.wf(),
        keys@.dom() == super::changes::named_by(commands@),
{
    let mut keys: ByteMap<()> = ByteMap::new();
    let mut index: usize = 0;
    assert(keys@.dom() =~= super::changes::named_by(commands@.take(0)));
    while index < commands.len()
        invariant
            keys.wf(),
            index <= commands@.len(),
            keys@.dom() == super::changes::named_by(commands@.take(index as int)),
        decreases commands@.len() - index,
    {
        let ghost known = keys@.dom();
        add_keys(&mut keys, &commands[index]);
        proof {
            let part = commands@.take(index as int);
            let more = commands@.take(index + 1);
            assert(keys@.dom() =~= super::changes::named_by(more)) by {
                assert forall|key: Seq<u8>| keys@.dom().contains(key)
                    <==> super::changes::named_by(more).contains(key) by {
                    if known.contains(key) {
                        let i = choose|i: int| 0 <= i < part.len() && changes::names(#[trigger] part[i], key);
                        assert(changes::names(more[i], key));
                    }
                    if changes::names(commands@[index as int], key) {
                        assert(changes::names(more[index as int], key));
                    }
                    if super::changes::named_by(more).contains(key) {
                        let i = choose|i: int| 0 <= i < more.len() && changes::names(#[trigger] more[i], key);
                        if i < index {
                            assert(changes::names(part[i], key));
                        }
                    }
                }
            }
        }
        index += 1;
    }
    assert(commands@.take(index as int) =~= commands@);
    keys
}

fn add_keys(keys: &mut ByteMap<()>, command: &Command)
    requires
        old(keys).wf(),
    ensures
        final(keys).wf(),
        final(keys)@.dom() == old(keys)@.dom().union(changes::named(*command)),
{
    let list = command.visit_keys();
    let ghost all = command.key_seq();
    let ghost known = keys@.dom();
    let mut index: usize = 0;
    while index < list.len()
        invariant
            keys.wf(),
            index <= list@.len(),
            all == command.key_seq(),
            all.len() == list@.len(),
            forall|i: int| 0 <= i < list@.len() ==> *(#[trigger] list@[i]) == all[i],
            forall|key: Seq<u8>| #[trigger]
                keys@.dom().contains(key) <==> known.contains(key) || exists|i: int|
                    0 <= i < index && buffer::bytes_content(#[trigger] all[i]) == key,
        decreases list@.len() - index,
    {
        let ghost before = keys@.dom();
        let _ = keys.insert(list[index].clone(), ());
        proof {
            let name = buffer::bytes_content(all[index as int]);
            assert forall|key: Seq<u8>| #[trigger] keys@.dom().contains(key) <==> known.contains(
                key,
            ) || exists|i: int| 0 <= i < index + 1 && buffer::bytes_content(#[trigger] all[i]) == key by {
                assert(keys@.dom().contains(key) <==> before.contains(key) || key == name);
                if before.contains(key) && !known.contains(key) {
                    let i = choose|i: int| 0 <= i < index && buffer::bytes_content(#[trigger] all[i]) == key;
                    assert(buffer::bytes_content(all[i]) == key);
                }
                if key == name {
                    assert(buffer::bytes_content(all[index as int]) == key);
                }
            }
        }
        index += 1;
    }
    proof {
        assert(keys@.dom() =~= known.union(changes::named(*command))) by {
            assert forall|key: Seq<u8>| keys@.dom().contains(key) <==> known.union(
                changes::named(*command),
            ).contains(key) by {
                if changes::names(*command, key) {
                    let i = choose|i: int|
                        0 <= i < command.key_seq().len() && buffer::bytes_content(
                            #[trigger] command.key_seq()[i],
                        ) == key;
                    assert(buffer::bytes_content(all[i]) == key);
                }
            }
        }
    }
}

/// The keys of a map as a list.
pub(crate) fn list_keys(keys: &ByteMap<()>) -> (list: Vec<Bytes>)
    ensures
        list@.len() == keys.items@.len(),
        forall|i: int| 0 <= i < list@.len() ==> buffer::bytes_content(#[trigger] list@[i]) == keys.key_at(i),
{
    let mut list: Vec<Bytes> = Vec::new();
    let mut index: usize = 0;
    while index < keys.items.len()
        invariant
            index <= keys.items@.len(),
            list@.len() == index,
            forall|i: int|
                0 <= i < index ==> buffer::bytes_content(#[trigger] list@[i]) == keys.key_at(i),
        decreases keys.items@.len() - index,
    {
        list.push(keys.items[index].0.clone());
        index += 1;
    }
    list
}

/// The final states of the observed keys that the trace touched.
pub(crate) fn collect_changes(
    shadow: &Store,
    tokens: &Vec<WatchToken>,
    keys: &ByteMap<()>,
    Ghost(before): Ghost<&Store>,
    Ghost(trace): Ghost<Trace>,
) -> (entries: Vec<(Bytes, Option<Entry>)>)
    requires
        shadow.reached(before, trace),
        keys.wf(),
        trace.touched.subset_of(keys@.dom()),
        tokens@.len() == keys.items@.len(),
        forall|i: int|
            0 <= i < tokens@.len() ==> {
                &&& buffer::bytes_content((#[trigger] tokens@[i]).observed()) == keys.key_at(i)
                &&& !watch::is_invalidated(before.watched(), tokens@[i])
            },
    ensures
        sound_entries(entries@),
        changes_in(entries@) == changes::changes_of(trace),
{
    proof {
        shadow.lemma_reached(before, trace);
        keys.lemma_keys();
    }
    let ghost all = keys.keys();
    let mut entries: Vec<(Bytes, Option<Entry>)> = Vec::new();
    let mut index: usize = 0;
    let ghost mut kept: Seq<Seq<u8>> = Seq::empty();
    while index < tokens.len()
        invariant
            shadow.wf(),
            shadow.data() == trace.data,
            shadow.watched() == before.watched().remove_keys(trace.touched),
            all == keys.keys(),
            ordered::ascending(all),
            tokens@.len() == keys.items@.len(),
            index <= tokens@.len(),
            forall|i: int|
                0 <= i < tokens@.len() ==> {
                    &&& buffer::bytes_content((#[trigger] tokens@[i]).observed()) == keys.key_at(i)
                    &&& !watch::is_invalidated(before.watched(), tokens@[i])
                },
            sound_entries(entries@),
            entries@.len() == kept.len(),
            forall|i: int|
                0 <= i < kept.len() ==> change_of(#[trigger] entries@[i]) == (Change {
                    key: kept[i],
                    entry: changes::entry_at(trace.data, kept[i]),
                }),
            ordered::ascending(kept),
            forall|key: Seq<u8>| #[trigger]
                kept.contains(key) <==> trace.touched.contains(key) && all.take(
                    index as int,
                ).contains(key),
        decreases tokens@.len() - index,
    {
        let ghost part = all.take(index as int);
        let ghost more = all.take(index + 1);
        let ghost name = keys.key_at(index as int);
        let token = &tokens[index];
        assert(!watch::is_invalidated(before.watched(), tokens@[index as int]));
        assert(more =~= part.push(name));
        if shadow.invalidated(token) {
            let entry: Option<Entry> = match shadow.lookup(as_slice(token.key())) {
                Some(entry) => Some(entry.duplicate()),
                None => None,
            };
            let ghost former = kept;
            entries.push((token.key().clone(), entry));
            proof {
                kept = kept.push(name);
                assert(trace.touched.contains(name));
                assert forall|i: int, j: int|
                    #![trigger kept[i], kept[j]]
                    0 <= i < j < kept.len() implies ordered::precedes(kept[i], kept[j]) by {
                    if j == former.len() {
                        assert(former.contains(former[i]));
                        assert(part.contains(former[i]));
                        let p = choose|p: int| 0 <= p < part.len() && part[p] == former[i];
                        assert(ordered::precedes(all[p], all[index as int]));
                    } else {
                        assert(ordered::precedes(former[i], former[j]));
                    }
                }
                assert forall|key: Seq<u8>| #[trigger] kept.contains(key)
                    <==> trace.touched.contains(key) && more.contains(key) by {
                    lemma_push_contains(former, name, key);
                    lemma_push_contains(part, name, key);
                    assert(former.contains(key) <==> trace.touched.contains(key) && part.contains(
                        key,
                    ));
                }
                assert forall|i: int| 0 <= i < kept.len() implies change_of(
                    #[trigger] entries@[i],
                ) == (Change { key: kept[i], entry: changes::entry_at(trace.data, kept[i]) }) by {}
            }
        } else {
            proof {
                assert(!trace.touched.contains(name));
                assert forall|key: Seq<u8>| #[trigger] kept.contains(key)
                    <==> trace.touched.contains(key) && more.contains(key) by {
                    lemma_push_contains(part, name, key);
                }
            }
        }
        index += 1;
    }
    proof {
        assert(all.take(index as int) =~= all);
        assert(ordered::is_listing(kept, trace.touched)) by {
            assert forall|key: Seq<u8>| #[trigger] trace.touched.contains(key) <==> kept.contains(
                key,
            ) by {
                if trace.touched.contains(key) {
                    assert(keys@.dom().contains(key));
                    assert(all.contains(key));
                }
            }
        }
        ordered::lemma_listing_unique(kept, ordered::listing(trace.touched), trace.touched);
        assert(changes_in(entries@) =~= changes::changes_of(trace)) by {
            assert forall|i: int| 0 <= i < kept.len() implies changes_in(entries@)[i] == changes::changes_of(
                trace,
            )[i] by {
                assert(change_of(entries@[i]) == changes_in(entries@)[i]);
            }
        }
    }
    entries
}

proof fn lemma_push_contains(items: Seq<Seq<u8>>, last: Seq<u8>, key: Seq<u8>)
    ensures
        items.push(last).contains(key) <==> items.contains(key) || key == last,
{
    let grown = items.push(last);
    if items.contains(key) {
        let i = choose|i: int| 0 <= i < items.len() && items[i] == key;
        assert(grown[i] == key);
    }
    if key == last {
        assert(grown[items.len() as int] == key);
    }
    if grown.contains(key) {
        let i = choose|i: int| 0 <= i < grown.len() && grown[i] == key;
        if i < items.len() {
            assert(items[i] == key);
        }
    }
}

impl Store {
    /// Resolves conditions, integers, deadlines and quota without copying or
    /// changing the dataset. The temporary copy holds the keys of the command.
    pub fn prepare(&self, command: Command, moment: Moment) -> (result: Prepared)
        requires
            self.wf(),
        ensures
            result.suits(self),
            result.reply.model() == model::ran(model::begin(self.data()), command, moment).1,
            result.changes() == changes::changes_of(model::ran(model::begin(self.data()), command, moment).0),
            result.batch.origin == if is_read(command) {
                MutationOrigin::Expiration
            } else {
                MutationOrigin::Client
            },
    {
        let origin = if reads(&command) {
            MutationOrigin::Expiration
        } else {
            MutationOrigin::Client
        };
        let mut keys: ByteMap<()> = ByteMap::new();
        add_keys(&mut keys, &command);
        assert(keys@.dom() =~= changes::named(command));
        let (mut shadow, tokens) = self.observed_shadow(&keys);
        let ghost before = shadow;
        let ghost data = self.data();
        let ghost part = model::begin(shadow.data());
        let ghost full = model::begin(data);
        proof {
            shadow.lemma_start();
            changes::lemma_link_begin(data, keys@.dom());
            changes::lemma_link_ran(data, full, part, keys@.dom(), command, moment);
        }
        let reply = shadow.execute_inner(command, moment, Ghost(&before), Ghost(part));
        let ghost trace = model::ran(part, command, moment).0;
        let entries = collect_changes(&shadow, &tokens, &keys, Ghost(&before), Ghost(trace));
        proof {
            self.lemma_applicable(&shadow, &before, model::ran(full, command, moment).0, trace, keys@.dom());
        }
        self.prepared(reply, entries, origin)
    }

    /// The store of some keys, with an observation of each.
    pub(crate) fn observed_shadow(&self, keys: &ByteMap<()>) -> (result: (Store, Vec<WatchToken>))
        requires
            self.wf(),
            keys.wf(),
        ensures
            result.0.wf(),
            result.0.data() == (Dataset {
                entries: self.data().entries.restrict(keys@.dom()),
                ..self.data()
            }),
            result.1@.len() == keys.items@.len(),
            forall|i: int|
                0 <= i < result.1@.len() ==> {
                    &&& buffer::bytes_content((#[trigger] result.1@[i]).observed()) == keys.key_at(i)
                    &&& !watch::is_invalidated(result.0.watched(), result.1@[i])
                },
    {
        let mut shadow = self.shadow(keys);
        let list = list_keys(keys);
        let ghost names = list@;
        let count: usize = list.len();
        let tokens = shadow.watch(list);
        proof {
            assert(0 + names.len() == count);
            assert forall|i: int| 0 <= i < tokens@.len() implies {
                &&& buffer::bytes_content((#[trigger] tokens@[i]).observed()) == keys.key_at(i)
                &&& !watch::is_invalidated(shadow.watched(), tokens@[i])
            } by {
                assert(store::observes(shadow.data(), shadow.watched(), tokens@[i], names[i]));
                assert(tokens@[i].id() is Some);
            }
        }
        (shadow, tokens)
    }

    /// What a shadow led to can be applied to the real store.
    pub(crate) proof fn lemma_applicable(
        &self,
        shadow: &Store,
        before: &Store,
        full: Trace,
        part: Trace,
        keys: Set<Seq<u8>>,
    )
        requires
            changes::linked(self.data(), full, part, keys),
            shadow.reached(before, part),
        ensures
            changes::changes_of(part) == changes::changes_of(full),
            changes::applicable(self.data(), changes::changes_of(full)),
    {
        shadow.lemma_reached(before, part);
        shadow.lemma_data();
        changes::lemma_changes_suffice(self.data(), full);
        let list = ordered::listing(full.touched);
        let changes = changes::changes_of(full);
        assert forall|i: int| 0 <= i < list.len() implies changes::entry_at(full.data, #[trigger] list[i])
            == changes::entry_at(part.data, list[i]) by {
            assert(list.contains(list[i]));
            assert(full.touched.contains(list[i]));
            assert(keys.contains(list[i]));
        }
        assert(changes::changes_of(part) =~= changes::changes_of(full));
        assert forall|i: int| 0 <= i < changes.len() implies ((#[trigger] changes[i]).entry matches Some(
            entry,
        ) ==> value::storable(entry.value)) by {
            assert(changes[i].entry == changes::entry_at(part.data, list[i]));
        }
    }

    /// Prepares removals of at most `budget` entries that have ended, the
    /// earliest first; no key is removed before the record is written.
    pub fn prepare_expiration(&self, budget: usize, now: u128) -> (result: Prepared)
        requires
            self.wf(),
        ensures
            result.suits(self),
            result.batch.origin == MutationOrigin::Expiration,
            result.reply.model() == ReplyModel::Integer(result.changes().len() as i64),
            expiring(self.data(), result.changes(), budget, now),
    {
        let keys = self.due(budget, now);
        let mut entries: Vec<(Bytes, Option<Entry>)> = Vec::new();
        let mut index: usize = 0;
        while index < keys.len()
            invariant
                index <= keys@.len(),
                entries@.len() == index,
                forall|i: int|
                    0 <= i < index ==> (#[trigger] entries@[i]).1 is None && buffer::bytes_content(
                        entries@[i].0,
                    ) == buffer::bytes_content(keys@[i]),
            decreases keys@.len() - index,
        {
            entries.push((keys[index].clone(), None));
            index += 1;
        }
        let ghost changes = changes_in(entries@);
        proof {
            assert(sound_entries(entries@));
            assert forall|i: int| 0 <= i < changes.len() implies (#[trigger] changes[i]).entry is None
                && changes[i].key == buffer::bytes_content(keys@[i]) by {
                assert(change_of(entries@[i]) == changes[i]);
            }
            assert forall|i: int| 0 <= i < changes.len() implies #[trigger] changes::change_keys(changes)[i]
                == buffer::bytes_content(keys@[i]) by {
                assert(changes::change_keys(changes)[i] == changes[i].key);
            }
            assert(accounting::distinct(changes::change_keys(changes)));
            self.lemma_data();
            lemma_removals(changes);
            super::accounting::lemma_costs_nonnegative(self.data(), changes::change_keys(changes));
            assert forall|key: Seq<u8>| #[trigger] changes::change_keys(changes).contains(key)
                <==> exists|i: int| 0 <= i < keys@.len() && buffer::bytes_content(#[trigger] keys@[i]) == key by {
                if changes::change_keys(changes).contains(key) {
                    let i = choose|i: int|
                        0 <= i < changes::change_keys(changes).len() && changes::change_keys(changes)[i] == key;
                    assert(buffer::bytes_content(keys@[i]) == key);
                }
                if exists|i: int| 0 <= i < keys@.len() && buffer::bytes_content(#[trigger] keys@[i]) == key {
                    let i = choose|i: int|
                        0 <= i < keys@.len() && buffer::bytes_content(#[trigger] keys@[i]) == key;
                    assert(changes::change_keys(changes)[i] == key);
                }
            }
        }
        let count: usize = entries.len();
        self.prepared(Reply::Integer(count as i64), entries, MutationOrigin::Expiration)
    }

    pub(crate) fn prepared(
        &self,
        reply: Reply,
        entries: Vec<(Bytes, Option<Entry>)>,
        origin: MutationOrigin,
    ) -> (result: Prepared)
        requires
            sound_entries(entries@),
        ensures
            result.wf(),
            result.reply == reply,
            result.batch.origin == origin,
            result.version() == self.version(),
            result.changes() == changes_in(entries@),
    {
        let mut mutations: Vec<Mutation> = Vec::new();
        let mut index: usize = 0;
        while index < entries.len()
            invariant
                sound_entries(entries@),
                index <= entries@.len(),
                mutations@.len() == index,
                all_sound(mutations@),
                forall|i: int|
                    0 <= i < index ==> (#[trigger] mutations@[i]).model() == mutation_of(
                        change_of(entries@[i]),
                    ),
            decreases entries@.len() - index,
        {
            let item = &entries[index];
            let mutation = match &item.1 {
                Some(entry) => Mutation::Put {
                    key: item.0.clone(),
                    value: entry.value.duplicate(),
                    expires_at_unix_ms: match entry.deadline {
                        Some(deadline) => Some(deadline.unix_ms),
                        None => None,
                    },
                },
                None => Mutation::Delete { key: item.0.clone() },
            };
            mutations.push(mutation);
            index += 1;
        }
        let result = Prepared {
            reply,
            batch: ResolvedBatch { origin, mutations },
            plan: Plan { generation: self.generation(), entries },
        };
        assert(mutation_models(result.batch.mutations@) =~= result.changes().map_values(
            |change: Change| mutation_of(change),
        ));
        result
    }

    /// Applies without looking at conditions, quota or clock again. The owner
    /// does not interleave preparations.
    pub fn apply(&mut self, prepared: Prepared) -> (reply: Reply)
        requires
            old(self).wf(),
            prepared.suits(old(self)),
        ensures
            final(self).wf(),
            reply == prepared.reply,
            final(self).data() == changes::applied(old(self).data(), prepared.changes()),
            final(self).watched() == old(self).watched().remove_keys(
                changes::change_keys(prepared.changes()).to_set(),
            ),
            final(self).next_watch() == old(self).next_watch(),
            final(self).outside() == old(self).outside(),
            final(self).version() == changes::later(
                old(self).version(),
                changes::moves(old(self).data(), prepared.changes()),
            ),
    {
        self.commit(&prepared.plan.entries);
        prepared.reply
    }

    /// Makes the changes: all keys leave first, so that usage never peaks.
    fn commit(&mut self, entries: &Vec<(Bytes, Option<Entry>)>)
        requires
            old(self).wf(),
            sound_entries(entries@),
            changes::applicable(old(self).data(), changes_in(entries@)),
        ensures
            final(self).wf(),
            final(self).data() == changes::applied(old(self).data(), changes_in(entries@)),
            final(self).watched() == old(self).watched().remove_keys(
                changes::change_keys(changes_in(entries@)).to_set(),
            ),
            final(self).next_watch() == old(self).next_watch(),
            final(self).outside() == old(self).outside(),
            final(self).version() == changes::later(
                old(self).version(),
                changes::moves(old(self).data(), changes_in(entries@)),
            ),
    {
        let ghost changes = changes_in(entries@);
        let ghost keys = changes::change_keys(changes);
        let ghost data = self.data();
        let ghost watches = self.watched();
        proof {
            self.lemma_data();
            assert(keys.take(0) =~= Seq::<Seq<u8>>::empty());
            assert(data.entries.remove_keys(keys.take(0).to_set()) =~= data.entries);
            assert(watches.remove_keys(keys.take(0).to_set()) =~= watches);
            assert(changes.take(0) =~= Seq::<Change>::empty());
            changes::lemma_later(self.version(), 0, 0);
        }
        let mut index: usize = 0;
        while index < entries.len()
            invariant
                self.wf(),
                index <= entries@.len(),
                changes == changes_in(entries@),
                keys == changes::change_keys(changes),
                accounting::distinct(keys),
                data == old(self).data(),
                watches == old(self).watched(),
                self.data().entries == data.entries.remove_keys(keys.take(index as int).to_set()),
                self.data().used == data.used - model::costs_of(data, keys.take(index as int)),
                self.data().limit == data.limit,
                self.watched() == watches.remove_keys(keys.take(index as int).to_set()),
                self.next_watch() == old(self).next_watch(),
                self.outside() == old(self).outside(),
                self.version() == changes::later(
                    old(self).version(),
                    changes::leaving(data, changes.take(index as int)),
                ),
            decreases entries@.len() - index,
        {
            let ghost part = keys.take(index as int);
            let ghost more = keys.take(index + 1);
            let ghost name = keys[index as int];
            proof {
                assert(change_of(entries@[index as int]) == changes[index as int]);
                assert(name == buffer::bytes_content(entries@[index as int].0));
                assert(more.drop_last() =~= part);
                assert(more =~= part.push(name));
                assert(!part.contains(name)) by {
                    if part.contains(name) {
                        let i = choose|i: int| 0 <= i < part.len() && part[i] == name;
                        assert(keys[i] != keys[index as int]);
                    }
                }
                assert(more.to_set() =~= part.to_set().insert(name)) by {
                    assert forall|key: Seq<u8>| more.to_set().contains(key)
                        <==> part.to_set().insert(name).contains(key) by {
                        lemma_push_contains(part, name, key);
                    }
                }
                assert(data.entries.remove_keys(part.to_set()).remove(name)
                    =~= data.entries.remove_keys(more.to_set()));
                if !data.entries.contains_key(name) {
                    assert(data.entries.remove_keys(part.to_set()) =~= data.entries.remove_keys(
                        more.to_set(),
                    ));
                }
                assert(watches.remove_keys(part.to_set()).remove(name) =~= watches.remove_keys(
                    more.to_set(),
                ));
                assert(watches.remove_keys(more.to_set()).remove(name) =~= watches.remove_keys(
                    more.to_set(),
                ));
                assert(model::cost_of(self.data(), name) == model::cost_of(data, name));
                assert(changes.take(index + 1).drop_last() =~= changes.take(index as int));
                assert(changes.take(index + 1).last() == changes[index as int]);
                assert(self.data().entries.contains_key(name) == data.entries.contains_key(name));
                changes::lemma_later(
                    old(self).version(),
                    changes::leaving(data, changes.take(index as int)),
                    1,
                );
                changes::lemma_later(
                    old(self).version(),
                    changes::leaving(data, changes.take(index as int)),
                    0,
                );
            }
            let key = as_slice(&entries[index].0);
            let _ = self.remove(key);
            self.touch(key);
            index += 1;
        }
        proof {
            assert(keys.take(index as int) =~= keys);
            assert(changes.take(index as int) =~= changes);
            assert(changes.take(0) =~= Seq::<Change>::empty());
        }
        let ghost cleared = self.data();
        index = 0;
        while index < entries.len()
            invariant
                self.wf(),
                index <= entries@.len(),
                sound_entries(entries@),
                changes == changes_in(entries@),
                keys == changes::change_keys(changes),
                accounting::distinct(keys),
                cleared.entries == data.entries.remove_keys(keys.to_set()),
                cleared.used == data.used - model::costs_of(data, keys),
                changes::applied(data, changes).used <= usize::MAX,
                self.data().entries == changes::changed_entries(
                    cleared.entries,
                    changes.take(index as int),
                ),
                self.data().used == cleared.used + changes::change_costs(changes.take(index as int)),
                self.data().limit == data.limit,
                watches == old(self).watched(),
                self.watched() == watches.remove_keys(keys.to_set()),
                self.next_watch() == old(self).next_watch(),
                self.outside() == old(self).outside(),
                self.version() == changes::later(
                    old(self).version(),
                    changes::leaving(data, changes) + changes::entering(changes.take(index as int)),
                ),
            decreases entries@.len() - index,
        {
            let ghost part = changes.take(index as int);
            let ghost more = changes.take(index + 1);
            let ghost name = keys[index as int];
            proof {
                assert(change_of(entries@[index as int]) == changes[index as int]);
                assert(more.drop_last() =~= part);
                assert(more.last() == changes[index as int]);
                lemma_costs_grow(changes, index + 1);
                assert(keys.contains(name));
                assert(keys.to_set().contains(name));
                assert(changes::change_keys(part) =~= keys.take(index as int));
                accounting::lemma_distinct_take(keys, index as int);
                assert(!changes::change_keys(part).contains(name)) by {
                    if changes::change_keys(part).contains(name) {
                        let i = choose|i: int|
                            0 <= i < changes::change_keys(part).len() && changes::change_keys(part)[i] == name;
                        assert(keys[i] != keys[index as int]);
                    }
                }
                changes::lemma_changed_entries(cleared.entries, part, name);
                assert(model::cost_of(self.data(), name) == 0);
                assert(watches.remove_keys(keys.to_set()).remove(name) =~= watches.remove_keys(
                    keys.to_set(),
                ));
                assert(self.data().entries.remove(name) =~= self.data().entries);
                changes::lemma_later(
                    old(self).version(),
                    changes::leaving(data, changes) + changes::entering(part),
                    1,
                );
            }
            let item = &entries[index];
            if let Some(entry) = &item.1 {
                assert(entry.wf());
                self.insert(item.0.clone(), entry.value.duplicate(), entry.deadline);
            }
            index += 1;
        }
        proof {
            assert(changes.take(index as int) =~= changes);
            lemma_cleared(data.entries, changes);
        }
    }

    /// Consistent and ordered snapshot; immutable values share storage.
    /// Entries that have ended are kept with their deadline.
    pub fn snapshot(&self) -> (result: Vec<Mutation>)
        requires
            self.wf(),
        ensures
            all_sound(result@),
            mutation_models(result@) == snapshot_of(self.data()),
    {
        let items = self.items();
        let ghost data = self.data();
        let mut result: Vec<Mutation> = Vec::new();
        let mut index: usize = 0;
        while index < items.items.len()
            invariant
                items.wf(),
                data.entries == items@.map_values(|entry: Entry| entry.model()),
                forall|key: Seq<u8>| #[trigger] items@.contains_key(key) ==> items@[key].wf(),
                index <= items.items@.len(),
                result@.len() == index,
                all_sound(result@),
                forall|i: int|
                    0 <= i < index ==> (#[trigger] result@[i]).model() == mutation_of(
                        Change { key: items.key_at(i), entry: changes::entry_at(data, items.key_at(i)) },
                    ),
            decreases items.items@.len() - index,
        {
            proof {
                items.lemma_at(index as int);
            }
            let item = &items.items[index];
            result.push(
                Mutation::Put {
                    key: item.0.clone(),
                    value: item.1.value.duplicate(),
                    expires_at_unix_ms: match item.1.deadline {
                        Some(deadline) => Some(deadline.unix_ms),
                        None => None,
                    },
                },
            );
            index += 1;
        }
        proof {
            items.lemma_keys();
            assert(data.entries.dom() =~= items@.dom());
            assert(mutation_models(result@) =~= snapshot_of(data));
        }
        result
    }

    /// Validates a whole received batch without changing the store; an entry that
    /// has ended becomes a removal and does not bring an earlier value back.
    pub fn prepare_replay(
        &self,
        mutations: &[Mutation],
        origin: MutationOrigin,
        moment: Moment,
    ) -> (result: Result<Prepared, ReplayError>)
        requires
            self.wf(),
            all_sound(mutations@),
        ensures
            match (result, replay_outcome(self.data(), mutation_models(mutations@), moment)) {
                (Ok(prepared), Ok(changes)) => {
                    &&& prepared.suits(self)
                    &&& prepared.changes() == changes
                    &&& prepared.batch.origin == origin
                    &&& prepared.reply.model() == ReplyModel::Okay
                },
                (Err(error), Err(fault)) => error == fault,
                _ => false,
            },
    {
        let ghost data = self.data();
        let ghost models = mutation_models(mutations@);
        let ghost keys = mutation_keys(models);
        let mut seen: ByteMap<()> = ByteMap::new();
        let mut used: usize = self.used_bytes();
        let mut index: usize = 0;
        proof {
            self.lemma_data();
            assert(keys.take(0) =~= Seq::<Seq<u8>>::empty());
        }
        while index < mutations.len()
            invariant
                self.wf(),
                data == self.data(),
                models == mutation_models(mutations@),
                keys == mutation_keys(models),
                index <= mutations@.len(),
                seen.wf(),
                accounting::distinct(keys.take(index as int)),
                forall|key: Seq<u8>| #[trigger]
                    seen@.contains_key(key) <==> keys.take(index as int).contains(key),
                used == data.used - model::costs_of(data, keys.take(index as int)),
            decreases mutations@.len() - index,
        {
            let ghost part = keys.take(index as int);
            let ghost more = keys.take(index + 1);
            let ghost name = keys[index as int];
            let key = mutations[index].key();
            proof {
                assert(models[index as int] == mutations@[index as int].model());
                assert(name == buffer::bytes_content(*key));
                assert(more =~= part.push(name));
                assert(more.drop_last() =~= part);
            }
            if seen.insert(key.clone(), ()).is_some() {
                proof {
                    assert(part.contains(name));
                    let i = choose|i: int| 0 <= i < part.len() && part[i] == name;
                    assert(keys[i] == keys[index as int]);
                    assert(!accounting::distinct(keys));
                }
                return Err(ReplayError::DuplicateKey);
            }
            proof {
                assert(!part.contains(name));
                assert(accounting::distinct(more)) by {
                    assert forall|i: int, j: int| 0 <= i < j < more.len() implies #[trigger] more[i]
                        != #[trigger] more[j] by {
                        if j == index {
                            assert(part.contains(part[i]));
                        } else {
                            assert(part[i] != part[j]);
                        }
                    }
                }
                assert forall|other: Seq<u8>| #[trigger] seen@.contains_key(other)
                    <==> more.contains(other) by {
                    lemma_push_contains(part, name, other);
                }
                self.lemma_costs_fit(more);
            }
            if let Some(entry) = self.lookup(as_slice(key)) {
                match Store::entry_bytes(as_slice(key), &entry.value) {
                    None => {
                        proof {
                            self.lemma_data();
                            assert(model::cost_of(data, name) <= data.used - self.outside());
                        }
                        return Err(ReplayError::Quota);
                    },
                    Some(size) => {
                        used = used - size;
                    },
                }
            }
            index += 1;
        }
        assert(keys.take(index as int) =~= keys);
        let ghost base = used as int;
        let mut entries: Vec<(Bytes, Option<Entry>)> = Vec::new();
        index = 0;
        proof {
            assert(models.take(0) =~= Seq::<MutationModel>::empty());
            assert(changes_in(entries@) =~= Seq::<Change>::empty());
        }
        while index < mutations.len()
            invariant
                self.wf(),
                data == self.data(),
                models == mutation_models(mutations@),
                keys == mutation_keys(models),
                accounting::distinct(keys),
                all_sound(mutations@),
                index <= mutations@.len(),
                base == data.used - model::costs_of(data, keys),
                0 <= base,
                sound_entries(entries@),
                entries@.len() == index,
                resolved_all(models.take(index as int), base, moment) == Ok::<
                    Seq<Change>,
                    ReplayError,
                >(changes_in(entries@)),
                used == base + changes::change_costs(changes_in(entries@)),
            decreases mutations@.len() - index,
        {
            let ghost before = changes_in(entries@);
            let mutation = &mutations[index];
            proof {
                assert(models.take(index + 1).drop_last() =~= models.take(index as int));
                assert(models.take(index + 1).last() == mutation.model());
                assert(mutation.wf());
                lemma_change_costs_nonnegative(before);
                if let Ok(left) = resolved(mutation.model(), moment) {
                    let change = Change { key: mutation.model().key(), entry: left };
                    assert(before.push(change).drop_last() =~= before);
                }
                if resolved_all(models.take(index + 1), base, moment) is Err {
                    lemma_resolved_fault(models, base, moment, index + 1);
                    assert(models.take(models.len() as int) =~= models);
                }
            }
            let entry: Option<Entry> = match mutation {
                Mutation::Delete { .. } => None,
                Mutation::Put { key, value, expires_at_unix_ms } => {
                    let ended = match expires_at_unix_ms {
                        Some(deadline) => *deadline <= moment.unix_ms,
                        None => false,
                    };
                    if ended {
                        None
                    } else {
                        let deadline: Option<Deadline> = match expires_at_unix_ms {
                            None => None,
                            Some(unix_ms) => {
                                let left: u128 = ((*unix_ms as i128) - (moment.unix_ms as i128)) as u128;
                                match moment.now.checked_add(left * 1_000_000) {
                                    None => return Err(ReplayError::Deadline),
                                    Some(at) => Some(Deadline { at, unix_ms: *unix_ms }),
                                }
                            },
                        };
                        let size: usize = match Store::entry_bytes(as_slice(key), value) {
                            None => return Err(ReplayError::Quota),
                            Some(size) => size,
                        };
                        used = match used.checked_add(size) {
                            None => return Err(ReplayError::Quota),
                            Some(sum) => sum,
                        };
                        Some(Entry { value: value.duplicate(), deadline, generation: 0 })
                    }
                },
            };
            entries.push((mutation.key().clone(), entry));
            proof {
                let change = change_of(entries@[index as int]);
                assert(changes_in(entries@) =~= before.push(change));
                assert(before.push(change).drop_last() =~= before);
            }
            index += 1;
        }
        assert(models.take(index as int) =~= models);
        if used > self.config().max_dataset_bytes {
            return Err(ReplayError::Quota);
        }
        proof {
            let changes = changes_in(entries@);
            lemma_resolved_keys(models, base, moment);
            assert(changes::change_keys(changes) == keys);
            assert forall|i: int| 0 <= i < changes.len() implies ((
            #[trigger] changes[i]).entry matches Some(entry) ==> value::storable(entry.value)) by {
                assert(change_of(entries@[i]) == changes[i]);
                assert(entries@[i].1 matches Some(entry) ==> entry.wf());
            }
        }
        Ok(self.prepared(Reply::Okay, entries, origin))
    }

    /// Validates the whole batch before applying it.
    pub fn replay(&mut self, mutations: &[Mutation], moment: Moment) -> (result: Result<
        (),
        ReplayError,
    >)
        requires
            old(self).wf(),
            all_sound(mutations@),
        ensures
            final(self).wf(),
            final(self).outside() == old(self).outside(),
            final(self).next_watch() == old(self).next_watch(),
            match (result, replay_outcome(old(self).data(), mutation_models(mutations@), moment)) {
                (Ok(_), Ok(changes)) => {
                    &&& final(self).data() == changes::applied(old(self).data(), changes)
                    &&& final(self).watched() == old(self).watched().remove_keys(
                        changes::change_keys(changes).to_set(),
                    )
                    &&& final(self).version() == changes::later(
                        old(self).version(),
                        changes::moves(old(self).data(), changes),
                    )
                },
                (Err(error), Err(fault)) => {
                    &&& error == fault
                    &&& final(self).data() == old(self).data()
                    &&& final(self).watched() == old(self).watched()
                    &&& final(self).version() == old(self).version()
                },
                _ => false,
            },
    {
        match self.prepare_replay(mutations, MutationOrigin::Client, moment) {
            Err(error) => Err(error),
            Ok(prepared) => {
                let _ = self.apply(prepared);
                Ok(())
            },
        }
    }

    /// Distinct keys take no more than what is in use.
    proof fn lemma_costs_fit(&self, keys: Seq<Seq<u8>>)
        requires
            self.wf(),
            accounting::distinct(keys),
        ensures
            0 <= model::costs_of(self.data(), keys) <= self.data().used,
    {
        super::accounting::lemma_costs_nonnegative(self.data(), keys);
        self.lemma_cost_of_some(keys, keys.len() as int);
        assert(keys.take(keys.len() as int) =~= keys);
        self.lemma_data();
    }

    /// Applies a validated command without suspending. A reply shares its
    /// bytes with the store; changing or removing the key later does not
    /// change a reply that was given.
    pub fn execute(&mut self, command: Command, moment: Moment) -> (reply: Reply)
        requires
            old(self).wf(),
        ensures
            final(self).wf(),
            final(self).data() == model::ran(model::begin(old(self).data()), command, moment).0.data,
            reply.model() == model::ran(model::begin(old(self).data()), command, moment).1,
            final(self).watched() == old(self).watched().remove_keys(
                model::ran(model::begin(old(self).data()), command, moment).0.touched,
            ),
            final(self).next_watch() == old(self).next_watch(),
            final(self).outside() == old(self).outside(),
            final(self).version() == changes::later(
                old(self).version(),
                changes::moves(
                    old(self).data(),
                    changes::changes_of(
                        model::ran(model::begin(old(self).data()), command, moment).0,
                    ),
                ),
            ),
    {
        let ghost data = self.data();
        let ghost after = model::ran(model::begin(data), command, moment).0;
        proof {
            let keys = changes::named(command);
            changes::lemma_link_begin(data, keys);
            changes::lemma_link_ran(
                data,
                model::begin(data),
                model::begin(Dataset { entries: data.entries.restrict(keys), ..data }),
                keys,
                command,
                moment,
            );
            changes::lemma_changes_suffice(data, after);
            assert(ordered::listing(after.touched).to_set() =~= after.touched);
        }
        let prepared = self.prepare(command, moment);
        self.apply(prepared)
    }
}

/// A preparation does not suit a store that was changed after it was made, unless the
/// changes are so many that the count of them comes round.
pub proof fn law_stale_preparations_do_not_suit(
    prepared: Prepared,
    before: &Store,
    changes: Seq<Change>,
    after: &Store,
)
    requires
        prepared.suits(before),
        changes::applied(before.data(), changes).entries != before.data().entries,
        changes::moves(before.data(), changes) < 0x1_0000_0000_0000_0000,
        after.version() == changes::later(
            before.version(),
            changes::moves(before.data(), changes),
        ),
    ensures
        !prepared.suits(after),
{
    changes::law_changes_move_the_version(before.data(), changes, before.version());
}

/// The keys of mutations.
pub open spec fn mutation_keys(mutations: Seq<MutationModel>) -> Seq<Seq<u8>> {
    mutations.map_values(|mutation: MutationModel| mutation.key())
}

/// All entries as mutations, in the order of the keys.
pub open spec fn snapshot_of(data: Dataset) -> Seq<MutationModel> {
    let keys = ordered::listing(data.entries.dom());
    Seq::new(
        keys.len(),
        |i: int| mutation_of(Change { key: keys[i], entry: changes::entry_at(data, keys[i]) }),
    )
}

/// What a replayed mutation leaves under its key. The instant on the monotonic
/// clock follows from the time that is left.
pub open spec fn resolved(mutation: MutationModel, moment: Moment) -> Result<
    Option<EntryModel>,
    ReplayError,
> {
    match mutation {
        MutationModel::Delete { .. } => Ok(None),
        MutationModel::Put { value, expires_at_unix_ms, .. } => match expires_at_unix_ms {
            None => Ok(Some(EntryModel { value, deadline: None })),
            Some(unix_ms) => if unix_ms <= moment.unix_ms {
                Ok(None)
            } else {
                let at = moment.now + (unix_ms - moment.unix_ms) * 1_000_000;
                if at > u128::MAX {
                    Err(ReplayError::Deadline)
                } else {
                    Ok(
                        Some(
                            EntryModel {
                                value,
                                deadline: Some(Deadline { at: at as u128, unix_ms }),
                            },
                        ),
                    )
                }
            },
        },
    }
}

/// What replayed mutations leave, if a counter holds it on top of the base.
pub open spec fn resolved_all(mutations: Seq<MutationModel>, base: int, moment: Moment) -> Result<
    Seq<Change>,
    ReplayError,
>
    decreases mutations.len(),
{
    if mutations.len() == 0 {
        Ok(Seq::empty())
    } else {
        match resolved_all(mutations.drop_last(), base, moment) {
            Err(error) => Err(error),
            Ok(changes) => match resolved(mutations.last(), moment) {
                Err(error) => Err(error),
                Ok(entry) => {
                    let grown = changes.push(Change { key: mutations.last().key(), entry });
                    if base + changes::change_costs(grown) > usize::MAX {
                        Err(ReplayError::Quota)
                    } else {
                        Ok(grown)
                    }
                },
            },
        }
    }
}

/// What replaying the mutations changes, or why none of them is applied.
pub open spec fn replay_outcome(
    data: Dataset,
    mutations: Seq<MutationModel>,
    moment: Moment,
) -> Result<Seq<Change>, ReplayError> {
    let keys = mutation_keys(mutations);
    if !accounting::distinct(keys) {
        Err(ReplayError::DuplicateKey)
    } else {
        let base = data.used - model::costs_of(data, keys);
        match resolved_all(mutations, base, moment) {
            Err(error) => Err(error),
            Ok(changes) => if base + changes::change_costs(changes) > data.limit {
                Err(ReplayError::Quota)
            } else {
                Ok(changes)
            },
        }
    }
}

/// A fault in the first mutations is the fault of all.
proof fn lemma_resolved_fault(
    mutations: Seq<MutationModel>,
    base: int,
    moment: Moment,
    count: int,
)
    requires
        0 <= count <= mutations.len(),
        resolved_all(mutations.take(count), base, moment) is Err,
    ensures
        resolved_all(mutations, base, moment) == resolved_all(
            mutations.take(count),
            base,
            moment,
        ),
    decreases mutations.len() - count,
{
    if count < mutations.len() {
        assert(mutations.take(count + 1).drop_last() =~= mutations.take(count));
        lemma_resolved_fault(mutations, base, moment, count + 1);
    } else {
        assert(mutations.take(count) =~= mutations);
    }
}

pub proof fn lemma_resolved_keys(mutations: Seq<MutationModel>, base: int, moment: Moment)
    requires
        resolved_all(mutations, base, moment) is Ok,
    ensures
        changes::change_keys(resolved_all(mutations, base, moment)->Ok_0) == mutation_keys(mutations),
    decreases mutations.len(),
{
    let changes = resolved_all(mutations, base, moment)->Ok_0;
    if mutations.len() > 0 {
        lemma_resolved_keys(mutations.drop_last(), base, moment);
        let front = resolved_all(mutations.drop_last(), base, moment)->Ok_0;
        assert(changes::change_keys(changes) =~= changes::change_keys(front).push(mutations.last().key()));
        assert(mutation_keys(mutations) =~= mutation_keys(mutations.drop_last()).push(
            mutations.last().key(),
        ));
    } else {
        assert(changes::change_keys(changes) =~= mutation_keys(mutations));
    }
}

proof fn lemma_change_costs_nonnegative(changes: Seq<Change>)
    ensures
        changes::change_costs(changes) >= 0,
    decreases changes.len(),
{
    if changes.len() > 0 {
        lemma_change_costs_nonnegative(changes.drop_last());
    }
}

proof fn lemma_costs_grow(changes: Seq<Change>, count: int)
    requires
        0 <= count <= changes.len(),
    ensures
        0 <= changes::change_costs(changes.take(count)) <= changes::change_costs(changes),
    decreases changes.len() - count,
{
    lemma_change_costs_nonnegative(changes.take(count));
    if count < changes.len() {
        lemma_costs_grow(changes, count + 1);
        assert(changes.take(count + 1).drop_last() =~= changes.take(count));
    } else {
        assert(changes.take(count) =~= changes);
    }
}

/// Removals put nothing in.
proof fn lemma_removals(changes: Seq<Change>)
    requires
        forall|i: int| 0 <= i < changes.len() ==> (#[trigger] changes[i]).entry is None,
    ensures
        changes::change_costs(changes) == 0,
    decreases changes.len(),
{
    if changes.len() > 0 {
        let front = changes.drop_last();
        assert forall|i: int| 0 <= i < front.len() implies (#[trigger] front[i]).entry is None by {
            assert(front[i] == changes[i]);
        }
        lemma_removals(front);
        assert(changes[changes.len() - 1].entry is None);
    }
}

/// It makes no difference whether the keys leave before they change.
proof fn lemma_cleared(entries: Map<Seq<u8>, EntryModel>, changes: Seq<Change>)
    requires
        accounting::distinct(changes::change_keys(changes)),
    ensures
        changes::changed_entries(entries.remove_keys(changes::change_keys(changes).to_set()), changes)
            == changes::changed_entries(entries, changes),
{
    let keys = changes::change_keys(changes);
    let cleared = entries.remove_keys(keys.to_set());
    assert forall|key: Seq<u8>|
        #![trigger changes::changed_entries(cleared, changes).contains_key(key)]
        changes::changed_entries(cleared, changes).contains_key(key) == changes::changed_entries(
            entries,
            changes,
        ).contains_key(key) && (changes::changed_entries(entries, changes).contains_key(key)
            ==> changes::changed_entries(cleared, changes)[key] == changes::changed_entries(entries, changes)[key]) by {
        changes::lemma_changed_entries(entries, changes, key);
        changes::lemma_changed_entries(cleared, changes, key);
        if keys.contains(key) {
            let i = choose|i: int| 0 <= i < keys.len() && keys[i] == key;
            assert(changes[i].key == key);
        } else {
            assert(!keys.to_set().contains(key));
        }
    }
    assert(changes::changed_entries(cleared, changes) =~= changes::changed_entries(entries, changes));
}

} // verus!
