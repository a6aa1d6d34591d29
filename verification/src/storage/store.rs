//! In-memory map with a single owner and sequential execution of commands.

use super::model::{Dataset, Deadline, ENTRY_OVERHEAD_BYTES, EntryModel};
use super::value::Value;
use super::watch::{Registry, Watch, WatchToken};
use crate::buffer::{as_slice, length, same_bytes};
use crate::error::ConfigError;
use crate::ordered::ByteMap;
use bytes::Bytes;
use crate::buffer;
use crate::ordered;
use crate::storage::accounting;
use crate::storage::changes;
use crate::storage::model;
use crate::storage::value;
use crate::storage::watch;
use vstd::prelude::*;

verus! {

/// Logical budget, independent of actual allocations.
#[derive(Clone, Copy, Debug, PartialEq, Eq, Structural)]
pub struct StoreConfig {
    pub max_dataset_bytes: usize,
}

impl Default for StoreConfig {
    fn default() -> (result: Self)
        ensures
            result == (StoreConfig { max_dataset_bytes: 67108864 }),
    {
        StoreConfig { max_dataset_bytes: 64 * 1024 * 1024 }
    }
}

impl StoreConfig {
    pub open spec fn is_valid(self) -> bool {
        1 <= self.max_dataset_bytes <= isize::MAX
    }

    pub fn validate(self) -> (result: Result<(), ConfigError>)
        ensures
            result == if self.is_valid() {
                Ok::<(), ConfigError>(())
            } else {
                Err::<(), ConfigError>(
                    ConfigError::InvalidServerLimits {
                        reason: "SIDER_MAX_DATASET_BYTES precisa estar entre 1 e isize::MAX",
                    },
                )
            },
    {
        if self.max_dataset_bytes == 0 || self.max_dataset_bytes > isize::MAX as usize {
            return Err(
                ConfigError::InvalidServerLimits {
                    reason: "SIDER_MAX_DATASET_BYTES precisa estar entre 1 e isize::MAX",
                },
            );
        }
        Ok(())
    }
}

/// Value and metadata common to all types. The absolute deadline records the
/// resolved instant of the write.
#[derive(Debug)]
pub struct Entry {
    pub value: Value,
    pub deadline: Option<Deadline>,
    pub generation: u64,
}

impl Entry {
    pub open spec fn model(self) -> EntryModel {
        EntryModel { value: self.value.model(), deadline: self.deadline }
    }

    pub open spec fn wf(&self) -> bool {
        self.value.wf() && value::storable(self.value.model())
    }

    /// Another entry with the same content and metadata.
    pub fn duplicate(&self) -> (result: Self)
        requires
            self.wf(),
        ensures
            result.wf(),
            result.model() == self.model(),
            result.generation == self.generation,
    {
        Entry {
            value: self.value.duplicate(),
            deadline: self.deadline,
            generation: self.generation,
        }
    }
}

/// A deadline that is still ahead, in the index of deadlines.
#[derive(Debug)]
pub struct Event {
    pub at: u128,
    pub key: Bytes,
}

/// Logical bytes of the entries.
pub open spec fn total(items: Seq<(Bytes, Entry)>) -> int
    decreases items.len(),
{
    if items.len() == 0 {
        0
    } else {
        total(items.drop_last()) + model::cost(
            buffer::bytes_content(items.last().0),
            items.last().1.value.model(),
        )
    }
}

proof fn lemma_total_insert(items: Seq<(Bytes, Entry)>, index: int, item: (Bytes, Entry))
    requires
        0 <= index <= items.len(),
    ensures
        total(items.insert(index, item)) == total(items) + model::cost(
            buffer::bytes_content(item.0),
            item.1.value.model(),
        ),
    decreases items.len(),
{
    let grown = items.insert(index, item);
    if index == items.len() {
        assert(grown.drop_last() =~= items);
    } else {
        assert(grown.drop_last() =~= items.drop_last().insert(index, item));
        lemma_total_insert(items.drop_last(), index, item);
    }
}

proof fn lemma_total_remove(items: Seq<(Bytes, Entry)>, index: int)
    requires
        0 <= index < items.len(),
    ensures
        total(items.remove(index)) == total(items) - model::cost(
            buffer::bytes_content(items[index].0),
            items[index].1.value.model(),
        ),
        total(items) >= model::cost(buffer::bytes_content(items[index].0), items[index].1.value.model()),
{
    let rest = items.remove(index);
    lemma_total_insert(rest, index, items[index]);
    assert(rest.insert(index, items[index]) =~= items);
    lemma_total_nonnegative(rest);
}

pub proof fn lemma_total_nonnegative(items: Seq<(Bytes, Entry)>)
    ensures
        total(items) >= 0,
    decreases items.len(),
{
    if items.len() > 0 {
        lemma_total_nonnegative(items.drop_last());
    }
}

/// Whether the token observes the key: it knows the deadline of the entry, and
/// no write has ended the observation, if it got a number.
pub open spec fn observes(
    data: Dataset,
    watches: Map<Seq<u8>, Watch>,
    token: WatchToken,
    key: Bytes,
) -> bool {
    let content = buffer::bytes_content(key);
    &&& buffer::bytes_content(token.observed()) == content
    &&& token.deadline() == (if data.entries.contains_key(content)
        && data.entries[content].deadline is Some {
        Some(data.entries[content].deadline->Some_0.at)
    } else {
        None
    })
    &&& token.id() is Some ==> !super::watch::is_invalidated(watches, token)
}

/// In-memory map with a single owner. Clock readings come with each call;
/// events of old entries are withdrawn at every replacement.
pub struct Store {
    values: ByteMap<Entry>,
    expirations: Vec<Event>,
    generation: u64,
    config: StoreConfig,
    used_bytes: usize,
    watches: Registry,
    /// Bytes in use that belong to entries outside this map.
    elsewhere: Ghost<int>,
}

impl Store {
    /// What the store holds.
    pub closed spec fn data(&self) -> Dataset {
        Dataset {
            entries: self.values@.map_values(|entry: Entry| entry.model()),
            used: self.used_bytes as int,
            limit: self.config.max_dataset_bytes as int,
        }
    }

    /// The keys that are being observed.
    pub closed spec fn watched(&self) -> Map<Seq<u8>, Watch> {
        self.watches@
    }

    /// The number that the next observation gets.
    pub closed spec fn next_watch(&self) -> u64 {
        self.watches.next()
    }

    /// Counts the writes and removals, modulo 2^64.
    pub closed spec fn version(&self) -> u64 {
        self.generation
    }

    /// Bytes in use that belong to entries outside this map.
    pub closed spec fn outside(&self) -> int {
        self.elsewhere@
    }

    spec fn event_key(&self, index: int) -> Seq<u8> {
        buffer::bytes_content(self.expirations@[index].key)
    }

    /// Each entry with a deadline has one event, and each event its entry.
    spec fn indexed(&self) -> bool {
        &&& forall|i: int, j: int|
            #![trigger self.expirations@[i], self.expirations@[j]]
            0 <= i < j < self.expirations@.len() ==> self.expirations@[i].at
                <= self.expirations@[j].at && self.event_key(i) != self.event_key(j)
        &&& forall|i: int|
            0 <= i < self.expirations@.len() ==> {
                &&& self.values@.contains_key(#[trigger] self.event_key(i))
                &&& self.values@[self.event_key(i)].deadline matches Some(deadline) && deadline.at
                    == self.expirations@[i].at
            }
        &&& forall|key: Seq<u8>|
            #[trigger] self.values@.contains_key(key) && self.values@[key].deadline is Some
                ==> exists|i: int|
                0 <= i < self.expirations@.len() && #[trigger] self.event_key(i) == key
    }

    spec fn sound_entries(&self) -> bool {
        forall|key: Seq<u8>| #[trigger] self.values@.contains_key(key) ==> self.values@[key].wf()
    }

    /// The bookkeeping agrees with the entries.
    pub closed spec fn wf(&self) -> bool {
        &&& self.values.wf()
        &&& self.sound_entries()
        &&& self.config.is_valid()
        &&& self.elsewhere@ >= 0
        &&& self.used_bytes == total(self.values.items@) + self.elsewhere@
        &&& self.indexed()
        &&& self.watches.wf()
    }

    /// What holds of the dataset of a sound store.
    pub proof fn lemma_data(&self)
        requires
            self.wf(),
        ensures
            0 <= self.data().used <= usize::MAX,
            1 <= self.data().limit <= isize::MAX,
            forall|key: Seq<u8>| #[trigger]
                self.data().entries.contains_key(key) ==> value::storable(
                    self.data().entries[key].value,
                ),
            forall|key: Seq<u8>|
                0 <= #[trigger] model::cost_of(self.data(), key) <= self.data().used - self.outside(),
            self.data().entries.dom().finite(),
            forall|key: Seq<u8>| #[trigger]
                self.data().entries.contains_key(key) ==> value::finite_value(
                    self.data().entries[key].value,
                ),
            self.outside() >= 0,
    {
        self.values.lemma_keys();
        assert forall|key: Seq<u8>| #[trigger]
            self.data().entries.contains_key(key) implies value::finite_value(
            self.data().entries[key].value,
        ) by {
            assert(self.values@.contains_key(key));
            self.values@[key].value.lemma_finite();
        }
        assert(self.data().entries.dom() =~= self.values@.dom());
        assert forall|key: Seq<u8>| #[trigger] self.data().entries.contains_key(key) implies value::storable(
            self.data().entries[key].value,
        ) by {
            assert(self.values@.contains_key(key));
        }
        assert forall|key: Seq<u8>| 0 <= #[trigger] model::cost_of(self.data(), key) <= self.data().used
            - self.outside() by {
            lemma_total_nonnegative(self.values.items@);
            if self.values@.contains_key(key) {
                self.values.lemma_place(key);
                lemma_total_remove(self.values.items@, self.values.place(key));
            }
        }
    }

    /// Usage is what the entries take.
    pub proof fn lemma_used(&self)
        requires
            self.wf(),
        ensures
            self.data().used == model::costs_of(
                self.data(),
                ordered::listing(self.data().entries.dom()),
            ) + self.outside(),
            self.data().entries.dom().finite(),
    {
        let count = self.values.items@.len() as int;
        self.values.lemma_keys();
        assert(self.data().entries.dom() =~= self.values@.dom());
        accounting::lemma_total_costs(self.data(), &self.values, count);
        assert(self.values.items@.take(count) =~= self.values.items@);
        assert(self.values.keys().take(count) =~= self.values.keys());
    }

    /// A store without entries, with the default quota.
    pub fn new() -> (result: Self)
        ensures
            result.wf(),
            result.outside() == 0,
            result.data() == (Dataset { entries: Map::empty(), used: 0, limit: 67108864 }),
            result.watched() == Map::<Seq<u8>, Watch>::empty(),
    {
        Store::empty(StoreConfig::default())
    }

    /// A store without entries, with this quota.
    pub fn with_config(config: StoreConfig) -> (result: Result<Self, ConfigError>)
        ensures
            match result {
                Ok(store) => {
                    &&& config.is_valid()
                    &&& store.wf()
                    &&& store.outside() == 0
                    &&& store.data() == (Dataset {
                        entries: Map::empty(),
                        used: 0,
                        limit: config.max_dataset_bytes as int,
                    })
                    &&& store.watched() == Map::<Seq<u8>, Watch>::empty()
                },
                Err(error) => !config.is_valid() && error == (ConfigError::InvalidServerLimits {
                    reason: "SIDER_MAX_DATASET_BYTES precisa estar entre 1 e isize::MAX",
                }),
            },
    {
        match config.validate() {
            Err(error) => Err(error),
            Ok(_) => Ok(Store::empty(config)),
        }
    }

    fn empty(config: StoreConfig) -> (result: Self)
        requires
            config.is_valid(),
        ensures
            result.wf(),
            result.outside() == 0,
            result.data() == (Dataset {
                entries: Map::empty(),
                used: 0,
                limit: config.max_dataset_bytes as int,
            }),
            result.watched() == Map::<Seq<u8>, Watch>::empty(),
            result.version() == 0,
            result.next_watch() == 0,
    {
        let result = Store {
            values: ByteMap::new(),
            expirations: Vec::new(),
            generation: 0,
            config,
            used_bytes: 0,
            watches: Registry::new(),
            elsewhere: Ghost(0),
        };
        assert(result.data().entries =~= Map::<Seq<u8>, EntryModel>::empty());
        result
    }

    /// Logical bytes in use.
    pub fn used_bytes(&self) -> (result: usize)
        ensures
            result == self.data().used,
    {
        self.used_bytes
    }

    /// Number of entries, those included that have ended and were not visited yet.
    pub fn len(&self) -> (result: usize)
        requires
            self.wf(),
        ensures
            result == self.data().entries.dom().len(),
    {
        proof {
            self.values.lemma_keys();
            assert(self.data().entries.dom() =~= self.values@.dom());
        }
        self.values.len()
    }

    pub fn is_empty(&self) -> (result: bool)
        requires
            self.wf(),
        ensures
            result == (self.data().entries.dom().len() == 0),
    {
        self.len() == 0
    }

    /// The configured quota.
    pub fn config(&self) -> (result: StoreConfig)
        ensures
            result.max_dataset_bytes == self.data().limit,
    {
        self.config
    }

    /// How many entries have a deadline.
    pub fn expiring(&self) -> (result: usize)
        requires
            self.wf(),
        ensures
            result == self.data().entries.dom().filter(
                |key: Seq<u8>| self.data().entries[key].deadline is Some,
            ).len(),
    {
        proof {
            let keys = Seq::new(self.expirations@.len(), |i: int| self.event_key(i));
            let dated = self.data().entries.dom().filter(
                |key: Seq<u8>| self.data().entries[key].deadline is Some,
            );
            assert(keys.no_duplicates()) by {
                assert forall|i: int, j: int|
                    0 <= i < keys.len() && 0 <= j < keys.len() && i != j implies keys[i]
                    != keys[j] by {
                    if i < j {
                        assert(self.expirations@[i].at <= self.expirations@[j].at);
                    } else {
                        assert(self.expirations@[j].at <= self.expirations@[i].at);
                    }
                }
            }
            keys.unique_seq_to_set();
            assert(keys.to_set() =~= dated) by {
                assert forall|key: Seq<u8>| keys.to_set().contains(key) <==> dated.contains(
                    key,
                ) by {
                    if keys.contains(key) {
                        let i = choose|i: int| 0 <= i < keys.len() && keys[i] == key;
                        assert(self.event_key(i) == key);
                        assert(self.values@.contains_key(self.event_key(i)));
                    }
                    if dated.contains(key) {
                        assert(self.values@.contains_key(key));
                        let i = choose|i: int|
                            0 <= i < self.expirations@.len() && #[trigger] self.event_key(i) == key;
                        assert(keys[i] == key);
                    }
                }
            }
        }
        self.expirations.len()
    }

    /// The entry of a key.
    pub(crate) fn lookup(&self, key: &[u8]) -> (result: Option<&Entry>)
        requires
            self.wf(),
        ensures
            match result {
                Some(entry) => {
                    &&& self.data().entries.contains_key(key@)
                    &&& entry.model() == self.data().entries[key@]
                    &&& entry.wf()
                },
                None => !self.data().entries.contains_key(key@),
            },
    {
        self.values.get(key)
    }

    /// All entries, in the order of their keys.
    pub(crate) fn items(&self) -> (result: &ByteMap<Entry>)
        requires
            self.wf(),
        ensures
            result.wf(),
            self.data().entries == result@.map_values(|entry: Entry| entry.model()),
            forall|key: Seq<u8>| #[trigger] result@.contains_key(key) ==> result@[key].wf(),
            self.data().used == total(result.items@) + self.outside(),
    {
        &self.values
    }

    /// Where the event of a key is in the index.
    fn find_event(&self, at: u128, key: &[u8]) -> (result: usize)
        requires
            self.wf(),
            self.values@.contains_key(key@),
            self.values@[key@].deadline matches Some(deadline) && deadline.at == at,
        ensures
            result < self.expirations@.len(),
            self.event_key(result as int) == key@,
    {
        let ghost place = choose|i: int|
            0 <= i < self.expirations@.len() && #[trigger] self.event_key(i) == key@;
        let mut index: usize = 0;
        let mut high: usize = self.expirations.len();
        assert(self.expirations@[place].at == at);
        // First event that is not earlier.
        while index < high
            invariant
                self.indexed(),
                0 <= place < self.expirations@.len(),
                self.event_key(place) == key@,
                self.expirations@[place].at == at,
                index <= high <= self.expirations@.len(),
                index <= place,
            decreases high - index,
        {
            let middle: usize = index + (high - index) / 2;
            if self.expirations[middle].at < at {
                proof {
                    if place <= middle {
                        if place < middle {
                            assert(self.expirations@[place].at
                                <= self.expirations@[middle as int].at);
                        }
                        assert(false);
                    }
                }
                index = middle + 1;
            } else {
                high = middle;
            }
        }
        let count: usize = self.expirations.len();
        while !same_bytes(as_slice(&self.expirations[index].key), key)
            invariant
                0 <= place < count,
                count == self.expirations@.len(),
                self.event_key(place) == key@,
                index <= place,
            decreases place - index,
        {
            assert(index != place) by {
                if index == place {
                    assert(self.event_key(index as int) == key@);
                }
            }
            index += 1;
        }
        index
    }

    /// Removes the key; tells whether it was there.
    pub(crate) fn remove(&mut self, key: &[u8]) -> (result: bool)
        requires
            old(self).wf(),
        ensures
            final(self).wf(),
            result == old(self).data().entries.contains_key(key@),
            final(self).data() == if result {
                model::dropped(old(self).data(), key@)
            } else {
                old(self).data()
            },
            final(self).watched() == if result {
                old(self).watched().remove(key@)
            } else {
                old(self).watched()
            },
            final(self).next_watch() == old(self).next_watch(),
            final(self).outside() == old(self).outside(),
            final(self).version() == changes::later(
                old(self).version(),
                if result {
                    1
                } else {
                    0
                },
            ),
    {
        proof {
            self.lemma_data();
        }
        let deadline: Option<Deadline> = match self.values.get(key) {
            None => return false,
            Some(entry) => entry.deadline,
        };
        let ghost before = *self;
        assert(before.values@.contains_key(key@));
        assert(0 <= model::cost_of(before.data(), key@) <= before.data().used - before.outside());
        if let Some(deadline) = deadline {
            let at: usize = self.find_event(deadline.at, key);
            let _ = self.expirations.remove(at);
            proof {
                before.lemma_event_removed(self, at as int, key@);
            }
        }
        let ghost middle = *self;
        proof {
            if deadline is None {
                assert forall|i: int| 0 <= i < middle.expirations@.len() implies {
                    &&& #[trigger] middle.event_key(i) != key@
                    &&& before.values@.contains_key(middle.event_key(i))
                    &&& before.values@[middle.event_key(i)].deadline matches Some(d) && d.at
                        == middle.expirations@[i].at
                } by {
                    assert(before.event_key(i) == middle.event_key(i));
                    assert(before.values@.contains_key(before.event_key(i)));
                }
                assert forall|k: Seq<u8>|
                    #[trigger] before.values@.contains_key(k) && before.values@[k].deadline
                        is Some implies exists|i: int|
                    0 <= i < middle.expirations@.len() && #[trigger] middle.event_key(i) == k by {
                    let i = choose|i: int|
                        0 <= i < before.expirations@.len() && #[trigger] before.event_key(i) == k;
                    assert(middle.event_key(i) == k);
                }
            }
        }
        let entry = self.values.remove(key).unwrap();
        proof {
            assert(entry.wf());
            assert(model::cost(key@, entry.value.model()) == model::cost_of(before.data(), key@));
            let i = choose|i: int|
                #![trigger before.values.items@[i]]
                0 <= i < before.values.items@.len() && self.values.items@
                    == before.values.items@.remove(i) && before.values.key_at(i) == key@;
            before.values.lemma_at(i);
            lemma_total_remove(before.values.items@, i);
        }
        let size: usize = key.len() + entry_size(&entry) + ENTRY_OVERHEAD_BYTES;
        self.used_bytes = self.used_bytes - size;
        self.generation = self.generation.wrapping_add(1);
        self.watches.invalidate(key);
        proof {
            assert(self.data().entries =~= before.data().entries.remove(key@));
            assert(self.sound_entries()) by {
                assert forall|k: Seq<u8>| #[trigger] self.values@.contains_key(k) implies self.values@[k].wf() by {
                    assert(before.values@.contains_key(k));
                }
            }
            assert(self.indexed()) by {
                assert forall|i: int| 0 <= i < self.expirations@.len() implies {
                    &&& self.values@.contains_key(#[trigger] self.event_key(i))
                    &&& self.values@[self.event_key(i)].deadline matches Some(d) && d.at
                        == self.expirations@[i].at
                } by {
                    assert(self.event_key(i) == middle.event_key(i));
                    assert(middle.event_key(i) != key@);
                }
                assert forall|k: Seq<u8>|
                    #[trigger] self.values@.contains_key(k) && self.values@[k].deadline
                        is Some implies exists|i: int|
                    0 <= i < self.expirations@.len() && #[trigger] self.event_key(i) == k by {
                    assert(before.values@.contains_key(k));
                    let i = choose|i: int|
                        0 <= i < middle.expirations@.len() && #[trigger] middle.event_key(i) == k;
                    assert(self.event_key(i) == k);
                }
                assert forall|i: int, j: int|
                    #![trigger self.expirations@[i], self.expirations@[j]]
                    0 <= i < j < self.expirations@.len() implies self.expirations@[i].at
                    <= self.expirations@[j].at && self.event_key(i) != self.event_key(j) by {
                    assert(middle.expirations@[i].at <= middle.expirations@[j].at);
                    assert(middle.event_key(i) != middle.event_key(j));
                }
            }
        }
        true
    }

    /// Taking the event of a key out of the index.
    proof fn lemma_event_removed(&self, later: &Store, at: int, key: Seq<u8>)
        requires
            self.wf(),
            0 <= at < self.expirations@.len(),
            self.event_key(at) == key,
            later.expirations@ == self.expirations@.remove(at),
            later.values == self.values,
        ensures
            forall|i: int, j: int|
                #![trigger later.expirations@[i], later.expirations@[j]]
                0 <= i < j < later.expirations@.len() ==> later.expirations@[i].at
                    <= later.expirations@[j].at && later.event_key(i) != later.event_key(j),
            forall|i: int|
                0 <= i < later.expirations@.len() ==> {
                    &&& #[trigger] later.event_key(i) != key
                    &&& self.values@.contains_key(later.event_key(i))
                    &&& self.values@[later.event_key(i)].deadline matches Some(d) && d.at
                        == later.expirations@[i].at
                },
            forall|k: Seq<u8>|
                #[trigger] self.values@.contains_key(k) && self.values@[k].deadline is Some && k
                    != key ==> exists|i: int|
                    0 <= i < later.expirations@.len() && #[trigger] later.event_key(i) == k,
    {
        assert forall|i: int, j: int|
            #![trigger later.expirations@[i], later.expirations@[j]]
            0 <= i < j < later.expirations@.len() implies later.expirations@[i].at
            <= later.expirations@[j].at && later.event_key(i) != later.event_key(j) by {
            let p = if i < at {
                i
            } else {
                i + 1
            };
            let q = if j < at {
                j
            } else {
                j + 1
            };
            assert(self.expirations@[p].at <= self.expirations@[q].at);
        }
        assert forall|i: int| 0 <= i < later.expirations@.len() implies {
            &&& #[trigger] later.event_key(i) != key
            &&& self.values@.contains_key(later.event_key(i))
            &&& self.values@[later.event_key(i)].deadline matches Some(d) && d.at
                == later.expirations@[i].at
        } by {
            let p = if i < at {
                i
            } else {
                i + 1
            };
            assert(later.event_key(i) == self.event_key(p));
            if p < at {
                assert(self.expirations@[p].at <= self.expirations@[at].at);
            } else {
                assert(self.expirations@[at].at <= self.expirations@[p].at);
            }
        }
        assert forall|k: Seq<u8>|
            #[trigger] self.values@.contains_key(k) && self.values@[k].deadline is Some && k
                != key implies exists|i: int|
            0 <= i < later.expirations@.len() && #[trigger] later.event_key(i) == k by {
            let i = choose|i: int|
                0 <= i < self.expirations@.len() && #[trigger] self.event_key(i) == k;
            let p = if i < at {
                i
            } else {
                i - 1
            };
            assert(later.event_key(p) == k);
        }
    }

    /// Puts an entry under the key, in place of the one that it had.
    pub(crate) fn insert(&mut self, key: Bytes, value: Value, deadline: Option<Deadline>)
        requires
            old(self).wf(),
            value.wf(),
            value::storable(value.model()),
            model::placed(
                old(self).data(),
                buffer::bytes_content(key),
                (EntryModel { value: value.model(), deadline }),
            ).used <= usize::MAX,
        ensures
            final(self).wf(),
            final(self).data() == model::placed(
                old(self).data(),
                buffer::bytes_content(key),
                (EntryModel { value: value.model(), deadline }),
            ),
            final(self).watched() == old(self).watched().remove(buffer::bytes_content(key)),
            final(self).next_watch() == old(self).next_watch(),
            final(self).outside() == old(self).outside(),
            final(self).version() == changes::later(
                old(self).version(),
                if old(self).data().entries.contains_key(buffer::bytes_content(key)) {
                    2
                } else {
                    1
                },
            ),
    {
        let ghost content = buffer::bytes_content(key);
        let ghost first = self.data();
        proof {
            self.lemma_data();
        }
        let _ = self.remove(as_slice(&key));
        proof {
            self.lemma_data();
            assert(first.entries.remove(content) =~= self.data().entries);
        }
        let ghost before = *self;
        proof {
            assert(!before.data().entries.contains_key(content));
            assert(!before.values@.contains_key(content));
        }
        let entry = Entry { value, deadline, generation: self.generation.wrapping_add(1) };
        proof {
            lemma_total_nonnegative(self.values.items@);
            assert(model::cost(content, entry.value.model()) <= usize::MAX);
        }
        let size: usize = length(&key) + entry_size(&entry) + ENTRY_OVERHEAD_BYTES;
        self.generation = self.generation.wrapping_add(1);
        self.used_bytes = self.used_bytes + size;
        self.watches.invalidate(as_slice(&key));
        if let Some(deadline) = deadline {
            let at: usize = self.event_place(deadline.at);
            self.expirations.insert(at, Event { at: deadline.at, key: key.clone() });
            proof {
                before.lemma_event_added(self, at as int, deadline.at, content);
            }
        }
        let ghost model = entry.model();
        let ghost middle = *self;
        let ghost item = (key, entry);
        let replaced = self.values.insert(key, entry);
        proof {
            assert(self.values@ == before.values@.insert(content, entry));
            assert(self.data().entries =~= before.data().entries.insert(content, model));
            assert(first.entries.remove(content).insert(content, model) =~= first.entries.insert(
                content,
                model,
            ));
            assert(replaced is None);
            let items = self.values.items@;
            assert(exists|i: int|
                #![trigger items[i]]
                0 <= i < items.len() && items == before.values.items@.insert(i, item));
            let i = choose|i: int|
                #![trigger items[i]]
                0 <= i < items.len() && items == before.values.items@.insert(i, item);
            lemma_total_insert(before.values.items@, i, item);
            assert(self.sound_entries()) by {
                assert forall|k: Seq<u8>| #[trigger] self.values@.contains_key(k) implies self.values@[k].wf() by {
                    if k != content {
                        assert(before.values@.contains_key(k));
                    }
                }
            }
            assert(self.watched() =~= old(self).watched().remove(content));
            assert(self.indexed()) by {
                assert forall|i: int| 0 <= i < self.expirations@.len() implies {
                    &&& self.values@.contains_key(#[trigger] self.event_key(i))
                    &&& self.values@[self.event_key(i)].deadline matches Some(d) && d.at
                        == self.expirations@[i].at
                } by {
                    assert(middle.event_key(i) == self.event_key(i));
                    if deadline is None {
                        assert(before.event_key(i) == self.event_key(i));
                        assert(before.values@.contains_key(before.event_key(i)));
                    }
                }
                assert forall|i: int, j: int|
                    #![trigger self.expirations@[i], self.expirations@[j]]
                    0 <= i < j < self.expirations@.len() implies self.expirations@[i].at
                    <= self.expirations@[j].at && self.event_key(i) != self.event_key(j) by {
                    assert(middle.event_key(i) == self.event_key(i));
                    assert(middle.event_key(j) == self.event_key(j));
                    assert(middle.expirations@[i].at == self.expirations@[i].at);
                    assert(middle.expirations@[j].at == self.expirations@[j].at);
                    if deadline is None {
                        assert(before.expirations@[i].at <= before.expirations@[j].at);
                        assert(before.event_key(i) != before.event_key(j));
                    }
                }
                assert forall|k: Seq<u8>|
                    #[trigger] self.values@.contains_key(k) && self.values@[k].deadline
                        is Some implies exists|i: int|
                    0 <= i < self.expirations@.len() && #[trigger] self.event_key(i) == k by {
                    if k != content {
                        assert(before.values@.contains_key(k));
                        if deadline is None {
                            let i = choose|i: int|
                                0 <= i < before.expirations@.len() && #[trigger] before.event_key(i)
                                    == k;
                            assert(self.event_key(i) == k);
                        } else {
                            let i = choose|i: int|
                                0 <= i < middle.expirations@.len() && #[trigger] middle.event_key(i)
                                    == k;
                            assert(self.event_key(i) == k);
                        }
                    } else {
                        let i = choose|i: int|
                            0 <= i < middle.expirations@.len() && #[trigger] middle.event_key(i)
                                == k;
                        assert(self.event_key(i) == k);
                    }
                }
            }
        }
    }

    /// How many events are not later than the instant.
    fn event_place(&self, at: u128) -> (result: usize)
        requires
            forall|i: int, j: int|
                #![trigger self.expirations@[i], self.expirations@[j]]
                0 <= i < j < self.expirations@.len() ==> self.expirations@[i].at
                    <= self.expirations@[j].at,
        ensures
            result <= self.expirations@.len(),
            forall|i: int| 0 <= i < result ==> (#[trigger] self.expirations@[i]).at <= at,
            forall|i: int|
                result <= i < self.expirations@.len() ==> (#[trigger] self.expirations@[i]).at > at,
    {
        let mut low: usize = 0;
        let mut high: usize = self.expirations.len();
        while low < high
            invariant
                forall|i: int, j: int|
                    #![trigger self.expirations@[i], self.expirations@[j]]
                    0 <= i < j < self.expirations@.len() ==> self.expirations@[i].at
                        <= self.expirations@[j].at,
                low <= high <= self.expirations@.len(),
                forall|i: int| 0 <= i < low ==> (#[trigger] self.expirations@[i]).at <= at,
                forall|i: int|
                    high <= i < self.expirations@.len() ==> (#[trigger] self.expirations@[i]).at
                        > at,
            decreases high - low,
        {
            let middle: usize = low + (high - low) / 2;
            let here: u128 = self.expirations[middle].at;
            proof {
                assert(self.expirations@[middle as int].at == here);
            }
            if here <= at {
                low = middle + 1;
            } else {
                high = middle;
            }
        }
        low
    }

    /// Putting the event of a key into the index.
    proof fn lemma_event_added(&self, later: &Store, at: int, instant: u128, key: Seq<u8>)
        requires
            self.wf(),
            !self.values@.contains_key(key),
            0 <= at <= self.expirations@.len(),
            later.expirations@.len() == self.expirations@.len() + 1,
            later.expirations@[at].at == instant,
            buffer::bytes_content(later.expirations@[at].key) == key,
            later.expirations@ == self.expirations@.insert(at, later.expirations@[at]),
            forall|i: int| 0 <= i < at ==> (#[trigger] self.expirations@[i]).at <= instant,
            forall|i: int|
                at <= i < self.expirations@.len() ==> (#[trigger] self.expirations@[i]).at
                    > instant,
        ensures
            forall|i: int, j: int|
                #![trigger later.expirations@[i], later.expirations@[j]]
                0 <= i < j < later.expirations@.len() ==> later.expirations@[i].at
                    <= later.expirations@[j].at && later.event_key(i) != later.event_key(j),
            forall|i: int|
                0 <= i < later.expirations@.len() ==> {
                    ||| #[trigger] later.event_key(i) == key && later.expirations@[i].at == instant
                    ||| later.event_key(i) != key && self.values@.contains_key(later.event_key(i))
                        && (self.values@[later.event_key(i)].deadline matches Some(d) && d.at
                        == later.expirations@[i].at)
                },
            exists|i: int|
                0 <= i < later.expirations@.len() && #[trigger] later.event_key(i) == key,
            forall|k: Seq<u8>|
                #[trigger] self.values@.contains_key(k) && self.values@[k].deadline is Some
                    ==> exists|i: int|
                    0 <= i < later.expirations@.len() && #[trigger] later.event_key(i) == k,
    {
        assert forall|i: int| 0 <= i < later.expirations@.len() implies {
            ||| #[trigger] later.event_key(i) == key && later.expirations@[i].at == instant
            ||| later.event_key(i) != key && self.values@.contains_key(later.event_key(i)) && (
            self.values@[later.event_key(i)].deadline matches Some(d) && d.at
                == later.expirations@[i].at)
        } by {
            if i != at {
                let p = if i < at {
                    i
                } else {
                    i - 1
                };
                assert(later.event_key(i) == self.event_key(p));
                assert(self.values@.contains_key(self.event_key(p)));
            }
        }
        assert forall|i: int, j: int|
            #![trigger later.expirations@[i], later.expirations@[j]]
            0 <= i < j < later.expirations@.len() implies later.expirations@[i].at
            <= later.expirations@[j].at && later.event_key(i) != later.event_key(j) by {
            let p = if i < at {
                i
            } else {
                i - 1
            };
            let q = if j < at {
                j
            } else {
                j - 1
            };
            if i != at && j != at {
                assert(self.expirations@[p].at <= self.expirations@[q].at);
            } else if i == at {
                assert(later.event_key(j) == self.event_key(q));
                assert(self.values@.contains_key(self.event_key(q)));
                assert(self.expirations@[q].at > instant);
            } else {
                assert(later.event_key(i) == self.event_key(p));
                assert(self.values@.contains_key(self.event_key(p)));
                assert(self.expirations@[p].at <= instant);
            }
        }
        assert(later.event_key(at) == key);
        assert forall|k: Seq<u8>|
            #[trigger] self.values@.contains_key(k) && self.values@[k].deadline is Some implies exists|
            i: int,
        | 0 <= i < later.expirations@.len() && #[trigger] later.event_key(i) == k by {
            let i = choose|i: int|
                0 <= i < self.expirations@.len() && #[trigger] self.event_key(i) == k;
            let p = if i < at {
                i
            } else {
                i + 1
            };
            assert(later.event_key(p) == k);
        }
    }

    /// Ends the observations of a key, whether or not it is there.
    pub(crate) fn touch(&mut self, key: &[u8])
        requires
            old(self).wf(),
        ensures
            final(self).wf(),
            final(self).data() == old(self).data(),
            final(self).watched() == old(self).watched().remove(key@),
            final(self).next_watch() == old(self).next_watch(),
            final(self).outside() == old(self).outside(),
            final(self).version() == old(self).version(),
    {
        let ghost before = *self;
        self.watches.invalidate(key);
        proof {
            before.lemma_same_entries(self);
        }
    }

    /// Counts the writes and removals, modulo 2^64.
    pub(crate) fn generation(&self) -> (result: u64)
        ensures
            result == self.version(),
    {
        self.generation
    }

    /// A store with the entries of some keys, whose usage counts all entries.
    pub(crate) fn shadow(&self, keys: &ByteMap<()>) -> (result: Store)
        requires
            self.wf(),
            keys.wf(),
        ensures
            result.wf(),
            result.data() == (Dataset {
                entries: self.data().entries.restrict(keys@.dom()),
                ..self.data()
            }),
            result.watched() == Map::<Seq<u8>, Watch>::empty(),
            result.next_watch() == 0,
    {
        let ghost data = self.data();
        let ghost names = keys.keys();
        proof {
            keys.lemma_keys();
            accounting::lemma_ascending_distinct(names);
            self.lemma_data();
            assert(names.take(0) =~= Seq::<Seq<u8>>::empty());
            assert(data.entries.restrict(names.take(0).to_set()) =~= Map::<
                Seq<u8>,
                EntryModel,
            >::empty());
        }
        let mut result = Store::empty(self.config);
        let mut index: usize = 0;
        while index < keys.items.len()
            invariant
                self.wf(),
                keys.wf(),
                data == self.data(),
                names == keys.keys(),
                accounting::distinct(names),
                index <= keys.items@.len(),
                result.wf(),
                result.outside() == 0,
                result.data().entries == data.entries.restrict(names.take(index as int).to_set()),
                result.data().used == model::costs_of(data, names.take(index as int)),
                result.data().limit == data.limit,
                result.watched() == Map::<Seq<u8>, Watch>::empty(),
                result.next_watch() == 0,
            decreases keys.items@.len() - index,
        {
            let ghost part = names.take(index as int);
            let ghost more = names.take(index + 1);
            let ghost name = names[index as int];
            proof {
                assert(more.drop_last() =~= part);
                assert(more.last() == name);
                assert(!part.contains(name)) by {
                    if part.contains(name) {
                        let i = choose|i: int| 0 <= i < part.len() && part[i] == name;
                        assert(names[i] != names[index as int]);
                    }
                }
                assert(more.to_set() =~= part.to_set().insert(name)) by {
                    assert forall|k: Seq<u8>| more.to_set().contains(k) <==> part.to_set().insert(
                        name,
                    ).contains(k) by {
                        if more.contains(k) {
                            let i = choose|i: int| 0 <= i < more.len() && more[i] == k;
                            if i < index {
                                assert(part[i] == k);
                            }
                        }
                        if part.contains(k) {
                            let i = choose|i: int| 0 <= i < part.len() && part[i] == k;
                            assert(more[i] == k);
                        }
                        assert(more[index as int] == name);
                    }
                }
                self.lemma_cost_of_some(names, index + 1);
            }
            let key = &keys.items[index].0;
            if let Some(entry) = self.lookup(as_slice(key)) {
                result.insert(key.clone(), entry.value.duplicate(), entry.deadline);
            }
            proof {
                assert(result.data().entries =~= data.entries.restrict(more.to_set()));
                assert(result.watched() =~= Map::<Seq<u8>, Watch>::empty());
            }
            index += 1;
        }
        proof {
            assert(names.take(index as int) =~= names);
            assert(names.to_set() =~= keys@.dom());
            self.lemma_cost_of_some(names, names.len() as int);
        }
        let ghost before = result;
        result.used_bytes = self.used_bytes;
        result.elsewhere = Ghost(data.used - total(before.values.items@));
        proof {
            before.lemma_same_entries(&result);
        }
        result
    }

    /// Some of the entries take no more than all.
    pub(crate) proof fn lemma_cost_of_some(&self, names: Seq<Seq<u8>>, count: int)
        requires
            self.wf(),
            accounting::distinct(names),
            0 <= count <= names.len(),
        ensures
            model::costs_of(self.data(), names.take(count)) <= self.data().used - self.outside(),
    {
        let data = self.data();
        let some = names.take(count);
        accounting::lemma_distinct_take(names, count);
        let all = self.values.keys();
        self.values.lemma_keys();
        assert forall|i: int|
            0 <= i < some.len() && data.entries.contains_key(#[trigger] some[i]) implies all.contains(
            some[i],
        ) by {
            assert(self.values@.dom().contains(some[i]));
        }
        accounting::lemma_costs_subset(data, some, all);
        accounting::lemma_total_costs(data, &self.values, self.values.items@.len() as int);
        assert(self.values.items@.take(self.values.items@.len() as int) =~= self.values.items@);
        assert(all.take(self.values.items@.len() as int) =~= all);
    }

    /// Removes the key if its entry has ended; tells whether it did.
    pub(crate) fn expire_key(&mut self, key: &[u8], now: u128) -> (result: bool)
        requires
            old(self).wf(),
        ensures
            final(self).wf(),
            result == (old(self).data().entries.contains_key(key@) && model::is_due(
                old(self).data().entries[key@],
                now,
            )),
            final(self).data() == if result {
                model::dropped(old(self).data(), key@)
            } else {
                old(self).data()
            },
            final(self).watched() == if result {
                old(self).watched().remove(key@)
            } else {
                old(self).watched()
            },
            final(self).next_watch() == old(self).next_watch(),
            final(self).outside() == old(self).outside(),
            final(self).version() == changes::later(
                old(self).version(),
                if result {
                    1
                } else {
                    0
                },
            ),
    {
        let due = match self.lookup(key) {
            None => false,
            Some(entry) => match entry.deadline {
                None => false,
                Some(deadline) => deadline.at <= now,
            },
        };
        if due {
            self.remove(key)
        } else {
            false
        }
    }

    /// Logical bytes that the key would take with this value, if a counter holds them.
    pub(crate) fn entry_bytes(key: &[u8], value: &Value) -> (result: Option<usize>)
        requires
            value.wf(),
        ensures
            match result {
                Some(size) => value::storable(value.model()) && size == model::cost(key@, value.model()),
                None => !value::storable(value.model()) || model::cost(key@, value.model()) > usize::MAX,
            },
    {
        let payload: usize = match value.logical_bytes() {
            None => return None,
            Some(payload) => payload,
        };
        match key.len().checked_add(payload) {
            None => None,
            Some(size) => size.checked_add(ENTRY_OVERHEAD_BYTES),
        }
    }

    /// Whether the value may stand under the key.
    pub(crate) fn can_replace(&self, key: &[u8], value: &Value) -> (result: bool)
        requires
            self.wf(),
            value.wf(),
        ensures
            result == model::fits(self.data(), key@, value.model()),
            result ==> self.data().used - model::cost_of(self.data(), key@) + model::cost(key@, value.model())
                <= usize::MAX,
    {
        proof {
            self.lemma_data();
        }
        let current: usize = match self.lookup(key) {
            None => 0,
            Some(entry) => match Store::entry_bytes(key, &entry.value) {
                None => 0,
                Some(size) => size,
            },
        };
        proof {
            assert(0 <= model::cost_of(self.data(), key@) <= self.data().used);
            assert(current == model::cost_of(self.data(), key@));
        }
        let proposed: usize = match Store::entry_bytes(key, value) {
            None => return false,
            Some(size) => size,
        };
        match (self.used_bytes - current).checked_add(proposed) {
            None => false,
            Some(usage) => usage <= self.config.max_dataset_bytes || usage <= self.used_bytes,
        }
    }

    /// Removes at most `budget` entries that have ended, the earliest first,
    /// without walking over the map.
    pub fn expire_due(&mut self, budget: usize, now: u128) -> (removed: usize)
        requires
            old(self).wf(),
        ensures
            final(self).wf(),
            final(self).outside() == old(self).outside(),
            removed <= budget,
            final(self).data().limit == old(self).data().limit,
            final(self).data().entries.submap_of(old(self).data().entries),
            old(self).data().entries.dom().len() == final(self).data().entries.dom().len()
                + removed,
            forall|key: Seq<u8>| #[trigger]
                old(self).data().entries.contains_key(key) && !final(self).data().entries.contains_key(key) ==> {
                    &&& model::is_due(old(self).data().entries[key], now)
                    &&& forall|other: Seq<u8>| #[trigger]
                        final(self).data().entries.contains_key(other) && final(self).data().entries[other].deadline is Some ==> old(self).data().entries[key].deadline->Some_0.at <= final(self).data().entries[other].deadline->Some_0.at
                },
            removed < budget ==> forall|key: Seq<u8>| #[trigger]
                final(self).data().entries.contains_key(key) ==> !model::is_due(
                    final(self).data().entries[key],
                    now,
                ),
            final(self).watched() == old(self).watched().remove_keys(
                old(self).data().entries.dom().difference(final(self).data().entries.dom()),
            ),
            final(self).next_watch() == old(self).next_watch(),
            final(self).version() == changes::later(old(self).version(), removed as nat),
    {
        let mut removed: usize = 0;
        let ghost first = self.data();
        let ghost mut latest: u128 = 0;
        proof {
            self.lemma_data();
            assert(first.entries.dom().difference(first.entries.dom()) =~= Set::empty());
            assert(self.watched().remove_keys(Set::empty()) =~= self.watched());
        }
        while removed < budget && self.expirations.len() > 0 && self.expirations[0].at <= now
            invariant
                self.wf(),
                first.entries.dom().finite(),
                removed <= budget,
                first == old(self).data(),
                self.outside() == old(self).outside(),
                self.data().limit == first.limit,
                self.data().entries.submap_of(first.entries),
                first.entries.dom().len() == self.data().entries.dom().len() + removed,
                self.watched() == old(self).watched().remove_keys(
                    first.entries.dom().difference(self.data().entries.dom()),
                ),
                self.next_watch() == old(self).next_watch(),
                self.version() == changes::later(old(self).version(), removed as nat),
                forall|i: int| 0 <= i < self.expirations@.len() ==> latest <= (
                #[trigger] self.expirations@[i]).at,
                forall|key: Seq<u8>| #[trigger]
                    first.entries.contains_key(key) && !self.data().entries.contains_key(key) ==> {
                        &&& model::is_due(first.entries[key], now)
                        &&& first.entries[key].deadline->Some_0.at <= latest
                    },
            decreases self.expirations@.len(),
        {
            let ghost before = *self;
            let key = self.expirations[0].key.clone();
            let ghost name = buffer::bytes_content(key);
            let ghost instant = self.expirations@[0].at;
            proof {
                assert(self.event_key(0) == name);
                assert(self.values@.contains_key(self.event_key(0)));
                before.lemma_data();
            }
            self.remove(as_slice(&key));
            removed += 1;
            proof {
                changes::lemma_later(old(self).version(), (removed - 1) as nat, 1);
                assert(before.data().entries.contains_key(name));
                latest = instant;
                self.lemma_events_after(&before, name);
                let gone = first.entries.dom().difference(before.data().entries.dom());
                assert(first.entries.dom().difference(self.data().entries.dom()) =~= gone.insert(
                    name,
                ));
                assert(old(self).watched().remove_keys(gone).remove(name) =~= old(
                    self,
                ).watched().remove_keys(gone.insert(name)));
            }
        }
        proof {
            assert forall|key: Seq<u8>| #[trigger] self.data().entries.contains_key(key)
                && self.data().entries[key].deadline is Some implies {
                &&& latest <= self.data().entries[key].deadline->Some_0.at
                &&& removed < budget ==> !model::is_due(self.data().entries[key], now)
            } by {
                assert(self.values@.contains_key(key));
                let i = choose|i: int|
                    0 <= i < self.expirations@.len() && #[trigger] self.event_key(i) == key;
                assert(latest <= self.expirations@[i].at);
                if i > 0 {
                    assert(self.expirations@[0].at <= self.expirations@[i].at);
                }
            }
        }
        removed
    }

    /// The keys of at most `budget` entries that have ended, the earliest first.
    pub(crate) fn due(&self, budget: usize, now: u128) -> (keys: Vec<Bytes>)
        requires
            self.wf(),
        ensures
            keys@.len() <= budget,
            forall|i: int, j: int|
                #![trigger keys@[i], keys@[j]]
                0 <= i < j < keys@.len() ==> {
                    let first = buffer::bytes_content(keys@[i]);
                    let second = buffer::bytes_content(keys@[j]);
                    &&& first != second
                    &&& self.data().entries[first].deadline->Some_0.at
                        <= self.data().entries[second].deadline->Some_0.at
                },
            forall|i: int|
                0 <= i < keys@.len() ==> {
                    let name = buffer::bytes_content(#[trigger] keys@[i]);
                    &&& self.data().entries.contains_key(name)
                    &&& model::is_due(self.data().entries[name], now)
                    &&& forall|other: Seq<u8>| #[trigger]
                        self.data().entries.contains_key(other)
                            && self.data().entries[other].deadline is Some && !(exists|j: int|
                            0 <= j < keys@.len() && buffer::bytes_content(#[trigger] keys@[j])
                                == other) ==> self.data().entries[name].deadline->Some_0.at
                            <= self.data().entries[other].deadline->Some_0.at
                },
            keys@.len() < budget ==> forall|key: Seq<u8>| #[trigger]
                self.data().entries.contains_key(key) && model::is_due(
                    self.data().entries[key],
                    now,
                ) ==> exists|i: int|
                    0 <= i < keys@.len() && buffer::bytes_content(#[trigger] keys@[i]) == key,
    {
        let mut keys: Vec<Bytes> = Vec::new();
        let mut index: usize = 0;
        while index < budget && index < self.expirations.len() && self.expirations[index].at <= now
            invariant
                self.wf(),
                index <= budget,
                index <= self.expirations@.len(),
                keys@.len() == index,
                forall|i: int|
                    0 <= i < index ==> buffer::bytes_content(#[trigger] keys@[i])
                        == self.event_key(i) && self.expirations@[i].at <= now,
            decreases self.expirations@.len() - index,
        {
            keys.push(self.expirations[index].key.clone());
            index += 1;
        }
        proof {
            assert forall|other: Seq<u8>| #[trigger]
                self.data().entries.contains_key(other) && self.data().entries[other].deadline
                    is Some && !(exists|j: int|
                    0 <= j < keys@.len() && buffer::bytes_content(#[trigger] keys@[j])
                        == other) implies {
                &&& forall|i: int|
                    0 <= i < index ==> (#[trigger] self.expirations@[i]).at
                        <= self.data().entries[other].deadline->Some_0.at
                &&& index < budget ==> !model::is_due(self.data().entries[other], now)
            } by {
                assert(self.values@.contains_key(other));
                let p = choose|i: int|
                    0 <= i < self.expirations@.len() && #[trigger] self.event_key(i) == other;
                if p < index {
                    assert(buffer::bytes_content(keys@[p]) == other);
                }
                assert(self.values@.contains_key(self.event_key(p)));
                assert forall|i: int| 0 <= i < index implies (#[trigger] self.expirations@[i]).at
                    <= self.data().entries[other].deadline->Some_0.at by {
                    assert(self.expirations@[i].at <= self.expirations@[p].at);
                }
                if index < budget {
                    if index < p {
                        assert(self.expirations@[index as int].at <= self.expirations@[p].at);
                    }
                }
            }
            assert forall|i: int| 0 <= i < keys@.len() implies {
                let name = buffer::bytes_content(#[trigger] keys@[i]);
                &&& self.data().entries.contains_key(name)
                &&& model::is_due(self.data().entries[name], now)
                &&& self.data().entries[name].deadline->Some_0.at == self.expirations@[i].at
            } by {
                assert(self.values@.contains_key(self.event_key(i)));
            }
            assert forall|i: int, j: int|
                #![trigger keys@[i], keys@[j]]
                0 <= i < j < keys@.len() implies {
                let first = buffer::bytes_content(keys@[i]);
                let second = buffer::bytes_content(keys@[j]);
                &&& first != second
                &&& self.data().entries[first].deadline->Some_0.at
                    <= self.data().entries[second].deadline->Some_0.at
            } by {
                assert(self.expirations@[i].at <= self.expirations@[j].at);
            }
        }
        keys
    }

    /// The events that are left stem from the same entries as before.
    proof fn lemma_events_after(&self, before: &Store, key: Seq<u8>)
        requires
            before.wf(),
            self.wf(),
            before.expirations@.len() > 0,
            before.event_key(0) == key,
            self.data().entries == before.data().entries.remove(key),
        ensures
            forall|i: int|
                0 <= i < self.expirations@.len() ==> before.expirations@[0].at <= (
                #[trigger] self.expirations@[i]).at,
            self.expirations@.len() < before.expirations@.len(),
    {
        assert forall|i: int| 0 <= i < self.expirations@.len() implies before.expirations@[0].at
            <= (#[trigger] self.expirations@[i]).at by {
            let name = self.event_key(i);
            assert(self.values@.contains_key(name));
            assert(self.data().entries.contains_key(name));
            assert(before.data().entries.contains_key(name));
            assert(before.data().entries[name] == self.data().entries[name]);
            assert(before.values@.contains_key(name));
            let j = choose|j: int|
                0 <= j < before.expirations@.len() && #[trigger] before.event_key(j) == name;
            if j > 0 {
                assert(before.expirations@[0].at <= before.expirations@[j].at);
            }
        }
        // Keys of events are distinct, and one of them is gone.
        let mine = Seq::new(self.expirations@.len(), |i: int| self.event_key(i));
        let theirs = Seq::new(before.expirations@.len(), |i: int| before.event_key(i));
        assert(mine.no_duplicates()) by {
            assert forall|i: int, j: int|
                0 <= i < mine.len() && 0 <= j < mine.len() && i != j implies mine[i] != mine[j] by {
                if i < j {
                    assert(self.expirations@[i].at <= self.expirations@[j].at);
                } else {
                    assert(self.expirations@[j].at <= self.expirations@[i].at);
                }
            }
        }
        assert(theirs.no_duplicates()) by {
            assert forall|i: int, j: int|
                0 <= i < theirs.len() && 0 <= j < theirs.len() && i != j implies theirs[i]
                != theirs[j] by {
                if i < j {
                    assert(before.expirations@[i].at <= before.expirations@[j].at);
                } else {
                    assert(before.expirations@[j].at <= before.expirations@[i].at);
                }
            }
        }
        mine.unique_seq_to_set();
        theirs.unique_seq_to_set();
        assert(mine.to_set().subset_of(theirs.to_set().remove(key))) by {
            assert forall|k: Seq<u8>| mine.to_set().contains(k) implies theirs.to_set().remove(
                key,
            ).contains(k) by {
                let i = choose|i: int| 0 <= i < mine.len() && mine[i] == k;
                assert(self.event_key(i) == k);
                assert(self.values@.contains_key(k));
                assert(self.data().entries.contains_key(k));
                assert(before.data().entries.contains_key(k));
                assert(before.data().entries[k] == self.data().entries[k]);
                assert(before.values@.contains_key(k));
                let j = choose|j: int|
                    0 <= j < before.expirations@.len() && #[trigger] before.event_key(j) == k;
                assert(theirs[j] == k);
            }
        }
        assert(theirs[0] == key);
        assert(theirs.to_set().contains(key));
        vstd::set_lib::lemma_len_subset(mine.to_set(), theirs.to_set().remove(key));
    }

    /// Observations do not touch the entries.
    proof fn lemma_same_entries(&self, later: &Store)
        requires
            self.wf(),
            later.values == self.values,
            later.expirations == self.expirations,
            later.config == self.config,
            later.elsewhere@ >= 0,
            later.used_bytes - later.elsewhere@ == self.used_bytes - self.elsewhere@,
            later.watches.wf(),
        ensures
            later.wf(),
            later.data() == (Dataset { used: later.used_bytes as int, ..self.data() }),
    {
        assert(later.indexed()) by {
            assert forall|i: int| 0 <= i < later.expirations@.len() implies {
                &&& later.values@.contains_key(#[trigger] later.event_key(i))
                &&& later.values@[later.event_key(i)].deadline matches Some(deadline)
                    && deadline.at == later.expirations@[i].at
            } by {
                assert(self.values@.contains_key(self.event_key(i)));
            }
            assert forall|i: int, j: int|
                #![trigger later.expirations@[i], later.expirations@[j]]
                0 <= i < j < later.expirations@.len() implies later.expirations@[i].at
                <= later.expirations@[j].at && later.event_key(i) != later.event_key(j) by {
                assert(self.expirations@[i].at <= self.expirations@[j].at);
                assert(self.event_key(i) != self.event_key(j));
            }
            assert forall|key: Seq<u8>|
                #[trigger] later.values@.contains_key(key) && later.values@[key].deadline
                    is Some implies exists|i: int|
                0 <= i < later.expirations@.len() && #[trigger] later.event_key(i) == key by {
                assert(self.values@.contains_key(key));
                let i = choose|i: int|
                    0 <= i < self.expirations@.len() && #[trigger] self.event_key(i) == key;
                assert(later.event_key(i) == key);
            }
        }
        assert(later.sound_entries()) by {
            assert forall|key: Seq<u8>| #[trigger] later.values@.contains_key(key) implies later.values@[key].wf() by {
                assert(self.values@.contains_key(key));
            }
        }
    }

    /// Observes keys; the caller removes entries that have ended first.
    pub fn watch(&mut self, keys: Vec<Bytes>) -> (tokens: Vec<WatchToken>)
        requires
            old(self).wf(),
        ensures
            final(self).wf(),
            final(self).data() == old(self).data(),
            final(self).outside() == old(self).outside(),
            final(self).version() == old(self).version(),
            tokens@.len() == keys@.len(),
            forall|i: int|
                0 <= i < tokens@.len() ==> observes(
                    old(self).data(),
                    final(self).watched(),
                    #[trigger] tokens@[i],
                    keys@[i],
                ),
            forall|key: Seq<u8>| #[trigger]
                old(self).watched().contains_key(key) ==> final(self).watched().contains_key(key)
                    && final(self).watched()[key].id == old(self).watched()[key].id,
            old(self).watched() == Map::<Seq<u8>, Watch>::empty() && old(self).next_watch()
                + keys@.len() <= u64::MAX ==> forall|i: int|
                0 <= i < tokens@.len() ==> (#[trigger] tokens@[i]).id() is Some,
            ({
                let (watches, next, ids) = watch::observed_all(
                    old(self).watched(),
                    old(self).next_watch(),
                    keys@,
                );
                &&& final(self).watched() == watches
                &&& final(self).next_watch() == next
                &&& tokens@.map_values(|token: WatchToken| token.id()) == ids
            }),
    {
        let mut tokens: Vec<WatchToken> = Vec::new();
        let mut index: usize = 0;
        assert(tokens@.map_values(|token: WatchToken| token.id()) =~= Seq::<Option<u64>>::empty());
        while index < keys.len()
            invariant
                self.wf(),
                index <= keys@.len(),
                tokens@.len() == index,
                self.data() == old(self).data(),
                self.outside() == old(self).outside(),
                self.version() == old(self).version(),
                (
                    self.watched(),
                    self.next_watch(),
                    tokens@.map_values(|token: WatchToken| token.id()),
                ) == watch::observed_all(
                    old(self).watched(),
                    old(self).next_watch(),
                    keys@.take(index as int),
                ),
                forall|i: int|
                    0 <= i < tokens@.len() ==> observes(
                        old(self).data(),
                        self.watched(),
                        #[trigger] tokens@[i],
                        keys@[i],
                    ),
                forall|key: Seq<u8>| #[trigger]
                    old(self).watched().contains_key(key) ==> self.watched().contains_key(key)
                        && self.watched()[key].id == old(self).watched()[key].id,
                old(self).watched() == Map::<Seq<u8>, Watch>::empty() && old(self).next_watch()
                    + keys@.len() <= u64::MAX ==> {
                    &&& self.next_watch() <= old(self).next_watch() + index
                    &&& forall|key: Seq<u8>| #[trigger]
                        self.watched().contains_key(key) ==> self.watched()[key].holders <= index
                    &&& forall|i: int|
                        0 <= i < tokens@.len() ==> (#[trigger] tokens@[i]).id() is Some
                },
            decreases keys@.len() - index,
        {
            let key = keys[index].clone();
            let deadline: Option<u128> = match self.lookup(as_slice(&keys[index])) {
                None => None,
                Some(entry) => match entry.deadline {
                    None => None,
                    Some(deadline) => Some(deadline.at),
                },
            };
            let ghost before = self.watched();
            let ghost earlier = *self;
            let ghost taken = tokens@;
            let token = self.watches.token(key, deadline);
            proof {
                earlier.lemma_same_entries(self);
                assert forall|i: int| 0 <= i < taken.len() implies observes(
                    old(self).data(),
                    self.watched(),
                    #[trigger] taken[i],
                    keys@[i],
                ) by {
                    assert(observes(old(self).data(), before, taken[i], keys@[i]));
                }
                assert(observes(old(self).data(), self.watched(), token, keys@[index as int]));
            }
            tokens.push(token);
            proof {
                assert(keys@.take(index + 1).drop_last() =~= keys@.take(index as int));
                assert(tokens@.map_values(|token: WatchToken| token.id()) =~= taken.map_values(
                    |token: WatchToken| token.id(),
                ).push(token.id()));
            }
            index += 1;
        }
        assert(keys@.take(index as int) =~= keys@);
        tokens
    }

    /// Whether no observed key changed. Asked by the owner that goes on to
    /// prepare and apply.
    pub fn watches_valid(&self, tokens: &[WatchToken], now: u128) -> (result: bool)
        requires
            self.wf(),
        ensures
            result == forall|i: int|
                0 <= i < tokens@.len() ==> !watch::is_changed(self.watched(), #[trigger] tokens@[i], now),
    {
        let mut index: usize = 0;
        while index < tokens.len()
            invariant
                self.wf(),
                index <= tokens@.len(),
                forall|i: int|
                    0 <= i < index ==> !watch::is_changed(self.watched(), #[trigger] tokens@[i], now),
            decreases tokens@.len() - index,
        {
            if self.watches.changed(&tokens[index], now) {
                assert(watch::is_changed(self.watched(), tokens@[index as int], now));
                return false;
            }
            index += 1;
        }
        true
    }

    /// Whether the key was written or removed since the token was taken.
    pub fn invalidated(&self, token: &WatchToken) -> (result: bool)
        requires
            self.wf(),
        ensures
            result == super::watch::is_invalidated(self.watched(), *token),
    {
        self.watches.invalidated(token)
    }

    /// Gives an observation back.
    pub fn unwatch(&mut self, token: WatchToken)
        requires
            old(self).wf(),
        ensures
            final(self).wf(),
            final(self).data() == old(self).data(),
            final(self).outside() == old(self).outside(),
            final(self).version() == old(self).version(),
            final(self).watched() == watch::released(old(self).watched(), token),
            final(self).next_watch() == old(self).next_watch(),
    {
        let ghost before = *self;
        self.watches.release(token);
        proof {
            before.lemma_same_entries(self);
        }
    }

    /// Number of keys that are being observed.
    pub fn watch_count(&self) -> (result: usize)
        requires
            self.wf(),
        ensures
            result == self.watched().dom().len(),
    {
        self.watches.len()
    }
}

/// Logical bytes of the payload of a sound entry whose size a counter holds.
fn entry_size(entry: &Entry) -> (result: usize)
    requires
        entry.wf(),
        value::value_bytes(entry.value.model()) <= usize::MAX,
    ensures
        result == value::value_bytes(entry.value.model()),
{
    match entry.value.logical_bytes() {
        Some(size) => size,
        None => 0,
    }
}

impl Default for Store {
    fn default() -> (result: Self)
        ensures
            result.wf(),
            result.outside() == 0,
            result.data() == (Dataset { entries: Map::empty(), used: 0, limit: 67108864 }),
            result.watched() == Map::<Seq<u8>, Watch>::empty(),
    {
        Store::new()
    }
}

} // verus!
