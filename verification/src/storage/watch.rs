//! Ephemeral observations: only keys with live tokens occupy the registry.

use crate::buffer::as_slice;
use crate::ordered::ByteMap;
use bytes::Bytes;
use crate::buffer;
use vstd::prelude::*;

verus! {

/// The observation of a key: its number, and how many tokens hold it.
#[derive(Clone, Copy, Debug, PartialEq, Eq, Structural)]
pub struct Watch {
    pub id: u64,
    pub holders: u64,
}

/// Keys that are being observed.
pub struct Registry {
    entries: ByteMap<Watch>,
    next: u64,
}

/// An observation that belongs to a connection or an accepted request. It is
/// given back with [`Registry::release`].
#[derive(Debug)]
pub struct WatchToken {
    key: Bytes,
    id: Option<u64>,
    deadline: Option<u128>,
}

impl WatchToken {
    pub closed spec fn observed(&self) -> Bytes {
        self.key
    }

    /// Number of the observation; one that got none counts as changed.
    pub closed spec fn id(&self) -> Option<u64> {
        self.id
    }

    /// When the entry that was observed ends.
    pub closed spec fn deadline(&self) -> Option<u128> {
        self.deadline
    }

    pub fn key(&self) -> (result: &Bytes)
        ensures
            *result == self.observed(),
    {
        &self.key
    }
}

/// Whether the key was written or removed since the token was taken.
pub open spec fn is_invalidated(watches: Map<Seq<u8>, Watch>, token: WatchToken) -> bool {
    let key = buffer::bytes_content(token.observed());
    !(watches.contains_key(key) && token.id() == Some(watches[key].id))
}

/// Whether the key changed since the token was taken, by a write or by its
/// deadline.
pub open spec fn is_changed(watches: Map<Seq<u8>, Watch>, token: WatchToken, now: u128) -> bool {
    is_invalidated(watches, token) || (token.deadline() matches Some(deadline) && deadline <= now)
}

/// The observations after one more of a key, the number that comes next, and
/// the number that this one got.
pub open spec fn observed_once(watches: Map<Seq<u8>, Watch>, next: u64, key: Seq<u8>) -> (
    Map<Seq<u8>, Watch>,
    u64,
    Option<u64>,
) {
    if watches.contains_key(key) {
        if watches[key].holders < u64::MAX {
            (
                watches.insert(
                    key,
                    Watch { holders: (watches[key].holders + 1) as u64, ..watches[key] },
                ),
                next,
                Some(watches[key].id),
            )
        } else {
            (watches, next, None)
        }
    } else if next < u64::MAX {
        (watches.insert(key, Watch { id: next, holders: 1 }), (next + 1) as u64, Some(next))
    } else {
        (watches, next, None)
    }
}

/// The observations after one more of each key.
pub open spec fn observed_all(watches: Map<Seq<u8>, Watch>, next: u64, keys: Seq<Bytes>) -> (
    Map<Seq<u8>, Watch>,
    u64,
    Seq<Option<u64>>,
)
    decreases keys.len(),
{
    if keys.len() == 0 {
        (watches, next, Seq::empty())
    } else {
        let (before, number, ids) = observed_all(watches, next, keys.drop_last());
        let (after, following, id) = observed_once(
            before,
            number,
            buffer::bytes_content(keys.last()),
        );
        (after, following, ids.push(id))
    }
}

/// The observations after a token was given back; the last one of a key frees
/// its place.
pub open spec fn released(watches: Map<Seq<u8>, Watch>, token: WatchToken) -> Map<Seq<u8>, Watch> {
    let key = buffer::bytes_content(token.observed());
    if is_invalidated(watches, token) {
        watches
    } else if watches[key].holders <= 1 {
        watches.remove(key)
    } else {
        watches.insert(key, Watch { holders: (watches[key].holders - 1) as u64, ..watches[key] })
    }
}

impl View for Registry {
    type V = Map<Seq<u8>, Watch>;

    closed spec fn view(&self) -> Map<Seq<u8>, Watch> {
        self.entries@
    }
}

impl Registry {
    /// Numbers given out so far are all smaller than the next one.
    pub closed spec fn wf(&self) -> bool {
        &&& self.entries.wf()
        &&& forall|key: Seq<u8>|
            #[trigger] self.entries@.contains_key(key) ==> self.entries@[key].id < self.next
    }

    /// The number that the next observation gets.
    pub closed spec fn next(&self) -> u64 {
        self.next
    }

    pub fn new() -> (result: Self)
        ensures
            result.wf(),
            result@ == Map::<Seq<u8>, Watch>::empty(),
            result.next() == 0,
    {
        Registry { entries: ByteMap::new(), next: 0 }
    }

    /// How many keys are observed.
    pub fn len(&self) -> (result: usize)
        requires
            self.wf(),
        ensures
            result == self@.dom().len(),
    {
        proof {
            self.entries.lemma_keys();
        }
        self.entries.len()
    }

    /// Observes a key. Observations of one key that no write separates share
    /// their number; after a write the number is a new one. Once numbers or
    /// holders run out, the token counts as changed.
    pub fn token(&mut self, key: Bytes, deadline: Option<u128>) -> (result: WatchToken)
        requires
            old(self).wf(),
        ensures
            final(self).wf(),
            result.observed() == key,
            result.deadline() == deadline,
            (final(self)@, final(self).next(), result.id()) == observed_once(
                old(self)@,
                old(self).next(),
                buffer::bytes_content(key),
            ),
    {
        let known: Option<Watch> = match self.entries.get(as_slice(&key)) {
            Some(watch) => Some(*watch),
            None => None,
        };
        match known {
            Some(watch) => {
                if watch.holders == u64::MAX {
                    return WatchToken { key, id: None, deadline };
                }
                let _ = self.entries.insert(
                    key.clone(),
                    Watch { id: watch.id, holders: watch.holders + 1 },
                );
                WatchToken { key, id: Some(watch.id), deadline }
            },
            None => {
                if self.next == u64::MAX {
                    return WatchToken { key, id: None, deadline };
                }
                let id: u64 = self.next;
                self.next = id + 1;
                let _ = self.entries.insert(key.clone(), Watch { id, holders: 1 });
                WatchToken { key, id: Some(id), deadline }
            },
        }
    }

    /// Ends all observations of a key.
    pub fn invalidate(&mut self, key: &[u8])
        requires
            old(self).wf(),
        ensures
            final(self).wf(),
            final(self)@ == old(self)@.remove(key@),
            final(self).next() == old(self).next(),
    {
        let _ = self.entries.remove(key);
    }

    /// Gives an observation back.
    pub fn release(&mut self, token: WatchToken)
        requires
            old(self).wf(),
        ensures
            final(self).wf(),
            final(self).next() == old(self).next(),
            final(self)@ == released(old(self)@, token),
    {
        if self.invalidated(&token) {
            return;
        }
        let watch: Watch = match self.entries.get(as_slice(&token.key)) {
            Some(watch) => *watch,
            None => return,
        };
        if watch.holders <= 1 {
            let _ = self.entries.remove(as_slice(&token.key));
        } else {
            let _ = self.entries.insert(
                token.key.clone(),
                Watch { id: watch.id, holders: watch.holders - 1 },
            );
        }
    }

    /// Whether the key was written or removed since the token was taken.
    pub fn invalidated(&self, token: &WatchToken) -> (result: bool)
        requires
            self.wf(),
        ensures
            result == is_invalidated(self@, *token),
    {
        match self.entries.get(as_slice(&token.key)) {
            Some(watch) => match token.id {
                Some(id) => id != watch.id,
                None => true,
            },
            None => true,
        }
    }

    /// Whether the key changed since the token was taken.
    pub fn changed(&self, token: &WatchToken, now: u128) -> (result: bool)
        requires
            self.wf(),
        ensures
            result == is_changed(self@, *token, now),
    {
        if self.invalidated(token) {
            return true;
        }
        match token.deadline {
            Some(deadline) => deadline <= now,
            None => false,
        }
    }
}

/// Numbers are not used twice: a token whose key was written or removed stays
/// invalid, also after the key is observed anew.
pub proof fn law_invalid_tokens_stay_invalid(
    before: Map<Seq<u8>, Watch>,
    after: Map<Seq<u8>, Watch>,
    next: u64,
    token: WatchToken,
)
    requires
        is_invalidated(before, token),
        token.id() matches Some(id) ==> id < next,
        forall|key: Seq<u8>| #[trigger]
            after.contains_key(key) ==> (before.contains_key(key) && after[key].id
                == before[key].id) || after[key].id >= next,
    ensures
        is_invalidated(after, token),
{
}

} // verus!
