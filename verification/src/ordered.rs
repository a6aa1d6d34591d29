//! Maps keyed by bytes, kept in the order of the bytes.

use crate::buffer::as_slice;
use bytes::Bytes;
use crate::buffer;
use vstd::prelude::*;

verus! {

/// Order of byte strings: by the first byte that differs; a proper beginning
/// comes first.
pub open spec fn precedes(left: Seq<u8>, right: Seq<u8>) -> bool
    decreases left.len(),
{
    if right.len() == 0 {
        false
    } else if left.len() == 0 {
        true
    } else if left[0] != right[0] {
        left[0] < right[0]
    } else {
        precedes(left.skip(1), right.skip(1))
    }
}

pub proof fn lemma_precedes_irreflexive(value: Seq<u8>)
    ensures
        !precedes(value, value),
    decreases value.len(),
{
    if value.len() > 0 {
        lemma_precedes_irreflexive(value.skip(1));
    }
}

pub proof fn lemma_precedes_transitive(first: Seq<u8>, second: Seq<u8>, third: Seq<u8>)
    requires
        precedes(first, second),
        precedes(second, third),
    ensures
        precedes(first, third),
    decreases first.len(),
{
    if first.len() > 0 && first[0] == second[0] && second[0] == third[0] {
        lemma_precedes_transitive(first.skip(1), second.skip(1), third.skip(1));
    }
}

pub proof fn lemma_precedes_total(left: Seq<u8>, right: Seq<u8>)
    ensures
        left == right || precedes(left, right) || precedes(right, left),
        !(precedes(left, right) && precedes(right, left)),
    decreases left.len(),
{
    if left.len() == 0 && right.len() == 0 {
        assert(left =~= right);
    } else if left.len() > 0 && right.len() > 0 && left[0] == right[0] {
        lemma_precedes_total(left.skip(1), right.skip(1));
        if left.skip(1) == right.skip(1) {
            assert(left =~= seq![left[0]] + left.skip(1));
            assert(right =~= seq![right[0]] + right.skip(1));
        }
    }
}

/// Whether the strings are in their order, and none occurs twice.
pub open spec fn ascending(keys: Seq<Seq<u8>>) -> bool {
    forall|i: int, j: int|
        #![trigger keys[i], keys[j]]
        0 <= i < j < keys.len() ==> precedes(keys[i], keys[j])
}

/// Whether the strings are those of the set, each once and in their order.
pub open spec fn is_listing(keys: Seq<Seq<u8>>, members: Set<Seq<u8>>) -> bool {
    &&& ascending(keys)
    &&& forall|key: Seq<u8>| #[trigger] members.contains(key) <==> keys.contains(key)
}

/// The strings of a finite set in their order.
pub open spec fn listing(members: Set<Seq<u8>>) -> Seq<Seq<u8>> {
    choose|keys: Seq<Seq<u8>>| is_listing(keys, members)
}

/// Whether the strings are in the given order, and are those of the set.
pub open spec fn is_sorted_by(
    less: spec_fn(Seq<u8>, Seq<u8>) -> bool,
    keys: Seq<Seq<u8>>,
    members: Set<Seq<u8>>,
) -> bool {
    &&& forall|i: int, j: int|
        #![trigger keys[i], keys[j]]
        0 <= i < j < keys.len() ==> less(keys[i], keys[j])
    &&& forall|key: Seq<u8>| #[trigger] members.contains(key) <==> keys.contains(key)
}

/// There is only one way to put a set in order.
pub proof fn lemma_sorted_unique(
    less: spec_fn(Seq<u8>, Seq<u8>) -> bool,
    left: Seq<Seq<u8>>,
    right: Seq<Seq<u8>>,
    members: Set<Seq<u8>>,
)
    requires
        forall|a: Seq<u8>, b: Seq<u8>| #[trigger] less(a, b) ==> !less(b, a),
        is_sorted_by(less, left, members),
        is_sorted_by(less, right, members),
    ensures
        left == right,
    decreases left.len(),
{
    if left.len() == 0 {
        if right.len() > 0 {
            assert(right.contains(right[0]));
            assert(members.contains(right[0]));
            assert(left.contains(right[0]));
        }
        assert(left =~= right);
    } else {
        let first = left[0];
        assert(left.contains(first));
        assert(members.contains(first));
        assert(right.contains(first));
        let at = choose|j: int| 0 <= j < right.len() && right[j] == first;
        if at > 0 {
            let smaller = right[0];
            assert(less(right[0], right[at]));
            assert(right.contains(smaller));
            assert(members.contains(smaller));
            assert(left.contains(smaller));
            let back = choose|i: int| 0 <= i < left.len() && left[i] == smaller;
            if back > 0 {
                assert(less(left[0], left[back]));
            }
            assert(false);
        }
        let rest = members.remove(first);
        lemma_sorted_tail(less, left, members);
        lemma_sorted_tail(less, right, members);
        lemma_sorted_unique(less, left.skip(1), right.skip(1), rest);
        assert(left =~= seq![first] + left.skip(1));
        assert(right =~= seq![first] + right.skip(1));
    }
}

proof fn lemma_sorted_tail(
    less: spec_fn(Seq<u8>, Seq<u8>) -> bool,
    keys: Seq<Seq<u8>>,
    members: Set<Seq<u8>>,
)
    requires
        forall|a: Seq<u8>, b: Seq<u8>| #[trigger] less(a, b) ==> !less(b, a),
        is_sorted_by(less, keys, members),
        keys.len() > 0,
    ensures
        is_sorted_by(less, keys.skip(1), members.remove(keys[0])),
{
    let rest = keys.skip(1);
    assert forall|i: int, j: int|
        #![trigger rest[i], rest[j]]
        0 <= i < j < rest.len() implies less(rest[i], rest[j]) by {
        assert(less(keys[i + 1], keys[j + 1]));
    }
    assert forall|key: Seq<u8>| #[trigger] members.remove(keys[0]).contains(
        key,
    ) <==> rest.contains(key) by {
        if rest.contains(key) {
            let i = choose|i: int| 0 <= i < rest.len() && rest[i] == key;
            assert(keys[i + 1] == key);
            assert(keys.contains(key));
            assert(members.contains(key));
            assert(less(keys[0], keys[i + 1]));
        }
        if members.contains(key) && key != keys[0] {
            assert(keys.contains(key));
            let i = choose|i: int| 0 <= i < keys.len() && keys[i] == key;
            assert(rest[i - 1] == key);
        }
    }
}

/// Where a string has its place among others that are in order.
proof fn sorted_place(
    less: spec_fn(Seq<u8>, Seq<u8>) -> bool,
    keys: Seq<Seq<u8>>,
    key: Seq<u8>,
) -> (at: int)
    requires
        forall|a: Seq<u8>, b: Seq<u8>, c: Seq<u8>|
            #[trigger] less(a, b) && #[trigger] less(b, c) ==> less(a, c),
        forall|a: Seq<u8>, b: Seq<u8>| a != b ==> #[trigger] less(a, b) || less(b, a),
        forall|i: int, j: int|
            #![trigger keys[i], keys[j]]
            0 <= i < j < keys.len() ==> less(keys[i], keys[j]),
        !keys.contains(key),
    ensures
        0 <= at <= keys.len(),
        forall|i: int| 0 <= i < at ==> less(#[trigger] keys[i], key),
        forall|i: int| at <= i < keys.len() ==> less(key, #[trigger] keys[i]),
    decreases keys.len(),
{
    if keys.len() == 0 {
        0
    } else {
        let front = keys.drop_last();
        let last = keys.last();
        assert(keys.contains(last));
        if less(last, key) {
            assert forall|i: int| 0 <= i < keys.len() implies less(#[trigger] keys[i], key) by {
                if i < front.len() {
                    assert(less(keys[i], keys[keys.len() - 1]));
                }
            }
            keys.len() as int
        } else {
            assert(less(key, last));
            assert(!front.contains(key)) by {
                if front.contains(key) {
                    let i = choose|i: int| 0 <= i < front.len() && front[i] == key;
                    assert(keys[i] == key);
                }
            }
            assert forall|i: int, j: int|
                #![trigger front[i], front[j]]
                0 <= i < j < front.len() implies less(front[i], front[j]) by {
                assert(less(keys[i], keys[j]));
            }
            let at = sorted_place(less, front, key);
            assert forall|i: int| 0 <= i < at implies less(#[trigger] keys[i], key) by {
                assert(front[i] == keys[i]);
            }
            assert forall|i: int| at <= i < keys.len() implies less(key, #[trigger] keys[i]) by {
                if i < front.len() {
                    assert(front[i] == keys[i]);
                }
            }
            at
        }
    }
}

/// Every finite set can be put in order.
pub proof fn lemma_sorted_exists(
    less: spec_fn(Seq<u8>, Seq<u8>) -> bool,
    members: Set<Seq<u8>>,
) -> (keys: Seq<Seq<u8>>)
    requires
        members.finite(),
        forall|a: Seq<u8>, b: Seq<u8>, c: Seq<u8>|
            #[trigger] less(a, b) && #[trigger] less(b, c) ==> less(a, c),
        forall|a: Seq<u8>, b: Seq<u8>| a != b ==> #[trigger] less(a, b) || less(b, a),
    ensures
        is_sorted_by(less, keys, members),
        keys.len() == members.len(),
    decreases members.len(),
{
    if members.is_empty() {
        let keys = Seq::<Seq<u8>>::empty();
        assert(members.len() == 0);
        keys
    } else {
        let key = members.choose();
        let rest = members.remove(key);
        let sorted = lemma_sorted_exists(less, rest);
        assert(!sorted.contains(key)) by {
            assert(!rest.contains(key));
        }
        let at = sorted_place(less, sorted, key);
        let keys = sorted.insert(at, key);
        assert forall|i: int, j: int|
            #![trigger keys[i], keys[j]]
            0 <= i < j < keys.len() implies less(keys[i], keys[j]) by {
            let p = if i < at {
                i
            } else {
                i - 1
            };
            let q = if j < at {
                j
            } else {
                j - 1
            };
            if i != at && j != at {
                assert(less(sorted[p], sorted[q]));
            } else if i == at {
                assert(less(key, sorted[q]));
            } else {
                assert(less(sorted[p], key));
            }
        }
        assert forall|other: Seq<u8>| #[trigger] members.contains(other) <==> keys.contains(other) by {
            assert(keys[at] == key);
            if members.contains(other) && other != key {
                assert(rest.contains(other));
                let i = choose|i: int| 0 <= i < sorted.len() && sorted[i] == other;
                assert(keys[if i < at {
                    i
                } else {
                    i + 1
                }] == other);
            }
            if keys.contains(other) && other != key {
                let i = choose|i: int| 0 <= i < keys.len() && keys[i] == other;
                assert(sorted[if i < at {
                    i
                } else {
                    i - 1
                }] == other);
                assert(sorted.contains(other));
                assert(rest.contains(other));
            }
        }
        keys
    }
}

/// A set has only one listing.
pub proof fn lemma_listing_unique(
    left: Seq<Seq<u8>>,
    right: Seq<Seq<u8>>,
    members: Set<Seq<u8>>,
)
    requires
        is_listing(left, members),
        is_listing(right, members),
    ensures
        left == right,
{
    let less = |a: Seq<u8>, b: Seq<u8>| precedes(a, b);
    assert forall|a: Seq<u8>, b: Seq<u8>| #[trigger] less(a, b) implies !less(b, a) by {
        lemma_precedes_total(a, b);
    }
    assert(is_sorted_by(less, left, members));
    assert(is_sorted_by(less, right, members));
    lemma_sorted_unique(less, left, right, members);
}

/// Where a byte string stands relative to another.
#[derive(Clone, Copy, Debug, PartialEq, Eq, Structural)]
pub enum Position {
    Before,
    Same,
    After,
}

/// Where `left` stands relative to `right`.
pub fn position(left: &[u8], right: &[u8]) -> (result: Position)
    ensures
        match result {
            Position::Before => precedes(left@, right@) && left@ != right@,
            Position::Same => left@ == right@,
            Position::After => precedes(right@, left@) && left@ != right@,
        },
{
    proof {
        lemma_precedes_total(left@, right@);
        lemma_precedes_irreflexive(left@);
        assert(left@.skip(0) =~= left@);
        assert(right@.skip(0) =~= right@);
    }
    let mut index: usize = 0;
    while index < left.len() && index < right.len()
        invariant
            index <= left@.len(),
            index <= right@.len(),
            left@.take(index as int) == right@.take(index as int),
            precedes(left@, right@) == precedes(left@.skip(index as int), right@.skip(index as int)),
            precedes(right@, left@) == precedes(right@.skip(index as int), left@.skip(index as int)),
            left@ == right@ || precedes(left@, right@) || precedes(right@, left@),
            left@ == right@ ==> !precedes(left@, right@) && !precedes(right@, left@),
        decreases left@.len() - index,
    {
        let ghost l = left@.skip(index as int);
        let ghost r = right@.skip(index as int);
        assert(l[0] == left@[index as int]);
        assert(r[0] == right@[index as int]);
        if left[index] != right[index] {
            return if left[index] < right[index] {
                Position::Before
            } else {
                Position::After
            };
        }
        assert(l.skip(1) =~= left@.skip(index + 1));
        assert(r.skip(1) =~= right@.skip(index + 1));
        assert(left@.take(index + 1) =~= left@.take(index as int).push(left@[index as int]));
        assert(right@.take(index + 1) =~= right@.take(index as int).push(right@[index as int]));
        index += 1;
    }
    if left.len() == right.len() {
        assert(left@.take(index as int) =~= left@);
        assert(right@.take(index as int) =~= right@);
        Position::Same
    } else if left.len() < right.len() {
        Position::Before
    } else {
        Position::After
    }
}

/// A map from byte strings, held in the order of its keys.
#[derive(Debug, PartialEq, Eq)]
pub struct ByteMap<V> {
    /// Keys and values, in the order of the keys.
    pub items: Vec<(Bytes, V)>,
}

impl<V> ByteMap<V> {
    /// The key at this place.
    pub open spec fn key_at(&self, index: int) -> Seq<u8> {
        buffer::bytes_content(self.items@[index].0)
    }

    /// Keys are in their order, and none occurs twice.
    pub open spec fn wf(&self) -> bool {
        forall|i: int, j: int|
            #![trigger self.key_at(i), self.key_at(j)]
            0 <= i < j < self.items@.len() ==> precedes(self.key_at(i), self.key_at(j))
    }

    /// Where the map holds the key.
    pub open spec fn place(&self, key: Seq<u8>) -> int {
        choose|i: int| 0 <= i < self.items@.len() && #[trigger] self.key_at(i) == key
    }

    pub open spec fn holds(&self, key: Seq<u8>) -> bool {
        exists|i: int| 0 <= i < self.items@.len() && #[trigger] self.key_at(i) == key
    }
}

impl<V> View for ByteMap<V> {
    type V = Map<Seq<u8>, V>;

    open spec fn view(&self) -> Map<Seq<u8>, V> {
        Map::new(
            |key: Seq<u8>| self.holds(key),
            |key: Seq<u8>| self.items@[self.place(key)].1,
        )
    }
}

impl<V> ByteMap<V> {
    /// Each place holds the value of its key.
    pub proof fn lemma_at(&self, index: int)
        requires
            self.wf(),
            0 <= index < self.items@.len(),
        ensures
            self.holds(self.key_at(index)),
            self@.contains_key(self.key_at(index)),
            self@[self.key_at(index)] == self.items@[index].1,
            self.place(self.key_at(index)) == index,
    {
        let key = self.key_at(index);
        let found = self.place(key);
        lemma_precedes_irreflexive(key);
        assert(0 <= found < self.items@.len() && self.key_at(found) == key);
        if found < index {
            assert(precedes(self.key_at(found), self.key_at(index)));
        } else if index < found {
            assert(precedes(self.key_at(index), self.key_at(found)));
        }
    }

    /// A key of the map is held at its place.
    pub proof fn lemma_place(&self, key: Seq<u8>)
        requires
            self.wf(),
            self@.contains_key(key),
        ensures
            0 <= self.place(key) < self.items@.len(),
            self.key_at(self.place(key)) == key,
            self@[key] == self.items@[self.place(key)].1,
    {
        assert(self.holds(key));
    }

    /// The keys in the order in which the map holds them.
    pub open spec fn keys(&self) -> Seq<Seq<u8>> {
        Seq::new(self.items@.len(), |i: int| self.key_at(i))
    }

    /// The map holds its keys in their order.
    pub proof fn lemma_keys(&self)
        requires
            self.wf(),
        ensures
            is_listing(self.keys(), self@.dom()),
            self.keys() == listing(self@.dom()),
            self@.dom().finite(),
            self@.dom().len() == self.items@.len(),
    {
        let keys = self.keys();
        assert(ascending(keys)) by {
            assert forall|i: int, j: int|
                #![trigger keys[i], keys[j]]
                0 <= i < j < keys.len() implies precedes(keys[i], keys[j]) by {
                assert(precedes(self.key_at(i), self.key_at(j)));
            }
        }
        assert forall|key: Seq<u8>| #[trigger] self@.dom().contains(key) <==> keys.contains(
            key,
        ) by {
            if self@.contains_key(key) {
                self.lemma_place(key);
                assert(keys[self.place(key)] == key);
            }
            if keys.contains(key) {
                let i = choose|i: int| 0 <= i < keys.len() && keys[i] == key;
                self.lemma_at(i);
            }
        }
        lemma_listing_unique(keys, listing(self@.dom()), self@.dom());
        assert(keys.no_duplicates()) by {
            assert forall|i: int, j: int| 0 <= i < keys.len() && 0 <= j < keys.len() && i != j
                implies keys[i] != keys[j] by {
                if i < j {
                    assert(precedes(keys[i], keys[j]));
                } else {
                    assert(precedes(keys[j], keys[i]));
                }
                lemma_precedes_irreflexive(keys[i]);
            }
        }
        keys.unique_seq_to_set();
        assert(keys.to_set() =~= self@.dom());
    }

    /// The map without a key or value.
    pub fn new() -> (result: Self)
        ensures
            result.wf(),
            result@ == Map::<Seq<u8>, V>::empty(),
            result.items@.len() == 0,
    {
        let result = ByteMap { items: Vec::new() };
        assert(result@ =~= Map::<Seq<u8>, V>::empty());
        result
    }

    pub fn len(&self) -> (result: usize)
        ensures
            result == self.items@.len(),
    {
        self.items.len()
    }

    pub fn is_empty(&self) -> (result: bool)
        requires
            self.wf(),
        ensures
            result == (self@ == Map::<Seq<u8>, V>::empty()),
            result == (self.items@.len() == 0),
    {
        proof {
            if self.items@.len() > 0 {
                self.lemma_at(0);
                assert(self@.contains_key(self.key_at(0)));
            } else {
                assert(self@ =~= Map::<Seq<u8>, V>::empty());
            }
        }
        self.items.len() == 0
    }

    /// Finds the place of a key, or the place where it would stand.
    pub fn search(&self, key: &[u8]) -> (result: (bool, usize))
        requires
            self.wf(),
        ensures
            result.1 <= self.items@.len(),
            result.0 == self@.contains_key(key@),
            result.0 ==> result.1 < self.items@.len() && self.key_at(result.1 as int) == key@,
            !result.0 ==> {
                &&& forall|i: int|
                    0 <= i < result.1 ==> precedes(#[trigger] self.key_at(i), key@)
                &&& forall|i: int|
                    result.1 <= i < self.items@.len() ==> precedes(key@, #[trigger] self.key_at(i))
            },
    {
        let mut low: usize = 0;
        let mut high: usize = self.items.len();
        while low < high
            invariant
                self.wf(),
                low <= high <= self.items@.len(),
                forall|i: int| 0 <= i < low ==> precedes(#[trigger] self.key_at(i), key@),
                forall|i: int|
                    high <= i < self.items@.len() ==> precedes(key@, #[trigger] self.key_at(i)),
            decreases high - low,
        {
            let middle: usize = low + (high - low) / 2;
            let here = as_slice(&self.items[middle].0);
            match position(here, key) {
                Position::Same => {
                    proof {
                        self.lemma_at(middle as int);
                    }
                    return (true, middle);
                },
                Position::Before => {
                    proof {
                        assert forall|i: int| 0 <= i < middle + 1 implies precedes(
                            #[trigger] self.key_at(i),
                            key@,
                        ) by {
                            if i < middle {
                                assert(precedes(self.key_at(i), self.key_at(middle as int)));
                                lemma_precedes_transitive(
                                    self.key_at(i),
                                    self.key_at(middle as int),
                                    key@,
                                );
                            }
                        }
                    }
                    low = middle + 1;
                },
                Position::After => {
                    proof {
                        assert forall|i: int| middle <= i < self.items@.len() implies precedes(
                            key@,
                            #[trigger] self.key_at(i),
                        ) by {
                            if i > middle {
                                assert(precedes(self.key_at(middle as int), self.key_at(i)));
                                lemma_precedes_transitive(
                                    key@,
                                    self.key_at(middle as int),
                                    self.key_at(i),
                                );
                            }
                        }
                    }
                    high = middle;
                },
            }
        }
        proof {
            if self@.contains_key(key@) {
                self.lemma_place(key@);
                let at = self.place(key@);
                lemma_precedes_irreflexive(key@);
                assert(self.key_at(at) == key@);
                assert(false);
            }
        }
        (false, low)
    }

    pub fn contains(&self, key: &[u8]) -> (result: bool)
        requires
            self.wf(),
        ensures
            result == self@.contains_key(key@),
    {
        self.search(key).0
    }

    pub fn get(&self, key: &[u8]) -> (result: Option<&V>)
        requires
            self.wf(),
        ensures
            match result {
                Some(value) => self@.contains_key(key@) && *value == self@[key@],
                None => !self@.contains_key(key@),
            },
    {
        let (found, index) = self.search(key);
        if found {
            proof {
                self.lemma_at(index as int);
            }
            Some(&self.items[index].1)
        } else {
            None
        }
    }

    /// Gives the key a value; hands out the value that it had.
    pub fn insert(&mut self, key: Bytes, value: V) -> (result: Option<V>)
        requires
            old(self).wf(),
        ensures
            final(self).wf(),
            final(self)@ == old(self)@.insert(buffer::bytes_content(key), value),
            match result {
                Some(previous) => old(self)@.contains_key(buffer::bytes_content(key)) && previous
                    == old(self)@[buffer::bytes_content(key)],
                None => !old(self)@.contains_key(buffer::bytes_content(key)),
            },
            final(self).items@.len() == old(self).items@.len() + (if result is None {
                1int
            } else {
                0int
            }),
            exists|i: int|
                #![trigger final(self).items@[i]]
                0 <= i < final(self).items@.len() && final(self).items@[i] == (key, value) && if result
                    is None {
                    final(self).items@ == old(self).items@.insert(i, (key, value))
                } else {
                    final(self).items@ == old(self).items@.update(i, (key, value))
                        && old(self).key_at(i) == buffer::bytes_content(key)
                },
    {
        let ghost content = buffer::bytes_content(key);
        let (found, index) = self.search(as_slice(&key));
        let ghost before = *self;
        if found {
            proof {
                before.lemma_at(index as int);
            }
            let mut item = (key, value);
            let ghost replaced = item;
            self.items.set_and_swap(index, &mut item);
            proof {
                assert(self.items@ == before.items@.update(index as int, replaced));
                assert forall|i: int| 0 <= i < self.items@.len() implies #[trigger] self.key_at(i)
                    == before.key_at(i) by {}
                assert(self.wf()) by {
                    assert forall|i: int, j: int|
                        #![trigger self.key_at(i), self.key_at(j)]
                        0 <= i < j < self.items@.len() implies precedes(
                        self.key_at(i),
                        self.key_at(j),
                    ) by {
                        assert(precedes(before.key_at(i), before.key_at(j)));
                    }
                }
                let target = before@.insert(content, value);
                let at = index as int;
                assert forall|i: int| 0 <= i < self.items@.len() implies target.contains_key(
                    #[trigger] self.key_at(i),
                ) && target[self.key_at(i)] == self.items@[i].1 by {
                    before.lemma_at(i);
                    lemma_precedes_irreflexive(content);
                    if i < at {
                        assert(precedes(before.key_at(i), before.key_at(at)));
                    } else if i > at {
                        assert(precedes(before.key_at(at), before.key_at(i)));
                    }
                }
                assert forall|k: Seq<u8>| target.contains_key(k) implies self.holds(k) by {
                    if k == content {
                        assert(self.key_at(at) == k);
                    } else {
                        before.lemma_place(k);
                        assert(self.key_at(before.place(k)) == k);
                    }
                }
                self.lemma_view_is(target);
                assert(self.items@[at] == replaced);
            }
            Some(item.1)
        } else {
            self.items.insert(index, (key, value));
            proof {
                let at = index as int;
                assert forall|i: int| 0 <= i < self.items@.len() implies #[trigger] self.key_at(i)
                    == (if i < at {
                    before.key_at(i)
                } else if i == at {
                    content
                } else {
                    before.key_at(i - 1)
                }) by {}
                assert(self.wf()) by {
                    assert forall|i: int, j: int|
                        #![trigger self.key_at(i), self.key_at(j)]
                        0 <= i < j < self.items@.len() implies precedes(
                        self.key_at(i),
                        self.key_at(j),
                    ) by {
                        if j == at {
                            assert(precedes(before.key_at(i), content));
                        } else if i == at {
                            assert(precedes(content, before.key_at(j - 1)));
                        } else {
                            let a = if i < at {
                                i
                            } else {
                                i - 1
                            };
                            let b = if j < at {
                                j
                            } else {
                                j - 1
                            };
                            assert(precedes(before.key_at(a), before.key_at(b)));
                        }
                    }
                }
                let target = before@.insert(content, value);
                assert forall|i: int| 0 <= i < self.items@.len() implies target.contains_key(
                    #[trigger] self.key_at(i),
                ) && target[self.key_at(i)] == self.items@[i].1 by {
                    if i < at {
                        before.lemma_at(i);
                        assert(before@.contains_key(before.key_at(i)));
                    } else if i > at {
                        before.lemma_at(i - 1);
                        assert(before@.contains_key(before.key_at(i - 1)));
                    }
                }
                assert forall|k: Seq<u8>| target.contains_key(k) implies self.holds(k) by {
                    if k == content {
                        assert(self.key_at(at) == k);
                    } else {
                        before.lemma_place(k);
                        let a = before.place(k);
                        let i = if a < at {
                            a
                        } else {
                            a + 1
                        };
                        assert(self.key_at(i) == k);
                    }
                }
                self.lemma_view_is(target);
                assert(self.items@[at] == (key, value));
            }
            None
        }
    }

    /// Takes the key and its value out.
    pub fn remove(&mut self, key: &[u8]) -> (result: Option<V>)
        requires
            old(self).wf(),
        ensures
            final(self).wf(),
            final(self)@ == old(self)@.remove(key@),
            match result {
                Some(previous) => {
                    &&& old(self)@.contains_key(key@)
                    &&& previous == old(self)@[key@]
                    &&& final(self).items@.len() + 1 == old(self).items@.len()
                    &&& exists|i: int|
                        #![trigger old(self).items@[i]]
                        0 <= i < old(self).items@.len() && final(self).items@
                            == old(self).items@.remove(i) && old(self).key_at(i) == key@
                },
                None => !old(self)@.contains_key(key@) && *final(self) == *old(self),
            },
    {
        let (found, index) = self.search(key);
        if !found {
            assert(self@ =~= old(self)@.remove(key@));
            return None;
        }
        let ghost before = *self;
        proof {
            before.lemma_at(index as int);
        }
        let item = self.items.remove(index);
        proof {
            let at = index as int;
            assert(item == before.items@[at]);
            assert forall|i: int| 0 <= i < self.items@.len() implies #[trigger] self.key_at(i)
                == (if i < at {
                before.key_at(i)
            } else {
                before.key_at(i + 1)
            }) by {}
            assert(self.wf()) by {
                assert forall|i: int, j: int|
                    #![trigger self.key_at(i), self.key_at(j)]
                    0 <= i < j < self.items@.len() implies precedes(
                    self.key_at(i),
                    self.key_at(j),
                ) by {
                    let a = if i < at {
                        i
                    } else {
                        i + 1
                    };
                    let b = if j < at {
                        j
                    } else {
                        j + 1
                    };
                    assert(precedes(before.key_at(a), before.key_at(b)));
                }
            }
            let target = before@.remove(key@);
            assert forall|i: int| 0 <= i < self.items@.len() implies target.contains_key(
                #[trigger] self.key_at(i),
            ) && target[self.key_at(i)] == self.items@[i].1 by {
                let a = if i < at {
                    i
                } else {
                    i + 1
                };
                before.lemma_at(a);
                lemma_precedes_irreflexive(key@);
                if a < at {
                    assert(precedes(before.key_at(a), before.key_at(at)));
                } else {
                    assert(precedes(before.key_at(at), before.key_at(a)));
                }
            }
            assert forall|k: Seq<u8>| target.contains_key(k) implies self.holds(k) by {
                before.lemma_place(k);
                let a = before.place(k);
                let i = if a < at {
                    a
                } else {
                    a - 1
                };
                assert(self.key_at(i) == k);
            }
            self.lemma_view_is(target);
        }
        Some(item.1)
    }

    /// The view is the given map if each place agrees with it and it has no
    /// other keys.
    proof fn lemma_view_is(&self, target: Map<Seq<u8>, V>)
        requires
            self.wf(),
            forall|i: int|
                0 <= i < self.items@.len() ==> target.contains_key(#[trigger] self.key_at(i))
                    && target[self.key_at(i)] == self.items@[i].1,
            forall|k: Seq<u8>| target.contains_key(k) ==> self.holds(k),
        ensures
            self@ == target,
    {
        assert forall|k: Seq<u8>| #[trigger] self@.contains_key(k) implies target.contains_key(k)
            && target[k] == self@[k] by {
            self.lemma_place(k);
            assert(target.contains_key(self.key_at(self.place(k))));
        }
        assert(self@ =~= target);
    }
}

} // verus!
