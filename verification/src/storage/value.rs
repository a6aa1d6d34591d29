//! Typed values and what they cost.

use crate::buffer::{as_slice, length};
use crate::command::score::Score;
use crate::ordered::{ByteMap, Position, position};
use bytes::Bytes;
use crate::buffer;
use crate::ordered;
use vstd::prelude::*;

verus! {

/// A score by content.
#[verifier::ext_equal]
pub struct ScoreModel {
    pub order: i64,
    pub text: Seq<u8>,
}

impl Score {
    pub open spec fn model(self) -> ScoreModel {
        ScoreModel { order: self.order, text: buffer::bytes_content(self.text) }
    }

    /// The same score once more.
    pub fn duplicate(&self) -> (result: Self)
        ensures
            result.model() == self.model(),
    {
        Score { order: self.order, text: self.text.clone() }
    }
}

/// A value by content.
#[verifier::ext_equal]
pub enum ValueModel {
    Text(Seq<u8>),
    Hash(Map<Seq<u8>, Seq<u8>>),
    SortedSet(Map<Seq<u8>, ScoreModel>),
}

/// What the fields of a hash take, each with its value and a fixed share.
pub open spec fn fields_bytes(keys: Seq<Seq<u8>>, fields: Map<Seq<u8>, Seq<u8>>) -> nat
    decreases keys.len(),
{
    if keys.len() == 0 {
        0
    } else {
        fields_bytes(keys.drop_last(), fields) + keys.last().len() + fields[keys.last()].len() + 64
    }
}

/// What the members of a sorted set take, each with its score and a fixed share.
pub open spec fn members_bytes(keys: Seq<Seq<u8>>) -> nat
    decreases keys.len(),
{
    if keys.len() == 0 {
        0
    } else {
        members_bytes(keys.drop_last()) + keys.last().len() + 72
    }
}

/// Logical bytes of a value.
pub open spec fn value_bytes(value: ValueModel) -> nat {
    match value {
        ValueModel::Text(text) => text.len(),
        ValueModel::Hash(fields) => fields_bytes(ordered::listing(fields.dom()), fields),
        ValueModel::SortedSet(members) => members_bytes(ordered::listing(members.dom())),
    }
}

/// Whether a key may hold the value: collections that are kept are not empty.
pub open spec fn storable(value: ValueModel) -> bool {
    match value {
        ValueModel::Text(_) => true,
        ValueModel::Hash(fields) => !fields.dom().is_empty(),
        ValueModel::SortedSet(members) => !members.dom().is_empty(),
    }
}

/// Whether a collection is finite, as those of a store are.
pub open spec fn finite_value(value: ValueModel) -> bool {
    match value {
        ValueModel::Text(_) => true,
        ValueModel::Hash(fields) => fields.dom().finite(),
        ValueModel::SortedSet(members) => members.dom().finite(),
    }
}

/// Whether one member of a sorted set comes before another.
pub open spec fn ranks_before(
    left_order: i64,
    left: Seq<u8>,
    right_order: i64,
    right: Seq<u8>,
) -> bool {
    left_order < right_order || (left_order == right_order && ordered::precedes(left, right))
}

/// The order of the members of a sorted set: by score, then by their bytes.
pub open spec fn member_order(members: Map<Seq<u8>, ScoreModel>) -> spec_fn(
    Seq<u8>,
    Seq<u8>,
) -> bool {
    |left: Seq<u8>, right: Seq<u8>|
        ranks_before(members[left].order, left, members[right].order, right)
}

/// The members of a sorted set in their order.
pub open spec fn ranking(members: Map<Seq<u8>, ScoreModel>) -> Seq<Seq<u8>> {
    choose|keys: Seq<Seq<u8>>| ordered::is_sorted_by(member_order(members), keys, members.dom())
}

/// Members with their scores, found by name and listed by rank.
#[derive(Debug, PartialEq, Eq)]
pub struct SortedSet {
    members: ByteMap<Score>,
    ordered: Vec<(i64, Bytes)>,
}

impl View for SortedSet {
    type V = Map<Seq<u8>, ScoreModel>;

    closed spec fn view(&self) -> Map<Seq<u8>, ScoreModel> {
        self.members@.map_values(|score: Score| score.model())
    }
}

impl SortedSet {
    spec fn name(&self, index: int) -> Seq<u8> {
        buffer::bytes_content(self.ordered@[index].1)
    }

    spec fn order(&self, index: int) -> i64 {
        self.ordered@[index].0
    }

    spec fn ascends(&self) -> bool {
        forall|i: int, j: int|
            #![trigger self.name(i), self.name(j)]
            0 <= i < j < self.ordered@.len() ==> ranks_before(
                self.order(i),
                self.name(i),
                self.order(j),
                self.name(j),
            )
    }

    /// Both indexes hold the same members with the same scores.
    pub closed spec fn wf(&self) -> bool {
        &&& self.members.wf()
        &&& self.ascends()
        &&& forall|i: int|
            0 <= i < self.ordered@.len() ==> self.members@.contains_key(#[trigger] self.name(i))
                && self.members@[self.name(i)].order == self.order(i)
        &&& forall|key: Seq<u8>|
            #[trigger] self.members@.contains_key(key) ==> exists|i: int|
                0 <= i < self.ordered@.len() && self.name(i) == key
    }

    /// A sound set has finitely many members.
    pub proof fn lemma_finite(&self)
        requires
            self.wf(),
        ensures
            self@.dom().finite(),
    {
        self.members.lemma_keys();
        assert(self@.dom() =~= self.members@.dom());
    }

    /// An empty set.
    pub fn new() -> (result: Self)
        ensures
            result.wf(),
            result@ == Map::<Seq<u8>, ScoreModel>::empty(),
    {
        let result = SortedSet { members: ByteMap::new(), ordered: Vec::new() };
        assert(result@ =~= Map::<Seq<u8>, ScoreModel>::empty());
        result
    }

    pub fn len(&self) -> (result: usize)
        requires
            self.wf(),
        ensures
            result == self@.dom().len(),
    {
        proof {
            self.members.lemma_keys();
            assert(self@.dom() =~= self.members@.dom());
        }
        self.members.len()
    }

    pub fn is_empty(&self) -> (result: bool)
        requires
            self.wf(),
        ensures
            result == self@.dom().is_empty(),
    {
        proof {
            assert(self@.dom() =~= self.members@.dom());
            if self@.dom().is_empty() {
                assert(self.members@ =~= Map::<Seq<u8>, Score>::empty());
            }
        }
        self.members.is_empty()
    }

    /// The score of a member.
    pub fn get(&self, member: &[u8]) -> (result: Option<&Score>)
        requires
            self.wf(),
        ensures
            match result {
                Some(score) => self@.contains_key(member@) && score.model() == self@[member@],
                None => !self@.contains_key(member@),
            },
    {
        self.members.get(member)
    }

    /// Members in the order of their bytes, with their scores.
    pub fn by_member(&self) -> (result: &ByteMap<Score>)
        requires
            self.wf(),
        ensures
            result.wf(),
            self@ == result@.map_values(|score: Score| score.model()),
    {
        &self.members
    }

    /// Members in their order.
    pub fn ranked(&self) -> (result: &Vec<(i64, Bytes)>)
        requires
            self.wf(),
        ensures
            result@.len() == ranking(self@).len(),
            result@.len() == self@.dom().len(),
            forall|i: int|
                0 <= i < result@.len() ==> {
                    &&& buffer::bytes_content((#[trigger] result@[i]).1) == ranking(self@)[i]
                    &&& self@.contains_key(ranking(self@)[i])
                    &&& result@[i].0 == self@[ranking(self@)[i]].order
                },
            forall|i: int, j: int|
                #![trigger result@[i], result@[j]]
                0 <= i < j < result@.len() ==> ranks_before(
                    result@[i].0,
                    buffer::bytes_content(result@[i].1),
                    result@[j].0,
                    buffer::bytes_content(result@[j].1),
                ),
            forall|member: Seq<u8>| #[trigger]
                self@.contains_key(member) <==> exists|i: int|
                    0 <= i < result@.len() && buffer::bytes_content(#[trigger] result@[i].1)
                        == member,
    {
        proof {
            self.lemma_ranking();
            assert forall|i: int, j: int|
                #![trigger self.ordered@[i], self.ordered@[j]]
                0 <= i < j < self.ordered@.len() implies ranks_before(
                self.ordered@[i].0,
                buffer::bytes_content(self.ordered@[i].1),
                self.ordered@[j].0,
                buffer::bytes_content(self.ordered@[j].1),
            ) by {
                assert(ranks_before(self.order(i), self.name(i), self.order(j), self.name(j)));
            }
            assert forall|member: Seq<u8>| #[trigger]
                self@.contains_key(member) <==> exists|i: int|
                    0 <= i < self.ordered@.len() && buffer::bytes_content(
                        #[trigger] self.ordered@[i].1,
                    ) == member by {
                if self@.contains_key(member) {
                    assert(self.members@.contains_key(member));
                    let i = choose|i: int| 0 <= i < self.ordered@.len() && self.name(i) == member;
                    assert(buffer::bytes_content(self.ordered@[i].1) == member);
                }
                if exists|i: int|
                    0 <= i < self.ordered@.len() && buffer::bytes_content(
                        #[trigger] self.ordered@[i].1,
                    ) == member {
                    let i = choose|i: int|
                        0 <= i < self.ordered@.len() && buffer::bytes_content(
                            #[trigger] self.ordered@[i].1,
                        ) == member;
                    assert(self@.contains_key(self.name(i)));
                }
            }
        }
        &self.ordered
    }

    proof fn lemma_ranking(&self)
        requires
            self.wf(),
        ensures
            ranking(self@) == Seq::new(self.ordered@.len(), |i: int| self.name(i)),
            self.ordered@.len() == self@.dom().len(),
            self@.dom() == self.members@.dom(),
            forall|i: int|
                0 <= i < self.ordered@.len() ==> self@.contains_key(#[trigger] self.name(i))
                    && self@[self.name(i)].order == self.order(i),
    {
        let names = Seq::new(self.ordered@.len(), |i: int| self.name(i));
        let less = member_order(self@);
        assert(self@.dom() =~= self.members@.dom());
        assert forall|i: int| 0 <= i < self.ordered@.len() implies self@.contains_key(
            #[trigger] self.name(i),
        ) && self@[self.name(i)].order == self.order(i) by {
            assert(self.members@.contains_key(self.name(i)));
        }
        assert forall|i: int, j: int|
            #![trigger names[i], names[j]]
            0 <= i < j < names.len() implies less(names[i], names[j]) by {
            assert(ranks_before(self.order(i), self.name(i), self.order(j), self.name(j)));
        }
        assert forall|key: Seq<u8>| #[trigger] self@.dom().contains(key) <==> names.contains(
            key,
        ) by {
            if self@.dom().contains(key) {
                assert(self.members@.contains_key(key));
                let i = choose|i: int| 0 <= i < self.ordered@.len() && self.name(i) == key;
                assert(names[i] == key);
            }
            if names.contains(key) {
                let i = choose|i: int| 0 <= i < names.len() && names[i] == key;
                assert(self.name(i) == key);
            }
        }
        lemma_member_order(self@);
        ordered::lemma_sorted_unique(less, names, ranking(self@), self@.dom());
        assert(names.no_duplicates()) by {
            assert forall|i: int, j: int|
                0 <= i < names.len() && 0 <= j < names.len() && i != j implies names[i]
                != names[j] by {
                if names[i] == names[j] {
                    ordered::lemma_precedes_irreflexive(names[i]);
                    if i < j {
                        assert(less(names[i], names[j]));
                    } else {
                        assert(less(names[j], names[i]));
                    }
                }
            }
        }
        names.unique_seq_to_set();
        assert(names.to_set() =~= self@.dom());
    }

    /// How many members come before the given place in the order.
    fn locate(&self, order: i64, member: &[u8]) -> (result: usize)
        requires
            self.ascends(),
        ensures
            result <= self.ordered@.len(),
            forall|i: int|
                0 <= i < result ==> ranks_before(
                    self.order(i),
                    #[trigger] self.name(i),
                    order,
                    member@,
                ),
            forall|i: int|
                result <= i < self.ordered@.len() ==> !ranks_before(
                    self.order(i),
                    #[trigger] self.name(i),
                    order,
                    member@,
                ),
    {
        let mut low: usize = 0;
        let mut high: usize = self.ordered.len();
        while low < high
            invariant
                self.ascends(),
                low <= high <= self.ordered@.len(),
                forall|i: int|
                    0 <= i < low ==> ranks_before(
                        self.order(i),
                        #[trigger] self.name(i),
                        order,
                        member@,
                    ),
                forall|i: int|
                    high <= i < self.ordered@.len() ==> !ranks_before(
                        self.order(i),
                        #[trigger] self.name(i),
                        order,
                        member@,
                    ),
            decreases high - low,
        {
            let middle: usize = low + (high - low) / 2;
            let here: i64 = self.ordered[middle].0;
            let before = if here != order {
                here < order
            } else {
                match position(as_slice(&self.ordered[middle].1), member) {
                    Position::Before => true,
                    _ => false,
                }
            };
            proof {
                let m = middle as int;
                ordered::lemma_precedes_total(self.name(m), member@);
                ordered::lemma_precedes_irreflexive(member@);
                assert(before == ranks_before(self.order(m), self.name(m), order, member@));
                if before {
                    assert forall|i: int| 0 <= i < m + 1 implies ranks_before(
                        self.order(i),
                        #[trigger] self.name(i),
                        order,
                        member@,
                    ) by {
                        if i < m {
                            assert(ranks_before(
                                self.order(i),
                                self.name(i),
                                self.order(m),
                                self.name(m),
                            ));
                            if self.order(i) == order {
                                ordered::lemma_precedes_transitive(self.name(i), self.name(m), member@);
                            }
                        }
                    }
                } else {
                    assert forall|i: int| m <= i < self.ordered@.len() implies !ranks_before(
                        self.order(i),
                        #[trigger] self.name(i),
                        order,
                        member@,
                    ) by {
                        if i > m {
                            assert(ranks_before(
                                self.order(m),
                                self.name(m),
                                self.order(i),
                                self.name(i),
                            ));
                            if self.order(m) == self.order(i) && self.order(i) == order && ordered::precedes(
                                self.name(i),
                                member@,
                            ) {
                                ordered::lemma_precedes_transitive(self.name(m), self.name(i), member@);
                            }
                        }
                    }
                }
            }
            if before {
                low = middle + 1;
            } else {
                high = middle;
            }
        }
        low
    }

    /// Gives the member a score; tells whether the member is new and whether
    /// anything changed.
    pub fn insert(&mut self, member: Bytes, score: Score) -> (result: (bool, bool))
        requires
            old(self).wf(),
        ensures
            final(self).wf(),
            result.0 == !old(self)@.contains_key(buffer::bytes_content(member)),
            result.1 == !(old(self)@.contains_key(buffer::bytes_content(member)) && old(
                self,
            )@[buffer::bytes_content(member)].order == score.order),
            final(self)@ == if result.1 {
                old(self)@.insert(buffer::bytes_content(member), score.model())
            } else {
                old(self)@
            },
    {
        let ghost content = buffer::bytes_content(member);
        let known = match self.members.get(as_slice(&member)) {
            Some(previous) => {
                if previous.order == score.order {
                    return (false, false);
                }
                true
            },
            None => false,
        };
        if known {
            self.unlist(as_slice(&member));
        }
        let ghost middle = *self;
        let order: i64 = score.order;
        let at: usize = self.locate(order, as_slice(&member));
        self.ordered.insert(at, (order, member.clone()));
        let ghost kept = self.members@;
        let _ = self.members.insert(member, score);
        proof {
            let a = at as int;
            assert(self@ =~= old(self)@.insert(content, score.model()));
            assert forall|i: int| 0 <= i < self.ordered@.len() implies (#[trigger] self.name(i), self.order(
                i,
            )) == (if i < a {
                (middle.name(i), middle.order(i))
            } else if i == a {
                (content, order)
            } else {
                (middle.name(i - 1), middle.order(i - 1))
            }) by {}
            assert forall|i: int| 0 <= i < middle.ordered@.len() implies #[trigger] middle.name(i)
                != content by {}
            assert(self.ascends()) by {
                assert forall|i: int, j: int|
                    #![trigger self.name(i), self.name(j)]
                    0 <= i < j < self.ordered@.len() implies ranks_before(
                    self.order(i),
                    self.name(i),
                    self.order(j),
                    self.name(j),
                ) by {
                    if j == a {
                        assert(ranks_before(middle.order(i), middle.name(i), order, content));
                    } else if i == a {
                        assert(!ranks_before(
                            middle.order(j - 1),
                            middle.name(j - 1),
                            order,
                            content,
                        ));
                        ordered::lemma_precedes_total(middle.name(j - 1), content);
                    } else {
                        let p = if i < a {
                            i
                        } else {
                            i - 1
                        };
                        let q = if j < a {
                            j
                        } else {
                            j - 1
                        };
                        assert(ranks_before(
                            middle.order(p),
                            middle.name(p),
                            middle.order(q),
                            middle.name(q),
                        ));
                    }
                }
            }
            assert forall|i: int| 0 <= i < self.ordered@.len() implies self.members@.contains_key(
                #[trigger] self.name(i),
            ) && self.members@[self.name(i)].order == self.order(i) by {
                if i < a {
                    assert(kept.contains_key(middle.name(i)));
                } else if i > a {
                    assert(kept.contains_key(middle.name(i - 1)));
                }
            }
            assert forall|key: Seq<u8>| #[trigger] self.members@.contains_key(key) implies exists|
                i: int,
            | 0 <= i < self.ordered@.len() && self.name(i) == key by {
                if key == content {
                    assert(self.name(a) == key);
                } else {
                    assert(kept.contains_key(key));
                    let i = choose|i: int| 0 <= i < middle.ordered@.len() && middle.name(i) == key;
                    let p = if i < a {
                        i
                    } else {
                        i + 1
                    };
                    assert(self.name(p) == key);
                }
            }
        }
        (!known, true)
    }

    /// Takes a member out of the ranked index only.
    fn unlist(&mut self, member: &[u8])
        requires
            old(self).wf(),
            old(self).members@.contains_key(member@),
        ensures
            final(self).members == old(self).members,
            final(self).ascends(),
            forall|i: int|
                0 <= i < final(self).ordered@.len() ==> {
                    &&& #[trigger] final(self).name(i) != member@
                    &&& final(self).members@.contains_key(final(self).name(i))
                    &&& final(self).members@[final(self).name(i)].order == final(self).order(i)
                },
            forall|key: Seq<u8>|
                #[trigger] final(self).members@.contains_key(key) && key != member@ ==> exists|
                    i: int,
                | 0 <= i < final(self).ordered@.len() && final(self).name(i) == key,
    {
        let order: i64 = match self.members.get(member) {
            Some(score) => score.order,
            None => 0,
        };
        let at: usize = self.locate(order, member);
        let ghost before = *self;
        proof {
            let i = choose|i: int| 0 <= i < self.ordered@.len() && self.name(i) == member@;
            assert(self.members@.contains_key(self.name(i)));
            ordered::lemma_precedes_irreflexive(member@);
            if i < at {
                assert(ranks_before(self.order(i), self.name(i), order, member@));
            }
            if i > at {
                assert(ranks_before(self.order(at as int), self.name(at as int), self.order(i), self.name(i)));
            }
            assert(i == at);
        }
        let _ = self.ordered.remove(at);
        proof {
            let a = at as int;
            assert forall|i: int| 0 <= i < self.ordered@.len() implies (#[trigger] self.name(i), self.order(
                i,
            )) == (if i < a {
                (before.name(i), before.order(i))
            } else {
                (before.name(i + 1), before.order(i + 1))
            }) by {}
            assert(self.ascends()) by {
                assert forall|i: int, j: int|
                    #![trigger self.name(i), self.name(j)]
                    0 <= i < j < self.ordered@.len() implies ranks_before(
                    self.order(i),
                    self.name(i),
                    self.order(j),
                    self.name(j),
                ) by {
                    let p = if i < a {
                        i
                    } else {
                        i + 1
                    };
                    let q = if j < a {
                        j
                    } else {
                        j + 1
                    };
                    assert(ranks_before(
                        before.order(p),
                        before.name(p),
                        before.order(q),
                        before.name(q),
                    ));
                }
            }
            assert forall|i: int| 0 <= i < self.ordered@.len() implies {
                &&& #[trigger] self.name(i) != member@
                &&& self.members@.contains_key(self.name(i))
                &&& self.members@[self.name(i)].order == self.order(i)
            } by {
                let p = if i < a {
                    i
                } else {
                    i + 1
                };
                assert(before.members@.contains_key(before.name(p)));
                if before.name(p) == member@ {
                    ordered::lemma_precedes_irreflexive(member@);
                    if p < a {
                        assert(ranks_before(
                            before.order(p),
                            before.name(p),
                            before.order(a),
                            before.name(a),
                        ));
                    } else {
                        assert(ranks_before(
                            before.order(a),
                            before.name(a),
                            before.order(p),
                            before.name(p),
                        ));
                    }
                    assert(false);
                }
            }
            assert forall|key: Seq<u8>| #[trigger] self.members@.contains_key(key) && key != member@
                implies exists|i: int| 0 <= i < self.ordered@.len() && self.name(i) == key by {
                let i = choose|i: int| 0 <= i < before.ordered@.len() && before.name(i) == key;
                let p = if i < a {
                    i
                } else {
                    i - 1
                };
                assert(self.name(p) == key);
            }
        }
    }

    /// Takes a member out; tells whether it was there.
    pub fn remove(&mut self, member: &[u8]) -> (result: bool)
        requires
            old(self).wf(),
        ensures
            final(self).wf(),
            result == old(self)@.contains_key(member@),
            final(self)@ == old(self)@.remove(member@),
    {
        if !self.members.contains(member) {
            assert(self@ =~= old(self)@.remove(member@));
            return false;
        }
        self.unlist(member);
        let ghost middle = *self;
        let _ = self.members.remove(member);
        proof {
            assert(self@ =~= old(self)@.remove(member@));
            assert forall|i: int| 0 <= i < self.ordered@.len() implies self.members@.contains_key(
                #[trigger] self.name(i),
            ) && self.members@[self.name(i)].order == self.order(i) by {
                assert(middle.name(i) != member@);
            }
            assert(self.ascends()) by {
                assert forall|i: int, j: int|
                    #![trigger self.name(i), self.name(j)]
                    0 <= i < j < self.ordered@.len() implies ranks_before(
                    self.order(i),
                    self.name(i),
                    self.order(j),
                    self.name(j),
                ) by {
                    assert(ranks_before(
                        middle.order(i),
                        middle.name(i),
                        middle.order(j),
                        middle.name(j),
                    ));
                }
            }
            assert forall|key: Seq<u8>| #[trigger] self.members@.contains_key(key) implies exists|
                i: int,
            | 0 <= i < self.ordered@.len() && self.name(i) == key by {
                assert(middle.members@.contains_key(key));
                let i = choose|i: int| 0 <= i < middle.ordered@.len() && middle.name(i) == key;
                assert(self.name(i) == key);
            }
        }
        true
    }

    /// Another set with the same members and scores.
    pub fn duplicate(&self) -> (result: Self)
        requires
            self.wf(),
        ensures
            result.wf(),
            result@ == self@,
    {
        let mut result = SortedSet::new();
        let mut index: usize = 0;
        while index < self.members.items.len()
            invariant
                self.wf(),
                result.wf(),
                index <= self.members.items@.len(),
                forall|key: Seq<u8>| #[trigger]
                    result@.contains_key(key) ==> self@.contains_key(key) && result@[key]
                        == self@[key],
                forall|i: int|
                    0 <= i < index ==> result@.contains_key(#[trigger] self.members.key_at(i)),
                forall|i: int|
                    index <= i < self.members.items@.len() ==> !result@.contains_key(
                        #[trigger] self.members.key_at(i),
                    ),
            decreases self.members.items@.len() - index,
        {
            proof {
                self.members.lemma_at(index as int);
                assert(!result@.contains_key(self.members.key_at(index as int)));
                assert forall|i: int|
                    0 <= i < self.members.items@.len() && i != index implies #[trigger] self.members.key_at(
                    i,
                ) != self.members.key_at(index as int) by {
                    self.members.lemma_at(i);
                }
            }
            let ghost before = result@;
            let (member, score) = (&self.members.items[index].0, &self.members.items[index].1);
            let copy = score.duplicate();
            result.insert(member.clone(), copy);
            index += 1;
        }
        proof {
            assert forall|key: Seq<u8>| #[trigger] self@.contains_key(key) implies result@.contains_key(
                key,
            ) by {
                self.members.lemma_place(key);
                assert(result@.contains_key(self.members.key_at(self.members.place(key))));
            }
            assert(result@ =~= self@);
        }
        result
    }
}

/// The members of a sorted set have one order: it ascends by score and then by
/// the bytes of the members, and lists each member once.
pub proof fn law_ranking_lists_the_members(members: Map<Seq<u8>, ScoreModel>)
    requires
        members.dom().finite(),
    ensures
        ordered::is_sorted_by(member_order(members), ranking(members), members.dom()),
        ranking(members).len() == members.dom().len(),
{
    let less = member_order(members);
    assert forall|a: Seq<u8>, b: Seq<u8>, c: Seq<u8>|
        #[trigger] less(a, b) && #[trigger] less(b, c) implies less(a, c) by {
        if members[a].order == members[c].order {
            ordered::lemma_precedes_transitive(a, b, c);
        }
    }
    assert forall|a: Seq<u8>, b: Seq<u8>| a != b implies #[trigger] less(a, b) || less(b, a) by {
        ordered::lemma_precedes_total(a, b);
    }
    let keys = ordered::lemma_sorted_exists(less, members.dom());
    lemma_member_order(members);
    ordered::lemma_sorted_unique(less, keys, ranking(members), members.dom());
}

proof fn lemma_member_order(members: Map<Seq<u8>, ScoreModel>)
    ensures
        forall|a: Seq<u8>, b: Seq<u8>|
            #[trigger] member_order(members)(a, b) ==> !member_order(members)(b, a),
{
    assert forall|a: Seq<u8>, b: Seq<u8>| #[trigger] member_order(members)(a, b) implies !(
    member_order(members)(b, a)) by {
        ordered::lemma_precedes_total(a, b);
    }
}

/// Payload of an entry; deadline and generation are common to all types.
#[derive(Debug, PartialEq, Eq)]
pub enum Value {
    String(Bytes),
    Hash(ByteMap<Bytes>),
    SortedSet(SortedSet),
}

impl From<Bytes> for Value {
    fn from(value: Bytes) -> (result: Self) {
        Value::String(value)
    }
}

impl vstd::std_specs::convert::FromSpecImpl<Bytes> for Value {
    open spec fn obeys_from_spec() -> bool {
        true
    }

    open spec fn from_spec(value: Bytes) -> Self {
        Value::String(value)
    }
}

/// The fields of a hash by content.
pub open spec fn contents(fields: Map<Seq<u8>, Bytes>) -> Map<Seq<u8>, Seq<u8>> {
    fields.map_values(|value: Bytes| buffer::bytes_content(value))
}

/// Another map with the same fields and values.
pub fn duplicate_fields(fields: &ByteMap<Bytes>) -> (result: ByteMap<Bytes>)
    requires
        fields.wf(),
    ensures
        result.wf(),
        contents(result@) == contents(fields@),
        result.items@.len() == fields.items@.len(),
{
    let mut items: Vec<(Bytes, Bytes)> = Vec::new();
    let mut index: usize = 0;
    while index < fields.items.len()
        invariant
            index <= fields.items@.len(),
            items@.len() == index,
            forall|i: int|
                0 <= i < index ==> buffer::bytes_content((#[trigger] items@[i]).0) == fields.key_at(i)
                    && buffer::bytes_content(items@[i].1) == buffer::bytes_content(fields.items@[i].1),
        decreases fields.items@.len() - index,
    {
        let item = &fields.items[index];
        items.push((item.0.clone(), item.1.clone()));
        index += 1;
    }
    let result = ByteMap { items };
    proof {
        assert forall|i: int| 0 <= i < result.items@.len() implies #[trigger] result.key_at(i)
            == fields.key_at(i) by {
            assert(buffer::bytes_content(items@[i].0) == fields.key_at(i));
        }
        assert(result.wf()) by {
            assert forall|i: int, j: int|
                #![trigger result.key_at(i), result.key_at(j)]
                0 <= i < j < result.items@.len() implies ordered::precedes(
                result.key_at(i),
                result.key_at(j),
            ) by {
                assert(ordered::precedes(fields.key_at(i), fields.key_at(j)));
            }
        }
        let left = contents(result@);
        let right = contents(fields@);
        assert forall|key: Seq<u8>| #[trigger] left.contains_key(key) implies right.contains_key(key)
            && left[key] == right[key] by {
            result.lemma_place(key);
            let at = result.place(key);
            assert(result.key_at(at) == fields.key_at(at));
            fields.lemma_at(at);
            assert(buffer::bytes_content(items@[at].1) == buffer::bytes_content(fields.items@[at].1));
        }
        assert forall|key: Seq<u8>| #[trigger] right.contains_key(key) implies left.contains_key(
            key,
        ) by {
            fields.lemma_place(key);
            let at = fields.place(key);
            assert(result.key_at(at) == fields.key_at(at));
            result.lemma_at(at);
        }
        assert(left =~= right);
    }
    result
}

impl Value {
    /// What the value holds.
    pub open spec fn model(self) -> ValueModel {
        match self {
            Value::String(text) => ValueModel::Text(buffer::bytes_content(text)),
            Value::Hash(fields) => ValueModel::Hash(contents(fields@)),
            Value::SortedSet(members) => ValueModel::SortedSet(members@),
        }
    }

    pub open spec fn wf(&self) -> bool {
        match self {
            Value::String(_) => true,
            Value::Hash(fields) => fields.wf(),
            Value::SortedSet(members) => members.wf(),
        }
    }

    /// A sound collection is finite.
    pub proof fn lemma_finite(&self)
        requires
            self.wf(),
        ensures
            finite_value(self.model()),
    {
        match self {
            Value::String(_) => {},
            Value::Hash(fields) => {
                fields.lemma_keys();
                assert(contents(fields@).dom() =~= fields@.dom());
            },
            Value::SortedSet(members) => members.lemma_finite(),
        }
    }

    /// The text of a value that is one.
    pub fn as_string(&self) -> (result: Option<&Bytes>)
        ensures
            match result {
                Some(text) => *self == Value::String(*text),
                None => !(*self is String),
            },
    {
        match self {
            Value::String(text) => Some(text),
            _ => None,
        }
    }

    /// Logical bytes of the payload; the share of the key is added by the store.
    /// Empty collections have none, nor do sizes that no counter holds.
    pub fn logical_bytes(&self) -> (result: Option<usize>)
        requires
            self.wf(),
        ensures
            match result {
                Some(size) => storable(self.model()) && size == value_bytes(self.model()),
                None => !storable(self.model()) || value_bytes(self.model()) > usize::MAX,
            },
    {
        match self {
            Value::String(text) => Some(length(text)),
            Value::Hash(fields) => hash_bytes(fields),
            Value::SortedSet(members) => set_bytes(members),
        }
    }

    /// Another value with the same content.
    pub fn duplicate(&self) -> (result: Self)
        requires
            self.wf(),
        ensures
            result.wf(),
            result.model() == self.model(),
    {
        match self {
            Value::String(text) => Value::String(text.clone()),
            Value::Hash(fields) => Value::Hash(duplicate_fields(fields)),
            Value::SortedSet(members) => Value::SortedSet(members.duplicate()),
        }
    }
}

proof fn lemma_fields_monotone(keys: Seq<Seq<u8>>, fields: Map<Seq<u8>, Seq<u8>>, count: int)
    requires
        0 <= count <= keys.len(),
    ensures
        fields_bytes(keys.take(count), fields) <= fields_bytes(keys, fields),
    decreases keys.len() - count,
{
    if count < keys.len() {
        lemma_fields_monotone(keys, fields, count + 1);
        assert(keys.take(count + 1).drop_last() =~= keys.take(count));
    } else {
        assert(keys.take(count) =~= keys);
    }
}

proof fn lemma_members_monotone(keys: Seq<Seq<u8>>, count: int)
    requires
        0 <= count <= keys.len(),
    ensures
        members_bytes(keys.take(count)) <= members_bytes(keys),
    decreases keys.len() - count,
{
    if count < keys.len() {
        lemma_members_monotone(keys, count + 1);
        assert(keys.take(count + 1).drop_last() =~= keys.take(count));
    } else {
        assert(keys.take(count) =~= keys);
    }
}

fn hash_bytes(fields: &ByteMap<Bytes>) -> (result: Option<usize>)
    requires
        fields.wf(),
    ensures
        match result {
            Some(size) => storable(ValueModel::Hash(contents(fields@))) && size == value_bytes(
                ValueModel::Hash(contents(fields@)),
            ),
            None => !storable(ValueModel::Hash(contents(fields@))) || value_bytes(
                ValueModel::Hash(contents(fields@)),
            ) > usize::MAX,
        },
{
    let ghost model = contents(fields@);
    let ghost keys = fields.keys();
    proof {
        fields.lemma_keys();
        assert(model.dom() =~= fields@.dom());
    }
    if fields.len() == 0 {
        assert(model.dom() =~= Set::<Seq<u8>>::empty());
        return None;
    }
    proof {
        fields.lemma_at(0);
        assert(model.dom().contains(fields.key_at(0)));
        assert(keys.take(0) =~= Seq::<Seq<u8>>::empty());
    }
    let mut total: usize = 0;
    let mut index: usize = 0;
    while index < fields.items.len()
        invariant
            fields.wf(),
            model == contents(fields@),
            keys == fields.keys(),
            keys == ordered::listing(model.dom()),
            !model.dom().is_empty(),
            index <= fields.items@.len(),
            total == fields_bytes(keys.take(index as int), model),
        decreases fields.items@.len() - index,
    {
        let item = &fields.items[index];
        proof {
            fields.lemma_at(index as int);
            assert(keys.take(index + 1).drop_last() =~= keys.take(index as int));
            lemma_fields_monotone(keys, model, index + 1);
        }
        let add: u128 = length(&item.0) as u128 + length(&item.1) as u128 + 64;
        let sum: u128 = total as u128 + add;
        if sum > usize::MAX as u128 {
            return None;
        }
        total = sum as usize;
        index += 1;
    }
    assert(keys.take(index as int) =~= keys);
    Some(total)
}

fn set_bytes(members: &SortedSet) -> (result: Option<usize>)
    requires
        members.wf(),
    ensures
        match result {
            Some(size) => storable(ValueModel::SortedSet(members@)) && size == value_bytes(
                ValueModel::SortedSet(members@),
            ),
            None => !storable(ValueModel::SortedSet(members@)) || value_bytes(
                ValueModel::SortedSet(members@),
            ) > usize::MAX,
        },
{
    let names = &members.members;
    let ghost keys = names.keys();
    proof {
        names.lemma_keys();
        assert(members@.dom() =~= names@.dom());
    }
    if names.len() == 0 {
        assert(members@.dom() =~= Set::<Seq<u8>>::empty());
        return None;
    }
    proof {
        names.lemma_at(0);
        assert(members@.dom().contains(names.key_at(0)));
        assert(keys.take(0) =~= Seq::<Seq<u8>>::empty());
    }
    let mut total: usize = 0;
    let mut index: usize = 0;
    while index < names.items.len()
        invariant
            keys == names.keys(),
            keys == ordered::listing(members@.dom()),
            !members@.dom().is_empty(),
            index <= names.items@.len(),
            total == members_bytes(keys.take(index as int)),
        decreases names.items@.len() - index,
    {
        proof {
            assert(keys.take(index + 1).drop_last() =~= keys.take(index as int));
            lemma_members_monotone(keys, index + 1);
        }
        let sum: u128 = total as u128 + length(&names.items[index].0) as u128 + 72;
        if sum > usize::MAX as u128 {
            return None;
        }
        total = sum as usize;
        index += 1;
    }
    assert(keys.take(index as int) =~= keys);
    Some(total)
}

} // verus!
