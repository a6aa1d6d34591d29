//! What the commands on sorted sets are for, told by what is there before and after.

use super::model::{Dataset, EntryModel, Moment};
use super::value::{ScoreModel, ValueModel};
use crate::buffer;
use crate::command::reply::{ExecutionError, ReplyModel};
use crate::command::score::Score;
use crate::command::types::{Command, SortedSetCommand};
use crate::ordered;
use crate::storage::hash_laws;
use crate::storage::model;
use crate::storage::string_laws;
use crate::storage::value;
use bytes::Bytes;
use vstd::prelude::*;

verus! {

/// A command on the sorted set of a key.
pub open spec fn on(key: Bytes, operation: SortedSetCommand) -> Command {
    Command::SortedSet { key, operation }
}

/// Whether the key can be used as a sorted set: it holds one, or nothing.
pub open spec fn ranked(data: Dataset, key: Seq<u8>, now: u128) -> bool {
    string_laws::live(data, key, now) matches Some(entry) ==> entry.value is SortedSet
}

/// The members under a key; there are none where there is no key.
pub open spec fn members_at(data: Dataset, key: Seq<u8>, now: u128) -> Map<Seq<u8>, ScoreModel> {
    match string_laws::live(data, key, now) {
        Some(EntryModel { value: ValueModel::SortedSet(members), .. }) => members,
        _ => Map::empty(),
    }
}

/// Every command on a sorted set is refused where the key holds something else, and
/// changes nothing there.
pub proof fn law_other_values_are_no_sorted_sets(
    data: Dataset,
    key: Bytes,
    operation: SortedSetCommand,
    moment: Moment,
)
    requires
        !ranked(data, buffer::bytes_content(key), moment.now),
    ensures
        string_laws::answer(data, on(key, operation), moment) == ReplyModel::Error(
            ExecutionError::WrongType,
        ),
        string_laws::left(data, on(key, operation), moment) == data,
{
}

/// ZSCORE answers the text of the member's score and nothing where there is no such
/// member, ZCARD how many members there are.
pub proof fn law_members_are_read(data: Dataset, key: Bytes, member: Bytes, moment: Moment)
    requires
        ranked(data, buffer::bytes_content(key), moment.now),
    ensures
        ({
            let members = members_at(data, buffer::bytes_content(key), moment.now);
            let name = buffer::bytes_content(member);
            &&& string_laws::answer(data, on(key, SortedSetCommand::Score { member }), moment)
                == ReplyModel::Bulk(
                if members.contains_key(name) {
                    Some(members[name].text)
                } else {
                    None
                },
            )
            &&& string_laws::answer(data, on(key, SortedSetCommand::Card), moment)
                == ReplyModel::Integer(members.dom().len() as i64)
        }),
{
}

/// Reads of a sorted set change nothing that has not ended.
pub proof fn law_reads_of_a_sorted_set_keep_it(
    data: Dataset,
    key: Bytes,
    operation: SortedSetCommand,
    moment: Moment,
)
    requires
        !(operation is Add) && !(operation is Remove),
    ensures
        string_laws::live(
            string_laws::left(data, on(key, operation), moment),
            buffer::bytes_content(key),
            moment.now,
        ) == string_laws::live(data, buffer::bytes_content(key), moment.now),
{
}

/// The place that a rank means among so many: from the front where it is not
/// negative, from the back where it is.
pub open spec fn place_of(rank: i64, count: int) -> int {
    if rank < 0 {
        count + rank
    } else {
        rank as int
    }
}

/// How many items each listed member takes.
pub open spec fn width(with_scores: bool) -> int {
    if with_scores {
        2
    } else {
        1
    }
}

proof fn lemma_listed(
    keys: Seq<Seq<u8>>,
    members: Map<Seq<u8>, ScoreModel>,
    with_scores: bool,
    index: int,
)
    ensures
        model::members_listed(keys, members, with_scores).len() == width(with_scores) * keys.len(),
        0 <= index < keys.len() ==> {
            let items = model::members_listed(keys, members, with_scores);
            &&& items[width(with_scores) * index] == ReplyModel::Bulk(Some(keys[index]))
            &&& with_scores ==> items[2 * index + 1] == ReplyModel::Bulk(
                Some(members[keys[index]].text),
            )
        },
    decreases keys.len(),
{
    if keys.len() > 0 {
        lemma_listed(keys.drop_last(), members, with_scores, index);
        if index == keys.len() - 1 {
            assert(keys[index] == keys.last());
        }
    }
}

/// ZRANGE lists the members whose places lie between two ranks, by rising score and,
/// where scores are equal, by their bytes. With scores asked for, behind each member
/// stands the text that ZSCORE answers for it.
pub proof fn law_zrange_lists_the_places_between_two_ranks(
    data: Dataset,
    key: Bytes,
    start: i64,
    stop: i64,
    with_scores: bool,
    moment: Moment,
)
    requires
        ranked(data, buffer::bytes_content(key), moment.now),
        members_at(data, buffer::bytes_content(key), moment.now).dom().finite(),
    ensures
        ({
            let members = members_at(data, buffer::bytes_content(key), moment.now);
            let count = members.dom().len() as int;
            string_laws::answer(
                data,
                on(key, SortedSetCommand::Range { start, stop, with_scores }),
                moment,
            ) matches ReplyModel::Array(items) && exists|order: Seq<Seq<u8>>, from: int, to: int|
                {
                    &&& #[trigger] lists(members, order, from, to)
                    &&& forall|place: int|
                        #![trigger order[place]]
                        0 <= place < count ==> (from <= place < to <==> place_of(start, count)
                            <= place <= place_of(stop, count))
                    &&& items.len() == width(with_scores) * (to - from)
                    &&& forall|place: int|
                        from <= place < to ==> {
                            &&& items[width(with_scores) * (place - from)] == ReplyModel::Bulk(
                                Some(#[trigger] order[place]),
                            )
                            &&& with_scores ==> items[2 * (place - from) + 1] == ReplyModel::Bulk(
                                Some(members[order[place]].text),
                            )
                        }
                }
        }),
{
    let members = members_at(data, buffer::bytes_content(key), moment.now);
    let order = value::ranking(members);
    let count = members.dom().len() as int;
    let (from, to) = model::rank_range(order.len() as int, start, stop);
    value::law_ranking_lists_the_members(members);
    let keys = order.subrange(from, to);
    let items = model::members_listed(keys, members, with_scores);
    lemma_listed(keys, members, with_scores, -1);
    assert(lists(members, order, from, to)) by {
        assert forall|i: int, j: int|
            #![trigger order[i], order[j]]
            0 <= i < j < order.len() implies value::ranks_before(
            members[order[i]].order,
            order[i],
            members[order[j]].order,
            order[j],
        ) by {
            assert(value::member_order(members)(order[i], order[j]));
        }
        assert forall|member: Seq<u8>| #[trigger] members.contains_key(member) <==> order.contains(
            member,
        ) by {
            assert(members.dom().contains(member) <==> order.contains(member));
        }
    }
    assert forall|place: int| from <= place < to implies {
        &&& items[width(with_scores) * (place - from)] == ReplyModel::Bulk(
            Some(#[trigger] order[place]),
        )
        &&& with_scores ==> items[2 * (place - from) + 1] == ReplyModel::Bulk(
            Some(members[order[place]].text),
        )
    } by {
        lemma_listed(keys, members, with_scores, place - from);
        assert(keys[place - from] == order[place]);
    }
}

/// Whether the order holds all members, by rising score and then by their bytes, and
/// the two places lie within it.
pub open spec fn lists(
    members: Map<Seq<u8>, ScoreModel>,
    order: Seq<Seq<u8>>,
    from: int,
    to: int,
) -> bool {
    &&& order.len() == members.dom().len()
    &&& 0 <= from <= to <= order.len()
    &&& forall|i: int, j: int|
        #![trigger order[i], order[j]]
        0 <= i < j < order.len() ==> members[order[i]].order < members[order[j]].order || (
        members[order[i]].order == members[order[j]].order && ordered::precedes(
            order[i],
            order[j],
        ))
    &&& forall|member: Seq<u8>| #[trigger]
        members.contains_key(member) <==> order.contains(member)
}

/// Whether this place holds the last score that is given for a member.
pub open spec fn decides(entries: Seq<(Score, Bytes)>, index: int, member: Seq<u8>) -> bool {
    &&& 0 <= index < entries.len()
    &&& buffer::bytes_content(entries[index].1) == member
    &&& forall|later: int|
        index < later < entries.len() ==> buffer::bytes_content((#[trigger] entries[later]).1)
            != member
}

/// Whether a score is given for the member.
pub open spec fn names(entries: Seq<(Score, Bytes)>, member: Seq<u8>) -> bool {
    exists|i: int| 0 <= i < entries.len() && buffer::bytes_content((#[trigger] entries[i]).1) == member
}

/// Whether this score is one that is given for the member.
pub open spec fn gives(entries: Seq<(Score, Bytes)>, member: Seq<u8>, score: ScoreModel) -> bool {
    exists|i: int|
        0 <= i < entries.len() && buffer::bytes_content((#[trigger] entries[i]).1) == member
            && entries[i].0.model() == score
}

proof fn lemma_added(
    members: Map<Seq<u8>, ScoreModel>,
    entries: Seq<(Score, Bytes)>,
    member: Seq<u8>,
)
    ensures
        ({
            let after = model::members_added(members, entries).0;
            &&& !names(entries, member) ==> after.contains_key(member) == members.contains_key(
                member,
            ) && (members.contains_key(member) ==> after[member] == members[member])
            &&& names(entries, member) ==> after.contains_key(member) && (gives(
                entries,
                member,
                after[member],
            ) || (members.contains_key(member) && after[member] == members[member]))
            &&& forall|index: int| #[trigger]
                decides(entries, index, member) ==> after[member].order == entries[index].0.order
        }),
    decreases entries.len(),
{
    if entries.len() > 0 {
        let front = entries.drop_last();
        let before = model::members_added(members, front).0;
        let after = model::members_added(members, entries).0;
        lemma_added(members, front, member);
        assert(entries[entries.len() - 1] == entries.last());
        let last = buffer::bytes_content(entries.last().1) == member;
        if names(front, member) {
            let i = choose|i: int|
                0 <= i < front.len() && buffer::bytes_content((#[trigger] front[i]).1) == member;
            assert(buffer::bytes_content(entries[i].1) == member);
        }
        if gives(front, member, before[member]) {
            let i = choose|i: int|
                0 <= i < front.len() && buffer::bytes_content((#[trigger] front[i]).1) == member
                    && front[i].0.model() == before[member];
            assert(buffer::bytes_content(entries[i].1) == member);
            assert(gives(entries, member, before[member]));
        }
        if names(entries, member) && !last {
            let i = choose|i: int|
                0 <= i < entries.len() && buffer::bytes_content((#[trigger] entries[i]).1) == member;
            assert(buffer::bytes_content(front[i].1) == member);
        }
        assert forall|index: int| #[trigger] decides(entries, index, member) implies
            after[member].order == entries[index].0.order by {
            if index < front.len() {
                assert forall|later: int| index < later < front.len() implies buffer::bytes_content(
                    (#[trigger] front[later]).1,
                ) != member by {
                    assert(front[later] == entries[later]);
                }
                assert(decides(front, index, member));
            }
        }
    }
}

proof fn lemma_added_count(members: Map<Seq<u8>, ScoreModel>, entries: Seq<(Score, Bytes)>)
    requires
        members.dom().finite(),
    ensures
        ({
            let (after, added, changed) = model::members_added(members, entries);
            &&& after.dom().finite()
            &&& after.dom().len() == members.dom().len() + added
            &&& added >= 0
            &&& !changed ==> after == members && added == 0
            &&& changed ==> !after.dom().is_empty()
        }),
    decreases entries.len(),
{
    if entries.len() > 0 {
        lemma_added_count(members, entries.drop_last());
        let before = model::members_added(members, entries.drop_last()).0;
        let member = buffer::bytes_content(entries.last().1);
        let score = entries.last().0.model();
        assert(before.insert(member, score).dom() =~= before.dom().insert(member));
        assert(before.insert(member, score).dom().contains(member));
    }
}

/// After an accepted ZADD every member that was named has the rank last given for it,
/// with a text that was given for that member or that it had already; every other
/// member has the score that it had. The answer is by how many members the set has
/// grown. The deadline stays.
pub proof fn law_zadd_sets_the_scores(
    data: Dataset,
    key: Bytes,
    entries: Vec<(Score, Bytes)>,
    member: Seq<u8>,
    moment: Moment,
)
    requires
        ranked(data, buffer::bytes_content(key), moment.now),
        members_at(data, buffer::bytes_content(key), moment.now).dom().finite(),
        !(string_laws::answer(data, on(key, SortedSetCommand::Add { entries }), moment) is Error),
    ensures
        ({
            let name = buffer::bytes_content(key);
            let command = on(key, SortedSetCommand::Add { entries });
            let before = members_at(data, name, moment.now);
            let next = string_laws::left(data, command, moment);
            let after = members_at(next, name, moment.now);
            &&& string_laws::answer(data, command, moment) == ReplyModel::Integer(
                (after.dom().len() - before.dom().len()) as i64,
            )
            &&& after.dom().len() >= before.dom().len()
            &&& names(entries@, member) ==> after.contains_key(member) && (gives(
                entries@,
                member,
                after[member],
            ) || (before.contains_key(member) && after[member] == before[member]))
            &&& forall|index: int| #[trigger]
                decides(entries@, index, member) ==> after[member].order == entries@[index].0.order
            &&& !names(entries@, member) ==> after.contains_key(member) == before.contains_key(
                member,
            ) && (before.contains_key(member) ==> after[member] == before[member])
            &&& hash_laws::end_of(next, name, moment.now) == hash_laws::end_of(
                data,
                name,
                moment.now,
            )
            &&& ranked(next, name, moment.now)
        }),
{
    let name = buffer::bytes_content(key);
    let before = members_at(data, name, moment.now);
    lemma_added(before, entries@, member);
    lemma_added_count(before, entries@);
}

/// ZADD fails only where there is no room for the members that it would leave, and
/// then changes nothing. One that gives every member the rank that it has already
/// never fails.
pub proof fn law_zadd_fails_for_want_of_room(
    data: Dataset,
    key: Bytes,
    entries: Vec<(Score, Bytes)>,
    moment: Moment,
)
    requires
        ranked(data, buffer::bytes_content(key), moment.now),
        members_at(data, buffer::bytes_content(key), moment.now).dom().finite(),
        string_laws::answer(data, on(key, SortedSetCommand::Add { entries }), moment) is Error,
    ensures
        ({
            let name = buffer::bytes_content(key);
            let command = on(key, SortedSetCommand::Add { entries });
            let before = members_at(data, name, moment.now);
            &&& string_laws::answer(data, command, moment) == ReplyModel::Error(
                ExecutionError::OutOfMemory,
            )
            &&& string_laws::live(string_laws::left(data, command, moment), name, moment.now)
                == string_laws::live(data, name, moment.now)
            &&& exists|wanted: Map<Seq<u8>, ScoreModel>|
                {
                    &&& #[trigger] string_laws::no_room(
                        data,
                        name,
                        ValueModel::SortedSet(wanted),
                        moment.now,
                    )
                    &&& wanted != before
                    &&& forall|member: Seq<u8>| #[trigger]
                        wanted.contains_key(member) <==> before.contains_key(member) || names(
                            entries@,
                            member,
                        )
                }
        }),
{
    let name = buffer::bytes_content(key);
    let before = members_at(data, name, moment.now);
    let wanted = model::members_added(before, entries@).0;
    lemma_added_count(before, entries@);
    assert(string_laws::no_room(data, name, ValueModel::SortedSet(wanted), moment.now));
    assert forall|member: Seq<u8>| #[trigger] wanted.contains_key(member) <==> before.contains_key(
        member,
    ) || names(entries@, member) by {
        lemma_added(before, entries@, member);
        if before.contains_key(member) && names(entries@, member) {
            lemma_added_keeps(before, entries@, member);
        }
    }
    // Where nothing would change, usage would not grow.
    if wanted == before {
        assert(string_laws::use_with(data, name, ValueModel::SortedSet(wanted), moment.now)
            <= string_laws::in_use(data, name, moment.now)) by {
            if string_laws::live(data, name, moment.now) is None {
                assert(wanted =~= Map::empty());
                assert(false);
            }
        }
    }
}

proof fn lemma_added_keeps(
    members: Map<Seq<u8>, ScoreModel>,
    entries: Seq<(Score, Bytes)>,
    member: Seq<u8>,
)
    requires
        members.contains_key(member),
    ensures
        model::members_added(members, entries).0.contains_key(member),
    decreases entries.len(),
{
    if entries.len() > 0 {
        lemma_added_keeps(members, entries.drop_last(), member);
    }
}

proof fn lemma_removed(
    members: Map<Seq<u8>, ScoreModel>,
    names: Seq<Bytes>,
    member: Seq<u8>,
)
    ensures
        ({
            let after = model::members_removed(members, names).0;
            &&& after.contains_key(member) == (members.contains_key(member)
                && !string_laws::mentions(names, member))
            &&& after.contains_key(member) ==> after[member] == members[member]
        }),
    decreases names.len(),
{
    if names.len() > 0 {
        lemma_removed(members, names.drop_last(), member);
        string_laws::lemma_mentions(names, member);
    }
}

proof fn lemma_removed_count(members: Map<Seq<u8>, ScoreModel>, names: Seq<Bytes>)
    requires
        members.dom().finite(),
    ensures
        ({
            let (after, removed) = model::members_removed(members, names);
            &&& after.dom().finite()
            &&& after.dom().len() + removed == members.dom().len()
            &&& removed >= 0
            &&& removed == 0 ==> after == members
        }),
    decreases names.len(),
{
    if names.len() > 0 {
        lemma_removed_count(members, names.drop_last());
        let before = model::members_removed(members, names.drop_last()).0;
        let name = buffer::bytes_content(names.last());
        assert(before.remove(name).dom() =~= before.dom().remove(name));
        if !before.contains_key(name) {
            assert(before.remove(name) =~= before);
        }
    }
}

/// After ZREM none of the members that it names is there, and every other member has
/// the score that it had. The answer is by how many members the set has shrunk. A set
/// that is left without members is gone with its key; otherwise its deadline stays.
pub proof fn law_zrem_removes_the_members(
    data: Dataset,
    key: Bytes,
    names: Vec<Bytes>,
    moment: Moment,
)
    requires
        ranked(data, buffer::bytes_content(key), moment.now),
        members_at(data, buffer::bytes_content(key), moment.now).dom().finite(),
    ensures
        ({
            let name = buffer::bytes_content(key);
            let command = on(key, SortedSetCommand::Remove { members: names });
            let before = members_at(data, name, moment.now);
            let next = string_laws::left(data, command, moment);
            let after = members_at(next, name, moment.now);
            &&& string_laws::answer(data, command, moment) == ReplyModel::Integer(
                (before.dom().len() - after.dom().len()) as i64,
            )
            &&& after.dom().len() <= before.dom().len()
            &&& forall|member: Seq<u8>| #[trigger]
                after.contains_key(member) <==> before.contains_key(member)
                    && !string_laws::mentions(names@, member)
            &&& forall|member: Seq<u8>|
                after.contains_key(member) ==> #[trigger] after[member] == before[member]
            &&& before.dom().len() > 0 && after.dom().len() == 0 ==> !next.entries.contains_key(
                name,
            )
            &&& after.dom().len() > 0 ==> hash_laws::end_of(next, name, moment.now)
                == hash_laws::end_of(data, name, moment.now)
            &&& ranked(next, name, moment.now)
        }),
{
    let name = buffer::bytes_content(key);
    let command = on(key, SortedSetCommand::Remove { members: names });
    let before = members_at(data, name, moment.now);
    let (after, removed) = model::members_removed(before, names@);
    let next = string_laws::left(data, command, moment);
    lemma_removed_count(before, names@);
    if after.dom().is_empty() {
        assert(after =~= Map::empty());
        assert(after.dom() =~= Set::empty());
    } else {
        let some = after.dom().choose();
        assert(after.dom().contains(some));
        assert(after.dom().len() > 0);
    }
    if before.dom().len() == 0 {
        assert(before =~= Map::empty());
    }
    assert(members_at(next, name, moment.now) =~= after);
    assert forall|member: Seq<u8>| #[trigger] after.contains_key(member) <==> before.contains_key(
        member,
    ) && !string_laws::mentions(names@, member) by {
        lemma_removed(before, names@, member);
    }
    assert forall|member: Seq<u8>| after.contains_key(member) implies #[trigger] after[member]
        == before[member] by {
        lemma_removed(before, names@, member);
    }
}

} // verus!
