//! What observations are for: a transaction takes place only if no key that it depends
//! on was written in between.

use super::model::{Dataset, Moment};
use super::store::Store;
use super::watch::{Watch, WatchToken};
use super::worker::{Accepted, DbError, Pending, Request, Written};
use crate::buffer;
use crate::command::reply::{ExecutionError, Reply, ReplyModel};
use crate::command::types::{Command, HashCommand};
use crate::storage::batch_laws;
use crate::storage::changes;
use crate::storage::model;
use crate::storage::string_laws;
use crate::storage::watch;
use crate::storage::worker;
use bytes::Bytes;
use vstd::prelude::*;

verus! {

/// Whether observations have only gone on: a number that is held is as old as before,
/// or one that was still to be given out.
pub open spec fn goes_on(
    before: Map<Seq<u8>, Watch>,
    next: u64,
    after: Map<Seq<u8>, Watch>,
    following: u64,
) -> bool {
    &&& next <= following
    &&& forall|key: Seq<u8>| #[trigger]
        after.contains_key(key) ==> (before.contains_key(key) && after[key].id == before[key].id)
            || after[key].id >= next
}

/// Whether a store came out of another by what its owner does.
pub open spec fn follows(before: Store, after: Store) -> bool {
    goes_on(before.watched(), before.next_watch(), after.watched(), after.next_watch())
}

proof fn lemma_released(watches: Map<Seq<u8>, Watch>, tokens: Seq<WatchToken>, next: u64)
    ensures
        goes_on(watches, next, worker::released_all(watches, tokens), next),
    decreases tokens.len(),
{
    if tokens.len() > 0 {
        lemma_released(watch::released(watches, tokens.last()), tokens.drop_last(), next);
    }
}

proof fn lemma_observed(watches: Map<Seq<u8>, Watch>, next: u64, keys: Seq<Bytes>)
    ensures
        ({
            let (after, following, ids) = watch::observed_all(watches, next, keys);
            goes_on(watches, next, after, following) && ids.len() == keys.len()
        }),
    decreases keys.len(),
{
    if keys.len() > 0 {
        lemma_observed(watches, next, keys.drop_last());
    }
}

/// Whatever an owner does with requests, observations only go on.
pub proof fn law_owners_keep_count_of_observations(
    before: Store,
    request: Request,
    readonly: bool,
    moment: Moment,
    accepted: Accepted,
    middle: Store,
    pending: Pending,
    written: Written,
    result: Result<(Reply, Vec<WatchToken>), DbError>,
    after: Store,
)
    ensures
        worker::accepted(before, request, readonly, moment, accepted, middle) ==> follows(
            before,
            middle,
        ),
        worker::completed(middle, pending, readonly, written, result, after) ==> follows(
            middle,
            after,
        ),
        follows(before, middle) && follows(middle, after) ==> follows(before, after),
{
    if let Request::Batch { watched, .. } = request {
        lemma_released(before.watched(), watched@, before.next_watch());
    }
    let kept = if !readonly && written is Recorded {
        middle.watched().remove_keys(changes::change_keys(pending.prepared.changes()).to_set())
    } else {
        middle.watched()
    };
    if let Some(keys) = pending.observe {
        lemma_observed(kept, middle.next_watch(), keys@);
    }
    if follows(before, middle) && follows(middle, after) {
        assert forall|key: Seq<u8>| #[trigger] after.watched().contains_key(key) implies (
        before.watched().contains_key(key) && after.watched()[key].id == before.watched()[key].id)
            || after.watched()[key].id >= before.next_watch() by {
            if middle.watched().contains_key(key) {
            }
        }
    }
}

/// Once a write was recorded, no token of its keys that was taken before is valid.
pub proof fn law_writes_end_observations(
    before: Store,
    pending: Pending,
    result: Result<(Reply, Vec<WatchToken>), DbError>,
    after: Store,
    token: WatchToken,
)
    requires
        worker::completed(before, pending, false, Written::Recorded, result, after),
        changes::change_keys(pending.prepared.changes()).contains(
            buffer::bytes_content(token.observed()),
        ),
        token.id() matches Some(id) ==> id < before.next_watch(),
    ensures
        watch::is_invalidated(after.watched(), token),
{
    let name = buffer::bytes_content(token.observed());
    let keys = changes::change_keys(pending.prepared.changes());
    let kept = before.watched().remove_keys(keys.to_set());
    assert(keys.to_set().contains(name));
    assert(!kept.contains_key(name));
    if let Some(observed) = pending.observe {
        lemma_observed(kept, before.next_watch(), observed@);
    }
    assert(after.watched().contains_key(name) ==> after.watched()[name].id >= before.next_watch());
}

/// A write to other keys leaves a token valid.
pub proof fn law_other_writes_keep_observations(
    before: Store,
    pending: Pending,
    readonly: bool,
    written: Written,
    result: Result<(Reply, Vec<WatchToken>), DbError>,
    after: Store,
    token: WatchToken,
)
    requires
        worker::completed(before, pending, readonly, written, result, after),
        !changes::change_keys(pending.prepared.changes()).contains(
            buffer::bytes_content(token.observed()),
        ),
        !watch::is_invalidated(before.watched(), token),
    ensures
        !watch::is_invalidated(after.watched(), token),
{
    let name = buffer::bytes_content(token.observed());
    let keys = changes::change_keys(pending.prepared.changes());
    let kept = if !readonly && written is Recorded {
        before.watched().remove_keys(keys.to_set())
    } else {
        before.watched()
    };
    assert(!keys.to_set().contains(name));
    assert(kept.contains_key(name) && kept[name].id == before.watched()[name].id);
    if let Some(observed) = pending.observe {
        lemma_observed_keeps(kept, before.next_watch(), observed@, name);
    }
}

proof fn lemma_observed_keeps(
    watches: Map<Seq<u8>, Watch>,
    next: u64,
    keys: Seq<Bytes>,
    name: Seq<u8>,
)
    requires
        watches.contains_key(name),
    ensures
        ({
            let after = watch::observed_all(watches, next, keys).0;
            after.contains_key(name) && after[name].id == watches[name].id
        }),
    decreases keys.len(),
{
    if keys.len() > 0 {
        lemma_observed_keeps(watches, next, keys.drop_last(), name);
    }
}

/// Observing keys gives for each a token of that key, which knows when the entry ends and, if
/// it got a number, is valid.
pub proof fn law_observations_begin_valid(
    before: Store,
    pending: Pending,
    readonly: bool,
    written: Written,
    result: Result<(Reply, Vec<WatchToken>), DbError>,
    after: Store,
    index: int,
)
    requires
        worker::completed(before, pending, readonly, written, result, after),
        result matches Ok((reply, tokens)) && reply.model() is Okay && 0 <= index < tokens@.len(),
        pending.observe is Some,
    ensures
        ({
            let token = result->Ok_0.1@[index];
            let name = buffer::bytes_content(pending.observe->Some_0@[index]);
            &&& buffer::bytes_content(token.observed()) == name
            &&& token.deadline() == match changes::entry_at(after.data(), name) {
                Some(entry) => match entry.deadline {
                    Some(deadline) => Some(deadline.at),
                    None => None,
                },
                None => None,
            }
            &&& token.id() is Some ==> !watch::is_invalidated(after.watched(), token)
        }),
{
}

/// Whether one of the tokens no longer holds: a write came in between, or the entry
/// that it saw has ended.
pub open spec fn outdated(store: Store, tokens: Seq<WatchToken>, now: u128) -> bool {
    exists|i: int|
        0 <= i < tokens.len() && (watch::is_invalidated(store.watched(), #[trigger] tokens[i]) || (
        tokens[i].deadline() matches Some(deadline) && deadline <= now))
}

/// A transaction with an outdated observation does nothing and answers the null array;
/// one without is carried out. On a replica it is refused if it would write.
pub proof fn law_outdated_observations_stop_a_transaction(
    before: Store,
    commands: Vec<Command>,
    watched: Vec<WatchToken>,
    readonly: bool,
    moment: Moment,
    result: Accepted,
    after: Store,
)
    requires
        worker::accepted(
            before,
            Request::Batch { commands, watched },
            readonly,
            moment,
            result,
            after,
        ),
    ensures
        after.data() == before.data(),
        readonly && (exists|i: int|
            0 <= i < commands@.len() && (#[trigger] commands@[i]).is_write()) ==> (
        result matches Accepted::Answer(reply) && reply.model() == ReplyModel::Error(
            ExecutionError::ReadOnly,
        )),
        outdated(before, watched@, moment.now) ==> (result matches Accepted::Answer(reply) && (
        reply.model() is NullArray || (readonly && reply.model() == ReplyModel::Error(
            ExecutionError::ReadOnly,
        )))),
        !readonly && !outdated(before, watched@, moment.now) ==> (result matches Accepted::Commit(
            pending,
        ) && pending.prepared.reply.model() == ReplyModel::Array(
            model::ran_all(model::begin(before.data()), commands@, moment).1,
        ) && changes::applied(before.data(), pending.prepared.changes()) == model::ran_all(
            model::begin(before.data()),
            commands@,
            moment,
        ).0.data),
{
    changes::law_changes_tell_a_run(before.data(), commands@, moment);
    if outdated(before, watched@, moment.now) {
        let i = choose|i: int|
            0 <= i < watched@.len() && (watch::is_invalidated(
                before.watched(),
                #[trigger] watched@[i],
            ) || (watched@[i].deadline() matches Some(deadline) && deadline <= moment.now));
        assert(watch::is_changed(before.watched(), watched@[i], moment.now));
    } else {
        assert forall|i: int| 0 <= i < watched@.len() implies !watch::is_changed(
            before.watched(),
            #[trigger] watched@[i],
            moment.now,
        ) by {
            assert(!(watch::is_invalidated(before.watched(), watched@[i])));
        }
    }
}

/// A key that was written after it was observed stops the transaction, whatever happened
/// to the store besides: EXEC answers the null array (or, on a replica that would write,
/// that it is one), and the data stay as they are.
pub proof fn law_written_keys_stop_a_transaction(
    first: Store,
    pending: Pending,
    result: Result<(Reply, Vec<WatchToken>), DbError>,
    second: Store,
    third: Store,
    commands: Vec<Command>,
    watched: Vec<WatchToken>,
    index: int,
    readonly: bool,
    moment: Moment,
    answer: Accepted,
    last: Store,
)
    requires
        0 <= index < watched@.len(),
        watched@[index].id() matches Some(id) ==> id < first.next_watch(),
        worker::completed(first, pending, false, Written::Recorded, result, second),
        changes::change_keys(pending.prepared.changes()).contains(
            buffer::bytes_content(watched@[index].observed()),
        ),
        follows(second, third),
        worker::accepted(
            third,
            Request::Batch { commands, watched },
            readonly,
            moment,
            answer,
            last,
        ),
    ensures
        last.data() == third.data(),
        answer matches Accepted::Answer(reply) && (reply.model() is NullArray || (readonly
            && reply.model() == ReplyModel::Error(ExecutionError::ReadOnly))),
{
    let token = watched@[index];
    law_writes_end_observations(first, pending, result, second, token);
    if let Some(keys) = pending.observe {
        let kept = first.watched().remove_keys(
            changes::change_keys(pending.prepared.changes()).to_set(),
        );
        lemma_observed(kept, first.next_watch(), keys@);
    }
    assert(first.next_watch() <= second.next_watch());
    assert(watch::is_invalidated(third.watched(), token)) by {
        let name = buffer::bytes_content(token.observed());
        if third.watched().contains_key(name) && token.id() == Some(third.watched()[name].id) {
            assert(second.watched().contains_key(name));
            assert(false);
        }
    }
    assert(outdated(third, watched@, moment.now));
    law_outdated_observations_stop_a_transaction(
        third,
        commands,
        watched,
        readonly,
        moment,
        answer,
        last,
    );
}

/// A command that is recorded takes effect as a whole, and its answer is the one that goes
/// with it; one that could not be recorded changes nothing. What changes under a key is
/// among the changes that are recorded.
pub proof fn law_recorded_commands_take_effect(
    before: Store,
    command: Command,
    moment: Moment,
    accepted: Accepted,
    middle: Store,
    written: Written,
    result: Result<(Reply, Vec<WatchToken>), DbError>,
    after: Store,
    key: Seq<u8>,
)
    requires
        worker::accepted(before, Request::Execute { command }, false, moment, accepted, middle),
        accepted matches Accepted::Commit(pending) && worker::completed(
            middle,
            pending,
            false,
            written,
            result,
            after,
        ),
    ensures
        after.data() == if written is Recorded {
            string_laws::left(before.data(), command, moment)
        } else {
            before.data()
        },
        written is Recorded ==> (result matches Ok((reply, _)) && reply.model()
            == string_laws::answer(before.data(), command, moment)),
        written is TooLong ==> (result matches Ok((reply, _)) && reply.model() == ReplyModel::Error(
            ExecutionError::AofRecordLimit,
        )),
        written is Failed ==> result == Err::<(Reply, Vec<WatchToken>), DbError>(
            DbError::Unavailable,
        ),
        changes::entry_at(string_laws::left(before.data(), command, moment), key)
            != changes::entry_at(before.data(), key) ==> changes::change_keys(
            accepted->Commit_0.prepared.changes(),
        ).contains(key),
{
    let data = before.data();
    let list = accepted->Commit_0.prepared.changes();
    changes::law_changes_tell_a_command(data, command, moment);
    if !changes::change_keys(list).contains(key) {
        changes::lemma_changed_entries(data.entries, list, key);
    }
}

/// A replica refuses every command that could change what has not ended, and carries out
/// all others: they answer what they answer anywhere, and change nothing.
pub proof fn law_replicas_refuse_writes(
    before: Store,
    command: Command,
    moment: Moment,
    result: Accepted,
    after: Store,
    key: Seq<u8>,
    data: Dataset,
    other: Moment,
)
    requires
        worker::accepted(before, Request::Execute { command }, true, moment, result, after),
    ensures
        after.data() == before.data(),
        string_laws::live(string_laws::left(data, command, other), key, other.now)
            != string_laws::live(data, key, other.now) ==> (result matches Accepted::Answer(reply)
            && reply.model() == ReplyModel::Error(ExecutionError::ReadOnly)),
        result matches Accepted::Answer(reply) ==> reply.model() == ReplyModel::Error(
            ExecutionError::ReadOnly,
        ) && command.is_write(),
        result matches Accepted::Commit(pending) ==> pending.prepared.reply.model()
            == string_laws::answer(before.data(), command, moment),
{
    if !command.is_write() {
        batch_laws::law_only_writes_change_data(data, command, other);
        assert(string_laws::live(string_laws::left(data, command, other), key, other.now)
            == string_laws::live(data, key, other.now));
    }
}

/// On a replica nothing that was prepared is applied.
pub proof fn law_replicas_apply_nothing_of_their_own(
    before: Store,
    pending: Pending,
    written: Written,
    result: Result<(Reply, Vec<WatchToken>), DbError>,
    after: Store,
)
    requires
        worker::completed(before, pending, true, written, result, after),
    ensures
        after.data() == before.data(),
        pending.observe is None ==> (result matches Ok((reply, _)) && reply.model()
            == pending.prepared.reply.model()),
{
}

/// Giving a token back undoes taking it: the registry holds as much as before, and a key
/// that nobody else observes is forgotten.
pub proof fn law_released_tokens_leave_no_trace(
    watches: Map<Seq<u8>, Watch>,
    next: u64,
    token: WatchToken,
)
    requires
        token.id() is Some,
        token.id() == watch::observed_once(
            watches,
            next,
            buffer::bytes_content(token.observed()),
        ).2,
        watches.contains_key(buffer::bytes_content(token.observed()))
            ==> watches[buffer::bytes_content(token.observed())].holders >= 1,
    ensures
        watch::released(
            watch::observed_once(watches, next, buffer::bytes_content(token.observed())).0,
            token,
        ) == watches,
        !watch::is_invalidated(
            watch::observed_once(watches, next, buffer::bytes_content(token.observed())).0,
            token,
        ),
{
    let key = buffer::bytes_content(token.observed());
    let after = watch::observed_once(watches, next, key).0;
    assert(watch::released(after, token) =~= watches);
}

/// While another token of a key is out, giving one back leaves the other valid; giving back a
/// token of another key leaves all others valid.
pub proof fn law_released_tokens_leave_others_valid(
    watches: Map<Seq<u8>, Watch>,
    given: WatchToken,
    other: WatchToken,
)
    requires
        !watch::is_invalidated(watches, other),
        buffer::bytes_content(given.observed()) == buffer::bytes_content(other.observed())
            ==> watches[buffer::bytes_content(other.observed())].holders > 1,
    ensures
        !watch::is_invalidated(watch::released(watches, given), other),
{
}

/// An accepted SET, INCR, DECR, HSET or EXPIRE counts as a write of its key, even where it
/// leaves the same value, so that who observes the key is told.
pub proof fn law_accepted_writes_are_recorded(data: Dataset, command: Command, moment: Moment, key: Bytes)
    requires
        match command {
            Command::SetValue { key: name, .. } => name == key && string_laws::answer(
                data,
                command,
                moment,
            ) is Okay,
            Command::Incr { key: name } => name == key && string_laws::answer(
                data,
                command,
                moment,
            ) is Integer,
            Command::Decr { key: name } => name == key && string_laws::answer(
                data,
                command,
                moment,
            ) is Integer,
            Command::Expire { key: name, .. } => name == key && string_laws::answer(
                data,
                command,
                moment,
            ) == ReplyModel::Integer(1),
            Command::Hash { key: name, operation: HashCommand::SetFields { entries } } => name
                == key && entries@.len() > 0 && string_laws::answer(
                data,
                command,
                moment,
            ) is Integer,
            _ => false,
        },
    ensures
        changes::change_keys(
            changes::changes_of(model::ran(model::begin(data), command, moment).0),
        ).contains(buffer::bytes_content(key)),
{
    let trace = model::ran(model::begin(data), command, moment).0;
    let name = buffer::bytes_content(key);
    let keys = changes::named(command);
    let part = model::begin(Dataset { entries: data.entries.restrict(keys), ..data });
    changes::lemma_link_begin(data, keys);
    changes::lemma_link_ran(data, model::begin(data), part, keys, command, moment);
    changes::lemma_changes_suffice(data, trace);
    assert(trace.touched.contains(name));
    assert(crate::ordered::listing(trace.touched).contains(name));
}

} // verus!
