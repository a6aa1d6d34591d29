//! What deadlines are for: when an entry is seen, and what is answered about the
//! time that is left.

use super::model::{Dataset, EntryModel, Moment};
use crate::buffer;
use crate::command::reply::{ExecutionError, ReplyModel};
use crate::command::types::{Command, ExpiryUnit};
use crate::storage::accounting;
use crate::storage::changes;
use crate::storage::changes::Change;
use crate::storage::model;
use crate::storage::mutation;
use crate::storage::string_laws;
use bytes::Bytes;
use vstd::prelude::*;

verus! {

/// The time that is given, in milliseconds.
pub open spec fn in_millis(value: i64, unit: ExpiryUnit) -> int {
    match unit {
        ExpiryUnit::Seconds => 1000 * value,
        ExpiryUnit::Milliseconds => value as int,
    }
}

/// EXPIRE and PEXPIRE give a key that is there a new deadline, as far from now as was
/// asked, on both clocks, and keep its value. A time that is not positive removes
/// the key. They answer whether there was a key. A time that a clock cannot tell
/// is refused.
pub proof fn law_expire_sets_the_deadline(
    data: Dataset,
    key: Bytes,
    value: i64,
    unit: ExpiryUnit,
    moment: Moment,
)
    ensures
        ({
            let command = Command::Expire { key, value, unit };
            let name = buffer::bytes_content(key);
            let time = in_millis(value, unit);
            let before = string_laws::live(data, name, moment.now);
            let after = string_laws::left(data, command, moment);
            let reply = string_laws::answer(data, command, moment);
            if time < i64::MIN || time > i64::MAX || (time > 0 && (moment.unix_ms + time > i64::MAX
                || moment.now + time * 1_000_000 > u128::MAX)) {
                &&& reply == ReplyModel::Error(
                    ExecutionError::InvalidExpiry(
                        match unit {
                            ExpiryUnit::Seconds => "expire",
                            ExpiryUnit::Milliseconds => "pexpire",
                        },
                    ),
                )
                &&& after == data
            } else if before is None {
                &&& reply == ReplyModel::Integer(0)
                &&& !after.entries.contains_key(name)
            } else if time <= 0 {
                &&& reply == ReplyModel::Integer(1)
                &&& !after.entries.contains_key(name)
            } else {
                &&& reply == ReplyModel::Integer(1)
                &&& after.entries.contains_key(name)
                &&& after.entries[name].value == before->Some_0.value
                &&& after.entries[name].deadline matches Some(deadline) && deadline.at
                    == moment.now + time * 1_000_000 && deadline.unix_ms == moment.unix_ms + time
            }
        }),
{
    let time = in_millis(value, unit);
    assert(time > 0 ==> time * 1_000_000 > 0);
}

/// EXPIRE with seconds is PEXPIRE with a thousand times as many milliseconds.
pub proof fn law_expire_counts_in_thousands(data: Dataset, key: Bytes, value: i64, moment: Moment)
    requires
        i64::MIN <= 1000 * value <= i64::MAX,
    ensures
        ({
            let seconds = Command::Expire { key, value, unit: ExpiryUnit::Seconds };
            let millis = Command::Expire {
                key,
                value: (1000 * value) as i64,
                unit: ExpiryUnit::Milliseconds,
            };
            &&& string_laws::left(data, seconds, moment) == string_laws::left(data, millis, moment)
            &&& string_laws::answer(data, millis, moment) is Error || string_laws::answer(
                data,
                seconds,
                moment,
            ) == string_laws::answer(data, millis, moment)
        }),
{
}

/// After an accepted PEXPIRE, PTTL answers the time that was given, and less the more
/// time has passed; once all of it has passed, the key is gone.
pub proof fn law_time_runs_out(
    data: Dataset,
    key: Bytes,
    value: i64,
    moment: Moment,
    later: Moment,
)
    requires
        value > 0,
        string_laws::answer(
            data,
            Command::Expire { key, value, unit: ExpiryUnit::Milliseconds },
            moment,
        ) == ReplyModel::Integer(1),
        later.now >= moment.now,
    ensures
        ({
            let after = string_laws::left(
                data,
                Command::Expire { key, value, unit: ExpiryUnit::Milliseconds },
                moment,
            );
            let left = string_laws::answer(
                after,
                Command::Ttl { key, milliseconds: true },
                later,
            );
            let end = moment.now + value * 1_000_000;
            if later.now >= end {
                &&& left == ReplyModel::Integer(-2i64)
                &&& string_laws::live(after, buffer::bytes_content(key), later.now) is None
            } else {
                &&& left matches ReplyModel::Integer(time) && 0 <= time <= value && later.now + time
                    * 1_000_000 <= end < later.now + (time + 1) * 1_000_000
                &&& string_laws::live(after, buffer::bytes_content(key), later.now) is Some
            }
        }),
{
    law_expire_sets_the_deadline(data, key, value, ExpiryUnit::Milliseconds, moment);
    let end = moment.now + value * 1_000_000;
    if later.now < end {
        let rest = end - later.now;
        let time = rest / 1_000_000;
        assert(rest <= value * 1_000_000);
        assert(time * 1_000_000 <= rest < (time + 1) * 1_000_000);
        assert(time <= value);
    }
}

/// TTL and PTTL answer -2 where there is no key, -1 where there is no deadline, and
/// otherwise the whole milliseconds that are left, or those in seconds, rounded to
/// the nearest.
pub proof fn law_ttl_tells_the_time_left(data: Dataset, key: Bytes, moment: Moment)
    ensures
        ({
            let exact = string_laws::answer(data, Command::Ttl { key, milliseconds: true }, moment);
            let rough = string_laws::answer(data, Command::Ttl { key, milliseconds: false }, moment);
            match string_laws::live(data, buffer::bytes_content(key), moment.now) {
                None => exact == ReplyModel::Integer(-2i64) && rough == ReplyModel::Integer(-2i64),
                Some(entry) => match entry.deadline {
                    None => exact == ReplyModel::Integer(-1i64) && rough == ReplyModel::Integer(
                        -1i64,
                    ),
                    Some(deadline) => {
                        &&& exact matches ReplyModel::Integer(millis) && if deadline.at - moment.now
                            >= (i64::MAX + 1) * 1_000_000 {
                            millis == i64::MAX
                        } else {
                            moment.now + millis * 1_000_000 <= deadline.at < moment.now + (millis
                                + 1) * 1_000_000
                        }
                        &&& (exact matches ReplyModel::Integer(millis) && millis < i64::MAX)
                            ==> (rough matches ReplyModel::Integer(seconds) && 1000 * seconds - 500
                            <= exact->Integer_0 < 1000 * seconds + 500)
                    },
                },
            }
        }),
{
    let name = buffer::bytes_content(key);
    if let Some(entry) = string_laws::live(data, name, moment.now) {
        if let Some(deadline) = entry.deadline {
            let rest = deadline.at - moment.now;
            let millis = rest / 1_000_000;
            assert(millis * 1_000_000 <= rest < (millis + 1) * 1_000_000);
            assert(rest >= (i64::MAX + 1) * 1_000_000 ==> millis > i64::MAX);
            assert(millis > i64::MAX ==> rest >= (i64::MAX + 1) * 1_000_000);
            let seconds = (millis + 500) / 1000;
            assert(1000 * seconds <= millis + 500 < 1000 * seconds + 1000);
        }
    }
}

/// The commands about time change no entry, except that PERSIST takes a deadline
/// away. It answers whether there was one, and then the key never ends.
pub proof fn law_persist_takes_the_deadline_away(data: Dataset, key: Bytes, moment: Moment, later: Moment)
    ensures
        ({
            let name = buffer::bytes_content(key);
            let before = string_laws::live(data, name, moment.now);
            let after = string_laws::left(data, Command::Persist { key }, moment);
            &&& string_laws::answer(data, Command::Persist { key }, moment) == ReplyModel::Integer(
                if before is Some && before->Some_0.deadline is Some {
                    1
                } else {
                    0
                },
            )
            &&& changes::entry_at(after, name) == match before {
                None => None,
                Some(entry) => Some(EntryModel { value: entry.value, deadline: None }),
            }
            &&& before is Some ==> string_laws::answer(
                after,
                Command::Ttl { key, milliseconds: true },
                later,
            ) == ReplyModel::Integer(-1i64)
            &&& string_laws::live(
                string_laws::left(data, Command::Ttl { key, milliseconds: true }, moment),
                name,
                moment.now,
            ) == before
        }),
{
    let name = buffer::bytes_content(key);
    if let Some(entry) = string_laws::live(data, name, moment.now) {
        if entry.deadline is None {
            assert(entry =~= EntryModel { value: entry.value, deadline: None });
        }
    }
}

/// Whether the command works on the entry of one key.
pub open spec fn works_on(command: Command, key: Bytes) -> bool {
    match command {
        Command::Get { key: name } => name == key,
        Command::SetValue { key: name, .. } => name == key,
        Command::SetWithOptions { key: name, .. } => name == key,
        Command::Incr { key: name } => name == key,
        Command::Decr { key: name } => name == key,
        Command::Expire { key: name, .. } => name == key,
        Command::Ttl { key: name, .. } => name == key,
        Command::Persist { key: name } => name == key,
        Command::Hash { key: name, .. } => name == key,
        Command::SortedSet { key: name, .. } => name == key,
        _ => false,
    }
}

/// An entry that has ended counts as absent: every command on its key answers what it
/// answers without the entry, and leaves what it leaves without it, or what was there.
pub proof fn law_ended_entries_count_as_absent(
    data: Dataset,
    key: Bytes,
    command: Command,
    moment: Moment,
)
    requires
        works_on(command, key),
        data.entries.contains_key(buffer::bytes_content(key)),
        string_laws::live(data, buffer::bytes_content(key), moment.now) is None,
    ensures
        ({
            let name = buffer::bytes_content(key);
            let without = Dataset {
                entries: data.entries.remove(name),
                used: data.used - model::cost(name, data.entries[name].value),
                limit: data.limit,
            };
            &&& string_laws::answer(data, command, moment) == string_laws::answer(
                without,
                command,
                moment,
            )
            &&& string_laws::left(data, command, moment) == data || string_laws::left(
                data,
                command,
                moment,
            ) == string_laws::left(without, command, moment)
        }),
{
    let name = buffer::bytes_content(key);
    let without = Dataset {
        entries: data.entries.remove(name),
        used: data.used - model::cost(name, data.entries[name].value),
        limit: data.limit,
    };
    let seen = model::expire(model::begin(data), name, moment.now);
    assert(seen.data =~= without);
    assert(model::expire(model::begin(without), name, moment.now) == model::begin(without));
}

/// Upkeep removes nothing that has not ended, at most as much as it may, and what ended first
/// before what ended later.
pub proof fn law_upkeep_removes_only_what_has_ended(
    data: Dataset,
    changes: Seq<Change>,
    budget: usize,
    now: u128,
    key: Seq<u8>,
)
    requires
        mutation::expiring(data, changes, budget, now),
        accounting::distinct(changes::change_keys(changes)),
    ensures
        ({
            let after = changes::applied(data, changes);
            &&& string_laws::live(after, key, now) == string_laws::live(data, key, now)
            &&& changes.len() <= budget
            &&& changes::entry_at(after, key) is Some ==> changes::entry_at(after, key)
                == changes::entry_at(data, key)
            &&& changes.len() < budget ==> (changes::entry_at(after, key) is Some
                ==> string_laws::live(data, key, now) is Some)
        }),
{
    changes::lemma_changed_entries(data.entries, changes, key);
    let keys = changes::change_keys(changes);
    if keys.contains(key) {
        let i = choose|i: int| 0 <= i < keys.len() && keys[i] == key;
        assert(changes[i].key == key);
    }
}

} // verus!
