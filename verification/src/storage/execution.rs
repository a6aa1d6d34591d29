//! Execution of commands by the owner of the map. A value is replaced only
//! after the quota was checked.

use super::model::{Deadline, EntryModel, Moment, Trace};
use super::store::{Entry, Store};
use super::value::{SortedSet, Value, duplicate_fields};
use super::watch::Watch;
use crate::buffer::{as_slice, from_vec, length};
use crate::command::reply::{ExecutionError, Reply, ReplyModel};
use crate::command::score::Score;
use crate::command::types::{
    Command, ExpiryUnit, HashCommand, SetCondition, SetExpiry, SetOptions, SortedSetCommand,
};
use crate::numbers::{parse_decimal, signed_decimal_text};
use crate::ordered::ByteMap;
use bytes::Bytes;
use crate::buffer;
use crate::storage::accounting;
use crate::command::reply;
use crate::numbers;
use crate::ordered;
use crate::storage::model;
use crate::storage::store;
use crate::storage::value;
use vstd::prelude::*;

verus! {

/// Ending one more observation.
proof fn lemma_touch(watches: Map<Seq<u8>, Watch>, touched: Set<Seq<u8>>, key: Seq<u8>)
    ensures
        watches.remove_keys(touched).remove(key) == watches.remove_keys(touched.insert(key)),
{
    assert(watches.remove_keys(touched).remove(key) =~= watches.remove_keys(touched.insert(key)));
}

/// Removing distinct keys frees what they took, and leaves the others alone.
pub proof fn lemma_discard_all(trace: Trace, keys: Seq<Seq<u8>>)
    requires
        accounting::distinct(keys),
    ensures
        model::discard_all(trace, keys).data.used == trace.data.used - model::costs_of(trace.data, keys),
        model::discard_all(trace, keys).data.limit == trace.data.limit,
        forall|key: Seq<u8>|
            #![trigger model::discard_all(trace, keys).data.entries.contains_key(key)]
            !keys.contains(key) ==> model::discard_all(trace, keys).data.entries.contains_key(key)
                == trace.data.entries.contains_key(key) && (trace.data.entries.contains_key(key)
                ==> model::discard_all(trace, keys).data.entries[key] == trace.data.entries[key]),
        forall|i: int|
            0 <= i < keys.len() ==> !model::discard_all(trace, keys).data.entries.contains_key(
                #[trigger] keys[i],
            ),
    decreases keys.len(),
{
    if keys.len() > 0 {
        let front = keys.drop_last();
        accounting::lemma_distinct_take(keys, keys.len() - 1);
        assert(front =~= keys.take(keys.len() - 1));
        lemma_discard_all(trace, front);
        let key = keys.last();
        assert(!front.contains(key)) by {
            if front.contains(key) {
                let i = choose|i: int| 0 <= i < front.len() && front[i] == key;
                assert(keys[i] != keys[keys.len() - 1]);
            }
        }
        let middle = model::discard_all(trace, front);
        assert(middle.data.entries.contains_key(key) == trace.data.entries.contains_key(key));
        assert forall|other: Seq<u8>|
            #![trigger model::discard_all(trace, keys).data.entries.contains_key(other)]
            !keys.contains(other) implies model::discard_all(trace, keys).data.entries.contains_key(other)
            == trace.data.entries.contains_key(other) && (trace.data.entries.contains_key(other)
            ==> model::discard_all(trace, keys).data.entries[other] == trace.data.entries[other]) by {
            assert(other != key) by {
                assert(keys[keys.len() - 1] == key);
            }
            assert(!front.contains(other)) by {
                if front.contains(other) {
                    let i = choose|i: int| 0 <= i < front.len() && front[i] == other;
                    assert(keys[i] == other);
                }
            }
            assert(middle.data.entries.contains_key(other) == trace.data.entries.contains_key(
                other,
            ));
        }
        assert forall|i: int| 0 <= i < keys.len() implies !(model::discard_all(
            trace,
            keys,
        ).data.entries.contains_key(#[trigger] keys[i])) by {
            if i < front.len() {
                assert(front[i] == keys[i]);
            }
        }
    }
}

/// Writing distinct keys that are absent takes what the texts take.
pub proof fn lemma_write_all(trace: Trace, keys: Seq<Seq<u8>>, texts: Map<Seq<u8>, Seq<u8>>)
    requires
        accounting::distinct(keys),
        forall|i: int|
            0 <= i < keys.len() ==> !trace.data.entries.contains_key(#[trigger] keys[i]),
    ensures
        model::write_all(trace, keys, texts).data.used == trace.data.used + model::text_costs(keys, texts),
        forall|key: Seq<u8>|
            #![trigger model::write_all(trace, keys, texts).data.entries.contains_key(key)]
            !keys.contains(key) ==> model::write_all(trace, keys, texts).data.entries.contains_key(key)
                == trace.data.entries.contains_key(key),
    decreases keys.len(),
{
    if keys.len() > 0 {
        let front = keys.drop_last();
        accounting::lemma_distinct_take(keys, keys.len() - 1);
        assert(front =~= keys.take(keys.len() - 1));
        assert forall|i: int| 0 <= i < front.len() implies !trace.data.entries.contains_key(
            #[trigger] front[i],
        ) by {
            assert(keys[i] == front[i]);
        }
        lemma_write_all(trace, front, texts);
        let key = keys.last();
        assert(!front.contains(key)) by {
            if front.contains(key) {
                let i = choose|i: int| 0 <= i < front.len() && front[i] == key;
                assert(keys[i] != keys[keys.len() - 1]);
            }
        }
        assert(!trace.data.entries.contains_key(keys[keys.len() - 1]));
        assert(!model::write_all(trace, front, texts).data.entries.contains_key(key));
        assert forall|other: Seq<u8>|
            #![trigger model::write_all(trace, keys, texts).data.entries.contains_key(other)]
            !keys.contains(other) implies model::write_all(
            trace,
            keys,
            texts,
        ).data.entries.contains_key(other) == trace.data.entries.contains_key(other) by {
            assert(other != key) by {
                assert(keys[keys.len() - 1] == key);
            }
            assert(!front.contains(other)) by {
                if front.contains(other) {
                    let i = choose|i: int| 0 <= i < front.len() && front[i] == other;
                    assert(keys[i] == other);
                }
            }
            assert(model::write_all(trace, front, texts).data.entries.contains_key(other)
                == trace.data.entries.contains_key(other));
        }
    }
}

/// The instant and the absolute time this many milliseconds from now.
fn deadline(milliseconds: i64, moment: Moment) -> (result: Option<Deadline>)
    ensures
        result == model::deadline_in(milliseconds as int, moment),
{
    if milliseconds < 0 {
        return None;
    }
    let unix_ms: i64 = match moment.unix_ms.checked_add(milliseconds) {
        None => return None,
        Some(unix_ms) => unix_ms,
    };
    let nanos: u128 = (milliseconds as u128) * 1_000_000;
    match moment.now.checked_add(nanos) {
        None => None,
        Some(at) => Some(Deadline { at, unix_ms }),
    }
}

impl Store {
    /// The store is where the trace leads from `before`.
    pub closed spec fn reached(&self, before: &Store, trace: Trace) -> bool {
        &&& self.wf()
        &&& self.data() == trace.data
        &&& self.watched() == before.watched().remove_keys(trace.touched)
        &&& self.outside() == before.outside()
        &&& self.next_watch() == before.next_watch()
    }

    pub proof fn lemma_start(&self)
        requires
            self.wf(),
        ensures
            self.reached(self, model::begin(self.data())),
    {
        assert(self.watched().remove_keys(Set::empty()) =~= self.watched());
    }

    /// What it means that a store is where a trace leads.
    pub proof fn lemma_reached(&self, before: &Store, trace: Trace)
        requires
            self.reached(before, trace),
        ensures
            self.wf(),
            self.data() == trace.data,
            self.watched() == before.watched().remove_keys(trace.touched),
            self.outside() == before.outside(),
    {
    }

    fn step_remove(&mut self, key: &[u8], Ghost(before): Ghost<&Store>, Ghost(trace): Ghost<Trace>)
        -> (result: bool)
        requires
            old(self).reached(before, trace),
        ensures
            final(self).reached(before, model::discard(trace, key@)),
            result == trace.data.entries.contains_key(key@),
    {
        proof {
            lemma_touch(before.watched(), trace.touched, key@);
        }
        self.remove(key)
    }

    fn step_expire(
        &mut self,
        key: &[u8],
        now: u128,
        Ghost(before): Ghost<&Store>,
        Ghost(trace): Ghost<Trace>,
    )
        requires
            old(self).reached(before, trace),
        ensures
            final(self).reached(before, model::expire(trace, key@, now)),
    {
        proof {
            lemma_touch(before.watched(), trace.touched, key@);
        }
        let _ = self.expire_key(key, now);
    }

    fn step_write(
        &mut self,
        key: Bytes,
        value: Value,
        deadline: Option<Deadline>,
        Ghost(before): Ghost<&Store>,
        Ghost(trace): Ghost<Trace>,
    )
        requires
            old(self).reached(before, trace),
            value.wf(),
            value::storable(value.model()),
            model::placed(
                trace.data,
                buffer::bytes_content(key),
                (EntryModel { value: value.model(), deadline }),
            ).used <= usize::MAX,
        ensures
            final(self).reached(
                before,
                model::write(
                    trace,
                    buffer::bytes_content(key),
                    (EntryModel { value: value.model(), deadline }),
                ),
            ),
    {
        proof {
            lemma_touch(before.watched(), trace.touched, buffer::bytes_content(key));
        }
        self.insert(key, value, deadline);
    }

    /// Applies a validated command. A trace of the keys that it writes or
    /// removes shows in the observations.
    pub(crate) fn execute_inner(
        &mut self,
        command: Command,
        moment: Moment,
        Ghost(before): Ghost<&Store>,
        Ghost(trace): Ghost<Trace>,
    ) -> (reply: Reply)
        requires
            old(self).reached(before, trace),
        ensures
            final(self).reached(before, model::ran(trace, command, moment).0),
            reply.model() == model::ran(trace, command, moment).1,
    {
        let now: u128 = moment.now;
        match command {
            Command::Ping(None) => Reply::Pong,
            Command::Ping(Some(message)) => Reply::Bulk(Some(message)),
            Command::Echo(message) => Reply::Bulk(Some(message)),
            Command::Get { key } => {
                self.step_expire(as_slice(&key), now, Ghost(before), Ghost(trace));
                self.text(as_slice(&key))
            },
            Command::SetValue { key, value } => self.set(
                key,
                value,
                SetOptions::default(),
                moment,
                Ghost(before),
                Ghost(trace),
            ),
            Command::SetWithOptions { key, value, options } => self.set(
                key,
                value,
                options,
                moment,
                Ghost(before),
                Ghost(trace),
            ),
            Command::Del { keys } => self.del(keys, now, Ghost(before), Ghost(trace)),
            Command::Exists { keys } => self.count_present(keys, now, Ghost(before), Ghost(trace)),
            Command::MGet { keys } => self.mget(keys, now, Ghost(before), Ghost(trace)),
            Command::MSet { entries } => self.mset(entries, now, Ghost(before), Ghost(trace)),
            Command::Incr { key } => self.increment(key, 1, moment, Ghost(before), Ghost(trace)),
            Command::Decr { key } => self.increment(key, -1, moment, Ghost(before), Ghost(trace)),
            Command::Expire { key, value, unit } => self.expire_in(
                key,
                value,
                unit,
                moment,
                Ghost(before),
                Ghost(trace),
            ),
            Command::Ttl { key, milliseconds } => self.ttl(
                key,
                milliseconds,
                now,
                Ghost(before),
                Ghost(trace),
            ),
            Command::Persist { key } => self.persist(key, now, Ghost(before), Ghost(trace)),
            Command::Hash { key, operation } => self.hash(
                key,
                operation,
                now,
                Ghost(before),
                Ghost(trace),
            ),
            Command::SortedSet { key, operation } => self.sorted_set(
                key,
                operation,
                now,
                Ghost(before),
                Ghost(trace),
            ),
            _ => Reply::Error(ExecutionError::ConnectionOnly),
        }
    }

    /// The value of a key as text.
    fn text(&self, key: &[u8]) -> (reply: Reply)
        requires
            self.wf(),
        ensures
            reply.model() == model::text_reply(self.data(), key@),
            !(reply is Pong) && !(reply is Okay),
    {
        match self.lookup(key) {
            None => Reply::Bulk(None),
            Some(entry) => match entry.value.as_string() {
                Some(text) => Reply::Bulk(Some(text.clone())),
                None => Reply::Error(ExecutionError::WrongType),
            },
        }
    }

    /// The deadline of a key.
    fn deadline_of_key(&self, key: &[u8]) -> (result: Option<Deadline>)
        requires
            self.wf(),
        ensures
            result == model::deadline_of(self.data(), key@),
    {
        match self.lookup(key) {
            None => None,
            Some(entry) => entry.deadline,
        }
    }

    fn set(
        &mut self,
        key: Bytes,
        value: Bytes,
        options: SetOptions,
        moment: Moment,
        Ghost(before): Ghost<&Store>,
        Ghost(trace): Ghost<Trace>,
    ) -> (reply: Reply)
        requires
            old(self).reached(before, trace),
        ensures
            ({
                let outcome = model::ran_set(
                    trace,
                    buffer::bytes_content(key),
                    buffer::bytes_content(value),
                    options,
                    moment,
                );
                &&& final(self).reached(before, outcome.0)
                &&& reply.model() == outcome.1
            }),
    {
        let relative: Option<Deadline> = match options.expiry {
            SetExpiry::After(millis) => {
                if millis == 0 || millis > i64::MAX as u64 {
                    return Reply::Error(ExecutionError::InvalidSetExpiry);
                }
                match deadline(millis as i64, moment) {
                    None => return Reply::Error(ExecutionError::InvalidSetExpiry),
                    Some(deadline) => Some(deadline),
                }
            },
            _ => None,
        };
        self.step_expire(as_slice(&key), moment.now, Ghost(before), Ghost(trace));
        let ghost seen = model::expire(trace, buffer::bytes_content(key), moment.now);
        let present = self.lookup(as_slice(&key)).is_some();
        let previous = self.text(as_slice(&key));
        if options.return_previous {
            if let Reply::Error(_) = previous {
                return previous;
            }
        }
        if (options.condition == SetCondition::Missing && present) || (options.condition
            == SetCondition::Present && !present) {
            return if options.return_previous {
                previous
            } else {
                Reply::Bulk(None)
            };
        }
        let kept: Option<Deadline> = if options.expiry == SetExpiry::Keep {
            self.deadline_of_key(as_slice(&key))
        } else {
            relative
        };
        let value = Value::String(value);
        if !self.can_replace(as_slice(&key), &value) {
            return Reply::Error(ExecutionError::OutOfMemory);
        }
        self.step_write(key, value, kept, Ghost(before), Ghost(seen));
        if options.return_previous {
            previous
        } else {
            Reply::Okay
        }
    }

    fn increment(
        &mut self,
        key: Bytes,
        delta: i64,
        moment: Moment,
        Ghost(before): Ghost<&Store>,
        Ghost(trace): Ghost<Trace>,
    ) -> (reply: Reply)
        requires
            old(self).reached(before, trace),
        ensures
            ({
                let outcome = model::ran_increment(trace, buffer::bytes_content(key), delta as int, moment);
                &&& final(self).reached(before, outcome.0)
                &&& reply.model() == outcome.1
            }),
    {
        self.step_expire(as_slice(&key), moment.now, Ghost(before), Ghost(trace));
        let ghost seen = model::expire(trace, buffer::bytes_content(key), moment.now);
        let previous: i64 = match self.lookup(as_slice(&key)) {
            None => 0,
            Some(entry) => match entry.value.as_string() {
                None => return Reply::Error(ExecutionError::WrongType),
                Some(text) => match parse_decimal(as_slice(text)) {
                    None => return Reply::Error(ExecutionError::InvalidInteger),
                    Some(number) => number,
                },
            },
        };
        let sum: i64 = match previous.checked_add(delta) {
            None => return Reply::Error(ExecutionError::IntegerOverflow),
            Some(sum) => sum,
        };
        let kept: Option<Deadline> = self.deadline_of_key(as_slice(&key));
        let value = Value::String(from_vec(signed_decimal_text(sum)));
        if !self.can_replace(as_slice(&key), &value) {
            return Reply::Error(ExecutionError::OutOfMemory);
        }
        self.step_write(key, value, kept, Ghost(before), Ghost(seen));
        Reply::Integer(sum)
    }

    fn del(
        &mut self,
        keys: Vec<Bytes>,
        now: u128,
        Ghost(before): Ghost<&Store>,
        Ghost(trace): Ghost<Trace>,
    ) -> (reply: Reply)
        requires
            old(self).reached(before, trace),
        ensures
            final(self).reached(before, model::ran_del(trace, keys@, now).0),
            reply.model() == ReplyModel::Integer(model::ran_del(trace, keys@, now).1 as i64),
    {
        let mut removed: usize = 0;
        let mut index: usize = 0;
        while index < keys.len()
            invariant
                index <= keys@.len(),
                removed <= index,
                self.reached(before, model::ran_del(trace, keys@.take(index as int), now).0),
                removed == model::ran_del(trace, keys@.take(index as int), now).1,
            decreases keys@.len() - index,
        {
            let ghost so_far = model::ran_del(trace, keys@.take(index as int), now).0;
            assert(keys@.take(index + 1).drop_last() =~= keys@.take(index as int));
            let key = as_slice(&keys[index]);
            self.step_expire(key, now, Ghost(before), Ghost(so_far));
            let ghost seen = model::expire(so_far, key@, now);
            if self.step_remove(key, Ghost(before), Ghost(seen)) {
                removed += 1;
            }
            index += 1;
        }
        assert(keys@.take(index as int) =~= keys@);
        Reply::Integer(removed as i64)
    }

    fn count_present(
        &mut self,
        keys: Vec<Bytes>,
        now: u128,
        Ghost(before): Ghost<&Store>,
        Ghost(trace): Ghost<Trace>,
    ) -> (reply: Reply)
        requires
            old(self).reached(before, trace),
        ensures
            final(self).reached(before, model::ran_exists(trace, keys@, now).0),
            reply.model() == ReplyModel::Integer(model::ran_exists(trace, keys@, now).1 as i64),
    {
        let mut count: usize = 0;
        let mut index: usize = 0;
        while index < keys.len()
            invariant
                index <= keys@.len(),
                count <= index,
                self.reached(before, model::ran_exists(trace, keys@.take(index as int), now).0),
                count == model::ran_exists(trace, keys@.take(index as int), now).1,
            decreases keys@.len() - index,
        {
            let ghost so_far = model::ran_exists(trace, keys@.take(index as int), now).0;
            assert(keys@.take(index + 1).drop_last() =~= keys@.take(index as int));
            let key = as_slice(&keys[index]);
            self.step_expire(key, now, Ghost(before), Ghost(so_far));
            if self.lookup(key).is_some() {
                count += 1;
            }
            index += 1;
        }
        assert(keys@.take(index as int) =~= keys@);
        Reply::Integer(count as i64)
    }

    fn mget(
        &mut self,
        keys: Vec<Bytes>,
        now: u128,
        Ghost(before): Ghost<&Store>,
        Ghost(trace): Ghost<Trace>,
    ) -> (reply: Reply)
        requires
            old(self).reached(before, trace),
        ensures
            final(self).reached(before, model::ran_mget(trace, keys@, now).0),
            reply.model() == ReplyModel::Array(model::ran_mget(trace, keys@, now).1),
    {
        let mut replies: Vec<Reply> = Vec::new();
        let mut index: usize = 0;
        while index < keys.len()
            invariant
                index <= keys@.len(),
                self.reached(before, model::ran_mget(trace, keys@.take(index as int), now).0),
                replies@.len() == index,
                model::ran_mget(trace, keys@.take(index as int), now).1.len() == index,
                forall|i: int|
                    0 <= i < index ==> (#[trigger] replies@[i]).model() == model::ran_mget(
                        trace,
                        keys@.take(index as int),
                        now,
                    ).1[i],
            decreases keys@.len() - index,
        {
            let ghost so_far = model::ran_mget(trace, keys@.take(index as int), now).0;
            assert(keys@.take(index + 1).drop_last() =~= keys@.take(index as int));
            let key = as_slice(&keys[index]);
            self.step_expire(key, now, Ghost(before), Ghost(so_far));
            let reply = match self.text(key) {
                Reply::Error(_) => Reply::Bulk(None),
                other => other,
            };
            replies.push(reply);
            index += 1;
        }
        proof {
            assert(keys@.take(index as int) =~= keys@);
            reply::lemma_reply_models(replies@, replies@.len());
            assert(reply::reply_models(replies@, replies@.len()) =~= model::ran_mget(trace, keys@, now).1);
        }
        Reply::Array(replies)
    }

    fn expire_in(
        &mut self,
        key: Bytes,
        value: i64,
        unit: ExpiryUnit,
        moment: Moment,
        Ghost(before): Ghost<&Store>,
        Ghost(trace): Ghost<Trace>,
    ) -> (reply: Reply)
        requires
            old(self).reached(before, trace),
        ensures
            ({
                let outcome = model::ran_expire(trace, buffer::bytes_content(key), value, unit, moment);
                &&& final(self).reached(before, outcome.0)
                &&& reply.model() == outcome.1
            }),
    {
        let name = if unit == ExpiryUnit::Seconds {
            "expire"
        } else {
            "pexpire"
        };
        let millis: i64 = if unit == ExpiryUnit::Seconds {
            match value.checked_mul(1000) {
                None => return Reply::Error(ExecutionError::InvalidExpiry(name)),
                Some(millis) => millis,
            }
        } else {
            value
        };
        let relative: Option<Deadline> = if millis > 0 {
            match deadline(millis, moment) {
                None => return Reply::Error(ExecutionError::InvalidExpiry(name)),
                Some(deadline) => Some(deadline),
            }
        } else {
            None
        };
        self.step_expire(as_slice(&key), moment.now, Ghost(before), Ghost(trace));
        let ghost seen = model::expire(trace, buffer::bytes_content(key), moment.now);
        if millis <= 0 {
            return if self.step_remove(as_slice(&key), Ghost(before), Ghost(seen)) {
                Reply::Integer(1)
            } else {
                Reply::Integer(0)
            };
        }
        self.redate(key, relative, Ghost(before), Ghost(seen))
    }

    /// Gives the entry of a key another deadline; tells whether there is one.
    fn redate(
        &mut self,
        key: Bytes,
        deadline: Option<Deadline>,
        Ghost(before): Ghost<&Store>,
        Ghost(seen): Ghost<Trace>,
    ) -> (reply: Reply)
        requires
            old(self).reached(before, seen),
        ensures
            ({
                let content = buffer::bytes_content(key);
                if seen.data.entries.contains_key(content) {
                    &&& final(self).reached(
                        before,
                        model::write(
                            seen,
                            content,
                            (EntryModel { deadline, ..seen.data.entries[content] }),
                        ),
                    )
                    &&& reply.model() == ReplyModel::Integer(1)
                } else {
                    &&& final(self).reached(before, seen)
                    &&& reply.model() == ReplyModel::Integer(0)
                }
            }),
    {
        proof {
            self.lemma_data();
        }
        let value = match self.lookup(as_slice(&key)) {
            None => return Reply::Integer(0),
            Some(entry) => entry.value.duplicate(),
        };
        self.step_write(key, value, deadline, Ghost(before), Ghost(seen));
        Reply::Integer(1)
    }

    fn ttl(
        &mut self,
        key: Bytes,
        milliseconds: bool,
        now: u128,
        Ghost(before): Ghost<&Store>,
        Ghost(trace): Ghost<Trace>,
    ) -> (reply: Reply)
        requires
            old(self).reached(before, trace),
        ensures
            ({
                let outcome = model::ran_ttl(trace, buffer::bytes_content(key), milliseconds, now);
                &&& final(self).reached(before, outcome.0)
                &&& reply.model() == outcome.1
            }),
    {
        self.step_expire(as_slice(&key), now, Ghost(before), Ghost(trace));
        let value: i64 = match self.lookup(as_slice(&key)) {
            None => -2,
            Some(entry) => match entry.deadline {
                None => -1,
                Some(deadline) => {
                    let nanos: u128 = if deadline.at >= now {
                        deadline.at - now
                    } else {
                        0
                    };
                    let millis: u128 = nanos / 1_000_000;
                    let result: u128 = if milliseconds {
                        millis
                    } else {
                        (millis + 500) / 1000
                    };
                    if result > i64::MAX as u128 {
                        i64::MAX
                    } else {
                        result as i64
                    }
                },
            },
        };
        Reply::Integer(value)
    }

    fn persist(
        &mut self,
        key: Bytes,
        now: u128,
        Ghost(before): Ghost<&Store>,
        Ghost(trace): Ghost<Trace>,
    ) -> (reply: Reply)
        requires
            old(self).reached(before, trace),
        ensures
            ({
                let outcome = model::ran_persist(trace, buffer::bytes_content(key), now);
                &&& final(self).reached(before, outcome.0)
                &&& reply.model() == outcome.1
            }),
    {
        self.step_expire(as_slice(&key), now, Ghost(before), Ghost(trace));
        let ghost seen = model::expire(trace, buffer::bytes_content(key), now);
        match self.deadline_of_key(as_slice(&key)) {
            None => Reply::Integer(0),
            Some(_) => self.redate(key, None, Ghost(before), Ghost(seen)),
        }
    }

    fn mset(
        &mut self,
        entries: Vec<(Bytes, Bytes)>,
        now: u128,
        Ghost(before): Ghost<&Store>,
        Ghost(trace): Ghost<Trace>,
    ) -> (reply: Reply)
        requires
            old(self).reached(before, trace),
        ensures
            final(self).reached(before, model::ran_mset(trace, entries@, now).0),
            reply.model() == model::ran_mset(trace, entries@, now).1,
    {
        // Reduces duplicates first: only the last value belongs to the final state.
        let texts = reduce(&entries);
        let ghost model = value::contents(texts@);
        let ghost keys = texts.keys();
        proof {
            texts.lemma_keys();
            assert(model.dom() =~= texts@.dom());
            accounting::lemma_ascending_distinct(keys);
        }
        let mut index: usize = 0;
        while index < texts.items.len()
            invariant
                keys == texts.keys(),
                index <= texts.items@.len(),
                self.reached(before, model::expire_all(trace, keys.take(index as int), now)),
            decreases texts.items@.len() - index,
        {
            let ghost so_far = model::expire_all(trace, keys.take(index as int), now);
            assert(keys.take(index + 1).drop_last() =~= keys.take(index as int));
            self.step_expire(as_slice(&texts.items[index].0), now, Ghost(before), Ghost(so_far));
            index += 1;
        }
        assert(keys.take(index as int) =~= keys);
        let ghost seen = model::expire_all(trace, keys, now);
        let base: usize = self.base_usage(&texts);
        proof {
            self.lemma_data();
        }
        let mut usage: usize = base;
        index = 0;
        while index < texts.items.len()
            invariant
                self.reached(before, seen),
                0 <= seen.data.used <= usize::MAX,
                1 <= seen.data.limit <= isize::MAX,
                seen == model::expire_all(trace, keys, now),
                model == model::merged(entries@),
                model == value::contents(texts@),
                texts.wf(),
                keys == texts.keys(),
                keys == ordered::listing(model.dom()),
                index <= texts.items@.len(),
                base == seen.data.used - model::costs_of(seen.data, keys),
                usage == base + model::text_costs(keys.take(index as int), model),
            decreases texts.items@.len() - index,
        {
            proof {
                texts.lemma_at(index as int);
                assert(keys.take(index + 1).drop_last() =~= keys.take(index as int));
                accounting::lemma_text_costs_grow(keys, model, index + 1);
            }
            let item = &texts.items[index];
            let size: u128 = length(&item.0) as u128 + length(&item.1) as u128 + 128;
            let sum: u128 = usage as u128 + size;
            if sum > usize::MAX as u128 {
                return Reply::Error(ExecutionError::OutOfMemory);
            }
            usage = sum as usize;
            index += 1;
        }
        assert(keys.take(index as int) =~= keys);
        if usage > self.config().max_dataset_bytes && usage > self.used_bytes() {
            return Reply::Error(ExecutionError::OutOfMemory);
        }
        // Takes the previous values out after the whole batch was validated.
        index = 0;
        while index < texts.items.len()
            invariant
                keys == texts.keys(),
                index <= texts.items@.len(),
                self.reached(before, model::discard_all(seen, keys.take(index as int))),
            decreases texts.items@.len() - index,
        {
            let ghost so_far = model::discard_all(seen, keys.take(index as int));
            assert(keys.take(index + 1).drop_last() =~= keys.take(index as int));
            let _ = self.step_remove(as_slice(&texts.items[index].0), Ghost(before), Ghost(so_far));
            index += 1;
        }
        assert(keys.take(index as int) =~= keys);
        let ghost cleared = model::discard_all(seen, keys);
        proof {
            lemma_discard_all(seen, keys);
        }
        index = 0;
        while index < texts.items.len()
            invariant
                texts.wf(),
                keys == texts.keys(),
                accounting::distinct(keys),
                model == value::contents(texts@),
                index <= texts.items@.len(),
                cleared.data.used + model::text_costs(keys, model) <= usize::MAX,
                forall|i: int|
                    0 <= i < keys.len() ==> !cleared.data.entries.contains_key(
                        #[trigger] keys[i],
                    ),
                self.reached(before, model::write_all(cleared, keys.take(index as int), model)),
            decreases texts.items@.len() - index,
        {
            let ghost so_far = model::write_all(cleared, keys.take(index as int), model);
            proof {
                texts.lemma_at(index as int);
                let part = keys.take(index as int);
                let more = keys.take(index + 1);
                assert(more.drop_last() =~= part);
                assert(more.last() == keys[index as int]);
                accounting::lemma_distinct_take(keys, index as int);
                accounting::lemma_distinct_take(keys, index + 1);
                assert forall|i: int| 0 <= i < part.len() implies !(
                cleared.data.entries.contains_key(#[trigger] part[i])) by {
                    assert(part[i] == keys[i]);
                }
                assert forall|i: int| 0 <= i < more.len() implies !(
                cleared.data.entries.contains_key(#[trigger] more[i])) by {
                    assert(more[i] == keys[i]);
                }
                lemma_write_all(cleared, part, model);
                lemma_write_all(cleared, more, model);
                accounting::lemma_text_costs_grow(keys, model, index + 1);
            }
            let item = &texts.items[index];
            self.step_write(
                item.0.clone(),
                Value::String(item.1.clone()),
                None,
                Ghost(before),
                Ghost(so_far),
            );
            index += 1;
        }
        assert(keys.take(index as int) =~= keys);
        Reply::Okay
    }

    /// Logical bytes in use without the given keys.
    fn base_usage(&self, texts: &ByteMap<Bytes>) -> (base: usize)
        requires
            self.wf(),
            texts.wf(),
        ensures
            base == self.data().used - model::costs_of(self.data(), texts.keys()),
    {
        let ghost keys = texts.keys();
        let ghost data = self.data();
        proof {
            self.lemma_data();
            texts.lemma_keys();
            accounting::lemma_ascending_distinct(keys);
            assert(keys.take(0) =~= Seq::<Seq<u8>>::empty());
        }
        let mut base: usize = self.used_bytes();
        let mut index: usize = 0;
        let items = self.items();
        while index < texts.items.len()
            invariant
                self.wf(),
                data == self.data(),
                0 <= data.used <= usize::MAX,
                self.outside() >= 0,
                items.wf(),
                data.entries == items@.map_values(|entry: Entry| entry.model()),
                data.used == store::total(items.items@) + self.outside(),
                texts.wf(),
                keys == texts.keys(),
                accounting::distinct(keys),
                index <= texts.items@.len(),
                base == data.used - model::costs_of(data, keys.take(index as int)),
            decreases texts.items@.len() - index,
        {
            proof {
                let more = keys.take(index + 1);
                assert(more.drop_last() =~= keys.take(index as int));
                assert(more.last() == keys[index as int]);
                accounting::lemma_distinct_take(keys, index + 1);
                let all = items.keys();
                items.lemma_keys();
                assert forall|i: int|
                    0 <= i < more.len() && data.entries.contains_key(
                        #[trigger] more[i],
                    ) implies all.contains(more[i]) by {
                    assert(items@.dom().contains(more[i]));
                }
                accounting::lemma_costs_subset(data, more, all);
                accounting::lemma_total_costs(data, items, items.items@.len() as int);
                assert(items.items@.take(items.items@.len() as int) =~= items.items@);
                assert(all.take(items.items@.len() as int) =~= all);
                self.lemma_data();
            }
            let key = as_slice(&texts.items[index].0);
            if let Some(entry) = self.lookup(key) {
                proof {
                    assert(0 <= model::cost_of(data, key@) <= data.used - self.outside());
                }
                if let Some(size) = Store::entry_bytes(key, &entry.value) {
                    base = base - size;
                }
            }
            index += 1;
        }
        assert(keys.take(index as int) =~= keys);
        base
    }

    fn hash(
        &mut self,
        key: Bytes,
        operation: HashCommand,
        now: u128,
        Ghost(before): Ghost<&Store>,
        Ghost(trace): Ghost<Trace>,
    ) -> (reply: Reply)
        requires
            old(self).reached(before, trace),
        ensures
            final(self).reached(before, model::ran_hash(trace, buffer::bytes_content(key), operation, now).0),
            reply.model() == model::ran_hash(trace, buffer::bytes_content(key), operation, now).1,
    {
        self.step_expire(as_slice(&key), now, Ghost(before), Ghost(trace));
        let ghost seen = model::expire(trace, buffer::bytes_content(key), now);
        let mut fields: ByteMap<Bytes> = match self.lookup(as_slice(&key)) {
            None => ByteMap::new(),
            Some(entry) => match &entry.value {
                Value::Hash(fields) => duplicate_fields(fields),
                _ => return Reply::Error(ExecutionError::WrongType),
            },
        };
        let ghost model = value::contents(fields@);
        proof {
            fields.lemma_keys();
            assert(model.dom() =~= fields@.dom());
            if !seen.data.entries.contains_key(buffer::bytes_content(key)) {
                assert(model =~= Map::<Seq<u8>, Seq<u8>>::empty());
            }
        }
        let kept: Option<Deadline> = self.deadline_of_key(as_slice(&key));
        match operation {
            HashCommand::Get { field } => match fields.get(as_slice(&field)) {
                Some(value) => Reply::Bulk(Some(value.clone())),
                None => Reply::Bulk(None),
            },
            HashCommand::Exists { field } => if fields.contains(as_slice(&field)) {
                Reply::Integer(1)
            } else {
                Reply::Integer(0)
            },
            HashCommand::Len => {
                proof {
                    fields.lemma_keys();
                    assert(model.dom() =~= fields@.dom());
                }
                Reply::Integer(fields.len() as i64)
            },
            HashCommand::GetAll => list_fields(&fields),
            HashCommand::SetFields { entries } => {
                if entries.len() == 0 {
                    return Reply::Integer(0);
                }
                let added: usize = put_fields(&mut fields, &entries);
                let value = Value::Hash(fields);
                if !self.can_replace(as_slice(&key), &value) {
                    return Reply::Error(ExecutionError::OutOfMemory);
                }
                self.step_write(key, value, kept, Ghost(before), Ghost(seen));
                Reply::Integer(added as i64)
            },
            HashCommand::Delete { fields: names } => {
                let removed: usize = delete_fields(&mut fields, &names);
                if removed > 0 {
                    proof {
                        lemma_fields_shrink(model, names@);
                    }
                    if fields.len() == 0 {
                        proof {
                            assert(value::contents(fields@).dom() =~= Set::<Seq<u8>>::empty());
                        }
                        let _ = self.step_remove(as_slice(&key), Ghost(before), Ghost(seen));
                    } else {
                        proof {
                            fields.lemma_at(0);
                            fields.lemma_keys();
                            assert(value::contents(fields@).dom() =~= fields@.dom());
                            assert(value::contents(fields@).dom().contains(fields.key_at(0)));
                            self.lemma_data();
                            super::collections::lemma_fields_subset(value::contents(fields@), model);
                        }
                        self.step_write(
                            key,
                            Value::Hash(fields),
                            kept,
                            Ghost(before),
                            Ghost(seen),
                        );
                    }
                }
                Reply::Integer(removed as i64)
            },
        }
    }

    fn sorted_set(
        &mut self,
        key: Bytes,
        operation: SortedSetCommand,
        now: u128,
        Ghost(before): Ghost<&Store>,
        Ghost(trace): Ghost<Trace>,
    ) -> (reply: Reply)
        requires
            old(self).reached(before, trace),
        ensures
            final(self).reached(before, model::ran_sorted_set(trace, buffer::bytes_content(key), operation, now).0),
            reply.model() == model::ran_sorted_set(trace, buffer::bytes_content(key), operation, now).1,
    {
        self.step_expire(as_slice(&key), now, Ghost(before), Ghost(trace));
        let ghost seen = model::expire(trace, buffer::bytes_content(key), now);
        let mut members: SortedSet = match self.lookup(as_slice(&key)) {
            None => SortedSet::new(),
            Some(entry) => match &entry.value {
                Value::SortedSet(members) => members.duplicate(),
                _ => return Reply::Error(ExecutionError::WrongType),
            },
        };
        let ghost model = members@;
        proof {
            members.lemma_finite();
        }
        let kept: Option<Deadline> = self.deadline_of_key(as_slice(&key));
        match operation {
            SortedSetCommand::Card => Reply::Integer(members.len() as i64),
            SortedSetCommand::Score { member } => match members.get(as_slice(&member)) {
                Some(score) => Reply::Bulk(Some(score.text.clone())),
                None => Reply::Bulk(None),
            },
            SortedSetCommand::Range { start, stop, with_scores } => list_members(
                &members,
                start,
                stop,
                with_scores,
            ),
            SortedSetCommand::Add { entries } => {
                let (added, changed) = add_members(&mut members, &entries);
                if !changed {
                    return Reply::Integer(added as i64);
                }
                let value = Value::SortedSet(members);
                if !self.can_replace(as_slice(&key), &value) {
                    return Reply::Error(ExecutionError::OutOfMemory);
                }
                self.step_write(key, value, kept, Ghost(before), Ghost(seen));
                Reply::Integer(added as i64)
            },
            SortedSetCommand::Remove { members: names } => {
                let removed: usize = remove_members(&mut members, &names);
                if removed > 0 {
                    proof {
                        lemma_members_shrink(model, names@);
                    }
                    if members.is_empty() {
                        let _ = self.step_remove(as_slice(&key), Ghost(before), Ghost(seen));
                    } else {
                        proof {
                            self.lemma_data();
                            members.lemma_finite();
                            super::collections::lemma_members_subset(members@, model);
                        }
                        self.step_write(
                            key,
                            Value::SortedSet(members),
                            kept,
                            Ghost(before),
                            Ghost(seen),
                        );
                    }
                }
                Reply::Integer(removed as i64)
            },
        }
    }
}

/// Deleting fields leaves some of the fields, with their values.
proof fn lemma_fields_shrink(fields: Map<Seq<u8>, Seq<u8>>, names: Seq<Bytes>)
    ensures
        model::fields_deleted(fields, names).0.submap_of(fields),
        model::fields_deleted(fields, names).1 >= 0,
        model::fields_deleted(fields, names).1 > 0 ==> !fields.dom().is_empty(),
    decreases names.len(),
{
    if names.len() > 0 {
        lemma_fields_shrink(fields, names.drop_last());
        let before = model::fields_deleted(fields, names.drop_last()).0;
        assert(before.remove(buffer::bytes_content(names.last())).submap_of(fields));
        if before.contains_key(buffer::bytes_content(names.last())) {
            assert(fields.dom().contains(buffer::bytes_content(names.last())));
        }
    }
}

proof fn lemma_members_shrink(members: Map<Seq<u8>, super::value::ScoreModel>, names: Seq<Bytes>)
    ensures
        model::members_removed(members, names).0.submap_of(members),
        model::members_removed(members, names).1 >= 0,
        model::members_removed(members, names).1 > 0 ==> !members.dom().is_empty(),
    decreases names.len(),
{
    if names.len() > 0 {
        lemma_members_shrink(members, names.drop_last());
        let before = model::members_removed(members, names.drop_last()).0;
        assert(before.remove(buffer::bytes_content(names.last())).submap_of(members));
        if before.contains_key(buffer::bytes_content(names.last())) {
            assert(members.dom().contains(buffer::bytes_content(names.last())));
        }
    }
}

/// The pairs of a batch, the last pair of each key.
fn reduce(entries: &Vec<(Bytes, Bytes)>) -> (texts: ByteMap<Bytes>)
    ensures
        texts.wf(),
        value::contents(texts@) == model::merged(entries@),
{
    let mut texts: ByteMap<Bytes> = ByteMap::new();
    let mut index: usize = 0;
    proof {
        assert(value::contents(texts@) =~= Map::<Seq<u8>, Seq<u8>>::empty());
        assert(entries@.take(0) =~= Seq::<(Bytes, Bytes)>::empty());
    }
    while index < entries.len()
        invariant
            texts.wf(),
            index <= entries@.len(),
            value::contents(texts@) == model::merged(entries@.take(index as int)),
        decreases entries@.len() - index,
    {
        let ghost earlier = texts@;
        let entry = &entries[index];
        let value = entry.1.clone();
        let ghost content = buffer::bytes_content(value);
        let _ = texts.insert(entry.0.clone(), value);
        proof {
            assert(entries@.take(index + 1).drop_last() =~= entries@.take(index as int));
            assert(value::contents(texts@) =~= value::contents(earlier).insert(
                buffer::bytes_content(entries@[index as int].0),
                content,
            ));
        }
        index += 1;
    }
    assert(entries@.take(index as int) =~= entries@);
    texts
}

/// Fields and values, one after the other.
fn list_fields(fields: &ByteMap<Bytes>) -> (reply: Reply)
    requires
        fields.wf(),
    ensures
        reply.model() == ReplyModel::Array(
            model::fields_listed(ordered::listing(value::contents(fields@).dom()), value::contents(fields@)),
        ),
{
    let ghost model = value::contents(fields@);
    let ghost keys = fields.keys();
    proof {
        fields.lemma_keys();
        assert(model.dom() =~= fields@.dom());
        assert(keys.take(0) =~= Seq::<Seq<u8>>::empty());
    }
    let mut replies: Vec<Reply> = Vec::new();
    let mut index: usize = 0;
    while index < fields.items.len()
        invariant
            fields.wf(),
            model == value::contents(fields@),
            keys == fields.keys(),
            index <= fields.items@.len(),
            replies@.len() == model::fields_listed(keys.take(index as int), model).len(),
            forall|i: int|
                0 <= i < replies@.len() ==> (#[trigger] replies@[i]).model() == model::fields_listed(
                    keys.take(index as int),
                    model,
                )[i],
        decreases fields.items@.len() - index,
    {
        proof {
            fields.lemma_at(index as int);
            assert(keys.take(index + 1).drop_last() =~= keys.take(index as int));
            assert(keys.take(index + 1).last() == fields.key_at(index as int));
        }
        let item = &fields.items[index];
        replies.push(Reply::Bulk(Some(item.0.clone())));
        replies.push(Reply::Bulk(Some(item.1.clone())));
        index += 1;
    }
    proof {
        assert(keys.take(index as int) =~= keys);
        reply::lemma_reply_models(replies@, replies@.len());
        assert(reply::reply_models(replies@, replies@.len()) =~= model::fields_listed(keys, model));
    }
    Reply::Array(replies)
}

/// Puts values under fields; counts the fields that are new.
fn put_fields(fields: &mut ByteMap<Bytes>, entries: &Vec<(Bytes, Bytes)>) -> (added: usize)
    requires
        old(fields).wf(),
    ensures
        final(fields).wf(),
        (value::contents(final(fields)@), added as int) == model::fields_set(value::contents(old(fields)@), entries@),
{
    let ghost first = value::contents(fields@);
    let mut added: usize = 0;
    let mut index: usize = 0;
    assert(entries@.take(0) =~= Seq::<(Bytes, Bytes)>::empty());
    while index < entries.len()
        invariant
            fields.wf(),
            index <= entries@.len(),
            added <= index,
            first == value::contents(old(fields)@),
            (value::contents(fields@), added as int) == model::fields_set(first, entries@.take(index as int)),
        decreases entries@.len() - index,
    {
        let ghost earlier = fields@;
        let entry = &entries[index];
        let value = entry.1.clone();
        let ghost content = buffer::bytes_content(value);
        let previous = fields.insert(entry.0.clone(), value);
        if previous.is_none() {
            added += 1;
        }
        proof {
            assert(entries@.take(index + 1).drop_last() =~= entries@.take(index as int));
            assert(value::contents(fields@) =~= value::contents(earlier).insert(
                buffer::bytes_content(entries@[index as int].0),
                content,
            ));
        }
        index += 1;
    }
    assert(entries@.take(index as int) =~= entries@);
    added
}

/// Deletes fields; counts those that were there.
fn delete_fields(fields: &mut ByteMap<Bytes>, names: &Vec<Bytes>) -> (removed: usize)
    requires
        old(fields).wf(),
    ensures
        final(fields).wf(),
        (value::contents(final(fields)@), removed as int) == model::fields_deleted(value::contents(old(fields)@), names@),
{
    let ghost first = value::contents(fields@);
    let mut removed: usize = 0;
    let mut index: usize = 0;
    assert(names@.take(0) =~= Seq::<Bytes>::empty());
    while index < names.len()
        invariant
            fields.wf(),
            index <= names@.len(),
            removed <= index,
            first == value::contents(old(fields)@),
            (value::contents(fields@), removed as int) == model::fields_deleted(first, names@.take(index as int)),
        decreases names@.len() - index,
    {
        let ghost earlier = fields@;
        let previous = fields.remove(as_slice(&names[index]));
        if previous.is_some() {
            removed += 1;
        }
        proof {
            assert(names@.take(index + 1).drop_last() =~= names@.take(index as int));
            assert(value::contents(fields@) =~= value::contents(earlier).remove(
                buffer::bytes_content(names@[index as int]),
            ));
        }
        index += 1;
    }
    assert(names@.take(index as int) =~= names@);
    removed
}

/// Gives members their scores; counts those that are new, and tells whether
/// anything changed.
fn add_members(members: &mut SortedSet, entries: &Vec<(Score, Bytes)>) -> (result: (usize, bool))
    requires
        old(members).wf(),
    ensures
        final(members).wf(),
        (final(members)@, result.0 as int, result.1) == model::members_added(old(members)@, entries@),
{
    let ghost first = members@;
    let mut added: usize = 0;
    let mut changed = false;
    let mut index: usize = 0;
    assert(entries@.take(0) =~= Seq::<(Score, Bytes)>::empty());
    while index < entries.len()
        invariant
            members.wf(),
            index <= entries@.len(),
            added <= index,
            first == old(members)@,
            (members@, added as int, changed) == model::members_added(first, entries@.take(index as int)),
        decreases entries@.len() - index,
    {
        assert(entries@.take(index + 1).drop_last() =~= entries@.take(index as int));
        let entry = &entries[index];
        let (new, update) = members.insert(entry.1.clone(), entry.0.duplicate());
        if new {
            added += 1;
        }
        changed = changed || update;
        index += 1;
    }
    assert(entries@.take(index as int) =~= entries@);
    (added, changed)
}

/// Removes members; counts those that were there.
fn remove_members(members: &mut SortedSet, names: &Vec<Bytes>) -> (removed: usize)
    requires
        old(members).wf(),
    ensures
        final(members).wf(),
        (final(members)@, removed as int) == model::members_removed(old(members)@, names@),
{
    let ghost first = members@;
    let mut removed: usize = 0;
    let mut index: usize = 0;
    assert(names@.take(0) =~= Seq::<Bytes>::empty());
    while index < names.len()
        invariant
            members.wf(),
            index <= names@.len(),
            removed <= index,
            first == old(members)@,
            (members@, removed as int) == model::members_removed(first, names@.take(index as int)),
        decreases names@.len() - index,
    {
        assert(names@.take(index + 1).drop_last() =~= names@.take(index as int));
        if members.remove(as_slice(&names[index])) {
            removed += 1;
        }
        index += 1;
    }
    assert(names@.take(index as int) =~= names@);
    removed
}

/// The places that a range of ranks covers.
pub fn range(count: usize, start: i64, stop: i64) -> (result: (usize, usize))
    ensures
        (result.0 as int, result.1 as int) == model::rank_range(count as int, start, stop),
        result.0 <= result.1 <= count,
{
    let size: i128 = count as i128;
    let from: i128 = if start < 0 {
        if size + (start as i128) < 0 {
            0
        } else {
            size + start as i128
        }
    } else {
        start as i128
    };
    let to: i128 = if stop < 0 {
        size + stop as i128
    } else if stop as i128 >= size {
        size - 1
    } else {
        stop as i128
    };
    if from > to || from >= size {
        (0, 0)
    } else {
        (from as usize, (to + 1) as usize)
    }
}

/// The members between two ranks.
fn list_members(members: &SortedSet, start: i64, stop: i64, with_scores: bool) -> (reply: Reply)
    requires
        members.wf(),
    ensures
        reply.model() == ReplyModel::Array(
            {
                let order = value::ranking(members@);
                let places = model::rank_range(order.len() as int, start, stop);
                model::members_listed(order.subrange(places.0, places.1), members@, with_scores)
            },
        ),
{
    let ranked = members.ranked();
    let ghost order = value::ranking(members@);
    let (from, to) = range(ranked.len(), start, stop);
    let ghost wanted = order.subrange(from as int, to as int);
    let mut replies: Vec<Reply> = Vec::new();
    let mut index: usize = from;
    assert(wanted.take(0) =~= Seq::<Seq<u8>>::empty());
    while index < to
        invariant
            members.wf(),
            from <= index <= to <= ranked@.len(),
            order == value::ranking(members@),
            order.len() == ranked@.len(),
            wanted == order.subrange(from as int, to as int),
            forall|i: int|
                0 <= i < ranked@.len() ==> buffer::bytes_content((#[trigger] ranked@[i]).1) == order[i]
                    && members@.contains_key(order[i]),
            replies@.len() == model::members_listed(wanted.take(index - from), members@, with_scores).len(),
            forall|i: int|
                0 <= i < replies@.len() ==> (#[trigger] replies@[i]).model() == model::members_listed(
                    wanted.take(index - from),
                    members@,
                    with_scores,
                )[i],
        decreases to - index,
    {
        proof {
            assert(wanted.take(index - from + 1).drop_last() =~= wanted.take(index - from));
            assert(wanted.take(index - from + 1).last() == order[index as int]);
        }
        let member = &ranked[index].1;
        assert(buffer::bytes_content(*member) == order[index as int]);
        replies.push(Reply::Bulk(Some(member.clone())));
        if with_scores {
            match members.get(as_slice(member)) {
                Some(score) => replies.push(Reply::Bulk(Some(score.text.clone()))),
                None => {},
            }
        }
        index += 1;
    }
    proof {
        assert(wanted.take(index - from) =~= wanted);
        reply::lemma_reply_models(replies@, replies@.len());
        assert(reply::reply_models(replies@, replies@.len()) =~= model::members_listed(
            wanted,
            members@,
            with_scores,
        ));
    }
    Reply::Array(replies)
}

} // verus!
