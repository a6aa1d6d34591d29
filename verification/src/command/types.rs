//! What a request asks for, apart from how it was sent.

use super::info::InfoSections;
use super::score::Score;
use bytes::Bytes;
use vstd::prelude::*;

verus! {

/// Existence condition checked before a value is replaced.
#[derive(Clone, Copy, Debug, PartialEq, Eq, Structural)]
pub enum SetCondition {
    Always,
    Missing,
    Present,
}

impl Default for SetCondition {
    fn default() -> (result: Self)
        ensures
            result == SetCondition::Always,
    {
        SetCondition::Always
    }
}

/// What SET does to the deadline, resolved at the instant of execution.
#[derive(Clone, Copy, Debug, PartialEq, Eq, Structural)]
pub enum SetExpiry {
    Persistent,
    Keep,
    /// Milliseconds from the execution on.
    After(u64),
}

impl Default for SetExpiry {
    fn default() -> (result: Self)
        ensures
            result == SetExpiry::Persistent,
    {
        SetExpiry::Persistent
    }
}

/// Options of a conditional replacement.
#[derive(Clone, Copy, Debug, PartialEq, Eq, Structural)]
pub struct SetOptions {
    pub condition: SetCondition,
    pub expiry: SetExpiry,
    pub return_previous: bool,
}

impl Default for SetOptions {
    fn default() -> (result: Self)
        ensures
            result == (SetOptions {
                condition: SetCondition::Always,
                expiry: SetExpiry::Persistent,
                return_previous: false,
            }),
    {
        SetOptions {
            condition: SetCondition::Always,
            expiry: SetExpiry::Persistent,
            return_previous: false,
        }
    }
}

/// Unit of a temporal operation, kept to validate it and to report errors.
#[derive(Clone, Copy, Debug, PartialEq, Eq, Structural)]
pub enum ExpiryUnit {
    Seconds,
    Milliseconds,
}

/// Operation on the binary fields and values of a hash.
#[derive(Clone, Debug, PartialEq, Eq)]
pub enum HashCommand {
    SetFields { entries: Vec<(Bytes, Bytes)> },
    Get { field: Bytes },
    Delete { fields: Vec<Bytes> },
    Exists { field: Bytes },
    Len,
    GetAll,
}

/// Operation on a list.
#[derive(Clone, Debug, PartialEq, Eq)]
pub enum ListCommand {
    Push { left: bool, values: Vec<Bytes> },
    Pop { left: bool },
    Len,
    Range { start: i64, stop: i64 },
}

/// Operation on an unordered set.
#[derive(Clone, Debug, PartialEq, Eq)]
pub enum SetCommand {
    Add { members: Vec<Bytes> },
    Remove { members: Vec<Bytes> },
    IsMember { member: Bytes },
    Card,
    Members,
}

/// Operation on a sorted set.
#[derive(Clone, Debug, PartialEq, Eq)]
pub enum SortedSetCommand {
    Add { entries: Vec<(Score, Bytes)> },
    Remove { members: Vec<Bytes> },
    Card,
    Score { member: Bytes },
    Range { start: i64, stop: i64, with_scores: bool },
}

/// Validated command, without channels or knowledge of the transport.
#[allow(inconsistent_fields)]
#[derive(Clone, Debug, PartialEq, Eq)]
pub enum Command {
    /// Operational diagnosis with a limited selection of sections.
    Info(InfoSections),
    SortedSet { key: Bytes, operation: SortedSetCommand },
    SetCollection { key: Bytes, operation: SetCommand },
    Hash { key: Bytes, operation: HashCommand },
    List { key: Bytes, operation: ListCommand },
    /// Answers PONG or gives the binary message back.
    Ping(Option<Bytes>),
    /// Gives exactly the payload back.
    Echo(Bytes),
    /// Reads the value of a key.
    Get { key: Bytes },
    /// Creates or replaces a persistent value.
    SetValue { key: Bytes, value: Bytes },
    /// Applies conditions, deadline and return of the previous value.
    SetWithOptions { key: Bytes, value: Bytes, options: SetOptions },
    /// Removes keys; duplicates are kept so that only real effects count.
    Del { keys: Vec<Bytes> },
    /// Counts every occurrence of an existing key.
    Exists { keys: Vec<Bytes> },
    /// Increments a decimal i64, which is zero before if absent.
    Incr { key: Bytes },
    /// Decrements a decimal i64.
    Decr { key: Bytes },
    /// Reads values in the order of the keys, duplicates included.
    MGet { keys: Vec<Bytes> },
    /// Applies an indivisible batch; the last pair of a key prevails.
    MSet { entries: Vec<(Bytes, Bytes)> },
    /// Sets a relative deadline; one that is not positive removes the key.
    Expire { key: Bytes, value: i64, unit: ExpiryUnit },
    /// Time left, or -1 (persistent) or -2 (absent).
    Ttl { key: Bytes, milliseconds: bool },
    /// Removes the deadline of an existing key.
    Persist { key: Bytes },
    /// Subscribes this connection to channels, outside storage.
    Subscribe { channels: Vec<Bytes> },
    /// Removes subscriptions; an empty list removes all of the connection.
    Unsubscribe { channels: Vec<Bytes> },
    /// Publishes a binary message without altering the dataset.
    Publish { channel: Bytes, message: Bytes },
    /// Starts a transactional queue that belongs to the connection.
    Multi,
    /// Executes the whole queue on its single shard.
    Exec,
    /// Discards the queue and its observations.
    Discard,
    /// Observes keys until EXEC, DISCARD, UNWATCH or the end.
    Watch { keys: Vec<Bytes> },
    /// Releases the observations of this connection.
    Unwatch,
}

impl Command {
    /// Whether the command belongs to those that change the dataset, whatever
    /// the dataset holds.
    pub open spec fn is_write(self) -> bool {
        match self {
            Command::SetValue { .. } => true,
            Command::SetWithOptions { .. } => true,
            Command::Del { .. } => true,
            Command::Incr { .. } => true,
            Command::Decr { .. } => true,
            Command::MSet { .. } => true,
            Command::Expire { .. } => true,
            Command::Persist { .. } => true,
            Command::Hash { operation, .. } => operation is SetFields || operation is Delete,
            Command::List { operation, .. } => operation is Push || operation is Pop,
            Command::SetCollection { operation, .. } => operation is Add || operation is Remove,
            Command::SortedSet { operation, .. } => operation is Add || operation is Remove,
            _ => false,
        }
    }

    /// The keys that the command names, in their order.
    pub open spec fn key_seq(self) -> Seq<Bytes> {
        match self {
            Command::Watch { keys } => keys@,
            Command::Get { key } => seq![key],
            Command::Hash { key, .. } => seq![key],
            Command::List { key, .. } => seq![key],
            Command::SetCollection { key, .. } => seq![key],
            Command::SortedSet { key, .. } => seq![key],
            Command::SetValue { key, .. } => seq![key],
            Command::SetWithOptions { key, .. } => seq![key],
            Command::Incr { key } => seq![key],
            Command::Decr { key } => seq![key],
            Command::Expire { key, .. } => seq![key],
            Command::Ttl { key, .. } => seq![key],
            Command::Persist { key } => seq![key],
            Command::Del { keys } => keys@,
            Command::Exists { keys } => keys@,
            Command::MGet { keys } => keys@,
            Command::MSet { entries } => entries@.map_values(|entry: (Bytes, Bytes)| entry.0),
            _ => Seq::empty(),
        }
    }

    /// Classification without consulting the dataset; conditions that would
    /// fail still count as writes.
    pub fn writes_dataset(&self) -> (result: bool)
        ensures
            result == self.is_write(),
    {
        match self {
            Command::SetValue { .. } => true,
            Command::SetWithOptions { .. } => true,
            Command::Del { .. } => true,
            Command::Incr { .. } => true,
            Command::Decr { .. } => true,
            Command::MSet { .. } => true,
            Command::Expire { .. } => true,
            Command::Persist { .. } => true,
            Command::Hash { operation, .. } => match operation {
                HashCommand::SetFields { .. } => true,
                HashCommand::Delete { .. } => true,
                _ => false,
            },
            Command::List { operation, .. } => match operation {
                ListCommand::Push { .. } => true,
                ListCommand::Pop { .. } => true,
                _ => false,
            },
            Command::SetCollection { operation, .. } => match operation {
                SetCommand::Add { .. } => true,
                SetCommand::Remove { .. } => true,
                _ => false,
            },
            Command::SortedSet { operation, .. } => match operation {
                SortedSetCommand::Add { .. } => true,
                SortedSetCommand::Remove { .. } => true,
                _ => false,
            },
            _ => false,
        }
    }

    /// Keys in their order, without confusing values with keys.
    pub fn visit_keys(&self) -> (result: Vec<&Bytes>)
        ensures
            result@.len() == self.key_seq().len(),
            forall|i: int| 0 <= i < result@.len() ==> *(#[trigger] result@[i])
                == self.key_seq()[i],
    {
        let mut result: Vec<&Bytes> = Vec::new();
        match self {
            Command::Get { key } => result.push(key),
            Command::Hash { key, .. } => result.push(key),
            Command::List { key, .. } => result.push(key),
            Command::SetCollection { key, .. } => result.push(key),
            Command::SortedSet { key, .. } => result.push(key),
            Command::SetValue { key, .. } => result.push(key),
            Command::SetWithOptions { key, .. } => result.push(key),
            Command::Incr { key } => result.push(key),
            Command::Decr { key } => result.push(key),
            Command::Expire { key, .. } => result.push(key),
            Command::Ttl { key, .. } => result.push(key),
            Command::Persist { key } => result.push(key),
            Command::Watch { keys } => return borrow_all(keys),
            Command::Del { keys } => return borrow_all(keys),
            Command::Exists { keys } => return borrow_all(keys),
            Command::MGet { keys } => return borrow_all(keys),
            Command::MSet { entries } => {
                let mut index: usize = 0;
                while index < entries.len()
                    invariant
                        index <= entries@.len(),
                        result@.len() == index,
                        forall|i: int| 0 <= i < index ==> *(#[trigger] result@[i])
                            == entries@[i].0,
                    decreases entries@.len() - index,
                {
                    result.push(&entries[index].0);
                    index += 1;
                }
            },
            _ => {},
        }
        result
    }
}

fn borrow_all(keys: &Vec<Bytes>) -> (result: Vec<&Bytes>)
    ensures
        result@.len() == keys@.len(),
        forall|i: int| 0 <= i < result@.len() ==> *(#[trigger] result@[i]) == keys@[i],
{
    let mut result: Vec<&Bytes> = Vec::new();
    let mut index: usize = 0;
    while index < keys.len()
        invariant
            index <= keys@.len(),
            result@.len() == index,
            forall|i: int| 0 <= i < index ==> *(#[trigger] result@[i]) == keys@[i],
        decreases keys@.len() - index,
    {
        result.push(&keys[index]);
        index += 1;
    }
    result
}

} // verus!
