//! Names of commands, and how many arguments each of them takes.

use crate::buffer::is_word;
use crate::buffer;
use vstd::prelude::*;
use vstd::string::*;

verus! {

/// What a request is about.
#[derive(Clone, Copy, Debug, PartialEq, Eq, Structural)]
pub enum Verb {
    Ping,
    Echo,
    Get,
    SetValue,
    Del,
    Exists,
    MGet,
    Incr,
    Decr,
    MSet,
    Expire,
    PExpire,
    Ttl,
    PTtl,
    Persist,
    Info,
    Subscribe,
    Unsubscribe,
    Publish,
    Multi,
    Exec,
    Discard,
    Watch,
    Unwatch,
    HSet,
    HGet,
    HDel,
    HExists,
    HLen,
    HGetAll,
    LPush,
    RPush,
    LPop,
    RPop,
    LLen,
    LRange,
    SAdd,
    SRem,
    SIsMember,
    SCard,
    SMembers,
    ZAdd,
    ZRem,
    ZCard,
    ZScore,
    ZRange,
}

/// The command of this name, whatever the case of its letters.
pub open spec fn verb_of(name: Seq<u8>) -> Option<Verb> {
    let word = buffer::lower(name);
    if word == "ping".spec_bytes() {
        Some(Verb::Ping)
    } else if word == "echo".spec_bytes() {
        Some(Verb::Echo)
    } else if word == "get".spec_bytes() {
        Some(Verb::Get)
    } else if word == "set".spec_bytes() {
        Some(Verb::SetValue)
    } else if word == "del".spec_bytes() {
        Some(Verb::Del)
    } else if word == "exists".spec_bytes() {
        Some(Verb::Exists)
    } else if word == "mget".spec_bytes() {
        Some(Verb::MGet)
    } else if word == "incr".spec_bytes() {
        Some(Verb::Incr)
    } else if word == "decr".spec_bytes() {
        Some(Verb::Decr)
    } else if word == "mset".spec_bytes() {
        Some(Verb::MSet)
    } else if word == "expire".spec_bytes() {
        Some(Verb::Expire)
    } else if word == "pexpire".spec_bytes() {
        Some(Verb::PExpire)
    } else if word == "ttl".spec_bytes() {
        Some(Verb::Ttl)
    } else if word == "pttl".spec_bytes() {
        Some(Verb::PTtl)
    } else if word == "persist".spec_bytes() {
        Some(Verb::Persist)
    } else if word == "info".spec_bytes() {
        Some(Verb::Info)
    } else if word == "subscribe".spec_bytes() {
        Some(Verb::Subscribe)
    } else if word == "unsubscribe".spec_bytes() {
        Some(Verb::Unsubscribe)
    } else if word == "publish".spec_bytes() {
        Some(Verb::Publish)
    } else if word == "multi".spec_bytes() {
        Some(Verb::Multi)
    } else if word == "exec".spec_bytes() {
        Some(Verb::Exec)
    } else if word == "discard".spec_bytes() {
        Some(Verb::Discard)
    } else if word == "watch".spec_bytes() {
        Some(Verb::Watch)
    } else if word == "unwatch".spec_bytes() {
        Some(Verb::Unwatch)
    } else if word == "hset".spec_bytes() {
        Some(Verb::HSet)
    } else if word == "hget".spec_bytes() {
        Some(Verb::HGet)
    } else if word == "hdel".spec_bytes() {
        Some(Verb::HDel)
    } else if word == "hexists".spec_bytes() {
        Some(Verb::HExists)
    } else if word == "hlen".spec_bytes() {
        Some(Verb::HLen)
    } else if word == "hgetall".spec_bytes() {
        Some(Verb::HGetAll)
    } else if word == "lpush".spec_bytes() {
        Some(Verb::LPush)
    } else if word == "rpush".spec_bytes() {
        Some(Verb::RPush)
    } else if word == "lpop".spec_bytes() {
        Some(Verb::LPop)
    } else if word == "rpop".spec_bytes() {
        Some(Verb::RPop)
    } else if word == "llen".spec_bytes() {
        Some(Verb::LLen)
    } else if word == "lrange".spec_bytes() {
        Some(Verb::LRange)
    } else if word == "sadd".spec_bytes() {
        Some(Verb::SAdd)
    } else if word == "srem".spec_bytes() {
        Some(Verb::SRem)
    } else if word == "sismember".spec_bytes() {
        Some(Verb::SIsMember)
    } else if word == "scard".spec_bytes() {
        Some(Verb::SCard)
    } else if word == "smembers".spec_bytes() {
        Some(Verb::SMembers)
    } else if word == "zadd".spec_bytes() {
        Some(Verb::ZAdd)
    } else if word == "zrem".spec_bytes() {
        Some(Verb::ZRem)
    } else if word == "zcard".spec_bytes() {
        Some(Verb::ZCard)
    } else if word == "zscore".spec_bytes() {
        Some(Verb::ZScore)
    } else if word == "zrange".spec_bytes() {
        Some(Verb::ZRange)
    } else {
        None
    }
}

/// Finds the command of this name, whatever the case of its letters.
pub fn find_verb(name: &[u8]) -> (result: Option<Verb>)
    ensures
        result == verb_of(name@),
{
    if is_word(name, "ping") {
        Some(Verb::Ping)
    } else if is_word(name, "echo") {
        Some(Verb::Echo)
    } else if is_word(name, "get") {
        Some(Verb::Get)
    } else if is_word(name, "set") {
        Some(Verb::SetValue)
    } else if is_word(name, "del") {
        Some(Verb::Del)
    } else if is_word(name, "exists") {
        Some(Verb::Exists)
    } else if is_word(name, "mget") {
        Some(Verb::MGet)
    } else if is_word(name, "incr") {
        Some(Verb::Incr)
    } else if is_word(name, "decr") {
        Some(Verb::Decr)
    } else if is_word(name, "mset") {
        Some(Verb::MSet)
    } else if is_word(name, "expire") {
        Some(Verb::Expire)
    } else if is_word(name, "pexpire") {
        Some(Verb::PExpire)
    } else if is_word(name, "ttl") {
        Some(Verb::Ttl)
    } else if is_word(name, "pttl") {
        Some(Verb::PTtl)
    } else if is_word(name, "persist") {
        Some(Verb::Persist)
    } else if is_word(name, "info") {
        Some(Verb::Info)
    } else if is_word(name, "subscribe") {
        Some(Verb::Subscribe)
    } else if is_word(name, "unsubscribe") {
        Some(Verb::Unsubscribe)
    } else if is_word(name, "publish") {
        Some(Verb::Publish)
    } else if is_word(name, "multi") {
        Some(Verb::Multi)
    } else if is_word(name, "exec") {
        Some(Verb::Exec)
    } else if is_word(name, "discard") {
        Some(Verb::Discard)
    } else if is_word(name, "watch") {
        Some(Verb::Watch)
    } else if is_word(name, "unwatch") {
        Some(Verb::Unwatch)
    } else if is_word(name, "hset") {
        Some(Verb::HSet)
    } else if is_word(name, "hget") {
        Some(Verb::HGet)
    } else if is_word(name, "hdel") {
        Some(Verb::HDel)
    } else if is_word(name, "hexists") {
        Some(Verb::HExists)
    } else if is_word(name, "hlen") {
        Some(Verb::HLen)
    } else if is_word(name, "hgetall") {
        Some(Verb::HGetAll)
    } else if is_word(name, "lpush") {
        Some(Verb::LPush)
    } else if is_word(name, "rpush") {
        Some(Verb::RPush)
    } else if is_word(name, "lpop") {
        Some(Verb::LPop)
    } else if is_word(name, "rpop") {
        Some(Verb::RPop)
    } else if is_word(name, "llen") {
        Some(Verb::LLen)
    } else if is_word(name, "lrange") {
        Some(Verb::LRange)
    } else if is_word(name, "sadd") {
        Some(Verb::SAdd)
    } else if is_word(name, "srem") {
        Some(Verb::SRem)
    } else if is_word(name, "sismember") {
        Some(Verb::SIsMember)
    } else if is_word(name, "scard") {
        Some(Verb::SCard)
    } else if is_word(name, "smembers") {
        Some(Verb::SMembers)
    } else if is_word(name, "zadd") {
        Some(Verb::ZAdd)
    } else if is_word(name, "zrem") {
        Some(Verb::ZRem)
    } else if is_word(name, "zcard") {
        Some(Verb::ZCard)
    } else if is_word(name, "zscore") {
        Some(Verb::ZScore)
    } else if is_word(name, "zrange") {
        Some(Verb::ZRange)
    } else {
        None
    }
}

impl Verb {
    /// Name used in replies about the command.
    pub open spec fn canonical(self) -> &'static str {
        match self {
            Verb::Ping => "ping",
            Verb::Echo => "echo",
            Verb::Get => "get",
            Verb::SetValue => "set",
            Verb::Del => "del",
            Verb::Exists => "exists",
            Verb::MGet => "mget",
            Verb::Incr => "incr",
            Verb::Decr => "decr",
            Verb::MSet => "mset",
            Verb::Expire => "expire",
            Verb::PExpire => "pexpire",
            Verb::Ttl => "ttl",
            Verb::PTtl => "pttl",
            Verb::Persist => "persist",
            Verb::Info => "info",
            Verb::Subscribe => "subscribe",
            Verb::Unsubscribe => "unsubscribe",
            Verb::Publish => "publish",
            Verb::Multi => "multi",
            Verb::Exec => "exec",
            Verb::Discard => "discard",
            Verb::Watch => "watch",
            Verb::Unwatch => "unwatch",
            Verb::HSet => "hset",
            Verb::HGet => "hget",
            Verb::HDel => "hdel",
            Verb::HExists => "hexists",
            Verb::HLen => "hlen",
            Verb::HGetAll => "hgetall",
            Verb::LPush => "lpush",
            Verb::RPush => "rpush",
            Verb::LPop => "lpop",
            Verb::RPop => "rpop",
            Verb::LLen => "llen",
            Verb::LRange => "lrange",
            Verb::SAdd => "sadd",
            Verb::SRem => "srem",
            Verb::SIsMember => "sismember",
            Verb::SCard => "scard",
            Verb::SMembers => "smembers",
            Verb::ZAdd => "zadd",
            Verb::ZRem => "zrem",
            Verb::ZCard => "zcard",
            Verb::ZScore => "zscore",
            Verb::ZRange => "zrange",
        }
    }

    /// Whether the command takes this many arguments.
    pub open spec fn takes(self, count: nat) -> bool {
        match self {
            Verb::Ping => count <= 1,
            Verb::Echo => count == 1,
            Verb::Get => count == 1,
            Verb::SetValue => count >= 2,
            Verb::Del => count >= 1,
            Verb::Exists => count >= 1,
            Verb::MGet => count >= 1,
            Verb::Incr => count == 1,
            Verb::Decr => count == 1,
            Verb::MSet => count >= 1 && count % 2 == 0,
            Verb::Expire => count == 2,
            Verb::PExpire => count == 2,
            Verb::Ttl => count == 1,
            Verb::PTtl => count == 1,
            Verb::Persist => count == 1,
            Verb::Info => true,
            Verb::Subscribe => count >= 1,
            Verb::Unsubscribe => true,
            Verb::Publish => count == 2,
            Verb::Multi => count == 0,
            Verb::Exec => count == 0,
            Verb::Discard => count == 0,
            Verb::Watch => count >= 1,
            Verb::Unwatch => count == 0,
            Verb::HSet => count >= 3 && count % 2 == 1,
            Verb::HGet => count == 2,
            Verb::HDel => count >= 2,
            Verb::HExists => count == 2,
            Verb::HLen => count == 1,
            Verb::HGetAll => count == 1,
            Verb::LPush => count >= 2,
            Verb::RPush => count >= 2,
            Verb::LPop => count == 1,
            Verb::RPop => count == 1,
            Verb::LLen => count == 1,
            Verb::LRange => count == 3,
            Verb::SAdd => count >= 2,
            Verb::SRem => count >= 2,
            Verb::SIsMember => count == 2,
            Verb::SCard => count == 1,
            Verb::SMembers => count == 1,
            Verb::ZAdd => count >= 3,
            Verb::ZRem => count >= 2,
            Verb::ZCard => count == 1,
            Verb::ZScore => count == 2,
            Verb::ZRange => count >= 3,
        }
    }

    /// Name used in replies about the command.
    pub fn name(self) -> (result: &'static str)
        ensures
            result == self.canonical(),
    {
        match self {
            Verb::Ping => "ping",
            Verb::Echo => "echo",
            Verb::Get => "get",
            Verb::SetValue => "set",
            Verb::Del => "del",
            Verb::Exists => "exists",
            Verb::MGet => "mget",
            Verb::Incr => "incr",
            Verb::Decr => "decr",
            Verb::MSet => "mset",
            Verb::Expire => "expire",
            Verb::PExpire => "pexpire",
            Verb::Ttl => "ttl",
            Verb::PTtl => "pttl",
            Verb::Persist => "persist",
            Verb::Info => "info",
            Verb::Subscribe => "subscribe",
            Verb::Unsubscribe => "unsubscribe",
            Verb::Publish => "publish",
            Verb::Multi => "multi",
            Verb::Exec => "exec",
            Verb::Discard => "discard",
            Verb::Watch => "watch",
            Verb::Unwatch => "unwatch",
            Verb::HSet => "hset",
            Verb::HGet => "hget",
            Verb::HDel => "hdel",
            Verb::HExists => "hexists",
            Verb::HLen => "hlen",
            Verb::HGetAll => "hgetall",
            Verb::LPush => "lpush",
            Verb::RPush => "rpush",
            Verb::LPop => "lpop",
            Verb::RPop => "rpop",
            Verb::LLen => "llen",
            Verb::LRange => "lrange",
            Verb::SAdd => "sadd",
            Verb::SRem => "srem",
            Verb::SIsMember => "sismember",
            Verb::SCard => "scard",
            Verb::SMembers => "smembers",
            Verb::ZAdd => "zadd",
            Verb::ZRem => "zrem",
            Verb::ZCard => "zcard",
            Verb::ZScore => "zscore",
            Verb::ZRange => "zrange",
        }
    }

    /// Whether the command takes this many arguments.
    pub fn accepts(self, count: usize) -> (result: bool)
        ensures
            result == self.takes(count as nat),
    {
        match self {
            Verb::Ping => count <= 1,
            Verb::Echo => count == 1,
            Verb::Get => count == 1,
            Verb::SetValue => count >= 2,
            Verb::Del => count >= 1,
            Verb::Exists => count >= 1,
            Verb::MGet => count >= 1,
            Verb::Incr => count == 1,
            Verb::Decr => count == 1,
            Verb::MSet => count >= 1 && count % 2 == 0,
            Verb::Expire => count == 2,
            Verb::PExpire => count == 2,
            Verb::Ttl => count == 1,
            Verb::PTtl => count == 1,
            Verb::Persist => count == 1,
            Verb::Info => true,
            Verb::Subscribe => count >= 1,
            Verb::Unsubscribe => true,
            Verb::Publish => count == 2,
            Verb::Multi => count == 0,
            Verb::Exec => count == 0,
            Verb::Discard => count == 0,
            Verb::Watch => count >= 1,
            Verb::Unwatch => count == 0,
            Verb::HSet => count >= 3 && count % 2 == 1,
            Verb::HGet => count == 2,
            Verb::HDel => count >= 2,
            Verb::HExists => count == 2,
            Verb::HLen => count == 1,
            Verb::HGetAll => count == 1,
            Verb::LPush => count >= 2,
            Verb::RPush => count >= 2,
            Verb::LPop => count == 1,
            Verb::RPop => count == 1,
            Verb::LLen => count == 1,
            Verb::LRange => count == 3,
            Verb::SAdd => count >= 2,
            Verb::SRem => count >= 2,
            Verb::SIsMember => count == 2,
            Verb::SCard => count == 1,
            Verb::SMembers => count == 1,
            Verb::ZAdd => count >= 3,
            Verb::ZRem => count >= 2,
            Verb::ZCard => count == 1,
            Verb::ZScore => count == 2,
            Verb::ZRange => count >= 3,
        }
    }
}

} // verus!
