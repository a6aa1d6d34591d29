//! The names of commands.

use super::verb::Verb;
use crate::buffer;
use crate::command::verb;
use vstd::prelude::*;
use vstd::string::*;

verus! {

/// A word as one number.
spec fn number(word: Seq<u8>) -> nat
    decreases word.len(),
{
    if word.len() == 0 {
        0
    } else {
        number(word.drop_last()) * 256 + word.last() as nat
    }
}

broadcast proof fn lemma_number_grows(word: Seq<u8>, byte: u8)
    ensures
        #[trigger] number(word.push(byte)) == number(word) * 256 + byte as nat,
{
    assert(word.push(byte).drop_last() =~= word);
}

/// The numbers of some names of commands.
proof fn lemma_numbers_a()
    ensures
        number("ping".spec_bytes()) == 1885957735,
        number("echo".spec_bytes()) == 1701013615,
        number("get".spec_bytes()) == 6776180,
        number("set".spec_bytes()) == 7562612,
        number("del".spec_bytes()) == 6579564,
        number("exists".spec_bytes()) == 111567839655027,
        number("mget".spec_bytes()) == 1835492724,
        number("incr".spec_bytes()) == 1768842098,
        number("decr".spec_bytes()) == 1684366194,
        number("mset".spec_bytes()) == 1836279156,
        number("expire".spec_bytes()) == 111567956439653,
        number("pexpire".spec_bytes()) == 31636765348033125,
{
    broadcast use {is_ascii_spec_bytes, lemma_number_grows};

    assert(number("ping".spec_bytes()) == 1885957735) by {
        reveal_strlit("ping");
        assert(is_ascii("ping"));
        assert("ping".spec_bytes() =~= Seq::<u8>::empty().push(112).push(105).push(110).push(103));
    }
    assert(number("echo".spec_bytes()) == 1701013615) by {
        reveal_strlit("echo");
        assert(is_ascii("echo"));
        assert("echo".spec_bytes() =~= Seq::<u8>::empty().push(101).push(99).push(104).push(111));
    }
    assert(number("get".spec_bytes()) == 6776180) by {
        reveal_strlit("get");
        assert(is_ascii("get"));
        assert("get".spec_bytes() =~= Seq::<u8>::empty().push(103).push(101).push(116));
    }
    assert(number("set".spec_bytes()) == 7562612) by {
        reveal_strlit("set");
        assert(is_ascii("set"));
        assert("set".spec_bytes() =~= Seq::<u8>::empty().push(115).push(101).push(116));
    }
    assert(number("del".spec_bytes()) == 6579564) by {
        reveal_strlit("del");
        assert(is_ascii("del"));
        assert("del".spec_bytes() =~= Seq::<u8>::empty().push(100).push(101).push(108));
    }
    assert(number("exists".spec_bytes()) == 111567839655027) by {
        reveal_strlit("exists");
        assert(is_ascii("exists"));
        assert("exists".spec_bytes() =~= Seq::<u8>::empty().push(101).push(120).push(105).push(115).push(116).push(115));
    }
    assert(number("mget".spec_bytes()) == 1835492724) by {
        reveal_strlit("mget");
        assert(is_ascii("mget"));
        assert("mget".spec_bytes() =~= Seq::<u8>::empty().push(109).push(103).push(101).push(116));
    }
    assert(number("incr".spec_bytes()) == 1768842098) by {
        reveal_strlit("incr");
        assert(is_ascii("incr"));
        assert("incr".spec_bytes() =~= Seq::<u8>::empty().push(105).push(110).push(99).push(114));
    }
    assert(number("decr".spec_bytes()) == 1684366194) by {
        reveal_strlit("decr");
        assert(is_ascii("decr"));
        assert("decr".spec_bytes() =~= Seq::<u8>::empty().push(100).push(101).push(99).push(114));
    }
    assert(number("mset".spec_bytes()) == 1836279156) by {
        reveal_strlit("mset");
        assert(is_ascii("mset"));
        assert("mset".spec_bytes() =~= Seq::<u8>::empty().push(109).push(115).push(101).push(116));
    }
    assert(number("expire".spec_bytes()) == 111567956439653) by {
        reveal_strlit("expire");
        assert(is_ascii("expire"));
        assert("expire".spec_bytes() =~= Seq::<u8>::empty().push(101).push(120).push(112).push(105).push(114).push(101));
    }
    assert(number("pexpire".spec_bytes()) == 31636765348033125) by {
        reveal_strlit("pexpire");
        assert(is_ascii("pexpire"));
        assert("pexpire".spec_bytes() =~= Seq::<u8>::empty().push(112).push(101).push(120).push(112).push(105).push(114).push(101));
    }
}

/// The numbers of some names of commands.
proof fn lemma_numbers_b()
    ensures
        number("ttl".spec_bytes()) == 7631980,
        number("pttl".spec_bytes()) == 1886680172,
        number("persist".spec_bytes()) == 31636739628561268,
        number("info".spec_bytes()) == 1768842863,
        number("subscribe".spec_bytes()) == 2129834018397712114277,
        number("unsubscribe".spec_bytes()) == 141965911042045672126243429,
        number("publish".spec_bytes()) == 31654262977688424,
        number("multi".spec_bytes()) == 470121477225,
        number("exec".spec_bytes()) == 1702389091,
        number("discard".spec_bytes()) == 28263441980551780,
        number("watch".spec_bytes()) == 512736125800,
        number("unwatch".spec_bytes()) == 33054031290327912,
{
    broadcast use {is_ascii_spec_bytes, lemma_number_grows};

    assert(number("ttl".spec_bytes()) == 7631980) by {
        reveal_strlit("ttl");
        assert(is_ascii("ttl"));
        assert("ttl".spec_bytes() =~= Seq::<u8>::empty().push(116).push(116).push(108));
    }
    assert(number("pttl".spec_bytes()) == 1886680172) by {
        reveal_strlit("pttl");
        assert(is_ascii("pttl"));
        assert("pttl".spec_bytes() =~= Seq::<u8>::empty().push(112).push(116).push(116).push(108));
    }
    assert(number("persist".spec_bytes()) == 31636739628561268) by {
        reveal_strlit("persist");
        assert(is_ascii("persist"));
        assert("persist".spec_bytes() =~= Seq::<u8>::empty().push(112).push(101).push(114).push(115).push(105).push(115).push(116));
    }
    assert(number("info".spec_bytes()) == 1768842863) by {
        reveal_strlit("info");
        assert(is_ascii("info"));
        assert("info".spec_bytes() =~= Seq::<u8>::empty().push(105).push(110).push(102).push(111));
    }
    assert(number("subscribe".spec_bytes()) == 2129834018397712114277) by {
        reveal_strlit("subscribe");
        assert(is_ascii("subscribe"));
        assert("subscribe".spec_bytes() =~= Seq::<u8>::empty().push(115).push(117).push(98).push(115).push(99).push(114).push(105).push(98).push(101));
    }
    assert(number("unsubscribe".spec_bytes()) == 141965911042045672126243429) by {
        reveal_strlit("unsubscribe");
        assert(is_ascii("unsubscribe"));
        assert("unsubscribe".spec_bytes() =~= Seq::<u8>::empty().push(117).push(110).push(115).push(117).push(98).push(115).push(99).push(114).push(105).push(98).push(101));
    }
    assert(number("publish".spec_bytes()) == 31654262977688424) by {
        reveal_strlit("publish");
        assert(is_ascii("publish"));
        assert("publish".spec_bytes() =~= Seq::<u8>::empty().push(112).push(117).push(98).push(108).push(105).push(115).push(104));
    }
    assert(number("multi".spec_bytes()) == 470121477225) by {
        reveal_strlit("multi");
        assert(is_ascii("multi"));
        assert("multi".spec_bytes() =~= Seq::<u8>::empty().push(109).push(117).push(108).push(116).push(105));
    }
    assert(number("exec".spec_bytes()) == 1702389091) by {
        reveal_strlit("exec");
        assert(is_ascii("exec"));
        assert("exec".spec_bytes() =~= Seq::<u8>::empty().push(101).push(120).push(101).push(99));
    }
    assert(number("discard".spec_bytes()) == 28263441980551780) by {
        reveal_strlit("discard");
        assert(is_ascii("discard"));
        assert("discard".spec_bytes() =~= Seq::<u8>::empty().push(100).push(105).push(115).push(99).push(97).push(114).push(100));
    }
    assert(number("watch".spec_bytes()) == 512736125800) by {
        reveal_strlit("watch");
        assert(is_ascii("watch"));
        assert("watch".spec_bytes() =~= Seq::<u8>::empty().push(119).push(97).push(116).push(99).push(104));
    }
    assert(number("unwatch".spec_bytes()) == 33054031290327912) by {
        reveal_strlit("unwatch");
        assert(is_ascii("unwatch"));
        assert("unwatch".spec_bytes() =~= Seq::<u8>::empty().push(117).push(110).push(119).push(97).push(116).push(99).push(104));
    }
}

/// The numbers of some names of commands.
proof fn lemma_numbers_c()
    ensures
        number("hset".spec_bytes()) == 1752393076,
        number("hget".spec_bytes()) == 1751606644,
        number("hdel".spec_bytes()) == 1751410028,
        number("hexists".spec_bytes()) == 29384965417563251,
        number("hlen".spec_bytes()) == 1751934318,
        number("hgetall".spec_bytes()) == 29387083019807852,
        number("lpush".spec_bytes()) == 465743213416,
        number("rpush".spec_bytes()) == 491513017192,
        number("lpop".spec_bytes()) == 1819307888,
        number("rpop".spec_bytes()) == 1919971184,
        number("llen".spec_bytes()) == 1819043182,
        number("lrange".spec_bytes()) == 119238516696933,
{
    broadcast use {is_ascii_spec_bytes, lemma_number_grows};

    assert(number("hset".spec_bytes()) == 1752393076) by {
        reveal_strlit("hset");
        assert(is_ascii("hset"));
        assert("hset".spec_bytes() =~= Seq::<u8>::empty().push(104).push(115).push(101).push(116));
    }
    assert(number("hget".spec_bytes()) == 1751606644) by {
        reveal_strlit("hget");
        assert(is_ascii("hget"));
        assert("hget".spec_bytes() =~= Seq::<u8>::empty().push(104).push(103).push(101).push(116));
    }
    assert(number("hdel".spec_bytes()) == 1751410028) by {
        reveal_strlit("hdel");
        assert(is_ascii("hdel"));
        assert("hdel".spec_bytes() =~= Seq::<u8>::empty().push(104).push(100).push(101).push(108));
    }
    assert(number("hexists".spec_bytes()) == 29384965417563251) by {
        reveal_strlit("hexists");
        assert(is_ascii("hexists"));
        assert("hexists".spec_bytes() =~= Seq::<u8>::empty().push(104).push(101).push(120).push(105).push(115).push(116).push(115));
    }
    assert(number("hlen".spec_bytes()) == 1751934318) by {
        reveal_strlit("hlen");
        assert(is_ascii("hlen"));
        assert("hlen".spec_bytes() =~= Seq::<u8>::empty().push(104).push(108).push(101).push(110));
    }
    assert(number("hgetall".spec_bytes()) == 29387083019807852) by {
        reveal_strlit("hgetall");
        assert(is_ascii("hgetall"));
        assert("hgetall".spec_bytes() =~= Seq::<u8>::empty().push(104).push(103).push(101).push(116).push(97).push(108).push(108));
    }
    assert(number("lpush".spec_bytes()) == 465743213416) by {
        reveal_strlit("lpush");
        assert(is_ascii("lpush"));
        assert("lpush".spec_bytes() =~= Seq::<u8>::empty().push(108).push(112).push(117).push(115).push(104));
    }
    assert(number("rpush".spec_bytes()) == 491513017192) by {
        reveal_strlit("rpush");
        assert(is_ascii("rpush"));
        assert("rpush".spec_bytes() =~= Seq::<u8>::empty().push(114).push(112).push(117).push(115).push(104));
    }
    assert(number("lpop".spec_bytes()) == 1819307888) by {
        reveal_strlit("lpop");
        assert(is_ascii("lpop"));
        assert("lpop".spec_bytes() =~= Seq::<u8>::empty().push(108).push(112).push(111).push(112));
    }
    assert(number("rpop".spec_bytes()) == 1919971184) by {
        reveal_strlit("rpop");
        assert(is_ascii("rpop"));
        assert("rpop".spec_bytes() =~= Seq::<u8>::empty().push(114).push(112).push(111).push(112));
    }
    assert(number("llen".spec_bytes()) == 1819043182) by {
        reveal_strlit("llen");
        assert(is_ascii("llen"));
        assert("llen".spec_bytes() =~= Seq::<u8>::empty().push(108).push(108).push(101).push(110));
    }
    assert(number("lrange".spec_bytes()) == 119238516696933) by {
        reveal_strlit("lrange");
        assert(is_ascii("lrange"));
        assert("lrange".spec_bytes() =~= Seq::<u8>::empty().push(108).push(114).push(97).push(110).push(103).push(101));
    }
}

/// The numbers of some names of commands.
proof fn lemma_numbers_d()
    ensures
        number("sadd".spec_bytes()) == 1935762532,
        number("srem".spec_bytes()) == 1936876909,
        number("sismember".spec_bytes()) == 2128974105755296884082,
        number("scard".spec_bytes()) == 495588569700,
        number("smembers".spec_bytes()) == 8317415607299830387,
        number("zadd".spec_bytes()) == 2053203044,
        number("zrem".spec_bytes()) == 2054317421,
        number("zcard".spec_bytes()) == 525653340772,
        number("zscore".spec_bytes()) == 134636008075877,
        number("zrange".spec_bytes()) == 134631679485797,
{
    broadcast use {is_ascii_spec_bytes, lemma_number_grows};

    assert(number("sadd".spec_bytes()) == 1935762532) by {
        reveal_strlit("sadd");
        assert(is_ascii("sadd"));
        assert("sadd".spec_bytes() =~= Seq::<u8>::empty().push(115).push(97).push(100).push(100));
    }
    assert(number("srem".spec_bytes()) == 1936876909) by {
        reveal_strlit("srem");
        assert(is_ascii("srem"));
        assert("srem".spec_bytes() =~= Seq::<u8>::empty().push(115).push(114).push(101).push(109));
    }
    assert(number("sismember".spec_bytes()) == 2128974105755296884082) by {
        reveal_strlit("sismember");
        assert(is_ascii("sismember"));
        assert("sismember".spec_bytes() =~= Seq::<u8>::empty().push(115).push(105).push(115).push(109).push(101).push(109).push(98).push(101).push(114));
    }
    assert(number("scard".spec_bytes()) == 495588569700) by {
        reveal_strlit("scard");
        assert(is_ascii("scard"));
        assert("scard".spec_bytes() =~= Seq::<u8>::empty().push(115).push(99).push(97).push(114).push(100));
    }
    assert(number("smembers".spec_bytes()) == 8317415607299830387) by {
        reveal_strlit("smembers");
        assert(is_ascii("smembers"));
        assert("smembers".spec_bytes() =~= Seq::<u8>::empty().push(115).push(109).push(101).push(109).push(98).push(101).push(114).push(115));
    }
    assert(number("zadd".spec_bytes()) == 2053203044) by {
        reveal_strlit("zadd");
        assert(is_ascii("zadd"));
        assert("zadd".spec_bytes() =~= Seq::<u8>::empty().push(122).push(97).push(100).push(100));
    }
    assert(number("zrem".spec_bytes()) == 2054317421) by {
        reveal_strlit("zrem");
        assert(is_ascii("zrem"));
        assert("zrem".spec_bytes() =~= Seq::<u8>::empty().push(122).push(114).push(101).push(109));
    }
    assert(number("zcard".spec_bytes()) == 525653340772) by {
        reveal_strlit("zcard");
        assert(is_ascii("zcard"));
        assert("zcard".spec_bytes() =~= Seq::<u8>::empty().push(122).push(99).push(97).push(114).push(100));
    }
    assert(number("zscore".spec_bytes()) == 134636008075877) by {
        reveal_strlit("zscore");
        assert(is_ascii("zscore"));
        assert("zscore".spec_bytes() =~= Seq::<u8>::empty().push(122).push(115).push(99).push(111).push(114).push(101));
    }
    assert(number("zrange".spec_bytes()) == 134631679485797) by {
        reveal_strlit("zrange");
        assert(is_ascii("zrange"));
        assert("zrange".spec_bytes() =~= Seq::<u8>::empty().push(122).push(114).push(97).push(110).push(103).push(101));
    }
}

/// Every command is known by its name, whatever the case of the letters.
pub proof fn law_commands_are_known_by_name(name: Seq<u8>)
    ensures
        verb::verb_of(name) == Some(Verb::Ping) <==> buffer::lower(name) == "ping".spec_bytes(),
        verb::verb_of(name) == Some(Verb::Echo) <==> buffer::lower(name) == "echo".spec_bytes(),
        verb::verb_of(name) == Some(Verb::Get) <==> buffer::lower(name) == "get".spec_bytes(),
        verb::verb_of(name) == Some(Verb::SetValue) <==> buffer::lower(name) == "set".spec_bytes(),
        verb::verb_of(name) == Some(Verb::Del) <==> buffer::lower(name) == "del".spec_bytes(),
        verb::verb_of(name) == Some(Verb::Exists) <==> buffer::lower(name) == "exists".spec_bytes(),
        verb::verb_of(name) == Some(Verb::MGet) <==> buffer::lower(name) == "mget".spec_bytes(),
        verb::verb_of(name) == Some(Verb::Incr) <==> buffer::lower(name) == "incr".spec_bytes(),
        verb::verb_of(name) == Some(Verb::Decr) <==> buffer::lower(name) == "decr".spec_bytes(),
        verb::verb_of(name) == Some(Verb::MSet) <==> buffer::lower(name) == "mset".spec_bytes(),
        verb::verb_of(name) == Some(Verb::Expire) <==> buffer::lower(name) == "expire".spec_bytes(),
        verb::verb_of(name) == Some(Verb::PExpire) <==> buffer::lower(name) == "pexpire".spec_bytes(),
        verb::verb_of(name) == Some(Verb::Ttl) <==> buffer::lower(name) == "ttl".spec_bytes(),
        verb::verb_of(name) == Some(Verb::PTtl) <==> buffer::lower(name) == "pttl".spec_bytes(),
        verb::verb_of(name) == Some(Verb::Persist) <==> buffer::lower(name) == "persist".spec_bytes(),
        verb::verb_of(name) == Some(Verb::Info) <==> buffer::lower(name) == "info".spec_bytes(),
        verb::verb_of(name) == Some(Verb::Subscribe) <==> buffer::lower(name) == "subscribe".spec_bytes(),
        verb::verb_of(name) == Some(Verb::Unsubscribe) <==> buffer::lower(name) == "unsubscribe".spec_bytes(),
        verb::verb_of(name) == Some(Verb::Publish) <==> buffer::lower(name) == "publish".spec_bytes(),
        verb::verb_of(name) == Some(Verb::Multi) <==> buffer::lower(name) == "multi".spec_bytes(),
        verb::verb_of(name) == Some(Verb::Exec) <==> buffer::lower(name) == "exec".spec_bytes(),
        verb::verb_of(name) == Some(Verb::Discard) <==> buffer::lower(name) == "discard".spec_bytes(),
        verb::verb_of(name) == Some(Verb::Watch) <==> buffer::lower(name) == "watch".spec_bytes(),
        verb::verb_of(name) == Some(Verb::Unwatch) <==> buffer::lower(name) == "unwatch".spec_bytes(),
        verb::verb_of(name) == Some(Verb::HSet) <==> buffer::lower(name) == "hset".spec_bytes(),
        verb::verb_of(name) == Some(Verb::HGet) <==> buffer::lower(name) == "hget".spec_bytes(),
        verb::verb_of(name) == Some(Verb::HDel) <==> buffer::lower(name) == "hdel".spec_bytes(),
        verb::verb_of(name) == Some(Verb::HExists) <==> buffer::lower(name) == "hexists".spec_bytes(),
        verb::verb_of(name) == Some(Verb::HLen) <==> buffer::lower(name) == "hlen".spec_bytes(),
        verb::verb_of(name) == Some(Verb::HGetAll) <==> buffer::lower(name) == "hgetall".spec_bytes(),
        verb::verb_of(name) == Some(Verb::LPush) <==> buffer::lower(name) == "lpush".spec_bytes(),
        verb::verb_of(name) == Some(Verb::RPush) <==> buffer::lower(name) == "rpush".spec_bytes(),
        verb::verb_of(name) == Some(Verb::LPop) <==> buffer::lower(name) == "lpop".spec_bytes(),
        verb::verb_of(name) == Some(Verb::RPop) <==> buffer::lower(name) == "rpop".spec_bytes(),
        verb::verb_of(name) == Some(Verb::LLen) <==> buffer::lower(name) == "llen".spec_bytes(),
        verb::verb_of(name) == Some(Verb::LRange) <==> buffer::lower(name) == "lrange".spec_bytes(),
        verb::verb_of(name) == Some(Verb::SAdd) <==> buffer::lower(name) == "sadd".spec_bytes(),
        verb::verb_of(name) == Some(Verb::SRem) <==> buffer::lower(name) == "srem".spec_bytes(),
        verb::verb_of(name) == Some(Verb::SIsMember) <==> buffer::lower(name) == "sismember".spec_bytes(),
        verb::verb_of(name) == Some(Verb::SCard) <==> buffer::lower(name) == "scard".spec_bytes(),
        verb::verb_of(name) == Some(Verb::SMembers) <==> buffer::lower(name) == "smembers".spec_bytes(),
        verb::verb_of(name) == Some(Verb::ZAdd) <==> buffer::lower(name) == "zadd".spec_bytes(),
        verb::verb_of(name) == Some(Verb::ZRem) <==> buffer::lower(name) == "zrem".spec_bytes(),
        verb::verb_of(name) == Some(Verb::ZCard) <==> buffer::lower(name) == "zcard".spec_bytes(),
        verb::verb_of(name) == Some(Verb::ZScore) <==> buffer::lower(name) == "zscore".spec_bytes(),
        verb::verb_of(name) == Some(Verb::ZRange) <==> buffer::lower(name) == "zrange".spec_bytes(),
{
    lemma_numbers_a();
    lemma_numbers_b();
    lemma_numbers_c();
    lemma_numbers_d();
}

} // verus!
