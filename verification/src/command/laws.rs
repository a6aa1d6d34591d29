//! What requests mean, told by their words.

use super::parser::{RequestError, SetDraft};
use super::score::Score;
use super::verb::Verb;
use super::types::{
    Command, ExpiryUnit, HashCommand, ListCommand, SetCommand, SetCondition, SetExpiry, SetOptions,
    SortedSetCommand,
};
use crate::buffer;
use crate::command::info;
use crate::command::parser;
use crate::command::verb;
use crate::numbers;
use crate::storage::expiry_laws;
use crate::storage::model::{Dataset, Moment};
use crate::storage::string_laws;
use bytes::Bytes;
use vstd::prelude::*;
use vstd::string::*;

verus! {

/// Requests about one key name it and nothing else.
pub proof fn law_requests_on_one_key(
    verb: Verb,
    args: Seq<Bytes>,
    scores: Seq<Option<Score>>,
    result: Result<Command, RequestError>,
)
    requires
        parser::meant(verb, args, scores, result),
    ensures
        verb == Verb::Get ==> result == if args.len() == 1 {
            Ok::<Command, RequestError>(Command::Get { key: args[0] })
        } else {
            Err(RequestError::WrongArity("get"))
        },
        verb == Verb::Incr ==> result == if args.len() == 1 {
            Ok::<Command, RequestError>(Command::Incr { key: args[0] })
        } else {
            Err(RequestError::WrongArity("incr"))
        },
        verb == Verb::Decr ==> result == if args.len() == 1 {
            Ok::<Command, RequestError>(Command::Decr { key: args[0] })
        } else {
            Err(RequestError::WrongArity("decr"))
        },
        verb == Verb::Ttl ==> result == if args.len() == 1 {
            Ok::<Command, RequestError>(Command::Ttl { key: args[0], milliseconds: false })
        } else {
            Err(RequestError::WrongArity("ttl"))
        },
        verb == Verb::PTtl ==> result == if args.len() == 1 {
            Ok::<Command, RequestError>(Command::Ttl { key: args[0], milliseconds: true })
        } else {
            Err(RequestError::WrongArity("pttl"))
        },
        verb == Verb::Persist ==> result == if args.len() == 1 {
            Ok::<Command, RequestError>(Command::Persist { key: args[0] })
        } else {
            Err(RequestError::WrongArity("persist"))
        },
        verb == Verb::Echo ==> result == if args.len() == 1 {
            Ok::<Command, RequestError>(Command::Echo(args[0]))
        } else {
            Err(RequestError::WrongArity("echo"))
        },
        verb == Verb::Publish ==> result == if args.len() == 2 {
            Ok::<Command, RequestError>(Command::Publish { channel: args[0], message: args[1] })
        } else {
            Err(RequestError::WrongArity("publish"))
        },
        verb == Verb::Ping ==> result == if args.len() == 0 {
            Ok::<Command, RequestError>(Command::Ping(None))
        } else if args.len() == 1 {
            Ok(Command::Ping(Some(args[0])))
        } else {
            Err(RequestError::WrongArity("ping"))
        },
{
}

/// Requests that open, end or leave a transaction are one word.
pub proof fn law_requests_of_a_transaction(
    verb: Verb,
    args: Seq<Bytes>,
    scores: Seq<Option<Score>>,
    result: Result<Command, RequestError>,
)
    requires
        parser::meant(verb, args, scores, result),
    ensures
        verb == Verb::Multi ==> result == if args.len() == 0 {
            Ok::<Command, RequestError>(Command::Multi)
        } else {
            Err(RequestError::WrongArity("multi"))
        },
        verb == Verb::Exec ==> result == if args.len() == 0 {
            Ok::<Command, RequestError>(Command::Exec)
        } else {
            Err(RequestError::WrongArity("exec"))
        },
        verb == Verb::Discard ==> result == if args.len() == 0 {
            Ok::<Command, RequestError>(Command::Discard)
        } else {
            Err(RequestError::WrongArity("discard"))
        },
        verb == Verb::Unwatch ==> result == if args.len() == 0 {
            Ok::<Command, RequestError>(Command::Unwatch)
        } else {
            Err(RequestError::WrongArity("unwatch"))
        },
        verb == Verb::Watch ==> if args.len() >= 1 {
            result matches Ok(Command::Watch { keys }) && keys@ == args
        } else {
            result == Err::<Command, RequestError>(RequestError::WrongArity("watch"))
        },
{
}

/// Requests about several keys or channels name all of them, in their order.
pub proof fn law_requests_on_many_keys(
    verb: Verb,
    args: Seq<Bytes>,
    scores: Seq<Option<Score>>,
    result: Result<Command, RequestError>,
)
    requires
        parser::meant(verb, args, scores, result),
    ensures
        verb == Verb::Del ==> if args.len() >= 1 {
            result matches Ok(Command::Del { keys }) && keys@ == args
        } else {
            result == Err::<Command, RequestError>(RequestError::WrongArity("del"))
        },
        verb == Verb::Exists ==> if args.len() >= 1 {
            result matches Ok(Command::Exists { keys }) && keys@ == args
        } else {
            result == Err::<Command, RequestError>(RequestError::WrongArity("exists"))
        },
        verb == Verb::MGet ==> if args.len() >= 1 {
            result matches Ok(Command::MGet { keys }) && keys@ == args
        } else {
            result == Err::<Command, RequestError>(RequestError::WrongArity("mget"))
        },
        verb == Verb::Subscribe ==> if args.len() >= 1 {
            result matches Ok(Command::Subscribe { channels }) && channels@ == args
        } else {
            result == Err::<Command, RequestError>(RequestError::WrongArity("subscribe"))
        },
        verb == Verb::Unsubscribe ==> (result matches Ok(Command::Unsubscribe { channels })
            && channels@ == args),
        verb == Verb::MSet ==> if args.len() >= 2 && args.len() % 2 == 0 {
            result matches Ok(Command::MSet { entries }) && args.len() == 2 * entries@.len()
                && forall|i: int|
                0 <= i < entries@.len() ==> (#[trigger] entries@[i]).0 == args[2 * i]
                    && entries@[i].1 == args[2 * i + 1]
        } else {
            result == Err::<Command, RequestError>(RequestError::WrongArity("mset"))
        },
{
}

/// Requests about hashes name the key and then the fields, each with its value where one
/// is set.
pub proof fn law_requests_on_hashes(
    verb: Verb,
    args: Seq<Bytes>,
    scores: Seq<Option<Score>>,
    result: Result<Command, RequestError>,
)
    requires
        parser::meant(verb, args, scores, result),
    ensures
        verb == Verb::HGet ==> result == if args.len() == 2 {
            Ok::<Command, RequestError>(Command::Hash { key: args[0], operation: HashCommand::Get { field: args[1] } })
        } else {
            Err(RequestError::WrongArity("hget"))
        },
        verb == Verb::HExists ==> result == if args.len() == 2 {
            Ok::<Command, RequestError>(Command::Hash { key: args[0], operation: HashCommand::Exists { field: args[1] } })
        } else {
            Err(RequestError::WrongArity("hexists"))
        },
        verb == Verb::HLen ==> result == if args.len() == 1 {
            Ok::<Command, RequestError>(Command::Hash { key: args[0], operation: HashCommand::Len })
        } else {
            Err(RequestError::WrongArity("hlen"))
        },
        verb == Verb::HGetAll ==> result == if args.len() == 1 {
            Ok::<Command, RequestError>(Command::Hash { key: args[0], operation: HashCommand::GetAll })
        } else {
            Err(RequestError::WrongArity("hgetall"))
        },
        verb == Verb::HDel ==> if args.len() >= 2 {
            result matches Ok(Command::Hash {
                key,
                operation: HashCommand::Delete { fields },
            }) && key == args[0] && fields@ == args.skip(1)
        } else {
            result == Err::<Command, RequestError>(RequestError::WrongArity("hdel"))
        },
        verb == Verb::HSet ==> if args.len() >= 3 && args.len() % 2 == 1 {
            result matches Ok(Command::Hash {
                key,
                operation: HashCommand::SetFields { entries },
            }) && key == args[0] && args.len() == 2 * entries@.len() + 1 && forall|i: int|
                0 <= i < entries@.len() ==> (#[trigger] entries@[i]).0 == args[2 * i + 1]
                    && entries@[i].1 == args[2 * i + 2]
        } else {
            result == Err::<Command, RequestError>(RequestError::WrongArity("hset"))
        },
{
}

/// Requests about sorted sets name the key and then the members; ZADD gives each of them
/// the score before it, and ZRANGE takes two ranks and asks for scores by a last word.
pub proof fn law_requests_on_sorted_sets(
    verb: Verb,
    args: Seq<Bytes>,
    scores: Seq<Option<Score>>,
    result: Result<Command, RequestError>,
)
    requires
        parser::meant(verb, args, scores, result),
    ensures
        verb == Verb::ZCard ==> result == if args.len() == 1 {
            Ok::<Command, RequestError>(Command::SortedSet { key: args[0], operation: SortedSetCommand::Card })
        } else {
            Err(RequestError::WrongArity("zcard"))
        },
        verb == Verb::ZScore ==> result == if args.len() == 2 {
            Ok::<Command, RequestError>(Command::SortedSet { key: args[0], operation: SortedSetCommand::Score { member: args[1] } })
        } else {
            Err(RequestError::WrongArity("zscore"))
        },
        verb == Verb::ZRem ==> if args.len() >= 2 {
            result matches Ok(Command::SortedSet {
                key,
                operation: SortedSetCommand::Remove { members },
            }) && key == args[0] && members@ == args.skip(1)
        } else {
            result == Err::<Command, RequestError>(RequestError::WrongArity("zrem"))
        },
        verb == Verb::ZAdd ==> if args.len() < 3 {
            result == Err::<Command, RequestError>(RequestError::WrongArity("zadd"))
        } else if args.len() % 2 == 0 {
            result == Err::<Command, RequestError>(RequestError::Syntax)
        } else if exists|i: int| 0 <= i < scores.len() && #[trigger] scores[i] is None {
            result == Err::<Command, RequestError>(RequestError::InvalidFloat)
        } else {
            result matches Ok(Command::SortedSet {
                key,
                operation: SortedSetCommand::Add { entries },
            }) && key == args[0] && entries@.len() == scores.len() && forall|i: int|
                0 <= i < entries@.len() ==> (#[trigger] entries@[i]).1 == args[2 * i + 2] && Some(
                    entries@[i].0,
                ) == scores[i]
        },
        verb == Verb::ZRange ==> {
            let start = numbers::canonical_value(buffer::bytes_content(args[1]));
            let stop = numbers::canonical_value(buffer::bytes_content(args[2]));
            let scored = args.len() == 4 && buffer::lower(buffer::bytes_content(args[3]))
                == "withscores".spec_bytes();
            if args.len() < 3 {
                result == Err::<Command, RequestError>(RequestError::WrongArity("zrange"))
            } else if start is None || stop is None {
                result == Err::<Command, RequestError>(RequestError::InvalidInteger)
            } else if args.len() > 3 && !scored {
                result == Err::<Command, RequestError>(RequestError::Syntax)
            } else {
                result == Ok::<Command, RequestError>(
                    Command::SortedSet {
                        key: args[0],
                        operation: SortedSetCommand::Range {
                            start: start->Some_0,
                            stop: stop->Some_0,
                            with_scores: scored,
                        },
                    },
                )
            }
        },
{
    if parser::all_scored(scores) {
    } else {
        let i = choose|i: int| 0 <= i < scores.len() && !(#[trigger] scores[i] is Some);
        assert(scores[i] is None);
    }
}

/// EXPIRE counts in seconds and PEXPIRE in milliseconds; both take a key and a whole
/// number, whose milliseconds a counter has to hold.
pub proof fn law_requests_about_time(
    verb: Verb,
    args: Seq<Bytes>,
    scores: Seq<Option<Score>>,
    result: Result<Command, RequestError>,
)
    requires
        parser::meant(verb, args, scores, result),
    ensures
        verb == Verb::Expire ==> result == if args.len() != 2 {
            Err::<Command, RequestError>(RequestError::WrongArity("expire"))
        } else {
            match numbers::canonical_value(buffer::bytes_content(args[1])) {
                None => Err(RequestError::InvalidInteger),
                Some(value) => if i64::MIN <= 1000 * value <= i64::MAX {
                    Ok(Command::Expire { key: args[0], value, unit: ExpiryUnit::Seconds })
                } else {
                    Err(RequestError::InvalidExpiry("expire"))
                },
            }
        },
        verb == Verb::PExpire ==> result == if args.len() != 2 {
            Err::<Command, RequestError>(RequestError::WrongArity("pexpire"))
        } else {
            match numbers::canonical_value(buffer::bytes_content(args[1])) {
                None => Err(RequestError::InvalidInteger),
                Some(value) => Ok(
                    Command::Expire { key: args[0], value, unit: ExpiryUnit::Milliseconds },
                ),
            }
        },
{
}

/// Requests about lists and sets name the key and then the values; the first letter of a
/// name tells the end of a list that is meant.
pub proof fn law_requests_on_lists_and_sets(
    verb: Verb,
    args: Seq<Bytes>,
    scores: Seq<Option<Score>>,
    result: Result<Command, RequestError>,
)
    requires
        parser::meant(verb, args, scores, result),
    ensures
        verb == Verb::LPop ==> result == if args.len() == 1 {
            Ok::<Command, RequestError>(Command::List { key: args[0], operation: ListCommand::Pop { left: true } })
        } else {
            Err(RequestError::WrongArity("lpop"))
        },
        verb == Verb::RPop ==> result == if args.len() == 1 {
            Ok::<Command, RequestError>(Command::List { key: args[0], operation: ListCommand::Pop { left: false } })
        } else {
            Err(RequestError::WrongArity("rpop"))
        },
        verb == Verb::LLen ==> result == if args.len() == 1 {
            Ok::<Command, RequestError>(Command::List { key: args[0], operation: ListCommand::Len })
        } else {
            Err(RequestError::WrongArity("llen"))
        },
        verb == Verb::LPush ==> if args.len() >= 2 {
            result matches Ok(Command::List {
                key,
                operation: ListCommand::Push { left, values },
            }) && key == args[0] && left && values@ == args.skip(1)
        } else {
            result == Err::<Command, RequestError>(RequestError::WrongArity("lpush"))
        },
        verb == Verb::RPush ==> if args.len() >= 2 {
            result matches Ok(Command::List {
                key,
                operation: ListCommand::Push { left, values },
            }) && key == args[0] && !left && values@ == args.skip(1)
        } else {
            result == Err::<Command, RequestError>(RequestError::WrongArity("rpush"))
        },
        verb == Verb::SIsMember ==> result == if args.len() == 2 {
            Ok::<Command, RequestError>(Command::SetCollection { key: args[0], operation: SetCommand::IsMember { member: args[1] } })
        } else {
            Err(RequestError::WrongArity("sismember"))
        },
        verb == Verb::SCard ==> result == if args.len() == 1 {
            Ok::<Command, RequestError>(Command::SetCollection { key: args[0], operation: SetCommand::Card })
        } else {
            Err(RequestError::WrongArity("scard"))
        },
        verb == Verb::SMembers ==> result == if args.len() == 1 {
            Ok::<Command, RequestError>(Command::SetCollection { key: args[0], operation: SetCommand::Members })
        } else {
            Err(RequestError::WrongArity("smembers"))
        },
        verb == Verb::SAdd ==> if args.len() >= 2 {
            result matches Ok(Command::SetCollection {
                key,
                operation: SetCommand::Add { members },
            }) && key == args[0] && members@ == args.skip(1)
        } else {
            result == Err::<Command, RequestError>(RequestError::WrongArity("sadd"))
        },
        verb == Verb::SRem ==> if args.len() >= 2 {
            result matches Ok(Command::SetCollection {
                key,
                operation: SetCommand::Remove { members },
            }) && key == args[0] && members@ == args.skip(1)
        } else {
            result == Err::<Command, RequestError>(RequestError::WrongArity("srem"))
        },
        verb == Verb::LRange ==> result == if args.len() != 3 {
            Err::<Command, RequestError>(RequestError::WrongArity("lrange"))
        } else {
            let start = numbers::canonical_value(buffer::bytes_content(args[1]));
            let stop = numbers::canonical_value(buffer::bytes_content(args[2]));
            if start is None || stop is None {
                Err(RequestError::InvalidInteger)
            } else {
                Ok(
                    Command::List {
                        key: args[0],
                        operation: ListCommand::Range { start: start->Some_0, stop: stop->Some_0 },
                    },
                )
            }
        },
{
}


/// Words that are no request, and names that no command has, are refused as such. All other
/// requests mean what the first word and the words behind it mean.
pub proof fn law_the_first_word_names_the_command(
    words: Option<Seq<Bytes>>,
    scores: Seq<Option<Score>>,
    result: Result<Command, RequestError>,
)
    requires
        parser::understood(words, scores, result),
        words matches Some(words) ==> words.len() > 0,
    ensures
        words is None ==> result == Err::<Command, RequestError>(RequestError::InvalidFormat),
        (words matches Some(words) && verb::verb_of(buffer::bytes_content(words[0])) is None)
            ==> result == Err::<Command, RequestError>(RequestError::UnknownCommand),
        words matches Some(words) ==> (verb::verb_of(buffer::bytes_content(words[0])) matches Some(
            verb,
        ) ==> parser::meant(verb, words.skip(1), scores, result)),
{
}

/// What the words have said when nothing is left of them.
spec fn blank() -> SetDraft {
    SetDraft {
        condition: SetCondition::Always,
        keep: false,
        return_previous: false,
        term: None,
        seconds: None,
    }
}

/// Words that were understood are understood the same way when more follow.
proof fn lemma_drafted(args: Seq<Bytes>, more: Seq<Bytes>, index: int, draft: SetDraft)
    requires
        0 <= index <= args.len(),
        parser::drafted(args, index, draft) is Ok,
    ensures
        parser::drafted(args + more, index, draft) == parser::drafted(
            args + more,
            args.len() as int,
            parser::drafted(args, index, draft)->Ok_0,
        ),
    decreases args.len() - index,
{
    let all = args + more;
    if index < args.len() {
        assert(all[index] == args[index]);
        let word = buffer::lower(buffer::bytes_content(args[index]));
        if word == "nx".spec_bytes() && draft.condition != SetCondition::Present {
            lemma_drafted(
                args,
                more,
                index + 1,
                SetDraft { condition: SetCondition::Missing, ..draft },
            );
        } else if word == "xx".spec_bytes() && draft.condition != SetCondition::Missing {
            lemma_drafted(
                args,
                more,
                index + 1,
                SetDraft { condition: SetCondition::Present, ..draft },
            );
        } else if word == "get".spec_bytes() {
            lemma_drafted(args, more, index + 1, SetDraft { return_previous: true, ..draft });
        } else if word == "keepttl".spec_bytes() && draft.term is None {
            lemma_drafted(args, more, index + 1, SetDraft { keep: true, ..draft });
        } else {
            let seconds = word == "ex".spec_bytes();
            assert(all[index + 1] == args[index + 1]);
            lemma_drafted(
                args,
                more,
                index + 2,
                SetDraft { seconds: Some(seconds), term: Some(args[index + 1]), ..draft },
            );
        }
    }
}

/// What a draft says is kept: a term has a unit, and excludes that the deadline is kept.
proof fn lemma_consistent(args: Seq<Bytes>, index: int, draft: SetDraft)
    requires
        0 <= index,
        parser::drafted(args, index, draft) is Ok,
        draft.term is Some == draft.seconds is Some,
        !(draft.term is Some && draft.keep),
    ensures
        ({
            let end = parser::drafted(args, index, draft)->Ok_0;
            &&& end.term is Some == end.seconds is Some
            &&& !(end.term is Some && end.keep)
        }),
    decreases args.len() - index,
{
    if index < args.len() {
        let word = buffer::lower(buffer::bytes_content(args[index]));
        if word == "nx".spec_bytes() && draft.condition != SetCondition::Present {
            lemma_consistent(args, index + 1, SetDraft { condition: SetCondition::Missing, ..draft });
        } else if word == "xx".spec_bytes() && draft.condition != SetCondition::Missing {
            lemma_consistent(args, index + 1, SetDraft { condition: SetCondition::Present, ..draft });
        } else if word == "get".spec_bytes() {
            lemma_consistent(args, index + 1, SetDraft { return_previous: true, ..draft });
        } else if word == "keepttl".spec_bytes() && draft.term is None {
            lemma_consistent(args, index + 1, SetDraft { keep: true, ..draft });
        } else {
            let seconds = word == "ex".spec_bytes();
            lemma_consistent(
                args,
                index + 2,
                SetDraft { seconds: Some(seconds), term: Some(args[index + 1]), ..draft },
            );
        }
    }
}

proof fn lemma_option_words()
    ensures
        "nx".spec_bytes() == seq![110u8, 120u8],
        "xx".spec_bytes() == seq![120u8, 120u8],
        "ex".spec_bytes() == seq![101u8, 120u8],
        "px".spec_bytes() == seq![112u8, 120u8],
        "get".spec_bytes() == seq![103u8, 101u8, 116u8],
        "keepttl".spec_bytes() == seq![107u8, 101u8, 101u8, 112u8, 116u8, 116u8, 108u8],
{
    broadcast use is_ascii_spec_bytes;

    reveal_strlit("nx");
    reveal_strlit("xx");
    reveal_strlit("ex");
    reveal_strlit("px");
    reveal_strlit("get");
    reveal_strlit("keepttl");
    assert(is_ascii("nx") && is_ascii("xx") && is_ascii("ex") && is_ascii("px"));
    assert(is_ascii("get") && is_ascii("keepttl"));
    assert("nx".spec_bytes() =~= seq![110u8, 120u8]);
    assert("xx".spec_bytes() =~= seq![120u8, 120u8]);
    assert("ex".spec_bytes() =~= seq![101u8, 120u8]);
    assert("px".spec_bytes() =~= seq![112u8, 120u8]);
    assert("get".spec_bytes() =~= seq![103u8, 101u8, 116u8]);
    assert("keepttl".spec_bytes() =~= seq![107u8, 101u8, 101u8, 112u8, 116u8, 116u8, 108u8]);
}

/// Whether a word is this one, in any case.
pub open spec fn says(word: Bytes, text: &str) -> bool {
    buffer::lower(buffer::bytes_content(word)) == text.spec_bytes()
}

/// SET without options always writes and sets no deadline.
pub proof fn law_no_options_are_the_plain_ones(words: Seq<Bytes>)
    requires
        words.len() == 0,
    ensures
        parser::set_options(words) == Ok::<SetOptions, RequestError>(
            SetOptions {
                condition: SetCondition::Always,
                expiry: SetExpiry::Persistent,
                return_previous: false,
            },
        ),
{
}

/// One more word behind options of SET adds what it says and changes nothing else: NX and
/// XX exclude one another, KEEPTTL excludes a time, and any other word is an error.
pub proof fn law_options_add_up(words: Seq<Bytes>, word: Bytes)
    requires
        parser::set_options(words) is Ok,
    ensures
        ({
            let before = parser::set_options(words)->Ok_0;
            let after = parser::set_options(words.push(word));
            &&& says(word, "nx") ==> after == if before.condition == SetCondition::Present {
                Err::<SetOptions, RequestError>(RequestError::Syntax)
            } else {
                Ok(SetOptions { condition: SetCondition::Missing, ..before })
            }
            &&& says(word, "xx") ==> after == if before.condition == SetCondition::Missing {
                Err::<SetOptions, RequestError>(RequestError::Syntax)
            } else {
                Ok(SetOptions { condition: SetCondition::Present, ..before })
            }
            &&& says(word, "get") ==> after == Ok::<SetOptions, RequestError>(
                SetOptions { return_previous: true, ..before },
            )
            &&& says(word, "keepttl") ==> after == if before.expiry is After {
                Err::<SetOptions, RequestError>(RequestError::Syntax)
            } else {
                Ok(SetOptions { expiry: SetExpiry::Keep, ..before })
            }
            &&& !says(word, "nx") && !says(word, "xx") && !says(word, "get") && !says(
                word,
                "keepttl",
            ) ==> after == Err::<SetOptions, RequestError>(RequestError::Syntax)
        }),
{
    let more = seq![word];
    let all = words + more;
    assert(words.push(word) =~= all);
    let draft = parser::drafted(words, 0, blank())->Ok_0;
    lemma_drafted(words, more, 0, blank());
    lemma_consistent(words, 0, blank());
    lemma_option_words();
    let text = buffer::lower(buffer::bytes_content(word));
    assert(all[words.len() as int] == word);
    assert(all.len() == words.len() + 1);
    let c0 = text[0];
    let c1 = text[1];
    reveal_with_fuel(parser::drafted, 2);
}

/// EX and PX behind options without a deadline give one: as many seconds, or milliseconds,
/// as the number says, which has to be positive and countable in milliseconds. Behind
/// KEEPTTL they are an error. Nothing else changes.
pub proof fn law_times_are_read_in_their_unit(words: Seq<Bytes>, unit: Bytes, term: Bytes)
    requires
        parser::set_options(words) is Ok,
        says(unit, "ex") || says(unit, "px"),
        !(parser::set_options(words)->Ok_0.expiry is After),
    ensures
        ({
            let before = parser::set_options(words)->Ok_0;
            let after = parser::set_options(words.push(unit).push(term));
            after == if before.expiry == SetExpiry::Keep {
                Err::<SetOptions, RequestError>(RequestError::Syntax)
            } else {
                match numbers::canonical_value(buffer::bytes_content(term)) {
                    None => Err(RequestError::InvalidInteger),
                    Some(value) => {
                        let time = if says(unit, "ex") {
                            1000 * value
                        } else {
                            value as int
                        };
                        if 0 < time <= i64::MAX {
                            Ok(SetOptions { expiry: SetExpiry::After(time as u64), ..before })
                        } else {
                            Err(RequestError::InvalidSetExpiry)
                        }
                    },
                }
            }
        }),
{
    let more = seq![unit, term];
    let all = words + more;
    assert(words.push(unit).push(term) =~= all);
    let draft = parser::drafted(words, 0, blank())->Ok_0;
    lemma_drafted(words, more, 0, blank());
    lemma_consistent(words, 0, blank());
    lemma_option_words();
    let text = buffer::lower(buffer::bytes_content(unit));
    assert(all[words.len() as int] == unit);
    assert(all[words.len() as int + 1] == term);
    assert(all.len() == words.len() + 2);
    let c0 = text[0];
    let c1 = text[1];
    reveal_with_fuel(parser::drafted, 2);
}

/// A later time behind an earlier one of the same unit replaces it.
pub proof fn law_the_last_time_counts(words: Seq<Bytes>, unit: Bytes, first: Bytes, second: Bytes)
    requires
        parser::set_options(words) is Ok,
        parser::set_options(words)->Ok_0.expiry is Persistent,
        says(unit, "ex") || says(unit, "px"),
    ensures
        parser::set_options(words.push(unit).push(first).push(unit).push(second))
            == parser::set_options(words.push(unit).push(second)),
{
    let more = seq![unit, first, unit, second];
    let less = seq![unit, second];
    let all = words + more;
    let short = words + less;
    assert(words.push(unit).push(first).push(unit).push(second) =~= all);
    assert(words.push(unit).push(second) =~= short);
    lemma_drafted(words, more, 0, blank());
    lemma_drafted(words, less, 0, blank());
    lemma_consistent(words, 0, blank());
    lemma_option_words();
    let text = buffer::lower(buffer::bytes_content(unit));
    let at = words.len() as int;
    assert(all[at] == unit && all[at + 1] == first && all[at + 2] == unit && all[at + 3] == second);
    assert(short[at] == unit && short[at + 1] == second);
    let c0 = text[0];
    let c1 = text[1];
    reveal_with_fuel(parser::drafted, 3);
}

/// What a SET request with options means: its key, its value, and the options that the other
/// words add up to.
pub proof fn law_set_requests(
    verb: Verb,
    args: Seq<Bytes>,
    scores: Seq<Option<Score>>,
    result: Result<Command, RequestError>,
)
    requires
        parser::meant(verb, args, scores, result),
        verb == Verb::SetValue,
    ensures
        result == if args.len() < 2 {
            Err::<Command, RequestError>(RequestError::WrongArity("set"))
        } else if args.len() == 2 {
            Ok(Command::SetValue { key: args[0], value: args[1] })
        } else {
            match parser::set_options(args.skip(2)) {
                Err(error) => Err(error),
                Ok(options) => Ok(
                    Command::SetWithOptions { key: args[0], value: args[1], options },
                ),
            }
        },
{
}

/// SET key value EX n leaves what SET key value and then EXPIRE key n leave; with PX and
/// PEXPIRE it is the same.
pub proof fn law_set_with_a_time_is_set_and_expire(
    expire: Verb,
    key: Bytes,
    value: Bytes,
    unit: Bytes,
    term: Bytes,
    at_once: Command,
    first: Command,
    second: Command,
    data: Dataset,
    moment: Moment,
)
    requires
        (says(unit, "ex") && expire == Verb::Expire) || (says(unit, "px") && expire
            == Verb::PExpire),
        parser::meant(Verb::SetValue, seq![key, value, unit, term], Seq::empty(), Ok(at_once)),
        parser::meant(Verb::SetValue, seq![key, value], Seq::empty(), Ok(first)),
        parser::meant(expire, seq![key, term], Seq::empty(), Ok(second)),
        string_laws::answer(data, first, moment) is Okay,
        !(string_laws::answer(data, at_once, moment) is Error),
    ensures
        string_laws::left(data, at_once, moment).entries == string_laws::left(
            string_laws::left(data, first, moment),
            second,
            moment,
        ).entries,
{
    let long = seq![key, value, unit, term];
    let none = Seq::<Bytes>::empty();
    law_set_requests(Verb::SetValue, long, Seq::empty(), Ok(at_once));
    law_set_requests(Verb::SetValue, seq![key, value], Seq::empty(), Ok(first));
    law_requests_about_time(expire, seq![key, term], Seq::empty(), Ok(second));
    law_no_options_are_the_plain_ones(none);
    law_times_are_read_in_their_unit(none, unit, term);
    assert(long.skip(2) =~= none.push(unit).push(term));
    lemma_option_words();
    let text = buffer::lower(buffer::bytes_content(unit));
    let c0 = text[0];
    let number = numbers::canonical_value(buffer::bytes_content(term))->Some_0;
    let time = if says(unit, "ex") {
        1000 * number
    } else {
        number as int
    };
    string_laws::law_set_keeps_its_options(data, key, value, at_once->options, moment);
    string_laws::law_set_with_a_time_is_set_and_expire(data, key, value, time as u64, moment);
    if says(unit, "ex") {
        expiry_laws::law_expire_counts_in_thousands(
            string_laws::left(data, first, moment),
            key,
            number,
            moment,
        );
    }
}

/// A section is asked for by INFO exactly if one of its words selects it; without words all
/// are.
pub proof fn law_info_sections_add_up(args: Seq<Bytes>, section: u8)
    requires
        section == 1 || section == 2 || section == 4 || section == 8 || section == 16 || section
            == 32 || section == 64,
    ensures
        parser::named_sections(args) & section != 0 <==> (args.len() == 0 || exists|i: int|
            0 <= i < args.len() && info::section_bits(
                buffer::bytes_content(#[trigger] args[i]),
            ) & section != 0),
{
    if args.len() == 0 {
        assert(127u8 & section != 0) by (bit_vector)
            requires
                section == 1 || section == 2 || section == 4 || section == 8 || section == 16
                    || section == 32 || section == 64,
        ;
    } else {
        lemma_sections(args, section);
    }
}

proof fn lemma_sections(args: Seq<Bytes>, section: u8)
    ensures
        parser::joined_sections(args) & section != 0 <==> exists|i: int|
            0 <= i < args.len() && info::section_bits(
                buffer::bytes_content(#[trigger] args[i]),
            ) & section != 0,
    decreases args.len(),
{
    if args.len() == 0 {
        assert(0u8 & section == 0) by (bit_vector);
    } else {
        let front = args.drop_last();
        lemma_sections(front, section);
        let a = parser::joined_sections(front);
        let b = info::section_bits(buffer::bytes_content(args.last()));
        assert((a | b) & section != 0 <==> (a & section != 0 || b & section != 0)) by (bit_vector);
        assert(args[args.len() - 1] == args.last());
        if a & section != 0 {
            let i = choose|i: int|
                0 <= i < front.len() && info::section_bits(
                    buffer::bytes_content(#[trigger] front[i]),
                ) & section != 0;
            assert(args[i] == front[i]);
        }
        if exists|i: int|
            0 <= i < args.len() && info::section_bits(
                buffer::bytes_content(#[trigger] args[i]),
            ) & section != 0 {
            let i = choose|i: int|
                0 <= i < args.len() && info::section_bits(
                    buffer::bytes_content(#[trigger] args[i]),
                ) & section != 0;
            if i < front.len() {
                assert(front[i] == args[i]);
            }
        }
    }
}

} // verus!
