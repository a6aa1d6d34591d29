//! Complete validation of a request before an executable command is built.

use super::arguments::Arguments;
use super::info::InfoSections;
use super::reply::quoted;
use super::score::Score;
use super::types::{
    Command, ExpiryUnit, HashCommand, ListCommand, SetCommand, SetCondition, SetExpiry, SetOptions,
    SortedSetCommand,
};
use super::verb::{Verb, find_verb};
use crate::buffer::{as_slice, from_text, is_word};
use crate::numbers::parse_decimal;
use crate::resp::frame::{Frame, FrameModel};
use bytes::Bytes;
use crate::buffer;
use crate::command::info;
use crate::command::reply;
use crate::command::verb;
use crate::numbers;
use vstd::prelude::*;
use vstd::string::*;

verus! {

/// A format error ends the connection; command errors allow it to go on.
#[derive(Clone, Debug, PartialEq, Eq)]
pub enum RequestError {
    /// Only arrays of bulk strings that are neither empty nor null are executable.
    InvalidFormat,
    /// Simplified message, without data that the client sent.
    UnknownCommand,
    /// Canonical name used in the reply about the number of arguments.
    WrongArity(&'static str),
    Syntax,
    InvalidInteger,
    /// A score is not a number.
    InvalidFloat,
    InvalidSetExpiry,
    InvalidExpiry(&'static str),
}

/// The text that the client gets for a refused request.
pub open spec fn request_error_text(error: RequestError) -> Seq<u8> {
    match error {
        RequestError::InvalidFormat => "ERR invalid request format".spec_bytes(),
        RequestError::UnknownCommand => "ERR unknown command".spec_bytes(),
        RequestError::WrongArity(name) => reply::quoted_text("ERR wrong number of arguments for '", name),
        RequestError::Syntax => "ERR syntax error".spec_bytes(),
        RequestError::InvalidInteger => "ERR value is not an integer or out of range".spec_bytes(),
        RequestError::InvalidFloat => "ERR value is not a valid float".spec_bytes(),
        RequestError::InvalidSetExpiry => "ERR invalid expire time in 'set' command".spec_bytes(),
        RequestError::InvalidExpiry(name) => reply::quoted_text("ERR invalid expire time in '", name),
    }
}

impl RequestError {
    /// Whether the caller has to end the stream after answering, if possible.
    pub fn is_fatal(&self) -> (result: bool)
        ensures
            result == (*self is InvalidFormat),
    {
        match self {
            RequestError::InvalidFormat => true,
            _ => false,
        }
    }

    /// Controlled reply to the error, without arguments of the client.
    pub fn into_frame(self) -> (result: Frame)
        ensures
            result.model() == FrameModel::Error(request_error_text(self)),
    {
        let message = match self {
            RequestError::InvalidFormat => from_text("ERR invalid request format"),
            RequestError::UnknownCommand => from_text("ERR unknown command"),
            RequestError::WrongArity(name) => quoted("ERR wrong number of arguments for '", name),
            RequestError::Syntax => from_text("ERR syntax error"),
            RequestError::InvalidInteger => from_text(
                "ERR value is not an integer or out of range",
            ),
            RequestError::InvalidFloat => from_text("ERR value is not a valid float"),
            RequestError::InvalidSetExpiry => from_text("ERR invalid expire time in 'set' command"),
            RequestError::InvalidExpiry(name) => quoted("ERR invalid expire time in '", name),
        };
        Frame::Error(message)
    }
}

/// The words of a request: the frame is an array of bulk strings that is not
/// empty, and none of them is null.
pub open spec fn words_of(frame: Frame) -> Option<Seq<Bytes>> {
    match frame {
        Frame::Array(Some(values)) => if values@.len() > 0 && forall|i: int|
            0 <= i < values@.len() ==> #[trigger] values@[i] matches Frame::Bulk(Some(_)) {
            Some(Seq::new(values@.len(), |i: int| values@[i]->Bulk_0->Some_0))
        } else {
            None
        },
        _ => None,
    }
}

/// What the options of SET say so far.
pub struct SetDraft {
    pub condition: SetCondition,
    pub keep: bool,
    pub return_previous: bool,
    /// Text of the relative deadline given last.
    pub term: Option<Bytes>,
    /// Whether deadlines are given in seconds.
    pub seconds: Option<bool>,
}

/// What the options from `index` on make of a draft. Options that exclude one
/// another, unknown words and a missing term are syntax errors.
pub open spec fn drafted(args: Seq<Bytes>, index: int, draft: SetDraft) -> Result<
    SetDraft,
    RequestError,
>
    decreases args.len() - index,
{
    if index < 0 || index >= args.len() {
        Ok(draft)
    } else {
        let word = buffer::lower(buffer::bytes_content(args[index]));
        if word == "nx".spec_bytes() && draft.condition != SetCondition::Present {
            drafted(args, index + 1, SetDraft { condition: SetCondition::Missing, ..draft })
        } else if word == "xx".spec_bytes() && draft.condition != SetCondition::Missing {
            drafted(args, index + 1, SetDraft { condition: SetCondition::Present, ..draft })
        } else if word == "get".spec_bytes() {
            drafted(args, index + 1, SetDraft { return_previous: true, ..draft })
        } else if word == "keepttl".spec_bytes() && draft.term is None {
            drafted(args, index + 1, SetDraft { keep: true, ..draft })
        } else if (word == "ex".spec_bytes() || word == "px".spec_bytes()) && !draft.keep {
            let seconds = word == "ex".spec_bytes();
            if draft.seconds is Some && draft.seconds != Some(seconds) {
                Err(RequestError::Syntax)
            } else if index + 1 >= args.len() {
                Err(RequestError::Syntax)
            } else {
                drafted(
                    args,
                    index + 2,
                    SetDraft { seconds: Some(seconds), term: Some(args[index + 1]), ..draft },
                )
            }
        } else {
            Err(RequestError::Syntax)
        }
    }
}

/// The options that the words behind the value of SET stand for.
pub open spec fn set_options(args: Seq<Bytes>) -> Result<SetOptions, RequestError> {
    let empty = SetDraft {
        condition: SetCondition::Always,
        keep: false,
        return_previous: false,
        term: None,
        seconds: None,
    };
    match drafted(args, 0, empty) {
        Err(error) => Err(error),
        Ok(draft) => match draft.term {
            None => Ok(
                SetOptions {
                    condition: draft.condition,
                    expiry: if draft.keep {
                        SetExpiry::Keep
                    } else {
                        SetExpiry::Persistent
                    },
                    return_previous: draft.return_previous,
                },
            ),
            Some(term) => match numbers::canonical_value(buffer::bytes_content(term)) {
                None => Err(RequestError::InvalidInteger),
                Some(value) => {
                    let millis = if draft.seconds == Some(true) {
                        value * 1000
                    } else {
                        value as int
                    };
                    if millis <= 0 || millis > i64::MAX {
                        Err(RequestError::InvalidSetExpiry)
                    } else {
                        Ok(
                            SetOptions {
                                condition: draft.condition,
                                expiry: SetExpiry::After(millis as u64),
                                return_previous: draft.return_previous,
                            },
                        )
                    }
                },
            },
        },
    }
}

/// Whether every score has a value.
pub open spec fn all_scored(scores: Seq<Option<Score>>) -> bool {
    forall|i: int| 0 <= i < scores.len() ==> #[trigger] scores[i] is Some
}

/// What is wrong with the arguments of a command, their number aside.
pub open spec fn argument_fault(
    verb: Verb,
    args: Seq<Bytes>,
    scores: Seq<Option<Score>>,
) -> Option<RequestError> {
    match verb {
        Verb::SetValue => if args.len() == 2 {
            None
        } else {
            set_options(args.skip(2)).err()
        },
        Verb::Expire => match numbers::canonical_value(buffer::bytes_content(args[1])) {
            None => Some(RequestError::InvalidInteger),
            Some(value) => if i64::MIN <= value * 1000 <= i64::MAX {
                None
            } else {
                Some(RequestError::InvalidExpiry("expire"))
            },
        },
        Verb::PExpire => match numbers::canonical_value(buffer::bytes_content(args[1])) {
            None => Some(RequestError::InvalidInteger),
            Some(_) => None,
        },
        Verb::LRange => if numbers::canonical_value(buffer::bytes_content(args[1])) is None || numbers::canonical_value(
            buffer::bytes_content(args[2]),
        ) is None {
            Some(RequestError::InvalidInteger)
        } else {
            None
        },
        Verb::ZAdd => if args.len() % 2 == 0 {
            Some(RequestError::Syntax)
        } else if !all_scored(scores) {
            Some(RequestError::InvalidFloat)
        } else {
            None
        },
        Verb::ZRange => if numbers::canonical_value(buffer::bytes_content(args[1])) is None || numbers::canonical_value(
            buffer::bytes_content(args[2]),
        ) is None {
            Some(RequestError::InvalidInteger)
        } else if args.len() == 3 || (args.len() == 4 && buffer::lower(buffer::bytes_content(args[3]))
            == "withscores".spec_bytes()) {
            None
        } else {
            Some(RequestError::Syntax)
        },
        _ => None,
    }
}

/// Whether the pairs are the words taken two by two.
pub open spec fn paired(pairs: Seq<(Bytes, Bytes)>, words: Seq<Bytes>) -> bool {
    &&& pairs.len() == words.len() / 2
    &&& forall|i: int|
        0 <= i < pairs.len() ==> #[trigger] pairs[i] == (words[2 * i], words[2 * i + 1])
}

/// Whether the command is what the verb and its arguments ask for.
pub open spec fn denotes(
    command: Command,
    verb: Verb,
    args: Seq<Bytes>,
    scores: Seq<Option<Score>>,
) -> bool {
    match verb {
        Verb::Ping => command == Command::Ping(
            if args.len() == 0 {
                None
            } else {
                Some(args[0])
            },
        ),
        Verb::Echo => command == Command::Echo(args[0]),
        Verb::Get => command == (Command::Get { key: args[0] }),
        Verb::SetValue => if args.len() == 2 {
            command == (Command::SetValue { key: args[0], value: args[1] })
        } else {
            command == (Command::SetWithOptions {
                key: args[0],
                value: args[1],
                options: set_options(args.skip(2))->Ok_0,
            })
        },
        Verb::Del => command matches Command::Del { keys } && keys@ == args,
        Verb::Exists => command matches Command::Exists { keys } && keys@ == args,
        Verb::MGet => command matches Command::MGet { keys } && keys@ == args,
        Verb::Incr => command == (Command::Incr { key: args[0] }),
        Verb::Decr => command == (Command::Decr { key: args[0] }),
        Verb::MSet => command matches Command::MSet { entries } && paired(entries@, args),
        Verb::Expire => command == (Command::Expire {
            key: args[0],
            value: numbers::canonical_value(buffer::bytes_content(args[1]))->Some_0,
            unit: ExpiryUnit::Seconds,
        }),
        Verb::PExpire => command == (Command::Expire {
            key: args[0],
            value: numbers::canonical_value(buffer::bytes_content(args[1]))->Some_0,
            unit: ExpiryUnit::Milliseconds,
        }),
        Verb::Ttl => command == (Command::Ttl { key: args[0], milliseconds: false }),
        Verb::PTtl => command == (Command::Ttl { key: args[0], milliseconds: true }),
        Verb::Persist => command == (Command::Persist { key: args[0] }),
        Verb::Info => command matches Command::Info(sections) && sections.0 == named_sections(args),
        Verb::Subscribe => command matches Command::Subscribe { channels } && channels@ == args,
        Verb::Unsubscribe => command matches Command::Unsubscribe { channels } && channels@ == args,
        Verb::Publish => command == (Command::Publish { channel: args[0], message: args[1] }),
        Verb::Multi => command == Command::Multi,
        Verb::Exec => command == Command::Exec,
        Verb::Discard => command == Command::Discard,
        Verb::Watch => command matches Command::Watch { keys } && keys@ == args,
        Verb::Unwatch => command == Command::Unwatch,
        Verb::HSet => command matches Command::Hash {
            key,
            operation: HashCommand::SetFields { entries },
        } && key == args[0] && paired(entries@, args.skip(1)),
        Verb::HGet => command == (Command::Hash {
            key: args[0],
            operation: HashCommand::Get { field: args[1] },
        }),
        Verb::HDel => command matches Command::Hash {
            key,
            operation: HashCommand::Delete { fields },
        } && key == args[0] && fields@ == args.skip(1),
        Verb::HExists => command == (Command::Hash {
            key: args[0],
            operation: HashCommand::Exists { field: args[1] },
        }),
        Verb::HLen => command == (Command::Hash { key: args[0], operation: HashCommand::Len }),
        Verb::HGetAll => command == (Command::Hash {
            key: args[0],
            operation: HashCommand::GetAll,
        }),
        Verb::LPush => command matches Command::List {
            key,
            operation: ListCommand::Push { left, values },
        } && key == args[0] && left && values@ == args.skip(1),
        Verb::RPush => command matches Command::List {
            key,
            operation: ListCommand::Push { left, values },
        } && key == args[0] && !left && values@ == args.skip(1),
        Verb::LPop => command == (Command::List {
            key: args[0],
            operation: ListCommand::Pop { left: true },
        }),
        Verb::RPop => command == (Command::List {
            key: args[0],
            operation: ListCommand::Pop { left: false },
        }),
        Verb::LLen => command == (Command::List { key: args[0], operation: ListCommand::Len }),
        Verb::LRange => command == (Command::List {
            key: args[0],
            operation: ListCommand::Range {
                start: numbers::canonical_value(buffer::bytes_content(args[1]))->Some_0,
                stop: numbers::canonical_value(buffer::bytes_content(args[2]))->Some_0,
            },
        }),
        Verb::SAdd => command matches Command::SetCollection {
            key,
            operation: SetCommand::Add { members },
        } && key == args[0] && members@ == args.skip(1),
        Verb::SRem => command matches Command::SetCollection {
            key,
            operation: SetCommand::Remove { members },
        } && key == args[0] && members@ == args.skip(1),
        Verb::SIsMember => command == (Command::SetCollection {
            key: args[0],
            operation: SetCommand::IsMember { member: args[1] },
        }),
        Verb::SCard => command == (Command::SetCollection {
            key: args[0],
            operation: SetCommand::Card,
        }),
        Verb::SMembers => command == (Command::SetCollection {
            key: args[0],
            operation: SetCommand::Members,
        }),
        Verb::ZAdd => command matches Command::SortedSet {
            key,
            operation: SortedSetCommand::Add { entries },
        } && key == args[0] && entries@.len() == scores.len() && forall|i: int|
            0 <= i < entries@.len() ==> (#[trigger] entries@[i]).1 == args[2 * i + 2] && Some(
                entries@[i].0,
            ) == scores[i],
        Verb::ZRem => command matches Command::SortedSet {
            key,
            operation: SortedSetCommand::Remove { members },
        } && key == args[0] && members@ == args.skip(1),
        Verb::ZCard => command == (Command::SortedSet {
            key: args[0],
            operation: SortedSetCommand::Card,
        }),
        Verb::ZScore => command == (Command::SortedSet {
            key: args[0],
            operation: SortedSetCommand::Score { member: args[1] },
        }),
        Verb::ZRange => command == (Command::SortedSet {
            key: args[0],
            operation: SortedSetCommand::Range {
                start: numbers::canonical_value(buffer::bytes_content(args[1]))->Some_0,
                stop: numbers::canonical_value(buffer::bytes_content(args[2]))->Some_0,
                with_scores: args.len() == 4,
            },
        }),
    }
}

/// The sections that the words of INFO name; none at all names every section.
pub open spec fn named_sections(args: Seq<Bytes>) -> u8 {
    if args.len() == 0 {
        127
    } else {
        joined_sections(args)
    }
}

pub open spec fn joined_sections(args: Seq<Bytes>) -> u8
    decreases args.len(),
{
    if args.len() == 0 {
        0
    } else {
        joined_sections(args.drop_last()) | super::info::section_bits(buffer::bytes_content(args.last()))
    }
}

/// How many arguments of a request are scores.
pub open spec fn score_count(words: Option<Seq<Bytes>>) -> nat {
    match words {
        Some(words) => if verb::verb_of(buffer::bytes_content(words[0])) == Some(Verb::ZAdd) && words.len() >= 4
            && words.len() % 2 == 0 {
            ((words.len() - 2) / 2) as nat
        } else {
            0
        },
        None => 0,
    }
}

/// Whether a command and its arguments were understood as they have to be.
pub open spec fn meant(
    verb: Verb,
    args: Seq<Bytes>,
    scores: Seq<Option<Score>>,
    result: Result<Command, RequestError>,
) -> bool {
    if !verb.takes(args.len()) {
        result == Err::<Command, RequestError>(RequestError::WrongArity(verb.canonical()))
    } else {
        match argument_fault(verb, args, scores) {
            Some(error) => result == Err::<Command, RequestError>(error),
            None => result matches Ok(command) && denotes(command, verb, args, scores),
        }
    }
}

/// Whether a request was understood as it has to be.
pub open spec fn understood(
    words: Option<Seq<Bytes>>,
    scores: Seq<Option<Score>>,
    result: Result<Command, RequestError>,
) -> bool {
    match words {
        None => result == Err::<Command, RequestError>(RequestError::InvalidFormat),
        Some(words) => match verb::verb_of(buffer::bytes_content(words[0])) {
            None => result == Err::<Command, RequestError>(RequestError::UnknownCommand),
            Some(verb) => meant(verb, words.skip(1), scores, result),
        },
    }
}

/// Takes the words out of a request frame; the name comes first.
fn take_words(frame: Frame) -> (result: Option<Arguments>)
    ensures
        match words_of(frame) {
            None => result is None,
            Some(words) => result matches Some(arguments) && arguments@ == words,
        },
{
    let mut frames: Vec<Frame> = match frame {
        Frame::Array(Some(frames)) => frames,
        _ => return None,
    };
    let ghost all = frames@;
    if frames.len() == 0 {
        return None;
    }
    let mut reversed: Vec<Bytes> = Vec::new();
    while frames.len() > 0
        invariant
            frame matches Frame::Array(Some(values)) && values@ == all,
            all.len() > 0,
            frames@.len() + reversed@.len() == all.len(),
            frames@ == all.take(frames@.len() as int),
            forall|i: int|
                0 <= i < reversed@.len() ==> Frame::Bulk(Some(#[trigger] reversed@[i]))
                    == all[all.len() - 1 - i],
        decreases frames@.len(),
    {
        let ghost count = frames@.len() as int;
        match frames.pop() {
            Some(Frame::Bulk(Some(value))) => {
                assert(frames@ =~= all.take(count - 1));
                reversed.push(value);
            },
            _ => {
                assert(!(all[count - 1] matches Frame::Bulk(Some(_))));
                return None;
            },
        }
    }
    proof {
        assert forall|i: int| 0 <= i < all.len() implies #[trigger] all[i] matches Frame::Bulk(
            Some(_),
        ) by {
            let k = all.len() - 1 - i;
            assert(Frame::Bulk(Some(reversed@[k])) == all[all.len() - 1 - k]);
        }
        let words = Seq::new(all.len(), |i: int| all[i]->Bulk_0->Some_0);
        assert(reversed@.reverse() =~= words) by {
            assert forall|i: int| 0 <= i < all.len() implies reversed@.reverse()[i] == words[i] by {
                let k = all.len() - 1 - i;
                assert(Frame::Bulk(Some(reversed@[k])) == all[all.len() - 1 - k]);
            }
        }
    }
    Some(Arguments::from_reversed(reversed))
}

/// The arguments of a request whose scores [`parse`] wants to know, in
/// their order.
pub fn score_texts(frame: &Frame) -> (result: Vec<Bytes>)
    ensures
        result@.len() == score_count(words_of(*frame)),
        forall|i: int|
            0 <= i < result@.len() ==> buffer::bytes_content(#[trigger] result@[i]) == buffer::bytes_content(
                words_of(*frame)->Some_0[2 * i + 2],
            ),
{
    let mut result: Vec<Bytes> = Vec::new();
    let frames = match frame {
        Frame::Array(Some(frames)) => frames,
        _ => return result,
    };
    if frames.len() == 0 {
        return result;
    }
    let mut index: usize = 0;
    while index < frames.len()
        invariant
            *frame == Frame::Array(Some(*frames)),
            frames@.len() > 0,
            result@.len() == 0,
            index <= frames@.len(),
            forall|i: int|
                0 <= i < index ==> #[trigger] frames@[i] matches Frame::Bulk(Some(_)),
        decreases frames@.len() - index,
    {
        match &frames[index] {
            Frame::Bulk(Some(_)) => {},
            _ => {
                assert(!(frames@[index as int] matches Frame::Bulk(Some(_))));
                return result;
            },
        }
        index += 1;
    }
    let ghost words = words_of(*frame)->Some_0;
    let name = match &frames[0] {
        Frame::Bulk(Some(name)) => name,
        _ => return result,
    };
    assert(words[0] == *name);
    match find_verb(as_slice(name)) {
        Some(Verb::ZAdd) => {},
        _ => return result,
    }
    if frames.len() < 4 || frames.len() % 2 != 0 {
        return result;
    }
    let mut at: usize = 2;
    while at < frames.len()
        invariant
            frames@.len() % 2 == 0,
            2 <= at <= frames@.len(),
            at % 2 == 0,
            words == Seq::new(frames@.len(), |i: int| frames@[i]->Bulk_0->Some_0),
            forall|i: int|
                0 <= i < frames@.len() ==> #[trigger] frames@[i] matches Frame::Bulk(Some(_)),
            result@.len() == (at - 2) / 2,
            forall|i: int|
                0 <= i < result@.len() ==> buffer::bytes_content(#[trigger] result@[i]) == buffer::bytes_content(
                    words[2 * i + 2],
                ),
        decreases frames@.len() - at,
    {
        let ghost done = result@.len() as int;
        assert(words[2 * done + 2] == words[at as int]);
        match &frames[at] {
            Frame::Bulk(Some(text)) => result.push(text.clone()),
            _ => {
                assert(!(frames@[at as int] matches Frame::Bulk(Some(_))));
            },
        }
        at += 2;
    }
    result
}

/// Builds a validated command, moving the payloads without copying them again.
///
/// The format of all arguments is checked before their number or the name.
/// Names do not distinguish ASCII case; keys and values keep all bytes. The
/// scores are those of the arguments that [`score_texts`] lists, of which `None`
/// stands for one that is not a number.
pub fn parse(frame: Frame, scores: Vec<Option<Score>>) -> (result: Result<
    Command,
    RequestError,
>)
    requires
        scores@.len() == score_count(words_of(frame)),
    ensures
        understood(words_of(frame), scores@, result),
{
    let mut arguments = match take_words(frame) {
        None => return Err(RequestError::InvalidFormat),
        Some(arguments) => arguments,
    };
    let ghost words = words_of(frame)->Some_0;
    let name = arguments.take();
    let verb = match find_verb(as_slice(&name)) {
        None => return Err(RequestError::UnknownCommand),
        Some(verb) => verb,
    };
    if !verb.accepts(arguments.len()) {
        return Err(RequestError::WrongArity(verb.name()));
    }
    match verb {
        Verb::ZAdd | Verb::ZRem | Verb::ZCard | Verb::ZScore | Verb::ZRange => parse_sorted_set(
            verb,
            arguments,
            scores,
        ),
        Verb::HSet
        | Verb::HGet
        | Verb::HDel
        | Verb::HExists
        | Verb::HLen
        | Verb::HGetAll => Ok(parse_hash(verb, arguments, Ghost(scores@))),
        Verb::LPush | Verb::RPush | Verb::LPop | Verb::RPop | Verb::LLen | Verb::LRange => {
            parse_list(verb, arguments, Ghost(scores@))
        },
        Verb::SAdd | Verb::SRem | Verb::SIsMember | Verb::SCard | Verb::SMembers => Ok(
            parse_set(verb, arguments, Ghost(scores@)),
        ),
        Verb::SetValue | Verb::Expire | Verb::PExpire => parse_valued(
            verb,
            arguments,
            Ghost(scores@),
        ),
        _ => Ok(parse_plain(verb, arguments, Ghost(scores@))),
    }
}

/// Commands whose arguments need no further look.
fn parse_plain(
    verb: Verb,
    arguments: Arguments,
    Ghost(scores): Ghost<Seq<Option<Score>>>,
) -> (command: Command)
    requires
        verb.takes(arguments@.len()),
        !(verb is ZAdd || verb is ZRem || verb is ZCard || verb is ZScore || verb is ZRange
            || verb is HSet || verb is HGet || verb is HDel || verb is HExists || verb is HLen
            || verb is HGetAll || verb is LPush || verb is RPush || verb is LPop || verb is RPop
            || verb is LLen || verb is LRange || verb is SAdd || verb is SRem || verb is SIsMember
            || verb is SCard || verb is SMembers || verb is SetValue || verb is Expire
            || verb is PExpire),
    ensures
        denotes(command, verb, arguments@, scores),
{
    let mut arguments = arguments;
    match verb {
        Verb::Ping => if arguments.len() == 0 {
            Command::Ping(None)
        } else {
            Command::Ping(Some(arguments.take()))
        },
        Verb::Echo => Command::Echo(arguments.take()),
        Verb::Get => Command::Get { key: arguments.take() },
        Verb::Del => Command::Del { keys: arguments.collect() },
        Verb::Exists => Command::Exists { keys: arguments.collect() },
        Verb::MGet => Command::MGet { keys: arguments.collect() },
        Verb::Incr => Command::Incr { key: arguments.take() },
        Verb::Decr => Command::Decr { key: arguments.take() },
        Verb::MSet => Command::MSet { entries: arguments.pairs() },
        Verb::Ttl => Command::Ttl { key: arguments.take(), milliseconds: false },
        Verb::PTtl => Command::Ttl { key: arguments.take(), milliseconds: true },
        Verb::Persist => Command::Persist { key: arguments.take() },
        Verb::Info => Command::Info(sections(arguments)),
        Verb::Subscribe => Command::Subscribe { channels: arguments.collect() },
        Verb::Unsubscribe => Command::Unsubscribe { channels: arguments.collect() },
        Verb::Publish => {
            let channel = arguments.take();
            let message = arguments.take();
            Command::Publish { channel, message }
        },
        Verb::Multi => Command::Multi,
        Verb::Exec => Command::Exec,
        Verb::Discard => Command::Discard,
        Verb::Watch => Command::Watch { keys: arguments.collect() },
        _ => Command::Unwatch,
    }
}

/// The sections that the words of INFO name.
fn sections(arguments: Arguments) -> (result: InfoSections)
    ensures
        result.0 == named_sections(arguments@),
{
    let words = arguments.collect();
    let mut names: Vec<&[u8]> = Vec::new();
    let mut index: usize = 0;
    assert(words@.take(0) =~= Seq::<Bytes>::empty());
    while index < words.len()
        invariant
            index <= words@.len(),
            names@.len() == index,
            info::selected_bits(names@) == joined_sections(words@.take(index as int)),
        decreases words@.len() - index,
    {
        let ghost before = names@;
        names.push(as_slice(&words[index]));
        assert(names@.drop_last() =~= before);
        assert(words@.take(index + 1).drop_last() =~= words@.take(index as int));
        index += 1;
    }
    assert(words@.take(index as int) =~= words@);
    InfoSections::from_names(names.as_slice())
}

fn parse_integer(value: &Bytes) -> (result: Result<i64, RequestError>)
    ensures
        match numbers::canonical_value(buffer::bytes_content(*value)) {
            Some(number) => result == Ok::<i64, RequestError>(number),
            None => result == Err::<i64, RequestError>(RequestError::InvalidInteger),
        },
{
    match parse_decimal(as_slice(value)) {
        Some(number) => Ok(number),
        None => Err(RequestError::InvalidInteger),
    }
}

/// SET and the commands that set a deadline.
fn parse_valued(
    verb: Verb,
    arguments: Arguments,
    Ghost(scores): Ghost<Seq<Option<Score>>>,
) -> (result: Result<Command, RequestError>)
    requires
        verb is SetValue || verb is Expire || verb is PExpire,
        verb.takes(arguments@.len()),
    ensures
        match argument_fault(verb, arguments@, scores) {
            Some(error) => result == Err::<Command, RequestError>(error),
            None => result matches Ok(command) && denotes(command, verb, arguments@, scores),
        },
{
    let mut arguments = arguments;
    let ghost args = arguments@;
    let key = arguments.take();
    let argument = arguments.take();
    assert(arguments@ =~= args.skip(2));
    if let Verb::SetValue = verb {
        if arguments.len() == 0 {
            return Ok(Command::SetValue { key, value: argument });
        }
        return match parse_set_options(arguments) {
            Err(error) => Err(error),
            Ok(options) => Ok(Command::SetWithOptions { key, value: argument, options }),
        };
    }
    let value: i64 = match parse_integer(&argument) {
        Err(error) => return Err(error),
        Ok(value) => value,
    };
    if let Verb::Expire = verb {
        if value.checked_mul(1000).is_none() {
            return Err(RequestError::InvalidExpiry("expire"));
        }
        return Ok(Command::Expire { key, value, unit: ExpiryUnit::Seconds });
    }
    Ok(Command::Expire { key, value, unit: ExpiryUnit::Milliseconds })
}

/// Reads the options behind the value of SET.
fn parse_set_options(arguments: Arguments) -> (result: Result<SetOptions, RequestError>)
    ensures
        result == set_options(arguments@),
{
    let mut rest = arguments;
    let ghost args = arguments@;
    let ghost empty = SetDraft {
        condition: SetCondition::Always,
        keep: false,
        return_previous: false,
        term: None,
        seconds: None,
    };
    let mut condition = SetCondition::Always;
    let mut keep = false;
    let mut return_previous = false;
    let mut term: Option<Bytes> = None;
    let mut unit: Option<bool> = None;
    let ghost mut index: int = 0;
    assert(args.skip(0) =~= args);
    while rest.len() > 0
        invariant
            0 <= index <= args.len(),
            args == arguments@,
            rest@ == args.skip(index),
            drafted(args, 0, empty) == drafted(
                args,
                index,
                SetDraft { condition, keep, return_previous, term, seconds: unit },
            ),
            empty == (SetDraft {
                condition: SetCondition::Always,
                keep: false,
                return_previous: false,
                term: None,
                seconds: None,
            }),
        decreases rest@.len(),
    {
        assert(args.skip(index).skip(1) =~= args.skip(index + 1));
        let option = rest.take();
        assert(option == args[index]);
        let word = as_slice(&option);
        proof {
            index = index + 1;
        }
        if is_word(word, "nx") && condition != SetCondition::Present {
            condition = SetCondition::Missing;
        } else if is_word(word, "xx") && condition != SetCondition::Missing {
            condition = SetCondition::Present;
        } else if is_word(word, "get") {
            return_previous = true;
        } else if is_word(word, "keepttl") && term.is_none() {
            keep = true;
        } else if (is_word(word, "ex") || is_word(word, "px")) && !keep {
            let seconds = is_word(word, "ex");
            if let Some(previous) = unit {
                if previous != seconds {
                    return Err(RequestError::Syntax);
                }
            }
            if rest.len() == 0 {
                return Err(RequestError::Syntax);
            }
            unit = Some(seconds);
            assert(args.skip(index).skip(1) =~= args.skip(index + 1));
            term = Some(rest.take());
            proof {
                index = index + 1;
            }
        } else {
            return Err(RequestError::Syntax);
        }
    }
    let expiry = match term {
        None => if keep {
            SetExpiry::Keep
        } else {
            SetExpiry::Persistent
        },
        Some(term) => {
            let value: i64 = match parse_integer(&term) {
                Err(error) => return Err(error),
                Ok(value) => value,
            };
            let seconds = match unit {
                Some(seconds) => seconds,
                None => false,
            };
            let millis: i64 = if seconds {
                match value.checked_mul(1000) {
                    None => return Err(RequestError::InvalidSetExpiry),
                    Some(millis) => millis,
                }
            } else {
                value
            };
            if millis <= 0 {
                return Err(RequestError::InvalidSetExpiry);
            }
            SetExpiry::After(millis as u64)
        },
    };
    Ok(SetOptions { condition, expiry, return_previous })
}

fn parse_hash(
    verb: Verb,
    arguments: Arguments,
    Ghost(scores): Ghost<Seq<Option<Score>>>,
) -> (command: Command)
    requires
        verb is HSet || verb is HGet || verb is HDel || verb is HExists || verb is HLen
            || verb is HGetAll,
        verb.takes(arguments@.len()),
    ensures
        denotes(command, verb, arguments@, scores),
{
    let mut arguments = arguments;
    let key = arguments.take();
    let operation = match verb {
        Verb::HSet => HashCommand::SetFields { entries: arguments.pairs() },
        Verb::HGet => HashCommand::Get { field: arguments.take() },
        Verb::HDel => HashCommand::Delete { fields: arguments.collect() },
        Verb::HExists => HashCommand::Exists { field: arguments.take() },
        Verb::HLen => HashCommand::Len,
        _ => HashCommand::GetAll,
    };
    Command::Hash { key, operation }
}

fn parse_list(
    verb: Verb,
    arguments: Arguments,
    Ghost(scores): Ghost<Seq<Option<Score>>>,
) -> (result: Result<Command, RequestError>)
    requires
        verb is LPush || verb is RPush || verb is LPop || verb is RPop || verb is LLen
            || verb is LRange,
        verb.takes(arguments@.len()),
    ensures
        match argument_fault(verb, arguments@, scores) {
            Some(error) => result == Err::<Command, RequestError>(error),
            None => result matches Ok(command) && denotes(command, verb, arguments@, scores),
        },
{
    let mut arguments = arguments;
    let key = arguments.take();
    let operation = match verb {
        Verb::LPush => ListCommand::Push { left: true, values: arguments.collect() },
        Verb::RPush => ListCommand::Push { left: false, values: arguments.collect() },
        Verb::LPop => ListCommand::Pop { left: true },
        Verb::RPop => ListCommand::Pop { left: false },
        Verb::LLen => ListCommand::Len,
        _ => {
            let first = arguments.take();
            let second = arguments.take();
            let start: i64 = match parse_integer(&first) {
                Err(error) => return Err(error),
                Ok(value) => value,
            };
            let stop: i64 = match parse_integer(&second) {
                Err(error) => return Err(error),
                Ok(value) => value,
            };
            ListCommand::Range { start, stop }
        },
    };
    Ok(Command::List { key, operation })
}

fn parse_set(
    verb: Verb,
    arguments: Arguments,
    Ghost(scores): Ghost<Seq<Option<Score>>>,
) -> (command: Command)
    requires
        verb is SAdd || verb is SRem || verb is SIsMember || verb is SCard || verb is SMembers,
        verb.takes(arguments@.len()),
    ensures
        denotes(command, verb, arguments@, scores),
{
    let mut arguments = arguments;
    let key = arguments.take();
    let operation = match verb {
        Verb::SAdd => SetCommand::Add { members: arguments.collect() },
        Verb::SRem => SetCommand::Remove { members: arguments.collect() },
        Verb::SIsMember => SetCommand::IsMember { member: arguments.take() },
        Verb::SCard => SetCommand::Card,
        _ => SetCommand::Members,
    };
    Command::SetCollection { key, operation }
}

fn parse_sorted_set(
    verb: Verb,
    arguments: Arguments,
    scores: Vec<Option<Score>>,
) -> (result: Result<Command, RequestError>)
    requires
        verb is ZAdd || verb is ZRem || verb is ZCard || verb is ZScore || verb is ZRange,
        verb.takes(arguments@.len()),
        verb is ZAdd && arguments@.len() % 2 == 1 ==> scores@.len() == (arguments@.len() - 1) / 2,
    ensures
        match argument_fault(verb, arguments@, scores@) {
            Some(error) => result == Err::<Command, RequestError>(error),
            None => result matches Ok(command) && denotes(command, verb, arguments@, scores@),
        },
{
    let mut arguments = arguments;
    let ghost args = arguments@;
    let key = arguments.take();
    let operation = match verb {
        Verb::ZAdd => {
            if arguments.len() % 2 != 0 {
                return Err(RequestError::Syntax);
            }
            match score_members(arguments, scores) {
                None => return Err(RequestError::InvalidFloat),
                Some(entries) => SortedSetCommand::Add { entries },
            }
        },
        Verb::ZRem => SortedSetCommand::Remove { members: arguments.collect() },
        Verb::ZCard => SortedSetCommand::Card,
        Verb::ZScore => SortedSetCommand::Score { member: arguments.take() },
        _ => {
            let first = arguments.take();
            let second = arguments.take();
            assert(arguments@ =~= args.skip(3));
            let start: i64 = match parse_integer(&first) {
                Err(error) => return Err(error),
                Ok(value) => value,
            };
            let stop: i64 = match parse_integer(&second) {
                Err(error) => return Err(error),
                Ok(value) => value,
            };
            let with_scores = if arguments.len() == 0 {
                false
            } else {
                let option = arguments.take();
                if is_word(as_slice(&option), "withscores") && arguments.len() == 0 {
                    true
                } else {
                    return Err(RequestError::Syntax);
                }
            };
            SortedSetCommand::Range { start, stop, with_scores }
        },
    };
    Ok(Command::SortedSet { key, operation })
}

/// Puts each member together with its score, if every score has a value.
fn score_members(arguments: Arguments, scores: Vec<Option<Score>>) -> (result: Option<
    Vec<(Score, Bytes)>,
>)
    requires
        arguments@.len() == 2 * scores@.len(),
    ensures
        match result {
            None => !all_scored(scores@),
            Some(entries) => {
                &&& all_scored(scores@)
                &&& entries@.len() == scores@.len()
                &&& forall|i: int|
                    0 <= i < entries@.len() ==> (#[trigger] entries@[i]).1 == arguments@[2 * i + 1]
                        && Some(entries@[i].0) == scores@[i]
            },
        },
{
    let ghost words = arguments@;
    let ghost all = scores@;
    let mut reversed: Vec<Option<Score>> = Vec::new();
    let mut queue = scores;
    while queue.len() > 0
        invariant
            queue@.len() + reversed@.len() == all.len(),
            queue@ == all.take(queue@.len() as int),
            forall|i: int|
                0 <= i < reversed@.len() ==> #[trigger] reversed@[i] == all[all.len() - 1 - i],
        decreases queue@.len(),
    {
        let ghost count = queue@.len() as int;
        let score = queue.pop().unwrap();
        assert(queue@ =~= all.take(count - 1));
        reversed.push(score);
    }
    let mut left_over = arguments;
    let mut entries: Vec<(Score, Bytes)> = Vec::new();
    assert(words.skip(0) =~= words);
    while reversed.len() > 0
        invariant
            words == arguments@,
            all == scores@,
            words.len() == 2 * all.len(),
            reversed@.len() + entries@.len() == all.len(),
            left_over@ == words.skip((2 * entries@.len()) as int),
            forall|i: int|
                0 <= i < reversed@.len() ==> #[trigger] reversed@[i] == all[all.len() - 1 - i],
            forall|i: int|
                0 <= i < entries@.len() ==> (#[trigger] entries@[i]).1 == words[2 * i + 1] && Some(
                    entries@[i].0,
                ) == all[i],
        decreases reversed@.len(),
    {
        let ghost done = entries@.len() as int;
        let ghost left = reversed@;
        let taken = reversed.pop().unwrap();
        assert(taken == left[left.len() - 1]);
        assert(taken == all[done]);
        let score = match taken {
            None => return None,
            Some(score) => score,
        };
        let _ = left_over.take();
        let member = left_over.take();
        assert(member == words[2 * done + 1]);
        assert(left_over@ =~= words.skip(2 * (done + 1)));
        entries.push((score, member));
        assert(reversed@ =~= left.drop_last());
    }
    proof {
        assert forall|i: int| 0 <= i < all.len() implies #[trigger] all[i] is Some by {
            assert(Some(entries@[i].0) == all[i]);
        }
    }
    Some(entries)
}

} // verus!
