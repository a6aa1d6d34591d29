use bytes::Bytes;
use sider::command::{Command, HashCommand, Reply, Score, SortedSetCommand};
use sider::storage::{Moment, Store};

const NOW: Moment = Moment {
    now: 10,
    unix_ms: 10,
};

fn bytes(text: &'static str) -> Bytes {
    Bytes::from_static(text.as_bytes())
}

fn bulk(text: &'static str) -> Reply {
    Reply::Bulk(Some(bytes(text)))
}

fn hash(operation: HashCommand) -> Command {
    Command::Hash {
        key: bytes("h"),
        operation,
    }
}

fn ranked(operation: SortedSetCommand) -> Command {
    Command::SortedSet {
        key: bytes("z"),
        operation,
    }
}

fn score(value: f64, digits: &'static [u8], power: i32) -> Score {
    Score::new(value.to_bits(), digits, power).unwrap()
}

#[test]
fn a_field_answers_the_last_value_given_for_it() {
    let mut store = Store::new();
    let entries = vec![
        (bytes("a"), bytes("1")),
        (bytes("b"), bytes("2")),
        (bytes("a"), bytes("3")),
    ];
    let set = hash(HashCommand::SetFields { entries });
    assert_eq!(store.execute(set, NOW), Reply::Integer(2));
    for (field, value) in [("a", "3"), ("b", "2")] {
        let get = hash(HashCommand::Get {
            field: bytes(field),
        });
        assert_eq!(store.execute(get, NOW), bulk(value));
    }
}

#[test]
fn a_member_answers_the_score_of_the_rank_last_given() {
    let mut store = Store::new();
    let entries = vec![
        (score(1.5, b"15", -1), bytes("a")),
        (score(2.0, b"2", 0), bytes("b")),
        (score(-0.5, b"5", -1), bytes("a")),
    ];
    let add = ranked(SortedSetCommand::Add { entries });
    assert_eq!(store.execute(add, NOW), Reply::Integer(2));
    for (member, text) in [("a", "-0.5"), ("b", "2")] {
        let get = ranked(SortedSetCommand::Score {
            member: bytes(member),
        });
        assert_eq!(store.execute(get, NOW), bulk(text));
    }
}

#[test]
fn deleted_keys_are_gone() {
    let mut store = Store::new();
    for key in ["a", "b", "c"] {
        let set = Command::SetValue {
            key: bytes(key),
            value: bytes("v"),
        };
        assert_eq!(store.execute(set, NOW), Reply::Okay);
    }
    let keys = vec![bytes("a"), bytes("c"), bytes("a")];
    let del = Command::Del { keys };
    assert_eq!(store.execute(del, NOW), Reply::Integer(2));
    for (key, reply) in [
        ("a", Reply::Bulk(None)),
        ("b", bulk("v")),
        ("c", Reply::Bulk(None)),
    ] {
        let get = Command::Get { key: bytes(key) };
        assert_eq!(store.execute(get, NOW), reply);
    }
}

#[test]
fn a_decrement_undoes_an_increment() {
    let mut store = Store::new();
    let key = || bytes("n");
    let set = Command::SetValue {
        key: key(),
        value: bytes("-1"),
    };
    assert_eq!(store.execute(set, NOW), Reply::Okay);
    let incr = Command::Incr { key: key() };
    assert_eq!(store.execute(incr, NOW), Reply::Integer(0));
    let decr = Command::Decr { key: key() };
    assert_eq!(store.execute(decr, NOW), Reply::Integer(-1));
    assert_eq!(store.execute(Command::Get { key: key() }, NOW), bulk("-1"));
}
