use bytes::{Bytes, BytesMut};
use sider::command::{parse, Command, Reply, RequestError};
use sider::config::ServerConfig;
use sider::connection::request::{
    command_name, end_of_input, next_step, publish, read_room, response_limits,
    transaction_limits, FrameTimer, InputEnd, Step,
};
use sider::connection::transaction::{request_bytes, Action, Transaction, TransactionLimits};
use sider::pubsub::{Hub, Message};
use sider::resp::{encode, Frame, RespLimits};
use sider::storage::{ShardRouter, Store};

const LIMITS: TransactionLimits = TransactionLimits {
    max_commands: 2,
    max_bytes: 100,
    max_watched: 1,
};

fn set(key: &'static [u8]) -> Command {
    Command::SetValue {
        key: Bytes::from_static(key),
        value: Bytes::new(),
    }
}

fn watch(key: &'static [u8]) -> Command {
    Command::Watch {
        keys: vec![Bytes::from_static(key)],
    }
}

fn handle(transaction: &mut Transaction, router: &ShardRouter, command: Command) -> Action {
    transaction.handle(command, 10, LIMITS, router, false, false)
}

fn reply(action: Action) -> Frame {
    match action {
        Action::Reply { frame, .. } => frame,
        _ => panic!("expected immediate reply"),
    }
}

fn text(frame: Frame) -> String {
    match frame {
        Frame::Simple(text) | Frame::Error(text) => String::from_utf8(text.to_vec()).unwrap(),
        other => panic!("{other:?}"),
    }
}

#[test]
fn transactions_watch_limit_and_shard_rejection_preserve_existing_observation() {
    let router = ShardRouter::new(2).unwrap();
    let mut store = Store::new();
    let mut transaction = Transaction::new();
    let Action::Watch { keys, shard } = handle(&mut transaction, &router, watch(b"a")) else {
        panic!("observing is left to the owner");
    };
    let tokens = store.watch(keys);
    assert_eq!(
        transaction.watching(shard, &Reply::Okay, tokens),
        Frame::Simple(Bytes::from_static(b"OK"))
    );
    assert_eq!(
        reply(handle(&mut transaction, &router, watch(b"a"))),
        Frame::Simple(Bytes::from_static(b"OK"))
    );
    assert_eq!(
        reply(handle(&mut transaction, &router, watch(b"b"))),
        Frame::Error(Bytes::from_static(b"ERR WATCH key limit exceeded"))
    );
    let limits = TransactionLimits {
        max_watched: 2,
        ..LIMITS
    };
    let mut handle = |transaction: &mut Transaction, command: Command| {
        transaction.handle(command, 1, limits, &router, false, false)
    };
    assert!(matches!(
        reply(handle(&mut transaction, watch(b"b"))),
        Frame::Error(error) if error.starts_with(b"CROSSSLOT")
    ));
    handle(&mut transaction, Command::Multi);
    assert!(matches!(
        reply(handle(&mut transaction, Command::Get { key: Bytes::from_static(b"b") })),
        Frame::Error(error) if error.starts_with(b"CROSSSLOT")
    ));
    let Action::Reply { frame, released } = handle(&mut transaction, Command::Exec) else {
        panic!("expected immediate reply");
    };
    assert!(matches!(frame, Frame::Error(error) if error.starts_with(b"EXECABORT")));
    assert_eq!(released.len(), 1);
    assert_eq!(released[0].key().as_ref(), b"a");
    // EXECABORT removes tokens and the pinned shard; WATCH then accepts the other shard.
    let Action::Watch { keys, shard } = handle(&mut transaction, watch(b"b")) else {
        panic!("observing is left to the owner");
    };
    let tokens = store.watch(keys);
    assert_eq!(
        transaction.watching(shard, &Reply::Okay, tokens),
        Frame::Simple(Bytes::from_static(b"OK"))
    );
}

#[test]
fn queued_commands_are_executed_together() {
    let router = ShardRouter::new(1).unwrap();
    let mut transaction = Transaction::new();
    assert!(matches!(
        handle(&mut transaction, &router, set(b"a")),
        Action::Execute(_)
    ));
    assert_eq!(
        text(reply(handle(&mut transaction, &router, Command::Exec))),
        "ERR EXEC without MULTI"
    );
    assert_eq!(
        text(reply(handle(&mut transaction, &router, Command::Discard))),
        "ERR DISCARD without MULTI"
    );
    assert_eq!(
        text(reply(handle(&mut transaction, &router, Command::Multi))),
        "OK"
    );
    assert_eq!(
        text(reply(handle(&mut transaction, &router, Command::Multi))),
        "ERR MULTI calls can not be nested"
    );
    assert_eq!(
        text(reply(handle(&mut transaction, &router, set(b"a")))),
        "QUEUED"
    );
    assert_eq!(
        text(reply(handle(&mut transaction, &router, set(b"b")))),
        "QUEUED"
    );
    let Action::Exec { commands, watched } = handle(&mut transaction, &router, Command::Exec)
    else {
        panic!("the queue is executed");
    };
    assert_eq!(commands, vec![set(b"a"), set(b"b")]);
    assert!(watched.is_empty());
}

#[test]
fn a_refused_command_aborts_the_transaction() {
    let router = ShardRouter::new(1).unwrap();
    let mut transaction = Transaction::new();
    handle(&mut transaction, &router, Command::Multi);
    for key in [b"a", b"b"] {
        handle(&mut transaction, &router, set(key));
    }
    assert!(matches!(
        reply(handle(&mut transaction, &router, set(b"c"))),
        Frame::Error(_)
    ));
    assert_eq!(
        text(reply(handle(&mut transaction, &router, Command::Exec))),
        "EXECABORT Transaction discarded because of previous errors."
    );
    handle(&mut transaction, &router, Command::Multi);
    transaction.poison();
    assert_eq!(
        text(reply(handle(&mut transaction, &router, Command::Exec))),
        "EXECABORT Transaction discarded because of previous errors."
    );
}

#[test]
fn replicas_refuse_writes_before_queueing_them() {
    let router = ShardRouter::new(1).unwrap();
    let mut transaction = Transaction::new();
    let action = transaction.handle(set(b"a"), 1, LIMITS, &router, true, false);
    assert_eq!(
        text(reply(action)),
        "READONLY You can't write against a read only replica."
    );
}

fn request(words: &[&'static [u8]]) -> Frame {
    Frame::Array(Some(
        words
            .iter()
            .map(|word| Frame::Bulk(Some(Bytes::from_static(word))))
            .collect(),
    ))
}

fn step(words: &[&'static [u8]], subscribed: bool) -> Step {
    let router = ShardRouter::new(1).unwrap();
    let mut transaction = Transaction::new();
    let frame = request(words);
    let name = command_name(&frame);
    let bytes = request_bytes(&frame);
    next_step(
        &mut transaction,
        parse(frame, vec![]),
        &name,
        bytes,
        LIMITS,
        &router,
        false,
        subscribed,
    )
}

#[test]
fn requests_lead_to_one_step_each() {
    assert!(matches!(step(&[b"GET", b"k"], false), Step::Execute(_)));
    assert!(matches!(
        step(&[b"SUBSCRIBE", b"c"], false),
        Step::Subscribe(_)
    ));
    assert!(matches!(
        step(&[b"PUBLISH", b"c", b"m"], false),
        Step::Publish(_)
    ));
    assert!(matches!(
        step(&[b"NOPE"], false),
        Step::Reply {
            frame: Frame::Error(_),
            ..
        }
    ));
    let Step::Reply { frame, .. } = step(&[b"PING", b"x"], true) else {
        panic!("subscribers are answered at once");
    };
    assert_eq!(
        frame,
        Frame::Array(Some(vec![
            Frame::Bulk(Some(Bytes::from_static(b"pong"))),
            Frame::Bulk(Some(Bytes::from_static(b"x")))
        ]))
    );
    let Step::Reply { frame, .. } = step(&[b"GeT", b"k"], true) else {
        panic!("subscribers are answered at once");
    };
    assert_eq!(
        text(frame),
        "ERR Can't execute 'get': only (P|S)SUBSCRIBE / (P|S)UNSUBSCRIBE / PING / QUIT / RESET are allowed in this context"
    );
    let router = ShardRouter::new(1).unwrap();
    assert!(matches!(
        next_step(
            &mut Transaction::new(),
            Err(RequestError::InvalidFormat),
            b"",
            0,
            LIMITS,
            &router,
            false,
            false
        ),
        Step::Close(_)
    ));
}

#[test]
fn names_that_are_no_text_are_shown_with_replacements() {
    let router = ShardRouter::new(1).unwrap();
    let shown = next_step(
        &mut Transaction::new(),
        parse(request(&[b"GET", b"k"]), vec![]),
        b"\xffab",
        0,
        LIMITS,
        &router,
        false,
        true,
    );
    let Step::Reply { frame, .. } = shown else {
        panic!("subscribers are answered at once");
    };
    assert!(text(frame).starts_with("ERR Can't execute '\u{fffd}ab'"));
}

#[test]
fn requests_are_counted_by_their_encoding() {
    assert_eq!(request_bytes(&request(&[b"GET", b"k"])), 20);
    assert_eq!(request_bytes(&request(&[])), 4);
}

#[test]
fn notifications_that_cannot_be_written_are_not_published() {
    let mut hub = Hub::new();
    let listener = hub.connect(1, 4).ok().unwrap();
    listener
        .subscribe(&mut hub, vec![Bytes::from_static(b"c")])
        .unwrap();
    let mut config = ServerConfig::default();
    let message = || Message {
        channel: Bytes::from_static(b"c"),
        payload: Bytes::from(vec![b'x'; 100]),
    };
    assert_eq!(
        publish(&mut hub, message(), response_limits(&config)),
        Frame::Integer(1)
    );
    config.max_response_bytes = 100;
    assert!(matches!(
        publish(&mut hub, message(), response_limits(&config)),
        Frame::Error(_)
    ));
    assert!(listener.try_message(&mut hub).is_some());
    assert!(listener.try_message(&mut hub).is_none());
    assert_eq!(transaction_limits(&config).max_commands, 128);
}

#[test]
fn reading_keeps_within_the_budget_of_the_connection() {
    assert_eq!(read_room(100, 0, 64), Some(64));
    assert_eq!(read_room(100, 90, 64), Some(10));
    assert_eq!(read_room(100, 100, 64), None);
}

#[test]
fn a_frame_is_timed_from_its_first_byte_on() {
    let mut timer = FrameTimer::new();
    assert_eq!(timer.deadline(10), Ok(None));
    timer.arrived(5);
    timer.arrived(9);
    assert_eq!(timer.deadline(10), Ok(Some(15)));
    timer.taken(false);
    assert_eq!(timer.deadline(10), Ok(Some(19)));
    timer.taken(true);
    assert_eq!(timer.deadline(10), Ok(None));
    timer.arrived(u128::MAX);
    assert_eq!(timer.deadline(1), Err(()));
}

#[test]
fn a_request_counts_the_bytes_of_its_encoding() {
    for words in [
        &[b"PING".as_slice()][..],
        &[b"SET", b"", b"0123456789"],
        &[b"ECHO", b"a\r\n\0"],
        &[],
    ] {
        let frame = request(words);
        let mut encoded = BytesMut::new();
        encode(&frame, &mut encoded, RespLimits::default()).unwrap();
        assert_eq!(request_bytes(&frame), encoded.len());
    }
}

#[test]
fn input_that_ends_inside_a_request_is_truncated() {
    assert_eq!(end_of_input(0), InputEnd::Clean);
    assert_eq!(end_of_input(1), InputEnd::Truncated);
}
