use bytes::Bytes;
use sider::command::score::read_score;
use sider::command::{score_texts, Command, RequestError, Score, SortedSetCommand};
use sider::resp::Frame;

/// The shortest digits of a number and their power of ten.
fn shortest(value: f64) -> (Vec<u8>, i32) {
    let text = format!("{:e}", value.abs());
    let (digits, exponent) = text.split_once('e').unwrap_or(("0", "0"));
    let whole: String = digits.chars().filter(|digit| *digit != '.').collect();
    let power = exponent.parse::<i32>().unwrap_or(0) - (whole.len() as i32 - 1);
    (whole.into_bytes(), power)
}

fn score(text: &[u8]) -> Option<Score> {
    let decimal = std::str::from_utf8(text)
        .ok()
        .and_then(|text| text.parse::<f64>().ok())
        .map(f64::to_bits);
    let bits = read_score(text, decimal)?;
    let (digits, power) = shortest(f64::from_bits(bits));
    Score::new(bits, &digits, power)
}

fn parse(frame: Frame) -> Result<Command, RequestError> {
    let scores = score_texts(&frame).iter().map(|text| score(text)).collect();
    sider::command::parse(frame, scores)
}

fn request(args: &[&'static [u8]]) -> Frame {
    Frame::Array(Some(
        args.iter()
            .map(|bytes| Frame::Bulk(Some(Bytes::from_static(bytes))))
            .collect(),
    ))
}

#[test]
fn validates_format_before_command_and_arity() {
    for frame in [
        Frame::Array(None),
        Frame::Array(Some(vec![])),
        Frame::Bulk(Some(Bytes::from_static(b"PING"))),
        Frame::Array(Some(vec![Frame::Simple(Bytes::from_static(b"PING"))])),
        Frame::Array(Some(vec![Frame::Bulk(None)])),
        Frame::Array(Some(vec![
            Frame::Bulk(Some(Bytes::from_static(b"unknown"))),
            Frame::Integer(0),
        ])),
        Frame::Array(Some(vec![
            Frame::Bulk(Some(Bytes::from_static(b"GET"))),
            Frame::Array(Some(vec![])),
        ])),
    ] {
        assert_eq!(parse(frame), Err(RequestError::InvalidFormat));
    }
    assert!(RequestError::InvalidFormat.is_fatal());
    assert!(!RequestError::UnknownCommand.is_fatal());
    assert!(!RequestError::WrongArity("set").is_fatal());
    assert!(!RequestError::Syntax.is_fatal());
}

#[test]
fn ascii_case_does_not_change_binary_arguments() {
    assert_eq!(parse(request(&[b"pInG"])), Ok(Command::Ping(None)));
    assert_eq!(
        parse(request(&[b"PiNg", b"\0\xff"])),
        Ok(Command::Ping(Some(Bytes::from_static(b"\0\xff"))))
    );
    assert_eq!(
        parse(request(&[b"eChO", b""])),
        Ok(Command::Echo(Bytes::new()))
    );
    assert_eq!(
        parse(request(&[b"gEt", b"K\r\n"])),
        Ok(Command::Get {
            key: Bytes::from_static(b"K\r\n")
        })
    );
    assert_eq!(
        parse(request(&[b"sEt", b"", b"\0\xff"])),
        Ok(Command::SetValue {
            key: Bytes::new(),
            value: Bytes::from_static(b"\0\xff")
        })
    );
}

#[test]
fn del_preserves_duplicates_and_binary_keys() {
    assert_eq!(
        parse(request(&[b"dEl", b"a", b"a", b"\xff"])),
        Ok(Command::Del {
            keys: vec![
                Bytes::from_static(b"a"),
                Bytes::from_static(b"a"),
                Bytes::from_static(b"\xff")
            ]
        })
    );
}

#[test]
fn invalid_options_and_unknown_commands_have_explicit_errors() {
    for option in [b"EX".as_slice(), b"PX", b"invalid"] {
        assert_eq!(
            parse(request(&[b"SET", b"key", b"value", option])),
            Err(RequestError::Syntax)
        );
    }
    for name in [b"".as_slice(), b"\xff", b"GET\0", b"SELECT"] {
        assert_eq!(parse(request(&[name])), Err(RequestError::UnknownCommand));
    }
    assert_eq!(
        RequestError::UnknownCommand.into_frame(),
        Frame::Error(Bytes::from_static(b"ERR unknown command"))
    );
    assert_eq!(
        RequestError::Syntax.into_frame(),
        Frame::Error(Bytes::from_static(b"ERR syntax error"))
    );
}

#[test]
fn parsing_moves_payload_without_a_second_copy() {
    let payload = Bytes::from(vec![b'x'; 1024]);
    let address = payload.as_ptr();
    let frame = Frame::Array(Some(vec![
        Frame::Bulk(Some(Bytes::from_static(b"ECHO"))),
        Frame::Bulk(Some(payload)),
    ]));
    let Command::Echo(value) = parse(frame).unwrap() else {
        panic!("echo esperado")
    };
    assert_eq!(value.as_ptr(), address);
}

#[test]
fn members_are_read_with_their_scores() {
    let Ok(Command::SortedSet { key, operation }) =
        parse(request(&[b"zAdd", b"z", b"-1.5", b"a", b"0x10", b"b"]))
    else {
        panic!("no sorted set");
    };
    assert_eq!(key.as_ref(), b"z");
    let SortedSetCommand::Add { entries } = operation else {
        panic!("nothing is added");
    };
    let shown: Vec<(&[u8], &[u8])> = entries
        .iter()
        .map(|(score, member)| (score.text.as_ref(), member.as_ref()))
        .collect();
    assert_eq!(
        shown,
        vec![(b"-1.5".as_slice(), b"a".as_slice()), (b"16", b"b")]
    );
    assert_eq!(
        parse(request(&[b"ZADD", b"z", b"1", b"a", b"1e400", b"b"])),
        Err(RequestError::InvalidFloat)
    );
    assert_eq!(
        parse(request(&[b"ZADD", b"z", b"1"])),
        Err(RequestError::WrongArity("zadd"))
    );
}
