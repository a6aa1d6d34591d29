use bytes::Bytes;
use sider::command::hexadecimal::parse_hex;
use sider::command::score::{rank, read_score, show_score};
use sider::command::{parse, score_texts, Command, RequestError, Score, SortedSetCommand};
use sider::resp::Frame;
use sider::storage::value::SortedSet;

fn decimal(text: &str) -> Option<u64> {
    text.parse::<f64>().ok().map(f64::to_bits)
}

fn read(text: &str) -> Option<f64> {
    read_score(text.as_bytes(), decimal(text)).map(f64::from_bits)
}

/// The shortest digits of a number and their power of ten.
fn shortest(value: f64) -> (Vec<u8>, i32) {
    let text = format!("{:e}", value.abs());
    let (digits, exponent) = text.split_once('e').unwrap_or(("0", "0"));
    let whole: String = digits.chars().filter(|digit| *digit != '.').collect();
    let power = exponent.parse::<i32>().unwrap_or(0) - (whole.len() as i32 - 1);
    (whole.into_bytes(), power)
}

fn show(value: f64) -> String {
    let (digits, power) = shortest(value);
    String::from_utf8(show_score(value.to_bits(), &digits, power)).unwrap()
}

#[test]
fn hexadecimal_texts_tell_the_nearest_number() {
    for (text, value) in [
        ("0x1", 1.0),
        ("-0x1.8p1", -3.0),
        ("+0X.8", 0.5),
        ("0x1p-1074", f64::from_bits(1)),
        ("0x1.fffffffffffffp1023", f64::MAX),
        ("0x0.0p99999999999999999999", 0.0),
        ("0x1.00000000000008", 1.0),
        ("0x1.000000000000080000001", 1.0 + f64::EPSILON),
        ("0x1.00000000000018", 1.0 + 2.0 * f64::EPSILON),
        ("0x123456789abcdef0123", 5.373003642731685e+21),
        ("0x10000000000000000000p-76", 1.0),
    ] {
        assert_eq!(
            parse_hex(text.as_bytes()).map(f64::from_bits),
            Some(value),
            "{text}"
        );
    }
    assert_eq!(parse_hex(b"-0x0"), Some(0));
    for text in [
        "0x", "0x.", "0x1.2.3", "0x1p", "0x1p+", "0x1pz", "0xg", "0x1p1024", "0x1p-1076",
        "0x1.fffffffffffff8p1023",
        "0x1p99999999999999999999999999999999999999999999",
        "0x1p-99999999999999999999999999999999999999999999",
    ] {
        assert_eq!(parse_hex(text.as_bytes()), None, "{text}");
    }
}

#[test]
fn decimal_texts_keep_to_the_range_of_the_format() {
    assert_eq!(read("1.5"), Some(1.5));
    assert_eq!(read("-inf"), Some(f64::NEG_INFINITY));
    assert_eq!(read("+Infinity"), Some(f64::INFINITY));
    assert_eq!(read("1e400"), None);
    assert_eq!(read("1e-400"), None);
    assert_eq!(read("0e-400"), Some(0.0));
    assert_eq!(read("-0"), Some(0.0));
    assert_eq!(read_score(b"-0", decimal("-0")), Some(0));
    assert_eq!(read("nan"), None);
    assert_eq!(read("abc"), None);
    assert_eq!(read("0x10"), Some(16.0));
}

#[test]
fn scores_are_shown_with_as_few_digits_as_they_need() {
    for (value, text) in [
        (0.0, "0"),
        (3.0, "3"),
        (-17.0, "-17"),
        (4611686018427387904.0, "4611686018427387904"),
        (9223372036854775808.0, "9223372036854776000"),
        (1e21, "1e+21"),
        (0.1, "0.1"),
        (-1.5, "-1.5"),
        (123.456, "123.456"),
        (1e-7, "1e-7"),
        (0.000001, "0.000001"),
        (1.5e300, "1.5e+300"),
        (5e-324, "5e-324"),
        (f64::INFINITY, "inf"),
        (f64::NEG_INFINITY, "-inf"),
    ] {
        assert_eq!(show(value), text, "{value:e}");
    }
}

#[test]
fn ranks_follow_the_order_of_the_numbers() {
    let numbers = [
        f64::NEG_INFINITY,
        -1e300,
        -2.0,
        -1.0,
        -5e-324,
        0.0,
        5e-324,
        0.5,
        1.0,
        1e300,
        f64::INFINITY,
    ];
    for pair in numbers.windows(2) {
        assert!(rank(pair[0].to_bits()) < rank(pair[1].to_bits()));
    }
}

#[test]
fn scores_have_one_zero_and_no_nan() {
    let (digits, power) = shortest(2.5);
    let score = Score::new(2.5f64.to_bits(), &digits, power).unwrap();
    assert_eq!(score.text.as_ref(), b"2.5");
    assert_eq!(score.order, 2.5f64.to_bits() as i64);
    assert!(Score::new(f64::NAN.to_bits(), b"0", 0).is_none());
    let zero = Score::new((-0.0f64).to_bits(), b"0", 0).unwrap();
    assert_eq!((zero.order, zero.text.as_ref()), (0, b"0".as_slice()));
}

#[test]
fn requests_are_read_with_the_scores_of_their_arguments() {
    let frame = || {
        Frame::Array(Some(
            [b"ZADD".as_slice(), b"z", b"1", b"a", b"x", b"b"]
                .iter()
                .map(|word| Frame::Bulk(Some(Bytes::copy_from_slice(word))))
                .collect(),
        ))
    };
    assert_eq!(
        score_texts(&frame()),
        vec![Bytes::from_static(b"1"), Bytes::from_static(b"x")]
    );
    let one = || Score::new(1.0f64.to_bits(), b"1", 0);
    assert_eq!(
        parse(frame(), vec![one(), None]),
        Err(RequestError::InvalidFloat)
    );
    assert_eq!(
        parse(frame(), vec![one(), one()]),
        Ok(Command::SortedSet {
            key: Bytes::from_static(b"z"),
            operation: SortedSetCommand::Add {
                entries: vec![
                    (one().unwrap(), Bytes::from_static(b"a")),
                    (one().unwrap(), Bytes::from_static(b"b")),
                ],
            },
        })
    );
}

#[test]
fn a_sorted_set_lists_its_members_with_their_ranks() {
    let mut set = SortedSet::new();
    for (member, value, digits) in [(b"z", 1.0f64, b"1"), (b"b", 3.0, b"3"), (b"a", 3.0, b"3")] {
        let score = Score::new(value.to_bits(), digits, 0).unwrap();
        assert_eq!(set.insert(Bytes::from_static(member), score), (true, true));
    }
    let expected = [(1.0f64, b"z"), (3.0, b"a"), (3.0, b"b")];
    assert_eq!(set.ranked().len(), expected.len());
    for (entry, (value, member)) in set.ranked().iter().zip(expected) {
        assert_eq!(entry.0, rank(value.to_bits()));
        assert_eq!(entry.1.as_ref(), member);
    }
}
