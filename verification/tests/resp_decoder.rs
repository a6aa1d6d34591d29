use bytes::{Bytes, BytesMut};
use sider::resp::{Decoder, Frame, ProtocolError, RespLimits};

fn limits() -> RespLimits {
    RespLimits {
        max_frame_bytes: 4096,
        max_bulk_bytes: 1024,
        max_line_bytes: 128,
        max_nodes: 64,
        max_depth: 4,
    }
}

fn decode_all(wire: &[u8]) -> Frame {
    let mut decoder = Decoder::new(limits()).unwrap();
    let mut src = BytesMut::from(wire);
    let frame = decoder.decode(&mut src).unwrap().unwrap();
    assert!(src.is_empty());
    frame
}

fn assert_error(wire: &[u8], limits: RespLimits, expected: ProtocolError) {
    let mut decoder = Decoder::new(limits).unwrap();
    let mut src = BytesMut::from(wire);
    assert_eq!(decoder.decode(&mut src), Err(expected));
    assert_eq!(src.as_ref(), wire);
    assert_eq!(decoder.decode(&mut src), Err(ProtocolError::Poisoned));
    assert_eq!(src.as_ref(), wire);
    assert_eq!(decoder.metadata(), (0, 0));
}

#[test]
fn decodes_all_types_and_preserves_binary_payloads() {
    assert_eq!(
        decode_all(b"+\xff\0\r\n"),
        Frame::Simple(Bytes::from_static(b"\xff\0"))
    );
    assert_eq!(
        decode_all(b"-ERR\r\n"),
        Frame::Error(Bytes::from_static(b"ERR"))
    );
    assert_eq!(decode_all(b":-42\r\n"), Frame::Integer(-42));
    assert_eq!(
        decode_all(b"$4\r\n\0\r\n\xff\r\n"),
        Frame::Bulk(Some(Bytes::from_static(b"\0\r\n\xff")))
    );
    assert_eq!(
        decode_all(b"*2\r\n:1\r\n*2\r\n+ok\r\n$-1\r\n"),
        Frame::Array(Some(vec![
            Frame::Integer(1),
            Frame::Array(Some(vec![
                Frame::Simple(Bytes::from_static(b"ok")),
                Frame::Bulk(None)
            ]))
        ]))
    );
}

#[test]
fn distinguishes_null_and_empty_values() {
    assert_eq!(decode_all(b"$-1\r\n"), Frame::Bulk(None));
    assert_eq!(decode_all(b"$0\r\n\r\n"), Frame::Bulk(Some(Bytes::new())));
    assert_eq!(decode_all(b"*-1\r\n"), Frame::Array(None));
    assert_eq!(decode_all(b"*0\r\n"), Frame::Array(Some(vec![])));
    assert_eq!(decode_all(b"+\r\n"), Frame::Simple(Bytes::new()));
    assert_eq!(decode_all(b"-\r\n"), Frame::Error(Bytes::new()));
}

#[test]
fn parses_integer_extremes_and_normalizable_forms() {
    for (wire, value) in [
        (b":9223372036854775807\r\n".as_slice(), i64::MAX),
        (b":-9223372036854775808\r\n".as_slice(), i64::MIN),
        (b":+00042\r\n".as_slice(), 42),
        (b":-0\r\n".as_slice(), 0),
    ] {
        assert_eq!(decode_all(wire), Frame::Integer(value));
    }
    assert_eq!(
        decode_all(b"$0001\r\nx\r\n"),
        Frame::Bulk(Some(Bytes::from_static(b"x")))
    );
    assert_eq!(decode_all(b"*0000\r\n"), Frame::Array(Some(vec![])));
}

#[test]
fn preserves_every_incomplete_prefix_and_concatenated_suffix() {
    let wire = b"*3\r\n:7\r\n*2\r\n$4\r\n\0\r\n\xff\r\n$-1\r\n+tail\r\n";
    for split in 0..wire.len() {
        let mut decoder = Decoder::new(limits()).unwrap();
        let mut src = BytesMut::from(&wire[..split]);
        assert_eq!(decoder.decode(&mut src), Ok(None), "split {split}");
        assert_eq!(src.as_ref(), &wire[..split]);
        src.extend_from_slice(&wire[split..]);
        src.extend_from_slice(b":8\r\n");
        assert_eq!(decoder.decode(&mut src), Ok(Some(decode_all(wire))));
        assert_eq!(src.as_ref(), b":8\r\n");
        assert_eq!(decoder.decode(&mut src), Ok(Some(Frame::Integer(8))));
        assert!(src.is_empty());
        assert_eq!(decoder.decode(&mut src), Ok(None));
    }
}

#[test]
fn handles_byte_by_byte_input_and_no_new_bytes() {
    let wire = b"*2\r\n$4\r\n\0\r\n\xff\r\n+ok\r\n";
    let mut decoder = Decoder::new(limits()).unwrap();
    let mut src = BytesMut::new();
    for (index, byte) in wire.iter().enumerate() {
        src.extend_from_slice(&[*byte]);
        if index + 1 < wire.len() {
            assert_eq!(decoder.decode(&mut src), Ok(None));
            assert_eq!(src.as_ref(), &wire[..=index]);
            assert_eq!(decoder.decode(&mut src), Ok(None));
        } else {
            assert_eq!(decoder.decode(&mut src), Ok(Some(decode_all(wire))));
        }
    }
    assert!(src.is_empty());
}

#[test]
fn rejects_malformed_lines_lengths_and_terminators_without_consumption() {
    for wire in [
        b"?foo\r\n".as_slice(),
        b"+foo\n",
        b"+foo\rx",
        b":\r\n",
        b":+\r\n",
        b":--1\r\n",
        b": 1\r\n",
        b":1 \r\n",
        b":\xff\r\n",
        b":9223372036854775808\r\n",
        b":-9223372036854775809\r\n",
        b"$\r\n",
        b"$+1\r\n",
        b"$-0\r\n",
        b"$-01\r\n",
        b"$-2\r\n",
        b"*+1\r\n",
        b"*-0\r\n",
        b"*-01\r\n",
        b"*-2\r\n",
        b"$999999999999999999999999999999999999999999999\r\n",
        b"*999999999999999999999999999999999999999999999\r\n",
        b"$1\r\nx\n\n",
        b"$1\r\nx\rx",
        b"*2\r\n+ok\r\n?bad\r\n",
    ] {
        let mut decoder = Decoder::new(limits()).unwrap();
        let mut src = BytesMut::from(wire);
        assert!(
            matches!(decoder.decode(&mut src), Err(ProtocolError::Malformed(_))),
            "{wire:?}"
        );
        assert_eq!(src.as_ref(), wire);
        assert_eq!(decoder.decode(&mut src), Err(ProtocolError::Poisoned));
    }
}

#[test]
fn enforces_exact_bulk_and_frame_budgets_including_framing() {
    let exact = RespLimits {
        max_frame_bytes: 9,
        max_bulk_bytes: 3,
        max_line_bytes: 9,
        ..limits()
    };
    let mut decoder = Decoder::new(exact).unwrap();
    let mut src = BytesMut::from(b"$3\r\nabc\r\n+suffix\r\n".as_slice());
    assert_eq!(
        decoder.decode(&mut src),
        Ok(Some(Frame::Bulk(Some(Bytes::from_static(b"abc")))))
    );
    assert_eq!(src.as_ref(), b"+suffix\r\n");
    assert_error(
        b"$4\r\n",
        exact,
        ProtocolError::LimitExceeded("max_bulk_bytes"),
    );
    assert_error(
        b"$3\r\n",
        RespLimits {
            max_frame_bytes: 8,
            max_line_bytes: 8,
            ..exact
        },
        ProtocolError::LimitExceeded("max_frame_bytes"),
    );
    assert_error(
        b"+1234567\r\n",
        exact,
        ProtocolError::LimitExceeded("max_frame_bytes"),
    );
}

#[test]
fn line_limit_counts_prefix_and_crlf() {
    let exact = RespLimits {
        max_line_bytes: 5,
        ..limits()
    };
    let mut decoder = Decoder::new(exact).unwrap();
    let mut src = BytesMut::from(b"+ab\r\n".as_slice());
    assert_eq!(
        decoder.decode(&mut src),
        Ok(Some(Frame::Simple(Bytes::from_static(b"ab"))))
    );
    for wire in [b"+abc\r\n".as_slice(), b"+abc", b"$000\r\n", b"*000\r\n"] {
        assert_error(wire, exact, ProtocolError::LimitExceeded("max_line_bytes"));
    }
}

#[test]
fn declared_nodes_include_root_and_unparsed_siblings() {
    let exact = RespLimits {
        max_nodes: 4,
        ..limits()
    };
    let mut decoder = Decoder::new(exact).unwrap();
    let mut src = BytesMut::from(b"*2\r\n*1\r\n:1\r\n:2\r\n".as_slice());
    assert!(decoder.decode(&mut src).unwrap().is_some());
    assert_error(b"*4\r\n", exact, ProtocolError::LimitExceeded("max_nodes"));
    assert_error(
        b"*2\r\n*2\r\n",
        exact,
        ProtocolError::LimitExceeded("max_nodes"),
    );
    let mut decoder = Decoder::new(RespLimits {
        max_nodes: 1000,
        ..limits()
    })
    .unwrap();
    let mut src = BytesMut::from(b"*999\r\n".as_slice());
    assert_eq!(decoder.decode(&mut src), Ok(None));
    assert_eq!(decoder.metadata(), (1, 1));
}

#[test]
fn rejects_arrays_that_cannot_fit_the_frame_even_before_children_arrive() {
    assert_error(
        b"*3\r\n",
        RespLimits {
            max_frame_bytes: 12,
            max_bulk_bytes: 8,
            max_line_bytes: 8,
            ..limits()
        },
        ProtocolError::LimitExceeded("max_frame_bytes"),
    );
}

#[test]
fn depth_includes_empty_and_null_arrays_but_not_scalars() {
    let exact = RespLimits {
        max_depth: 2,
        ..limits()
    };
    for wire in [
        b"*1\r\n*1\r\n:0\r\n".as_slice(),
        b"*1\r\n*0\r\n",
        b"*1\r\n*-1\r\n",
    ] {
        let mut decoder = Decoder::new(exact).unwrap();
        assert!(decoder.decode(&mut BytesMut::from(wire)).unwrap().is_some());
    }
    for wire in [b"*1\r\n*1\r\n*0\r\n".as_slice(), b"*1\r\n*1\r\n*-1\r\n"] {
        assert_error(wire, exact, ProtocolError::LimitExceeded("max_depth"));
    }
}

#[test]
fn detects_shrinking_incomplete_buffers_and_stays_closed() {
    let mut decoder = Decoder::new(limits()).unwrap();
    let mut src = BytesMut::from(b"$5\r\nabc".as_slice());
    assert_eq!(decoder.decode(&mut src), Ok(None));
    src.truncate(6);
    let snapshot = src.clone();
    assert_eq!(decoder.decode(&mut src), Err(ProtocolError::BufferChanged));
    assert_eq!(src, snapshot);
    src.extend_from_slice(b"de\r\n");
    assert_eq!(decoder.decode(&mut src), Err(ProtocolError::Poisoned));
}

#[test]
fn incomplete_frames_store_metadata_without_materializing_payloads() {
    let mut decoder = Decoder::new(limits()).unwrap();
    let mut src = BytesMut::from(b"*2\r\n$3\r\nabc\r\n$2\r\nx".as_slice());
    assert_eq!(decoder.decode(&mut src), Ok(None));
    assert_eq!(decoder.metadata().0, 2);
    src.extend_from_slice(b"y\r\n");
    assert_eq!(
        decoder.decode(&mut src),
        Ok(Some(Frame::Array(Some(vec![
            Frame::Bulk(Some(Bytes::from_static(b"abc"))),
            Frame::Bulk(Some(Bytes::from_static(b"xy")))
        ]))))
    );
}

#[test]
fn completed_payloads_do_not_retain_the_network_allocation() {
    for wire in [b"+small\r\n".as_slice(), b"-small\r\n", b"$5\r\nsmall\r\n"] {
        let mut decoder = Decoder::new(limits()).unwrap();
        let mut src = BytesMut::with_capacity(1024 * 1024);
        src.extend_from_slice(wire);
        let start = src.as_ptr() as usize;
        let end = start + src.capacity();
        let frame = decoder.decode(&mut src).unwrap().unwrap();
        let payload = match frame {
            Frame::Simple(payload) | Frame::Error(payload) | Frame::Bulk(Some(payload)) => {
                payload
            }
            _ => panic!("tipo diferente do fixture"),
        };
        let address = payload.as_ptr() as usize;
        assert!(address < start || address >= end);
        drop(src);
        assert_eq!(payload.as_ref(), b"small");
    }
}

#[test]
fn offsets_and_declared_node_arithmetic_cannot_overflow() {
    let largest = RespLimits {
        max_frame_bytes: usize::MAX,
        max_bulk_bytes: usize::MAX,
        max_nodes: usize::MAX,
        ..limits()
    };
    assert_error(
        format!("${}\r\n", usize::MAX).as_bytes(),
        largest,
        ProtocolError::LimitExceeded("max_frame_bytes"),
    );
    assert_error(
        format!("*{}\r\n", usize::MAX).as_bytes(),
        largest,
        ProtocolError::LimitExceeded("max_nodes"),
    );
    assert_error(
        format!("*{}\r\n", usize::MAX / 2).as_bytes(),
        largest,
        ProtocolError::LimitExceeded("max_frame_bytes"),
    );
}

#[test]
fn maximum_supported_depth_materializes_without_recursive_parsing() {
    let mut wire = b"*1\r\n".repeat(128);
    wire.extend_from_slice(b":0\r\n");
    let mut decoder = Decoder::new(RespLimits {
        max_depth: 128,
        max_nodes: 129,
        ..limits()
    })
    .unwrap();
    let mut src = BytesMut::from(wire.as_slice());
    let mut frame = decoder.decode(&mut src).unwrap().unwrap();
    for _ in 0..128 {
        let Frame::Array(Some(mut children)) = frame else {
            panic!("array esperado");
        };
        assert_eq!(children.len(), 1);
        frame = children.pop().unwrap();
    }
    assert_eq!(frame, Frame::Integer(0));
    assert!(src.is_empty());
}

#[test]
fn validates_configuration_before_accepting_input() {
    assert!(
        Decoder::new(RespLimits {
            max_nodes: 0,
            ..limits()
        })
        .is_err()
    );
}
