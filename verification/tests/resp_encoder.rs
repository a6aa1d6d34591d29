use bytes::{Bytes, BytesMut};
use sider::resp::{encode, EncodeError, Frame, RespLimits};

#[test]
fn invalid_late_child_leaves_bytes_and_capacity_unchanged() {
    let frame = Frame::Array(Some(vec![
        Frame::Bulk(Some(Bytes::from_static(b"valid"))),
        Frame::Array(Some(vec![Frame::Error(Bytes::from_static(b"bad\rline"))])),
    ]));
    let mut output = BytesMut::from(&b"existing"[..]);
    let capacity = output.capacity();
    assert!(matches!(
        encode(&frame, &mut output, RespLimits::default()),
        Err(EncodeError::InvalidFrame(_))
    ));
    assert_eq!(output, b"existing"[..]);
    assert_eq!(output.capacity(), capacity);
}

#[test]
fn oversized_simple_payload_is_rejected_before_content_scan() {
    let frame = Frame::Simple(Bytes::from_static(b"oversized\n"));
    let limits = RespLimits {
        max_line_bytes: 4,
        ..RespLimits::default()
    };
    let mut output = BytesMut::from(&b"prefix"[..]);
    assert!(matches!(
        encode(&frame, &mut output, limits),
        Err(EncodeError::LimitExceeded("max_line_bytes"))
    ));
    assert_eq!(output, b"prefix"[..]);
}

#[test]
fn every_budget_is_checked_without_appending_partial_output() {
    let frame = Frame::Array(Some(vec![Frame::Bulk(Some(Bytes::from_static(b"hello")))]));
    for limits in [
        RespLimits {
            max_frame_bytes: 14,
            max_bulk_bytes: 5,
            max_line_bytes: 4,
            ..RespLimits::default()
        },
        RespLimits {
            max_bulk_bytes: 4,
            ..RespLimits::default()
        },
        RespLimits {
            max_line_bytes: 3,
            ..RespLimits::default()
        },
        RespLimits {
            max_nodes: 1,
            ..RespLimits::default()
        },
        RespLimits {
            max_depth: 0,
            ..RespLimits::default()
        },
    ] {
        let mut output = BytesMut::from(&b"prefix"[..]);
        assert!(encode(&frame, &mut output, limits).is_err(), "{limits:?}");
        assert_eq!(output, b"prefix"[..]);
    }
}

#[test]
fn exact_frame_limits_allow_an_existing_output_prefix() {
    let frame = Frame::Array(Some(vec![Frame::Bulk(Some(Bytes::from_static(b"hello")))]));
    let limits = RespLimits {
        max_frame_bytes: 15,
        max_bulk_bytes: 5,
        max_line_bytes: 4,
        max_nodes: 2,
        max_depth: 1,
    };
    let mut output = BytesMut::from(&b"prefix"[..]);
    encode(&frame, &mut output, limits).unwrap();
    assert_eq!(output, b"prefix*1\r\n$5\r\nhello\r\n"[..]);
}

#[test]
fn null_and_empty_arrays_count_toward_depth() {
    for value in [Frame::Array(None), Frame::Array(Some(Vec::new()))] {
        let frame = Frame::Array(Some(vec![value]));
        let limits = RespLimits {
            max_depth: 1,
            ..RespLimits::default()
        };
        let mut output = BytesMut::new();
        assert!(matches!(
            encode(&frame, &mut output, limits),
            Err(EncodeError::LimitExceeded("max_depth"))
        ));
        assert!(output.is_empty());
    }
}

#[test]
fn default_and_invalid_configurations_are_explicit() {
    RespLimits::default().validate().unwrap();
    for limits in [
        RespLimits {
            max_frame_bytes: 0,
            ..RespLimits::default()
        },
        RespLimits {
            max_bulk_bytes: 0,
            ..RespLimits::default()
        },
        RespLimits {
            max_line_bytes: 0,
            ..RespLimits::default()
        },
        RespLimits {
            max_nodes: 0,
            ..RespLimits::default()
        },
        RespLimits {
            max_depth: 0,
            ..RespLimits::default()
        },
        RespLimits {
            max_depth: 129,
            ..RespLimits::default()
        },
        RespLimits {
            max_bulk_bytes: usize::MAX,
            ..RespLimits::default()
        },
        RespLimits {
            max_line_bytes: usize::MAX,
            ..RespLimits::default()
        },
    ] {
        assert!(limits.validate().is_err(), "{limits:?}");
    }
}
