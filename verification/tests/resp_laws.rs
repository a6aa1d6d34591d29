use bytes::{Bytes, BytesMut};
use sider::resp::{encode, Decoder, Frame, RespLimits};

fn frames() -> Vec<Frame> {
    vec![
        Frame::Simple(Bytes::from_static(b"OK")),
        Frame::Error(Bytes::from_static(b"ERR \xff")),
        Frame::Integer(i64::MIN),
        Frame::Bulk(None),
        Frame::Bulk(Some(Bytes::from_static(b"\0\r\n"))),
        Frame::Array(None),
        Frame::Array(Some(vec![])),
        Frame::Array(Some(vec![
            Frame::Array(Some(vec![Frame::Integer(7)])),
            Frame::Bulk(Some(Bytes::new())),
        ])),
    ]
}

#[test]
fn frames_are_read_back_as_they_were_written() {
    for frame in frames() {
        let mut wire = BytesMut::new();
        encode(&frame, &mut wire, RespLimits::default()).unwrap();
        wire.extend_from_slice(b"+next\r\n");
        let mut decoder = Decoder::new(RespLimits::default()).unwrap();
        assert_eq!(decoder.decode(&mut wire).unwrap(), Some(frame));
        assert_eq!(wire.as_ref(), b"+next\r\n");
    }
}

#[test]
fn a_frame_does_not_depend_on_how_its_bytes_arrive() {
    for frame in frames() {
        let mut wire = BytesMut::new();
        encode(&frame, &mut wire, RespLimits::default()).unwrap();
        for cut in 0..wire.len() {
            let mut decoder = Decoder::new(RespLimits::default()).unwrap();
            let mut input = BytesMut::from(&wire[..cut]);
            assert_eq!(decoder.decode(&mut input).unwrap(), None);
            input.extend_from_slice(&wire[cut..]);
            let found = decoder.decode(&mut input).unwrap().unwrap();
            let mut again = BytesMut::new();
            encode(&found, &mut again, RespLimits::default()).unwrap();
            assert_eq!(again, wire);
        }
    }
}
