use bytes::Bytes;
use sider::persistence::format::{
    checksum, read_header, read_header_with_layout, write_header, write_header_with_layout,
    FormatError, Limits, Next, Record, HEADER_BYTES, LAYOUT_HEADER_BYTES,
};
use sider::persistence::record::{encode, read_record};
use sider::persistence::{DurableLayout, ROUTING_VERSION};
use sider::storage::{Mutation, MutationOrigin, ResolvedBatch, Value};

fn record() -> Record {
    Record::Batch {
        sequence: 42,
        batch: ResolvedBatch {
            origin: MutationOrigin::Client,
            mutations: vec![
                Mutation::Put {
                    key: Bytes::from_static(b"\xff\0"),
                    value: Value::String(Bytes::from_static(b"v\r\n")),
                    expires_at_unix_ms: Some(-1),
                },
                Mutation::Delete { key: Bytes::new() },
            ],
        },
    }
}

#[test]
fn checksum_matches_standard_vector() {
    assert_eq!(checksum(b"123456789"), 0xcbf43926);
}

#[test]
fn every_record_prefix_is_incomplete_and_complete_record_roundtrips() {
    let record = record();
    let encoded = encode(&record, Limits::default()).unwrap();
    assert_eq!(
        read_record(&encoded[..0], Limits::default()).unwrap(),
        Next::End
    );
    for length in 1..encoded.len() {
        assert_eq!(
            read_record(&encoded[..length], Limits::default()).unwrap(),
            Next::IncompleteTail,
            "prefix {length}"
        );
    }
    assert_eq!(
        read_record(encoded.as_slice(), Limits::default()).unwrap(),
        Next::Record(record)
    );
}

#[test]
fn every_single_byte_corruption_is_rejected() {
    let encoded = encode(&record(), Limits::default()).unwrap();
    for position in 0..encoded.len() {
        let mut corrupt = encoded.clone();
        corrupt[position] ^= 0x80;
        assert!(
            read_record(corrupt.as_slice(), Limits::default()).is_err(),
            "byte {position}"
        );
    }
}

#[test]
fn invalid_header_version_and_limits_fail_before_payload_allocation() {
    let mut header = Vec::new();
    write_header(&mut header, 7).unwrap();
    for length in 0..HEADER_BYTES {
        assert!(read_header(&header[..length]).is_err());
    }
    assert_eq!(read_header(header.as_slice()).unwrap(), 7);
    header[8..12].copy_from_slice(&2u32.to_le_bytes());
    let crc = checksum(&header[..20]);
    header[20..].copy_from_slice(&crc.to_le_bytes());
    assert!(matches!(
        read_header(header.as_slice()),
        Err(FormatError::Version(2))
    ));
    let huge = [
        u32::MAX.to_le_bytes(),
        0u32.to_le_bytes(),
        0u32.to_le_bytes(),
    ]
    .concat();
    assert!(matches!(
        read_record(huge.as_slice(), Limits::default()),
        Err(FormatError::Limit)
    ));
    assert!(
        encode(
            &record(),
            Limits {
                max_record_bytes: 1,
                ..Limits::default()
            }
        )
        .is_err()
    );
}

#[test]
fn headers_with_a_layout_are_read_back() {
    let layout = DurableLayout {
        shard_count: 7,
        routing_version: ROUTING_VERSION,
    };
    let mut bytes = Vec::new();
    write_header_with_layout(&mut bytes, 9, layout);
    assert_eq!(bytes.len(), LAYOUT_HEADER_BYTES);
    let header = read_header_with_layout(&bytes).unwrap();
    assert_eq!(header.layout, layout);
    assert_eq!(header.sequence, 9);
    assert_eq!(header.format_version, 2);
    assert_eq!(header.bytes, LAYOUT_HEADER_BYTES);
    bytes[13] ^= 1;
    assert!(matches!(
        read_header_with_layout(&bytes),
        Err(FormatError::Header)
    ));
}

#[test]
fn the_digest_of_a_snapshot_goes_on_where_it_stopped() {
    let first = sider::codec::snapshot_digest(0, b"12345");
    assert_eq!(sider::codec::snapshot_digest(first, b"6789"), 0xcbf43926);
}

#[test]
fn a_changed_byte_of_a_record_is_told_by_its_place() {
    let encoded = encode(&record(), Limits::default()).unwrap();
    for position in 0..encoded.len() {
        for mask in [1u8, 0x55, 0xff] {
            let mut corrupt = encoded.clone();
            corrupt[position] ^= mask;
            corrupt.extend_from_slice(&encoded);
            let fault = if position < 8 { "comprimento" } else { "checksum" };
            assert_eq!(
                read_record(corrupt.as_slice(), Limits::default()),
                Err(FormatError::Corrupt(fault)),
                "byte {position}"
            );
        }
    }
}

#[test]
fn a_record_that_is_read_is_written_with_the_same_bytes() {
    let mut log = Vec::new();
    for sequence in 1..4u64 {
        log.extend(
            encode(
                &Record::Batch {
                    sequence,
                    batch: ResolvedBatch {
                        origin: MutationOrigin::Expiration,
                        mutations: vec![Mutation::Delete {
                            key: Bytes::from_static(b"k"),
                        }],
                    },
                },
                Limits::default(),
            )
            .unwrap(),
        );
    }
    let mut place = 0;
    while place < log.len() {
        let Ok(Next::Record(read)) = read_record(&log[place..], Limits::default()) else {
            panic!("no record at {place}");
        };
        let written = encode(&read, Limits::default()).unwrap();
        assert_eq!(&log[place..place + written.len()], written.as_slice());
        place += written.len();
    }
    // A hash whose fields are out of order is no record, though its checksum fits.
    let mut body = vec![1u8, 3, 1, 0, 0, 0, b'h', 2, 0, 0, 0];
    for field in [b'b', b'a'] {
        body.extend([1, 0, 0, 0, field, 0, 0, 0, 0]);
    }
    body.extend([0u8; 9]);
    let size = body.len() as u32;
    let mut record = size.to_le_bytes().to_vec();
    record.extend((!size).to_le_bytes());
    record.extend(checksum(&body).to_le_bytes());
    record.extend(&body);
    assert_eq!(
        read_record(&record, Limits::default()),
        Err(FormatError::Corrupt("coleção"))
    );
}

#[test]
fn a_changed_byte_of_a_header_is_seen() {
    let layout = DurableLayout {
        shard_count: 4,
        routing_version: ROUTING_VERSION,
    };
    let mut plain = Vec::new();
    write_header(&mut plain, 77).unwrap();
    let mut full = Vec::new();
    write_header_with_layout(&mut full, 77, layout);
    for place in 0..plain.len() {
        let mut other = plain.clone();
        other[place] ^= 3;
        assert_eq!(read_header(&other), Err(FormatError::Header), "byte {place}");
    }
    for place in 0..full.len() {
        let mut other = full.clone();
        other[place] ^= 3;
        assert_eq!(
            read_header_with_layout(&other),
            Err(FormatError::Header),
            "byte {place}"
        );
    }
    let read = read_header_with_layout(&full).unwrap();
    let mut again = Vec::new();
    write_header_with_layout(&mut again, read.sequence, read.layout);
    assert_eq!(again, full);
}
