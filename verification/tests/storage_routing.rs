use sider::storage::routing::{hash_tag, stable_hash, ShardRouter};

#[test]
fn fixed_hash_vectors_and_binary_tags() {
    assert_eq!(stable_hash(b""), 0xcbf2_9ce4_8422_2325);
    assert_eq!(stable_hash(b"a"), 0xaf63_dc4c_8601_ec8c);
    assert_eq!(stable_hash(b"foobar"), 0x8594_4171_f739_67e8);
    for (key, tag) in [
        (b"a{tag}b".as_slice(), b"tag".as_slice()),
        (b"{}later{tag}", b"{}later{tag}"),
        (b"a{missing", b"a{missing"),
        (b"a{{tag}}", b"{tag"),
        (b"{\0\xff}", b"\0\xff"),
        (b"", b""),
    ] {
        assert_eq!(hash_tag(key), tag);
    }
    for count in [1, 2, 3, 16, 256] {
        let router = ShardRouter::new(count).unwrap();
        assert_eq!(router.shard_for(b"foo{\xff}a"), router.shard_for(b"{\xff}"));
    }
    assert!(ShardRouter::new(0).is_err());
    assert!(ShardRouter::new(257).is_err());
}
