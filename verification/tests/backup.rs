use bytes::Bytes;
use sider::command::Command;
use sider::persistence::backup::archive::{read_manifest, validate_image};
use sider::persistence::backup::cli::{parse, parse_when, source_of, Action};
use sider::persistence::backup::client::{closed, greet, request, Export, Receiver};
use sider::persistence::backup::digest::{checksums, hash_image, hex_text, require_hex};
use sider::persistence::backup::manifest::read_document;
use sider::persistence::backup::{
    verify, Error, ExportOptions, Limits, Manifest, CHECKSUMS, MANIFEST, SNAPSHOT,
};
use sider::persistence::format::Limits as RecordLimits;
use sider::persistence::{recover_log, AofConfig, DurableLayout, ROUTING_VERSION};
use sider::readiness;
use sider::replication::protocol::{decode, encode, Hello, Message, Reject};
use sider::replication::session::SnapshotSender;
use sider::replication::Cursor;
use sider::settings::{Address, Ip, NativeText};
use sider::storage::{Moment, Store, StoreConfig};

const NOW: Moment = Moment {
    now: 5_000_000_000,
    unix_ms: 1000,
};

const VERSION: &[u8] = b"0.1.0";

const SHA: &[u8] = b"0123456789abcdef0123456789abcdef01234567";

const LAYOUT: DurableLayout = DurableLayout {
    shard_count: 2,
    routing_version: ROUTING_VERSION,
};

fn cursor() -> Cursor {
    Cursor {
        epoch: [0xab; 16],
        sequence: 9,
    }
}

fn hello(limits: Limits) -> Hello {
    Hello {
        sider_version: Bytes::from_static(VERSION),
        record_version: 1,
        shard_count: LAYOUT.shard_count,
        routing_version: LAYOUT.routing_version,
        max_record_bytes: limits.max_record_bytes as u32,
        max_mutations: limits.max_mutations as u32,
        max_snapshot_bytes: limits.max_snapshot_bytes,
        cursor: Some(cursor()),
    }
}

fn store() -> Store {
    let mut store = Store::new();
    for key in [b"a", b"b", b"c"] {
        store.execute(
            Command::SetValue {
                key: Bytes::copy_from_slice(key),
                value: Bytes::from_static(b"value"),
            },
            NOW,
        );
    }
    store
}

fn receive(limits: Limits) -> Result<Export, Error> {
    let transport = limits.transport();
    let hello = greet(Message::Hello(hello(limits)), limits, VERSION)?;
    let snapshot = store().snapshot();
    let (mut sender, start) = SnapshotSender::begin(cursor(), snapshot.len());
    let mut receiver = Receiver::start(&hello, start, limits)?;
    for mutation in snapshot {
        assert!(receiver.wants_more());
        let frame = sender.entry(mutation, transport, 1_000_000).ok().unwrap();
        let message = decode(frame.clone(), transport).unwrap();
        receiver.accept(&frame, message, limits, NOW)?;
    }
    assert!(!receiver.wants_more());
    receiver.end(sender.end())?;
    receiver.finish(
        &Bytes::from_static(VERSION),
        &Bytes::from_static(SHA),
        &hello,
        limits,
        -5,
        NOW,
    )
}

fn invalid<T>(result: Result<T, Error>) -> &'static str {
    match result {
        Err(Error::Invalid(reason)) => reason,
        Err(other) => panic!("{other:?}"),
        Ok(_) => panic!("refused input was taken"),
    }
}

#[test]
fn exports_are_verified_and_recovered() {
    let limits = Limits::default();
    let export = receive(limits).unwrap();
    assert_eq!(export.manifest.entries, 3);
    assert_eq!(export.manifest.cursor, cursor());
    assert_eq!(export.manifest.received_at_unix_ms, -5);
    let verified = verify(
        &export.text,
        &export.sums,
        &export.image,
        LAYOUT,
        limits,
        true,
        VERSION,
        NOW,
    )
    .ok()
    .unwrap();
    assert_eq!(verified.manifest, export.manifest);
    assert_eq!(verified.live_entries, 3);
    assert_eq!(verified.shard_usage.iter().sum::<usize>(), store().used_bytes());
    let mut config = AofConfig::new(NativeText::Text("log".to_string()));
    config.layout = LAYOUT;
    let recovered = recover_log(&export.image, &config, StoreConfig::default(), NOW).unwrap();
    assert_eq!(recovered.store.snapshot(), store().snapshot());
    assert_eq!(recovered.metadata.sequence, 9);
}

#[test]
fn every_changed_byte_of_a_backup_is_seen() {
    let limits = Limits::default();
    let export = receive(limits).unwrap();
    let check = |text: &[u8], sums: &[u8], image: &[u8]| {
        verify(text, sums, image, LAYOUT, limits, true, VERSION, NOW).is_ok()
    };
    for place in 0..export.image.len() {
        let mut image = export.image.clone();
        image[place] ^= 1;
        assert!(!check(&export.text, &export.sums, &image), "{place}");
    }
    for place in 0..export.sums.len() {
        let mut sums = export.sums.clone();
        sums[place] ^= 1;
        assert!(!check(&export.text, &sums, &export.image), "{place}");
    }
    for place in 0..export.text.len() {
        let mut text = export.text.clone();
        text[place] ^= 1;
        assert!(!check(&text, &export.sums, &export.image), "{place}");
    }
}

#[test]
fn manifests_are_read_back_from_their_text() {
    let limits = Limits::default();
    let manifest = receive(limits).unwrap().manifest;
    let text = manifest.text();
    assert!(text.ends_with(b"}\n"));
    assert_eq!(
        Manifest::parse(&text, limits, true, VERSION).unwrap(),
        manifest
    );
    let document = read_document(&text).unwrap();
    assert_eq!(Manifest::from_document(&document).unwrap(), manifest);
    let shown = String::from_utf8(text.clone()).unwrap();
    assert!(shown.contains("\"epoch\": \"abababababababababababababababab\""));
    assert!(shown.contains("\"received_at_unix_ms\": -5"));
    let with = |from: &str, to: &str| {
        assert!(shown.contains(from), "{from}");
        Manifest::parse(shown.replace(from, to).as_bytes(), limits, true, VERSION)
    };
    assert!(matches!(
        Manifest::parse(b"{", limits, true, VERSION),
        Err(Error::Manifest)
    ));
    assert_eq!(
        invalid(Manifest::parse(b"[]", limits, true, VERSION)),
        "schema do manifesto"
    );
    assert_eq!(
        invalid(with("\"schema_version\": 1", "\"schema_version\": 2")),
        "schema do manifesto"
    );
    assert_eq!(
        invalid(with("\"transport_digest_crc32\"", "\"other\"")),
        "schema do manifesto"
    );
    assert_eq!(
        invalid(with("\"entries\": 3", "\"entries\": -3")),
        "inteiro do manifesto"
    );
    assert_eq!(
        invalid(with("\"shard_count\": 2", "\"shard_count\": 4294967296")),
        "inteiro do manifesto"
    );
    assert_eq!(
        invalid(with("\"sider_version\": \"0.1.0\"", "\"sider_version\": 1")),
        "texto do manifesto"
    );
    assert_eq!(
        invalid(with("\"received_at_unix_ms\": -5", "\"received_at_unix_ms\": 1.5")),
        "relógio do manifesto"
    );
    assert_eq!(
        invalid(with("abababab", "ABABABAB")),
        "hash ou identidade hexadecimal"
    );
    assert_eq!(
        invalid(with("\"sider_version\": \"0.1.0\"", "\"sider_version\": \"0.1.1\"")),
        "versão ou limites do manifesto"
    );
    assert!(matches!(
        with("\"shard_count\": 2", "\"shard_count\": 0"),
        Err(Error::Configuration(_))
    ));
}

#[test]
fn sums_are_those_of_the_standard() {
    let (sum, size) = hash_image(b"abc").unwrap();
    assert_eq!(size, 3);
    assert_eq!(
        sum,
        b"ba7816bf8f01cfea414140de5dae2223b00361a396177a9cb410ff61f20015ad"
    );
    let text = String::from_utf8(checksums(b"abc", SHA)).unwrap();
    let lines: Vec<&str> = text.lines().collect();
    assert_eq!(
        lines[0],
        format!("ba7816bf8f01cfea414140de5dae2223b00361a396177a9cb410ff61f20015ad  {MANIFEST}")
    );
    assert_eq!(
        lines[1],
        format!("{}  {SNAPSHOT}", std::str::from_utf8(SHA).unwrap())
    );
    assert_eq!(CHECKSUMS, "SHA256SUMS");
    assert_eq!(hex_text(&[0, 0x9f, 0xff]), b"009fff");
    assert!(require_hex(b"0f", 2).is_ok());
    assert!(require_hex(b"0F", 2).is_err());
    assert!(require_hex(b"0f", 3).is_err());
}

#[test]
fn backups_of_another_layout_or_without_their_sums_are_refused() {
    let limits = Limits::default();
    let export = receive(limits).unwrap();
    let other = DurableLayout {
        shard_count: 3,
        ..LAYOUT
    };
    assert_eq!(
        invalid(read_manifest(&export.text, other, limits, true, VERSION)),
        "layout solicitado difere do backup"
    );
    assert_eq!(
        invalid(verify(
            &export.text,
            b"",
            &export.image,
            LAYOUT,
            limits,
            true,
            VERSION,
            NOW
        )),
        "checksums do manifesto"
    );
    assert_eq!(
        invalid(validate_image(&export.image[1..], &export.manifest, limits, NOW)),
        "checksum ou tamanho do snapshot"
    );
    assert_eq!(
        invalid(read_manifest(&vec![b' '; 70_000], LAYOUT, limits, true, VERSION)),
        "manifesto excede limite"
    );
    assert_eq!(
        invalid(read_manifest(&export.text, LAYOUT, limits, false, VERSION)),
        "backup limits"
    );
}

#[test]
fn a_source_that_breaks_the_order_is_refused() {
    let limits = Limits::default();
    let transport = limits.transport();
    let greeting = || greet(Message::Hello(hello(limits)), limits, VERSION).unwrap();
    let refused = Message::Reject(Reject::Unavailable);
    assert_eq!(
        invalid(greet(refused, limits, VERSION)),
        "origem recusou exportação ou não enviou Hello"
    );
    assert_eq!(
        invalid(greet(Message::Hello(hello(limits)), limits, b"other")),
        "versão ou capacidade incompatível com a origem"
    );
    assert_eq!(
        invalid(Receiver::start(&greeting(), Message::Promote, limits)),
        "FullStart ausente"
    );
    let start = |entries: u64| Message::FullStart {
        cursor: cursor(),
        entries,
    };
    assert_eq!(
        invalid(Receiver::start(&greeting(), start(u64::MAX), limits)),
        "cursor ou quantidade de entradas incompatível"
    );
    let mut receiver = Receiver::start(&greeting(), start(2), limits).ok().unwrap();
    let mut snapshot = store().snapshot();
    snapshot.truncate(2);
    snapshot.reverse();
    let mut outcomes = Vec::new();
    for mutation in snapshot {
        let message = Message::SnapshotEntry(mutation);
        let frame = encode(&message, transport).unwrap();
        outcomes.push(receiver.accept(&frame, message, limits, NOW).is_ok());
    }
    assert_eq!(outcomes, [true, false]);
    assert_eq!(
        invalid(receiver.end(Message::FullEnd {
            cursor: cursor(),
            entries: 2,
            digest: 0
        })),
        "cursor, contagem ou digest final divergente"
    );
    assert_eq!(invalid(closed(1)), "dados depois do FullEnd");
    assert!(closed(0).is_ok());
    assert!(matches!(
        request(limits, &Bytes::from_static(VERSION)),
        Message::Export { .. }
    ));
}

#[test]
fn snapshots_beyond_a_share_are_refused() {
    let limits = Limits {
        max_dataset_bytes: 200,
        ..Limits::default()
    };
    assert_eq!(invalid(receive(limits)), "snapshot excede quota de um shard");
}

#[test]
fn limits_of_backups_are_bounded() {
    assert!(Limits::default().validate().is_ok());
    let limits = Limits {
        max_record_bytes: 63,
        ..Limits::default()
    };
    assert_eq!(invalid(limits.validate()), "backup limits");
    let limits = Limits {
        timeout: u128::MAX,
        ..Limits::default()
    };
    assert_eq!(invalid(limits.validate()), "backup limits");
    assert_eq!(invalid(Limits::default().check(false)), "backup limits");
    assert_eq!(
        Limits::default().record(),
        RecordLimits {
            max_record_bytes: 64 * 1024 * 1024,
            max_mutations: 100_000
        }
    );
}

const SOURCE: Address = Address {
    ip: Ip::V4(127, 0, 0, 1),
    port: 7000,
};

fn arguments(words: &[&str]) -> Vec<NativeText> {
    words
        .iter()
        .map(|word| NativeText::Text(word.to_string()))
        .collect()
}

#[test]
fn command_lines_are_read() {
    let sha = std::str::from_utf8(SHA).unwrap();
    let export = [
        "export",
        "--source",
        "127.0.0.1:7000",
        "--destination",
        "out",
        "--source-sha",
        sha,
        "--timeout-ms",
        "5",
    ];
    let Ok(Action::Export(options)) = parse(&arguments(&export), Some(SOURCE)) else {
        panic!("a whole command line");
    };
    assert_eq!(options.source, SOURCE);
    assert_eq!(options.source_sha.as_ref(), SHA);
    assert_eq!(options.limits.timeout, 5_000_000);
    assert!(options.validate(true).is_ok());
    let without_port = ExportOptions {
        source: Address { port: 0, ..SOURCE },
        ..options
    };
    assert_eq!(
        invalid(without_port.validate(true)),
        "porta de origem precisa ser explícita"
    );
    let restore = [
        "restore",
        "--source",
        "in",
        "--destination",
        "out",
        "--shards",
        "2",
        "--routing",
        "1",
    ];
    let Ok(Action::Restore(options)) = parse(&arguments(&restore), None) else {
        panic!("a whole command line");
    };
    assert_eq!(options.layout, LAYOUT);
    let verify = ["verify", "--source", "in", "--shards", "2", "--routing", "1"];
    assert!(matches!(
        parse(&arguments(&verify), None),
        Ok(Action::Verify { .. })
    ));
}

#[test]
fn command_lines_that_say_too_little_or_too_much_are_refused() {
    let read = |words: &[&str]| invalid(parse_when(&arguments(words), None, true));
    assert_eq!(read(&[]), "subcomando ausente");
    assert_eq!(read(&["copy"]), "subcomando desconhecido");
    assert_eq!(read(&["verify", "--nope", "1"]), "opção desconhecida");
    assert_eq!(read(&["verify", "--source"]), "opção sem valor");
    assert_eq!(
        read(&["verify", "--shards", "1", "--shards", "1"]),
        "opção repetida"
    );
    assert_eq!(read(&["verify"]), "opção obrigatória ausente");
    assert_eq!(
        read(&["verify", "--max-mutations", "x"]),
        "inteiro decimal inválido"
    );
    assert_eq!(
        read(&["verify", "--timeout-ms", "99999999999999999999"]),
        "inteiro fora do limite"
    );
    assert_eq!(
        read(&["verify", "--max-mutations", "100001"]),
        "backup limits"
    );
    assert_eq!(
        read(&["export", "--source", "here"]),
        "origem exige IP literal e porta"
    );
    assert_eq!(
        read(&["verify", "--source", "in", "--shards", "4294967296"]),
        "quantidade de shards"
    );
    assert_eq!(
        read(&["verify", "--source", "in", "--shards", "1", "--routing", "4294967296"]),
        "versão de roteamento"
    );
    assert_eq!(
        read(&[
            "verify",
            "--source",
            "in",
            "--shards",
            "1",
            "--routing",
            "1",
            "--destination",
            "out"
        ]),
        "opção incompatível com subcomando"
    );
    assert_eq!(
        invalid(parse_when(
            &[
                NativeText::Text("verify".to_string()),
                NativeText::Raw(Bytes::from_static(b"\xff"))
            ],
            None,
            true
        )),
        "nome de opção inválido"
    );
}

#[test]
fn the_readiness_record_is_one_line_of_json() {
    let text = readiness::contents(42, b"127.0.0.1", 12345);
    assert_eq!(
        text,
        b"{\"pid\":42,\"host\":\"127.0.0.1\",\"port\":12345}\n"
    );
    let data: serde_json::Value = serde_json::from_slice(&text).unwrap();
    assert_eq!(data["port"], 12345);
    assert!(readiness::is_own(&text, &text.clone()));
    assert!(!readiness::is_own(&text, b"changed"));
}

#[test]
fn the_source_is_the_value_of_its_own_option() {
    let line = ["export", "--destination", "--source", "--source", "127.0.0.1:7000"];
    let Some(NativeText::Text(text)) = source_of(&arguments(&line)) else {
        panic!("a source is given");
    };
    assert_eq!(text, "127.0.0.1:7000");
    assert!(source_of(&arguments(&["export", "--destination", "out"])).is_none());
    assert!(source_of(&arguments(&["export", "--source"])).is_none());
    assert!(source_of(&[]).is_none());
}
