use fulmicoton::bijection::Bijection;
use fulmicoton::codec::{
    decode_repo_indices_hybrid, decode_u24_columnar, encode_repo_indices_hybrid,
    encode_u24_columnar,
};
use fulmicoton::columnar::{ColumnarEvents, EventsToColumns, ParsedEvent};
use fulmicoton::event_codec::{CodecError, FulmicotonCodec};
use fulmicoton::lines::{join_strings, split_bytes, strings_from_pieces};
use fulmicoton::vint::{read_part, read_vint, write_vint};

fn event(id: i64, ty: &str, repo_id: u64, owner: &str, suffix: &str, at: i64) -> ParsedEvent {
    ParsedEvent {
        id,
        event_type: ty.to_string(),
        repo_id,
        repo_owner: owner.to_string(),
        repo_suffix: suffix.to_string(),
        created_at: at,
    }
}

fn sample_events() -> Vec<ParsedEvent> {
    vec![
        event(100, "PushEvent", 7, "rust-lang", "rust", 1_700_000_000),
        event(101, "WatchEvent", 3, "tokio-rs", "tokio", 1_700_000_002),
        event(105, "PushEvent", 7, "rust-lang", "rust", 1_700_000_001),
        event(106, "IssuesEvent", 3, "tokio-rs", "tokio-renamed", 1_700_000_005),
        event(110, "PushEvent", 12, "serde-rs", "serde", 1_700_000_005),
        event(111, "WatchEvent", 7, "rust-lang", "rust", 1_700_000_009),
    ]
}

fn same_columns(a: &ColumnarEvents, b: &ColumnarEvents) {
    assert_eq!(a.event_ids, b.event_ids);
    assert_eq!(a.event_type_indices, b.event_type_indices);
    assert_eq!(a.dict_event_types, b.dict_event_types);
    assert_eq!(a.created_ats, b.created_ats);
    assert_eq!(a.repo_indices, b.repo_indices);
    assert_eq!(a.dict_repo_ids, b.dict_repo_ids);
    assert_eq!(a.dict_repo_owners, b.dict_repo_owners);
    assert_eq!(a.dict_repo_suffixes, b.dict_repo_suffixes);
}

#[test]
fn events_to_columns_dictionaries() {
    let cols = EventsToColumns.apply(sample_events());
    assert_eq!(cols.event_ids, vec![100, 101, 105, 106, 110, 111]);
    assert_eq!(cols.dict_event_types, vec!["IssuesEvent", "PushEvent", "WatchEvent"]);
    assert_eq!(cols.event_type_indices, vec![1, 2, 1, 0, 1, 2]);
    assert_eq!(cols.dict_repo_ids, vec![3, 3, 7, 12]);
    assert_eq!(cols.dict_repo_owners, vec!["tokio-rs", "tokio-rs", "rust-lang", "serde-rs"]);
    assert_eq!(cols.dict_repo_suffixes, vec!["tokio", "tokio-renamed", "rust", "serde"]);
    assert_eq!(cols.repo_indices, vec![2, 0, 2, 1, 3, 2]);
}

#[test]
fn events_to_columns_roundtrip() {
    let events = sample_events();
    let cols = EventsToColumns.apply(events.clone());
    let back = EventsToColumns.revert(cols);
    assert_eq!(back.len(), events.len());
    for (a, b) in back.iter().zip(events.iter()) {
        assert_eq!(a.id, b.id);
        assert_eq!(a.event_type, b.event_type);
        assert_eq!(a.repo_id, b.repo_id);
        assert_eq!(a.repo_owner, b.repo_owner);
        assert_eq!(a.repo_suffix, b.repo_suffix);
        assert_eq!(a.created_at, b.created_at);
    }
}

#[test]
fn codec_name() {
    assert_eq!(FulmicotonCodec::new().name(), "fulmicoton");
}

#[test]
fn codec_columns_roundtrip() {
    let codec = FulmicotonCodec::new();
    let cols = EventsToColumns.apply(sample_events());
    let bytes = codec.encode_columns(&cols);
    let back = codec.decode_columns(&bytes).unwrap();
    same_columns(&back, &cols);
}

#[test]
fn codec_many_events_roundtrip() {
    let mut events = Vec::new();
    for i in 0..3000i64 {
        let repo = (i * 7919 % 2600) as u64;
        let ty = ["PushEvent", "WatchEvent", "ForkEvent"][(i % 3) as usize];
        events.push(event(
            1_000_000 + 3 * i,
            ty,
            repo,
            &format!("owner{}", repo % 97),
            &format!("repo{}", repo),
            1_700_000_000 + i / 2 + (i % 5),
        ));
    }
    let codec = FulmicotonCodec::new();
    let cols = EventsToColumns.apply(events);
    let bytes = codec.encode_columns(&cols);
    let back = codec.decode_columns(&bytes).unwrap();
    same_columns(&back, &cols);
}

#[test]
fn codec_id_differences_keep_their_low_byte() {
    let events = vec![
        event(5_000, "PushEvent", 5, "alice", "a", 10),
        event(5_001, "PushEvent", 5, "alice", "a", 11),
        event(5_301, "PushEvent", 5, "alice", "a", 12),
    ];
    let codec = FulmicotonCodec::new();
    let cols = EventsToColumns.apply(events);
    let back = codec.decode_columns(&codec.encode_columns(&cols)).unwrap();
    assert_eq!(back.event_ids, vec![5_000, 5_001, 5_001 + 300 % 256]);
}

#[test]
fn codec_invalid_names_are_an_error() {
    let codec = FulmicotonCodec::new();
    let cols = EventsToColumns.apply(sample_events());
    let bytes = codec.encode_columns(&cols);
    let mut offset = 0usize;
    let mut parts = Vec::new();
    for _ in 0..7 {
        parts.push(read_part(&bytes, &mut offset));
    }
    parts[6] = zstd::encode_all(&[0xffu8, 0xfe, 0, b'a'][..], 3).unwrap();
    let mut forged = Vec::new();
    for part in parts {
        write_vint(part.len() as u64, &mut forged);
        forged.extend_from_slice(&part);
    }
    assert_eq!(codec.decode_columns(&forged).err(), Some(CodecError::InvalidUtf8));
}

#[test]
fn codec_empty_suffixes_stand_for_empty_names() {
    let events = vec![
        event(1, "PushEvent", 5, "alice", "", 10),
        event(2, "PushEvent", 5, "alice", "", 11),
    ];
    let codec = FulmicotonCodec::new();
    let cols = EventsToColumns.apply(events);
    let back = codec.decode_columns(&codec.encode_columns(&cols)).unwrap();
    assert_eq!(back.dict_repo_owners, vec!["alice"]);
    assert_eq!(back.dict_repo_suffixes, vec![""]);
}

#[test]
fn u24_columns_roundtrip() {
    let values: Vec<u64> = vec![0, 1, 255, 256, 65535, 65536, 0xff_ffff, 123_456];
    let encoded = encode_u24_columnar(&values);
    assert_eq!(decode_u24_columnar(&encoded), values);
    assert!(encode_u24_columnar(&[]).is_empty());
    assert!(decode_u24_columnar(&[]).is_empty());
}

#[test]
fn hybrid_indices_roundtrip() {
    let mut indices: Vec<u64> = Vec::new();
    for i in 0..6000u64 {
        indices.push(if i % 2 == 0 { i % 10 } else { (i * 31) % 4000 });
    }
    let encoded = encode_repo_indices_hybrid(&indices);
    assert_eq!(decode_repo_indices_hybrid(&encoded), indices);
}

#[test]
fn lines_join_and_split() {
    let v = vec!["ab".to_string(), "".to_string(), "cé".to_string()];
    let joined = join_strings(&v, b'\n');
    assert_eq!(joined, b"ab\n\nc\xc3\xa9".to_vec());
    let pieces = split_bytes(&joined, b'\n');
    assert_eq!(pieces, vec![b"ab".to_vec(), vec![], "cé".as_bytes().to_vec()]);
    assert_eq!(strings_from_pieces(&pieces), Some(v));
    assert!(split_bytes(&[], b'\n').is_empty());
    assert_eq!(strings_from_pieces(&vec![vec![0xff]]), None);
}

#[test]
fn vint_write_read() {
    let mut buf = Vec::new();
    write_vint(300, &mut buf);
    write_vint(5, &mut buf);
    assert_eq!(buf, vec![0xac, 0x02, 0x05]);
    let mut offset = 0usize;
    assert_eq!(read_vint(&buf, &mut offset), 300);
    assert_eq!(offset, 2);
    assert_eq!(read_vint(&buf, &mut offset), 5);
    assert_eq!(offset, 3);
}
