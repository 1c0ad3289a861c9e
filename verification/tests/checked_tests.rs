use fulmicoton::ans::{AnsBijection, AnsU64Bijection};
use fulmicoton::bic::BicBijection;
use fulmicoton::bijection::{try_decode_vints, Bijection, PositiveDeltaBijection};
use fulmicoton::codec::{
    encode_repo_indices_hybrid, encode_u24_columnar, try_decode_repo_indices_hybrid,
    try_decode_u24_columnar, try_encode_repo_indices_hybrid, try_encode_u24_columnar,
};
use fulmicoton::columnar::{ColumnarEvents, EventsToColumns, ParsedEvent};
use fulmicoton::event_codec::FulmicotonCodec;
use fulmicoton::monotonic::MonotonicPermutationBijection;
use fulmicoton::vint::{try_read_part, vint_readable};

fn sample_events() -> Vec<ParsedEvent> {
    let mut events = Vec::new();
    for i in 0..40i64 {
        events.push(ParsedEvent {
            id: 100 + 3 * i,
            event_type: if i % 3 == 0 { "PushEvent".to_string() } else { "WatchEvent".to_string() },
            repo_id: (i % 5) as u64 + 7,
            repo_owner: format!("owner{}", i % 5),
            repo_suffix: format!("repo{}", i % 5),
            created_at: 1_600_000_000 + i * 2,
        });
    }
    events
}

#[test]
fn try_decode_columns_reads_what_was_written() {
    let codec = FulmicotonCodec::new();
    let cols = EventsToColumns.apply(sample_events());
    let bytes = codec.encode_columns(&cols);
    let back = codec.try_decode_columns(&bytes).unwrap().unwrap();
    assert_eq!(back.event_ids, cols.event_ids);
    assert_eq!(back.created_ats, cols.created_ats);
    assert_eq!(back.repo_indices, cols.repo_indices);
    assert_eq!(back.dict_repo_ids, cols.dict_repo_ids);
}

#[test]
fn try_decode_columns_refuses_garbage() {
    let codec = FulmicotonCodec::new();
    assert!(codec.try_decode_columns(&[]).is_none());
    assert!(codec.try_decode_columns(&[0x80, 0x80]).is_none());
    assert!(codec.try_decode_columns(&[5, 1, 2]).is_none());
    let cols = EventsToColumns.apply(sample_events());
    let bytes = codec.encode_columns(&cols);
    assert!(codec.try_decode_columns(&bytes[..bytes.len() - 1]).is_none());
}

#[test]
fn vint_readable_and_parts() {
    assert!(vint_readable(&[0x05], 0));
    assert!(!vint_readable(&[0x85], 0));
    assert!(!vint_readable(&[0x80; 11], 0));
    assert!(!vint_readable(&[0x05], 1));
    let mut offset = 0usize;
    assert_eq!(try_read_part(&[2, 7, 8, 9], &mut offset), Some(vec![7, 8]));
    assert_eq!(offset, 3);
    let mut offset = 0usize;
    assert_eq!(try_read_part(&[3, 7, 8], &mut offset), None);
}

#[test]
fn vint_stream_with_long_group_is_refused() {
    assert_eq!(try_decode_vints(&[1, 0x81, 2]), Some(vec![1, 257]));
    assert_eq!(try_decode_vints(&[0x80; 11]), None);
    assert_eq!(try_decode_vints(&[0x81]), Some(vec![]));
}

#[test]
fn ans_try_revert() {
    let data = b"abracadabra".to_vec();
    let frame = AnsBijection.apply(data.clone());
    assert_eq!(AnsBijection.try_revert(frame.clone()), Some(data));
    assert_eq!(AnsBijection.try_revert(frame[..100].to_vec()), None);
    assert_eq!(AnsBijection.try_revert(Vec::new()), Some(Vec::new()));
    let values = vec![10u64, 20, 10, 30];
    let frame = AnsU64Bijection.apply(values.clone());
    assert_eq!(AnsU64Bijection.try_revert(frame), Some(values));
    assert_eq!(AnsU64Bijection.try_revert(vec![0x80]), None);
}

#[test]
fn positive_delta_try_revert() {
    assert_eq!(PositiveDeltaBijection.try_revert(vec![1, 2, 3]), Some(vec![1, 3, 6]));
    assert_eq!(PositiveDeltaBijection.try_revert(vec![i64::MAX as u64, 1]), None);
}

#[test]
fn permutation_and_bic_try_revert() {
    let values = vec![5i64, 3, 9, 9, 12, 4];
    let frame = MonotonicPermutationBijection.apply(values.clone());
    assert_eq!(MonotonicPermutationBijection.try_revert(frame), Some(values));
    assert_eq!(MonotonicPermutationBijection.try_revert(vec![1, 2, 3]), None);
    assert_eq!(MonotonicPermutationBijection.try_revert(Vec::new()), Some(Vec::new()));
    let ids = vec![2u64, 5, 9, 200];
    let frame = BicBijection.apply(ids.clone());
    assert_eq!(BicBijection.try_revert(frame), Some(ids));
    assert_eq!(BicBijection.try_revert(Vec::new()), Some(Vec::new()));
}

#[test]
fn hybrid_and_u24_try_decode() {
    let values: Vec<u64> = vec![0, 1, 65536, 0xff_ffff];
    let encoded = encode_u24_columnar(&values);
    assert_eq!(try_decode_u24_columnar(&encoded), Some(values));
    assert_eq!(try_decode_u24_columnar(&[9, 1]), None);
    let indices: Vec<u64> = (0..300u64).map(|i| i % 17).collect();
    let encoded = encode_repo_indices_hybrid(&indices);
    assert_eq!(try_decode_repo_indices_hybrid(&encoded), Some(indices));
    assert_eq!(try_decode_repo_indices_hybrid(&[]), None);
}

#[test]
fn try_encode_columns_matches_encode_columns() {
    let codec = FulmicotonCodec::new();
    let cols = EventsToColumns.apply(sample_events());
    assert_eq!(codec.try_encode_columns(&cols), Some(codec.encode_columns(&cols)));
}

#[test]
fn try_encode_columns_refuses_decreasing_ids() {
    let codec = FulmicotonCodec::new();
    let cols = ColumnarEvents {
        event_ids: vec![5, 3],
        event_type_indices: vec![0, 0],
        dict_event_types: vec!["PushEvent".to_string()],
        created_ats: vec![10, 11],
        repo_indices: vec![0, 0],
        dict_repo_ids: vec![7],
        dict_repo_owners: vec!["alice".to_string()],
        dict_repo_suffixes: vec!["x".to_string()],
    };
    assert_eq!(codec.try_encode_columns(&cols), None);
}

#[test]
fn ans_try_apply() {
    let data = b"abracadabra".to_vec();
    assert_eq!(AnsBijection.try_apply(data.clone()), Some(AnsBijection.apply(data)));
    assert_eq!(AnsBijection.try_apply(Vec::new()), Some(Vec::new()));
    let too_many: Vec<u64> = (0..65537u64).collect();
    assert_eq!(AnsU64Bijection.try_apply(too_many), None);
    let no_share: Vec<u64> = (0..4097u64).collect();
    assert_eq!(AnsU64Bijection.try_apply(no_share), None);
    let fine = vec![4u64, 4, 9];
    assert_eq!(AnsU64Bijection.try_apply(fine.clone()), Some(AnsU64Bijection.apply(fine)));
}

#[test]
fn delta_and_bic_try_apply() {
    assert_eq!(PositiveDeltaBijection.try_apply(vec![1, 2, 5]), Some(vec![1, 1, 3]));
    assert_eq!(PositiveDeltaBijection.try_apply(vec![3, 2]), None);
    assert_eq!(PositiveDeltaBijection.try_apply(vec![-1]), None);
    assert_eq!(PositiveDeltaBijection.try_apply(vec![i64::MIN + 1, i64::MAX]), None);
    assert_eq!(BicBijection.try_apply(vec![3, 2]), None);
    assert_eq!(BicBijection.try_apply(vec![u64::MAX]), None);
    assert_eq!(BicBijection.try_apply(vec![1, 5]), Some(BicBijection.apply(vec![1, 5])));
}

#[test]
fn permutation_try_apply() {
    let values = vec![5i64, 3, 9];
    assert_eq!(
        MonotonicPermutationBijection.try_apply(values.clone()),
        Some(MonotonicPermutationBijection.apply(values))
    );
    assert_eq!(MonotonicPermutationBijection.try_apply(vec![0, 60_000_000]), None);
    assert_eq!(MonotonicPermutationBijection.try_apply(vec![i64::MIN, i64::MAX]), None);
    assert_eq!(MonotonicPermutationBijection.try_apply(Vec::new()), Some(Vec::new()));
}

#[test]
fn hybrid_and_u24_try_apply() {
    let values: Vec<u64> = vec![3, 70000, 3];
    assert_eq!(try_encode_u24_columnar(&values), Some(encode_u24_columnar(&values)));
    let indices: Vec<u64> = (0..100u64).map(|i| i % 7).collect();
    assert_eq!(
        try_encode_repo_indices_hybrid(&indices),
        Some(encode_repo_indices_hybrid(&indices))
    );
}

#[test]
fn events_to_columns_try_apply() {
    let events = sample_events();
    let cols = EventsToColumns.try_apply(events.clone()).unwrap();
    assert_eq!(cols.event_ids, EventsToColumns.apply(events).event_ids);
    let mut many = Vec::new();
    for i in 0..257i64 {
        many.push(ParsedEvent {
            id: i,
            event_type: format!("Type{}", i),
            repo_id: 1,
            repo_owner: "o".to_string(),
            repo_suffix: "r".to_string(),
            created_at: 0,
        });
    }
    assert!(EventsToColumns.try_apply(many.clone()).is_none());
    many.pop();
    assert_eq!(EventsToColumns.try_apply(many).unwrap().dict_event_types.len(), 256);
}

#[test]
fn readable_columns() {
    let cols = EventsToColumns.apply(sample_events());
    assert!(fulmicoton::columnar::readable(&cols));
    let mut broken = EventsToColumns.apply(sample_events());
    broken.repo_indices[0] = 1000;
    assert!(!fulmicoton::columnar::readable(&broken));
}
