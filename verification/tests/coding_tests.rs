use fulmicoton::bic::BicBijection;
use fulmicoton::bijection::{Bijection, U24Bijection};
use fulmicoton::elias_fano::EliasFanoBijection;
use fulmicoton::monotonic::{MonotonicPermutationBijection, MonotonicRepairBijection};
use fulmicoton::timestamp::TimestampCodec;

#[test]
fn bic_exact_bytes() {
    let out = BicBijection.apply(vec![3, 5, 9, 10, 20]);
    assert_eq!(out, vec![5, 0, 0, 0, 20, 0, 0, 0, 0, 0, 0, 0, 135, 75, 0]);
    let single = BicBijection.apply(vec![7]);
    assert_eq!(single, vec![1, 0, 0, 0, 7, 0, 0, 0, 0, 0, 0, 0, 7]);
}

#[test]
fn bic_roundtrip() {
    let cases: Vec<Vec<u64>> = vec![
        vec![3, 5, 9, 10, 20],
        vec![7],
        vec![0, 1, 2, 3, 4, 5, 6, 7],
        vec![1, 100, 1000, 10_000, 100_000, 1_000_000],
        (0..300u64).map(|i| i * i + 3).collect(),
    ];
    for values in cases {
        let encoded = BicBijection.apply(values.clone());
        assert_eq!(BicBijection.revert(encoded), values);
    }
    assert!(BicBijection.apply(vec![]).is_empty());
    assert!(BicBijection.revert(vec![]).is_empty());
}

#[test]
fn elias_fano_exact_bytes() {
    let out = EliasFanoBijection.apply(vec![3, 5, 9, 10, 20]);
    assert_eq!(out, vec![5, 0, 0, 0, 2, 2, 0, 0, 0, 53, 2, 151, 0]);
    let no_low = EliasFanoBijection.apply(vec![0, 1, 2, 3]);
    assert_eq!(no_low, vec![4, 0, 0, 0, 0, 1, 0, 0, 0, 85]);
}

#[test]
fn elias_fano_roundtrip() {
    let cases: Vec<Vec<u64>> = vec![
        vec![3, 5, 9, 10, 20],
        vec![0, 1, 2, 3],
        vec![5, 5, 5, 1000],
        (0..500u64).map(|i| i * 37 + (i % 3)).collect(),
        vec![1 << 40, (1 << 40) + 5, 1 << 41],
    ];
    for values in cases {
        let encoded = EliasFanoBijection.apply(values.clone());
        assert_eq!(EliasFanoBijection.revert(encoded), values);
    }
    assert!(EliasFanoBijection.apply(vec![]).is_empty());
}

#[test]
fn monotonic_permutation_roundtrip() {
    let values: Vec<i64> = vec![1_600_000_000, 1_600_000_003, 1_600_000_001, 1_600_000_010, 1_600_000_002];
    let encoded = MonotonicPermutationBijection.apply(values.clone());
    assert_eq!(&encoded[..8], &1_600_000_000i64.to_le_bytes());
    assert_eq!(MonotonicPermutationBijection.revert(encoded), values);
    assert!(MonotonicPermutationBijection.apply(vec![]).is_empty());
}

#[test]
fn monotonic_repair_roundtrip() {
    let values: Vec<i64> = vec![10, 12, 11, 15, 9, 20, 20, 19];
    let encoded = MonotonicRepairBijection.apply(values.clone());
    assert_eq!(MonotonicRepairBijection.revert(encoded), values);
    assert!(MonotonicRepairBijection.apply(vec![]).is_empty());
}

#[test]
fn timestamp_roundtrip() {
    let values: Vec<i64> = vec![1_700_000_005, 1_700_000_001, 1_700_000_001, 1_700_000_009, 1_700_000_003];
    let encoded = TimestampCodec.apply(values.clone());
    assert_eq!(TimestampCodec.revert(encoded), values);
    assert!(TimestampCodec.apply(vec![]).is_empty());
}

#[test]
fn u24_exact_bytes_and_decode_roundtrip() {
    assert_eq!(U24Bijection.apply(vec![0x12_3456, 7]), vec![0x56, 0x34, 0x12, 7, 0, 0]);
    let bytes = vec![0xff, 0xee, 0xdd, 1, 2, 3];
    let numbers = U24Bijection.revert(bytes.clone());
    assert_eq!(numbers, vec![0xdd_eeff, 0x03_0201]);
    assert_eq!(U24Bijection.apply(numbers), bytes);
}
