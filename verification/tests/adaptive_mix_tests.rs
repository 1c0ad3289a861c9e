use fulmicoton::adaptive_mix::{
    AdaptiveMixBijection, AdaptiveMixCoder, AdaptiveMixU64Bijection, FrequencyTable, RangeDecoder,
    RangeEncoder,
};
use fulmicoton::bijection::Bijection;

#[test]
fn test_round_trip_small() {
    // Test with small data
    let data = vec![1, 2, 3, 1, 2, 3, 1, 2, 3, 4, 5, 6];

    let mut encoder = AdaptiveMixCoder::new();
    let encoded = encoder.encode(&data);

    let mut decoder = AdaptiveMixCoder::new();
    let decoded = decoder.decode(&encoded, data.len());

    assert_eq!(data, decoded);
}

#[test]
fn test_round_trip_repeated() {
    // Test with repeated pattern
    let data: Vec<u8> = (0..1000).map(|i| (i % 10) as u8).collect();

    let mut encoder = AdaptiveMixCoder::new();
    let encoded = encoder.encode(&data);

    let mut decoder = AdaptiveMixCoder::new();
    let decoded = decoder.decode(&encoded, data.len());

    assert_eq!(data, decoded);

    // Should compress well
    assert!(encoded.len() < data.len());
}

#[test]
fn test_round_trip_random_like() {
    // Test with pseudo-random data (deterministic for reproducibility)
    let mut data = Vec::with_capacity(1000);
    let mut x: u32 = 12345;
    for _ in 0..1000 {
        x = x.wrapping_mul(1103515245).wrapping_add(12345);
        data.push(((x >> 16) & 0xFF) as u8);
    }

    let mut encoder = AdaptiveMixCoder::new();
    let encoded = encoder.encode(&data);

    let mut decoder = AdaptiveMixCoder::new();
    let decoded = decoder.decode(&encoded, data.len());

    assert_eq!(data, decoded);
}

#[test]
fn test_compression_ratio() {
    // Test that compressible data actually compresses
    let data: Vec<u8> = vec![1; 1000]; // All ones

    let mut encoder = AdaptiveMixCoder::new();
    let encoded = encoder.encode(&data);

    // Highly compressible data should compress significantly
    assert!(
        encoded.len() < data.len() / 2,
        "Expected significant compression, got {} -> {} bytes",
        data.len(),
        encoded.len()
    );

    // Verify round-trip
    let mut decoder = AdaptiveMixCoder::new();
    let decoded = decoder.decode(&encoded, data.len());
    assert_eq!(data, decoded);
}

#[test]
fn test_frequency_table() {
    let mut table = FrequencyTable::new();

    // Update with some symbols
    for _ in 0..100 {
        table.update(5);
    }

    // Symbol 5 should have higher frequency
    assert!(table.get_freq(5) > table.get_freq(0));

    // Find symbol should work
    let cum = table.get_cum_freq(5);
    let found = table.find_symbol(cum);
    assert_eq!(found, 5);
}

#[test]
fn test_adaptive_mix_u64_bijection() {
    let bij = AdaptiveMixU64Bijection;

    // Test with typical delta values (small numbers)
    let deltas: Vec<u64> = vec![1, 2, 1, 3, 1, 1, 2, 5, 1, 2, 1, 1, 3, 2, 1];
    let encoded = bij.apply(deltas.clone());
    let decoded = bij.revert(encoded);
    assert_eq!(deltas, decoded);
}

#[test]
fn test_adaptive_mix_u64_bijection_large() {
    let bij = AdaptiveMixU64Bijection;

    // Test with larger data
    let deltas: Vec<u64> = (0..10000).map(|i| ((i % 10) + 1) as u64).collect();
    let encoded = bij.apply(deltas.clone());
    let decoded = bij.revert(encoded.clone());
    assert_eq!(deltas, decoded);

    // Should compress well
    assert!(encoded.len() < deltas.len(), "Expected compression");
}

#[test]
fn test_adaptive_mix_u64_bijection_empty() {
    let bij = AdaptiveMixU64Bijection;
    let empty: Vec<u64> = vec![];
    let encoded = bij.apply(empty.clone());
    let decoded = bij.revert(encoded);
    assert_eq!(empty, decoded);
}

#[test]
fn adaptive_mix_bytes_roundtrip() {
    let bij = AdaptiveMixBijection;
    let data: Vec<u8> = b"abracadabra abracadabra".to_vec();
    let encoded = bij.apply(data.clone());
    assert_eq!(&encoded[0..4], &(data.len() as u32).to_le_bytes());
    assert_eq!(bij.revert(encoded), data);
}

#[test]
fn range_coder_recovers_each_interval() {
    let intervals: Vec<(u32, u32, u32)> =
        vec![(0, 1, 4), (1, 2, 4), (3, 1, 4), (10, 5, 100), (0, 65535, 65536), (65535, 1, 65536), (7, 1, 8)];
    let mut encoder = RangeEncoder::new();
    for &(c, f, t) in &intervals {
        encoder.encode(c, f, t);
    }
    let bytes = encoder.finish();
    let mut decoder = RangeDecoder::new(&bytes);
    for &(c, f, t) in &intervals {
        let g = decoder.get_freq(t);
        assert!(c <= g && g < c + f);
        decoder.decode(c, f, t);
    }
}
