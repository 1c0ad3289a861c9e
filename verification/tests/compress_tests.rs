use fulmicoton::adaptive_mix::AdaptiveMixCoder;
use fulmicoton::bijection::Bijection;
use fulmicoton::compress::{LzmaBijection, ZStdBijection};

#[test]
fn zstd_compresses_and_restores() {
    let data: Vec<u8> = b"abcabcabcabcabcabcabcabcabcabcabcabcabcabc".repeat(20);
    let packed = ZStdBijection.apply(data.clone());
    assert!(!packed.is_empty());
    assert_ne!(packed, data);
    assert!(packed.len() < data.len());
    assert_eq!(ZStdBijection.revert(packed.clone()), data);
    assert_eq!(ZStdBijection.try_revert(packed), Some(data));
    assert_eq!(ZStdBijection.try_revert(vec![1, 2, 3, 4, 5]), None);
}

#[test]
fn xz_compresses_and_restores() {
    let data: Vec<u8> = b"the quick brown fox jumps over the lazy dog ".repeat(30);
    let packed = LzmaBijection.apply(data.clone());
    assert!(!packed.is_empty());
    assert_ne!(packed, data);
    assert!(packed.len() < data.len());
    assert_eq!(LzmaBijection.revert(packed.clone()), data);
    assert_eq!(LzmaBijection.try_revert(packed), Some(data));
    assert_eq!(LzmaBijection.try_revert(vec![9, 9, 9]), None);
}

#[test]
fn adaptive_coder_default_is_fresh() {
    let data = b"mississippi river".to_vec();
    let encoded = AdaptiveMixCoder::default().encode(&data);
    assert_eq!(AdaptiveMixCoder::new().decode(&encoded, data.len()), data);
}
