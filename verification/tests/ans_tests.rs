use fulmicoton::ans::{AnsBijection, AnsU64Bijection};
use fulmicoton::bijection::Bijection;

#[test]
fn test_ans_roundtrip() {
    let ans = AnsBijection;

    let data = b"abracadabra".to_vec();
    let compressed = ans.apply(data.clone());
    let decompressed = ans.revert(compressed);

    assert_eq!(data, decompressed);
}

#[test]
fn test_ans_u64_roundtrip() {
    let ans = AnsU64Bijection;
    let data = vec![1000, 2000, 1000, 3000, 2000, 1000, 5000];
    let compressed = ans.apply(data.clone());
    let decompressed = ans.revert(compressed);
    assert_eq!(data, decompressed);
}

#[test]
fn ans_short_strings_roundtrip() {
    let ans = AnsBijection;
    let skewed: Vec<u8> = (0..4096u32).map(|i| if i % 17 == 0 { (i % 256) as u8 } else { 7 }).collect();
    let spread: Vec<u8> = (0..4096u32).map(|i| (i * 37 % 256) as u8).collect();
    for data in [skewed, spread, vec![200u8]] {
        assert_eq!(ans.revert(ans.apply(data.clone())), data);
    }
}

#[test]
fn ans_few_distinct_bytes_roundtrip() {
    let ans = AnsBijection;
    let data: Vec<u8> = (0..20_000u32).map(|i| ((i * i + 3 * i) % 64) as u8).collect();
    assert_eq!(ans.revert(ans.apply(data.clone())), data);
    let lopsided: Vec<u8> = (0..20_000u32).map(|i| if i % 500 == 0 { (i % 63) as u8 + 1 } else { 0 }).collect();
    assert_eq!(ans.revert(ans.apply(lopsided.clone())), lopsided);
}
