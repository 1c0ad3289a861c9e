use fulmicoton::algo::{identify_permutation, restore_permutation};

#[test]
fn test_identify_permutation_sorted() {
    let input = vec![1, 2, 3, 4, 5];
    let (sorted, moves) = identify_permutation(input.clone());
    assert_eq!(sorted, vec![1, 2, 3, 4, 5]);
    assert_eq!(moves, vec![(4, 0)]);

    let restored = restore_permutation(sorted, moves);
    assert_eq!(restored, input);
}

#[test]
fn test_identify_permutation_reverse() {
    let input = vec![5, 4, 3, 2, 1];
    let (sorted, moves) = identify_permutation(input.clone());
    assert_eq!(sorted, vec![1, 2, 3, 4, 5]);
    assert_eq!(moves, vec![(0, 1), (0, 2), (0, 3), (0, 4)]);

    let restored = restore_permutation(sorted, moves);
    assert_eq!(restored, input);
}

#[test]
fn test_identify_permutation_mixed() {
    let input = vec![1, 3, 5, 2, 6];
    let (sorted, moves) = identify_permutation(input.clone());
    assert_eq!(sorted, vec![1, 2, 3, 5, 6]);
    assert_eq!(moves, vec![(2, 2), (1, 0)]);

    let restored = restore_permutation(sorted, moves);
    assert_eq!(restored, input);
}

#[test]
fn identify_permutation_empty_and_single() {
    let (sorted, moves) = identify_permutation(vec![]);
    assert!(sorted.is_empty());
    assert!(moves.is_empty());
    assert!(restore_permutation(sorted, moves).is_empty());

    let (sorted, moves) = identify_permutation(vec![7]);
    assert_eq!(sorted, vec![7]);
    assert!(moves.is_empty());
    assert_eq!(restore_permutation(sorted, moves), vec![7]);
}

#[test]
fn identify_permutation_duplicates_roundtrip() {
    let input = vec![3, 1, 3, 2, 2, 9, 0, 3];
    let (sorted, moves) = identify_permutation(input.clone());
    assert_eq!(sorted, vec![0, 1, 2, 2, 3, 3, 3, 9]);
    assert_eq!(restore_permutation(sorted, moves), input);
}

#[test]
fn moves_count_the_inversions() {
    let (sorted, moves) = identify_permutation(vec![5, 1, 4, 2, 3]);
    assert_eq!(sorted, vec![1, 2, 3, 4, 5]);
    let distance: usize = moves.iter().map(|m| m.1).sum();
    assert_eq!(distance, 6);
}
