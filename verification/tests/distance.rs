use wrinkle::distance::{hamming_distance, levenshtein};

#[test]
fn distance_of_equal_sequences_is_zero() {
    let a: Vec<u8> = vec![0, 2, 2, 0, 1, 3, 3, 0, 4, 4, 4];
    assert_eq!(levenshtein(&a, &a), 0);
    let empty: Vec<u8> = vec![];
    assert_eq!(levenshtein(&empty, &empty), 0);
}

#[test]
fn distance_from_empty_is_length() {
    let b: Vec<u8> = vec![1, 2, 3, 4, 0, 1];
    let empty: Vec<u8> = vec![];
    assert_eq!(levenshtein(&empty, &b), 6);
    assert_eq!(levenshtein(&b, &empty), 6);
}

#[test]
fn distance_counts_substitutions() {
    let a: Vec<u8> = vec![0, 1, 2, 3, 4];
    let b: Vec<u8> = vec![0, 2, 2, 3, 3];
    assert_eq!(levenshtein(&a, &b), 2);
}

#[test]
fn distance_counts_insertions_and_deletions() {
    let a: Vec<u8> = vec![2, 2, 2];
    let b: Vec<u8> = vec![2, 2, 2, 4, 4];
    assert_eq!(levenshtein(&a, &b), 2);
    assert_eq!(levenshtein(&b, &a), 2);
}

#[test]
fn distance_is_symmetric_on_samples() {
    let a: Vec<u8> = vec![0, 1, 2, 3, 4, 0, 1];
    let b: Vec<u8> = vec![4, 3, 2, 1];
    assert_eq!(levenshtein(&a, &b), levenshtein(&b, &a));
}

#[test]
fn distance_satisfies_triangle_on_samples() {
    let a: Vec<u8> = vec![0, 1, 2, 3];
    let b: Vec<u8> = vec![1, 1, 2, 4, 0];
    let c: Vec<u8> = vec![4, 4, 4];
    let ac = levenshtein(&a, &c);
    let ab = levenshtein(&a, &b);
    let bc = levenshtein(&b, &c);
    assert!(ac <= ab + bc);
}

#[test]
fn hamming_distance_counts_differing_bits() {
    assert_eq!(hamming_distance(0, 0), 0);
    assert_eq!(hamming_distance(0b1011, 0b0010), 2);
    assert_eq!(hamming_distance(u64::MAX, 0), 64);
    assert_eq!(hamming_distance(0b1000_0000, 0), 1);
}
