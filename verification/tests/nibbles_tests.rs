use fraud_proof::nibbles::{b_extends_a, copy_bytes, key_as_nibbles, same_bytes};

#[test]
fn key_expands_to_two_digits_per_byte() {
    assert_eq!(key_as_nibbles(vec![0xab, 0x01, 0xf0]), vec![0xa, 0xb, 0x0, 0x1, 0xf, 0x0]);
}

#[test]
fn empty_key_has_empty_path() {
    assert_eq!(key_as_nibbles(Vec::new()), Vec::<u8>::new());
}

#[test]
fn path_length_is_twice_key_length() {
    let key: Vec<u8> = (0..=255u8).collect();
    let path = key_as_nibbles(key.clone());
    assert_eq!(path.len(), 2 * key.len());
    assert!(path.iter().all(|d| *d < 16));
    for (i, byte) in key.iter().enumerate() {
        assert_eq!(path[2 * i], byte >> 4);
        assert_eq!(path[2 * i + 1], byte & 0x0f);
    }
}

#[test]
fn path_extends_its_prefix() {
    let a = vec![1u8, 2, 3];
    let b = vec![1u8, 2, 3, 4, 5];
    assert!(b_extends_a(&a, &b));
    assert!(!b_extends_a(&b, &a));
}

#[test]
fn path_extends_itself_and_the_empty_path() {
    let a = vec![7u8, 7];
    assert!(b_extends_a(&a, &a));
    assert!(b_extends_a(&Vec::new(), &a));
    assert!(b_extends_a(&Vec::new(), &Vec::new()));
    assert!(!b_extends_a(&a, &Vec::new()));
}

#[test]
fn path_does_not_extend_a_diverging_path() {
    assert!(!b_extends_a(&vec![1u8, 2, 4], &vec![1u8, 2, 3, 4]));
    assert!(!b_extends_a(&vec![0u8], &vec![1u8, 0]));
}

#[test]
fn byte_strings_compare_by_content() {
    assert!(same_bytes(&vec![1, 2, 3], &vec![1, 2, 3]));
    assert!(!same_bytes(&vec![1, 2, 3], &vec![1, 2]));
    assert!(!same_bytes(&vec![1, 2, 3], &vec![1, 2, 4]));
    assert!(same_bytes(&Vec::new(), &Vec::new()));
    assert_eq!(copy_bytes(&vec![9, 8, 7]), vec![9, 8, 7]);
}
