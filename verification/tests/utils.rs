use isotope::utils::{compute_work_group_count, Base64, ToHash};
use std::hash::{DefaultHasher, Hash, Hasher};

#[test]
fn base64_renders_digits() {
    assert_eq!(0u64.to_base64(), "0");
    assert_eq!(9u64.to_base64(), "9");
    assert_eq!(10u64.to_base64(), "A");
    assert_eq!(36u64.to_base64(), "a");
    assert_eq!(62u64.to_base64(), "+");
    assert_eq!(63u64.to_base64(), "/");
    assert_eq!(64u64.to_base64(), "10");
    assert_eq!(4095u64.to_base64(), "//");
    assert_eq!(4096u64.to_base64(), "100");
    assert_eq!(u64::MAX.to_base64(), "F//////////");
}

fn decode(s: &str) -> u64 {
    const ALPHABET: &str = "0123456789ABCDEFGHIJKLMNOPQRSTUVWXYZabcdefghijklmnopqrstuvwxyz+/";
    s.chars().fold(0u64, |acc, c| acc * 64 + ALPHABET.find(c).unwrap() as u64)
}

#[test]
fn base64_round_trips() {
    for n in [0u64, 1, 63, 64, 65, 1000, 123456789, u64::MAX / 3] {
        assert_eq!(decode(&n.to_base64()), n);
    }
}

#[test]
fn hash_is_base64_of_default_hasher() {
    let mut hasher = DefaultHasher::new();
    "shader source".hash(&mut hasher);
    let expected = hasher.finish().to_base64();
    assert_eq!("shader source".to_hash(), expected);
    assert_eq!("shader source".to_hash(), "shader source".to_hash());
    assert_ne!("shader source".to_hash(), "shader source".to_string());
}

#[test]
fn work_group_count_rounds_up() {
    assert_eq!(compute_work_group_count(0, 64), 0);
    assert_eq!(compute_work_group_count(1, 64), 1);
    assert_eq!(compute_work_group_count(64, 64), 1);
    assert_eq!(compute_work_group_count(65, 64), 2);
    assert_eq!(compute_work_group_count(1000, 256), 4);
}
