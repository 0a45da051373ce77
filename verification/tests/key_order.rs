use bytes::Bytes;
use sstable::key::{common_prefix_len, same_bytes, KeyBytes, KeySlice, VERSION_DEFAULT};
use std::cmp::Ordering;

fn key(bytes: &'static str, version: u64) -> KeyBytes {
    KeyBytes::new(Bytes::from(bytes), version)
}

#[test]
fn test_compare_key() {
    let key_a = KeyBytes::new(Bytes::from("hello"), 1);
    let key_b = KeyBytes::new(Bytes::from("world"), 1);
    let key_c = KeyBytes::new(Bytes::from("hello"), 2);
    let key_d = KeyBytes::new(Bytes::from("hello"), 2);
    assert!(key_c > key_a);
    assert!(key_b > key_a);
    assert!(key_b > key_a);
    assert_eq!(key_c, key_d);
}

#[test]
fn equal_bytes_are_ordered_by_version() {
    assert_eq!(key("k", 1).compare(&key("k", 2)), Ordering::Less);
    assert_eq!(key("k", 2).compare(&key("k", 1)), Ordering::Greater);
    assert_eq!(key("k", 7).compare(&key("k", 7)), Ordering::Equal);
    assert_eq!(key("k", 0).compare(&key("k", u64::MAX)), Ordering::Less);
}

#[test]
fn equal_versions_are_ordered_by_bytes() {
    assert_eq!(key("a", 5).compare(&key("b", 5)), Ordering::Less);
    assert_eq!(key("b", 5).compare(&key("a", 5)), Ordering::Greater);
    assert_eq!(key("ab", 5).compare(&key("abc", 5)), Ordering::Less);
    assert_eq!(key("abc", 5).compare(&key("ab", 5)), Ordering::Greater);
    assert_eq!(key("", 5).compare(&key("a", 5)), Ordering::Less);
}

#[test]
fn bytes_decide_before_versions() {
    assert_eq!(key("a", 9).compare(&key("b", 1)), Ordering::Less);
    assert_eq!(key("b", 1).compare(&key("a", 9)), Ordering::Greater);
    assert!(key("a", 9) < key("b", 1));
    assert!(key("a", 9) <= key("a", 9));
    assert!(key("a", 9) != key("a", 8));
}

#[test]
fn bytes_are_compared_unsigned() {
    let low = KeyBytes::new(Bytes::from(vec![0x7fu8]), 1);
    let high = KeyBytes::new(Bytes::from(vec![0x80u8]), 1);
    assert_eq!(low.compare(&high), Ordering::Less);
    assert_eq!(high.compare(&low), Ordering::Greater);
}

#[test]
fn accessors_report_the_parts() {
    let k = key("hello", 42);
    assert_eq!(k.version(), 42);
    assert_eq!(k.key_ref(), b"hello");
    assert_eq!(k.key_len(), 5);
    assert_eq!(k.raw_len(), 13);
}

#[test]
fn raw_len_of_empty_key_is_the_version_alone() {
    let k = key("", 3);
    assert_eq!(k.key_len(), 0);
    assert_eq!(k.raw_len(), 8);
}

#[test]
fn default_key_is_empty_at_version_zero() {
    let k = KeyBytes::default();
    assert_eq!(k.key_len(), 0);
    assert_eq!(k.key_ref(), b"");
    assert_eq!(k.version(), VERSION_DEFAULT);
    assert_eq!(VERSION_DEFAULT, 0);
    let s = KeySlice::default();
    assert_eq!(s.key_len(), 0);
    assert_eq!(s.version(), 0);
}

#[test]
fn slice_and_bytes_forms_convert_without_change() {
    let owned = key("hello", 9);
    let view = owned.to_key_slice();
    assert_eq!(view.key_ref(), b"hello");
    assert_eq!(view.version(), 9);
    let back = view.to_key_bytes();
    assert_eq!(back.key_ref(), b"hello");
    assert_eq!(back.version(), 9);
    assert_eq!(back, owned);
}

#[test]
fn slice_keys_follow_the_same_order() {
    let a = KeySlice::from_slice(b"hello", 1);
    let b = KeySlice::from_slice(b"hello", 2);
    let c = KeySlice::from_slice(b"world", 1);
    assert_eq!(a.compare(&b), Ordering::Less);
    assert_eq!(c.compare(&b), Ordering::Greater);
    assert!(a < c);
    assert!(a == KeySlice::from_slice(b"hello", 1));
}

#[test]
fn clone_keeps_bytes_and_version() {
    let k = key("abc", 4);
    let c = k.clone();
    assert_eq!(c.key_ref(), b"abc");
    assert_eq!(c.version(), 4);
    assert_eq!(c, k);
}

#[test]
fn common_prefix_and_equality_of_bytes() {
    assert_eq!(common_prefix_len(b"abcd", b"abxd"), 2);
    assert_eq!(common_prefix_len(b"abc", b"abc"), 3);
    assert_eq!(common_prefix_len(b"", b"abc"), 0);
    assert_eq!(common_prefix_len(b"ab", b"abc"), 2);
    assert!(same_bytes(b"abc", b"abc"));
    assert!(!same_bytes(b"abc", b"abd"));
    assert!(!same_bytes(b"ab", b"abc"));
    assert!(same_bytes(b"", b""));
}
