use bytes::Bytes;
use lsm_sstable::key::{bytes_le, bytes_lt, KeyBytes, KeySlice, KeyVec};

#[test]
fn order_is_by_first_differing_byte() {
    assert!(bytes_lt(b"abc", b"abd"));
    assert!(!bytes_lt(b"abd", b"abc"));
    assert!(bytes_lt(b"a\xff", b"b"));
    assert!(bytes_lt(&[0x7f], &[0x80]));
}

#[test]
fn a_proper_prefix_sorts_first() {
    assert!(bytes_lt(b"ab", b"abc"));
    assert!(!bytes_lt(b"abc", b"ab"));
    assert!(bytes_lt(b"", b"a"));
    assert!(!bytes_lt(b"a", b""));
}

#[test]
fn equal_keys_are_not_before_each_other() {
    assert!(!bytes_lt(b"same", b"same"));
    assert!(bytes_le(b"same", b"same"));
    assert!(!bytes_lt(b"", b""));
    assert!(bytes_le(b"", b""));
}

#[test]
fn le_is_lt_or_equal() {
    assert!(bytes_le(b"a", b"b"));
    assert!(!bytes_le(b"b", b"a"));
    assert!(bytes_le(b"a", b"ab"));
    assert!(!bytes_le(b"ab", b"a"));
}

#[test]
fn exactly_one_of_three_holds() {
    let keys: [&[u8]; 6] = [b"", b"a", b"ab", b"b", b"ba", b"\xff"];
    for a in keys {
        for b in keys {
            let lt = bytes_lt(a, b);
            let gt = bytes_lt(b, a);
            let eq = a == b;
            assert_eq!(1, lt as u8 + gt as u8 + eq as u8);
        }
    }
}

#[test]
fn key_slice_compares_like_its_bytes() {
    let a = KeySlice::from_slice(b"apple");
    let b = KeySlice::from_slice(b"banana");
    assert!(a.lt(&b));
    assert!(a.le(&b));
    assert!(!b.lt(&a));
    assert!(!b.le(&a));
    assert!(a.le(&a));
    assert!(!a.lt(&a));
}

#[test]
fn key_slice_accessors() {
    let key = KeySlice::from_slice(b"hello");
    assert_eq!(key.len(), 5);
    assert!(!key.is_empty());
    assert_eq!(key.raw_ref(), b"hello");
    assert!(KeySlice::from_slice(b"").is_empty());
    assert_eq!(key.to_key_vec().raw_ref(), b"hello");
}

#[test]
fn key_vec_is_overwritten_and_cleared() {
    let mut key = KeyVec::new();
    assert!(key.is_empty());
    assert_eq!(key.len(), 0);
    key.set_from_slice(KeySlice::from_slice(b"first"));
    assert_eq!(key.raw_ref(), b"first");
    key.set_from_slice(KeySlice::from_slice(b"xy"));
    assert_eq!(key.raw_ref(), b"xy");
    assert_eq!(key.as_key_slice().raw_ref(), b"xy");
    assert_eq!(key.len(), 2);
    key.clear();
    assert!(key.is_empty());
    assert_eq!(key.raw_ref(), b"");
}

#[test]
fn key_vec_from_vec_and_into_key_bytes() {
    let key = KeyVec::from_vec(vec![1, 2, 3]);
    assert_eq!(key.raw_ref(), &[1, 2, 3]);
    let shared = key.into_key_bytes();
    assert_eq!(shared.raw_ref(), &[1, 2, 3]);
    assert_eq!(shared.len(), 3);
}

#[test]
fn key_bytes_accessors_and_clone() {
    let key = KeyBytes::from_bytes(Bytes::from(vec![7u8, 8, 9]));
    assert_eq!(key.len(), 3);
    assert!(!key.is_empty());
    assert_eq!(key.raw_ref(), &[7, 8, 9]);
    assert_eq!(key.as_key_slice().raw_ref(), &[7, 8, 9]);
    let copy = key.clone();
    assert_eq!(copy.raw_ref(), &[7, 8, 9]);
    assert_eq!(copy, key);
    assert!(KeyBytes::from_bytes(Bytes::new()).is_empty());
}
