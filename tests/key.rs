use std::cmp::Ordering;
use std::collections::HashSet;

use brc::array::{compare_bytes, Array};

#[test]
fn key_keeps_bytes_short_and_long() {
    let short = Array::new(b"Oslo");
    let long = Array::new(b"A station name longer than the inline buffer");
    assert_eq!(short.as_bytes(), b"Oslo");
    assert_eq!(long.as_bytes(), b"A station name longer than the inline buffer");
    let exactly = Array::new(&[7u8; 23]);
    assert_eq!(exactly.as_bytes(), &[7u8; 23][..]);
    let one_more = Array::new(&[7u8; 24]);
    assert_eq!(one_more.as_bytes(), &[7u8; 24][..]);
    assert_eq!(Array::new(b"").as_bytes(), b"");
}

#[test]
fn key_equality_is_by_content() {
    assert!(Array::new(b"Station A") == Array::new(b"Station A"));
    assert!(Array::new(b"Station A") != Array::new(b"Station B"));
    let l = b"abcdefghijklmnopqrstuvwxyz";
    assert!(Array::new(l) == Array::new(l));
    assert!(Array::new(&[1u8; 23]) != Array::new(&[1u8; 24]));
}

#[test]
fn key_order_is_lexicographic() {
    assert!(Array::new(b"Station A") < Array::new(b"Station B"));
    assert!(Array::new(b"Ab") < Array::new(b"Abc"));
    assert!(Array::new(b"") < Array::new(b"a"));
    assert!(Array::new(b"b") > Array::new(b"abcdefghijklmnopqrstuvwxyz"));
    assert!(Array::new(&[1u8; 23]) < Array::new(&[1u8; 24]));
    assert_eq!(Array::new(b"same").compare(&Array::new(b"same")), Ordering::Equal);
    assert_eq!(compare_bytes(b"z", b"abc"), Ordering::Greater);
    assert_eq!(compare_bytes(b"ab", b"b"), Ordering::Less);
}

#[test]
fn key_hashes_as_its_bytes() {
    let mut set: HashSet<Array> = HashSet::new();
    set.insert(Array::new(b"short"));
    set.insert(Array::new(b"a key well beyond twenty-three bytes"));
    assert!(set.contains(&b"short"[..]));
    assert!(set.contains(&b"a key well beyond twenty-three bytes"[..]));
    assert!(!set.contains(&b"shor"[..]));
    assert!(set.contains(&Array::new(b"short")));
    let k = Array::new(b"xyz");
    let r: &[u8] = k.as_ref();
    assert_eq!(r, b"xyz");
}

#[test]
fn key_from_byte_slice() {
    let short: &[u8] = b"Hamburg";
    let long: &[u8] = b"A name of more than twenty-three bytes";
    assert_eq!(Array::from(short).as_bytes(), short);
    assert_eq!(Array::from(long).as_bytes(), long);
    assert!(Array::from(long) == Array::new(long));
    let k = Array::from(long);
    let r: &[u8] = k.as_ref();
    assert_eq!(r, long);
}
