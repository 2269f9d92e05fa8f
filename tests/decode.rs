use brc::parse::{is_well_formed, parse_temp};

#[test]
fn test_1() {
    assert_eq!(parse_temp(b"99.9"), 999);
}

#[test]
fn test_2() {
    assert_eq!(parse_temp(b"-99.9"), -999);
}

#[test]
fn test_3() {
    assert_eq!(parse_temp(b"12.3"), 123);
}

#[test]
fn test_4() {
    assert_eq!(parse_temp(b"-7.2"), -72);
}

#[test]
fn decode_empty_is_zero() {
    assert_eq!(parse_temp(b""), 0);
}

#[test]
fn decode_one_and_three_integer_digits() {
    assert_eq!(parse_temp(b"0.0"), 0);
    assert_eq!(parse_temp(b"5.1"), 51);
    assert_eq!(parse_temp(b"-0.4"), -4);
    assert_eq!(parse_temp(b"100.0"), 1000);
    assert_eq!(parse_temp(b"-999.9"), -9999);
}

#[test]
fn well_formed_values() {
    assert!(is_well_formed(b"12.3"));
    assert!(is_well_formed(b"-7.0"));
    assert!(is_well_formed(b"123.4"));
    assert!(!is_well_formed(b""));
    assert!(!is_well_formed(b"-"));
    assert!(!is_well_formed(b"12"));
    assert!(!is_well_formed(b"1.23"));
    assert!(!is_well_formed(b"1234.5"));
    assert!(!is_well_formed(b"1a.3"));
    assert!(!is_well_formed(b"--1.3"));
    assert!(!is_well_formed(b".3"));
}
