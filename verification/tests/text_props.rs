//! Checks for the character-level helpers.

use trunkfun::text::{parse_usize, str_eq, usize_to_string};

#[test]
fn renders_decimal_exactly() {
    assert_eq!(usize_to_string(0).as_str(), "0");
    assert_eq!(usize_to_string(7).as_str(), "7");
    assert_eq!(usize_to_string(507).as_str(), "507");
    assert_eq!(usize_to_string(1000).as_str(), "1000");
}

#[test]
fn parses_decimal_exactly() {
    assert_eq!(parse_usize("0"), Some(0));
    assert_eq!(parse_usize("507"), Some(507));
    assert_eq!(parse_usize(""), None);
    assert_eq!(parse_usize("a1"), None);
    assert_eq!(parse_usize("12x"), None);
}

#[test]
fn decimal_round_trip() {
    let mut n: usize = 1;
    while n < 100000 {
        let s = usize_to_string(n);
        assert_eq!(parse_usize(s.as_str()), Some(n));
        n = n * 3 + 1;
    }
}

#[test]
fn string_equality_by_contents() {
    assert!(str_eq("ab", "ab"));
    assert!(!str_eq("ab", "ac"));
    assert!(!str_eq("ab", "abc"));
    assert!(str_eq("", ""));
}
