//! Numbers and lists as text.

use edge_ingest::text::{
    chars_of, less_text, parse_byte, push_decimal, push_hex4, push_joined, push_joined_texts,
    trimmed,
};

fn decimal(n: u64) -> String {
    let mut s = String::new();
    push_decimal(&mut s, n);
    s
}

fn hex(n: u16) -> String {
    let mut s = String::from("0x");
    push_hex4(&mut s, n);
    s
}

fn byte(s: &str) -> Option<u8> {
    let c = chars_of(s);
    parse_byte(&c, 0, c.len())
}

#[test]
fn decimals_have_no_leading_zeros() {
    assert_eq!(decimal(0), "0");
    assert_eq!(decimal(7), "7");
    assert_eq!(decimal(1_050), "1050");
    assert_eq!(decimal(u64::MAX), "18446744073709551615");
}

#[test]
fn hex_has_four_digits() {
    assert_eq!(hex(0), "0x0000");
    assert_eq!(hex(0x0a5), "0x00A5");
    assert_eq!(hex(u16::MAX), "0xFFFF");
}

#[test]
fn bytes_parse_up_to_their_largest() {
    assert_eq!(byte("0"), Some(0));
    assert_eq!(byte("255"), Some(255));
    assert_eq!(byte("256"), None);
    assert_eq!(byte(""), None);
    assert_eq!(byte("1x"), None);
    assert_eq!(byte("-1"), None);
    assert_eq!(byte("0007"), Some(7));
}

#[test]
fn lists_are_joined_in_their_order() {
    let mut s = String::new();
    push_joined(&mut s, &vec![3, 1, 255]);
    assert_eq!(s, "3, 1, 255");
    let mut t = String::new();
    push_joined(&mut t, &vec![]);
    assert_eq!(t, "");
    let mut u = String::new();
    push_joined_texts(&mut u, &vec!["b".to_string(), "a".to_string()]);
    assert_eq!(u, "b, a");
}

#[test]
fn text_is_trimmed_at_both_ends_only() {
    let s = chars_of(" \ta b\n");
    assert_eq!(trimmed(&s, 0, s.len()), (2, 5));
    let blank = chars_of("   ");
    let (from, to) = trimmed(&blank, 0, blank.len());
    assert_eq!(from, to);
}

#[test]
fn text_orders_as_its_characters() {
    assert!(less_text("a", "b"));
    assert!(less_text("a", "aa"));
    assert!(!less_text("b", "a"));
    assert!(!less_text("a", "a"));
    assert!(less_text("", "a"));
}
