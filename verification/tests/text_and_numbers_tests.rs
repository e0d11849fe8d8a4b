use parse_gff3::numbers::{parse_i32, parse_u16, parse_u64};
use parse_gff3::text::{split_char, split_whitespace_vec, str_contains, str_starts_with};

#[test]
fn split_char_keeps_empty_pieces() {
    assert_eq!(split_char("a;;b", ';'), vec!["a", "", "b"]);
    assert_eq!(split_char("", ';'), vec![""]);
    assert_eq!(split_char(";", ';'), vec!["", ""]);
    assert_eq!(split_char("abc", ';'), vec!["abc"]);
    assert_eq!(split_char("a\tb\tc", '\t'), vec!["a", "b", "c"]);
}

#[test]
fn split_whitespace_drops_empty_pieces() {
    assert_eq!(split_whitespace_vec("  a \t b  "), vec!["a", "b"]);
    assert_eq!(split_whitespace_vec(""), Vec::<String>::new());
    assert_eq!(split_whitespace_vec(" \t "), Vec::<String>::new());
    assert_eq!(split_whitespace_vec("one"), vec!["one"]);
}

#[test]
fn starts_with_is_a_prefix_test() {
    assert!(str_starts_with("##gff-version 3", "##gff-version"));
    assert!(str_starts_with("abc", ""));
    assert!(!str_starts_with("##gff", "##gff-version"));
    assert!(!str_starts_with("x##gff-version", "##gff-version"));
}

#[test]
fn contains_finds_inner_matches() {
    assert!(str_contains("chr1\tensembl_havana\tgene\t1", "\tensembl_havana\tgene\t"));
    assert!(!str_contains("chr1\tensembl_havana\texon\t1", "\tensembl_havana\tgene\t"));
    assert!(str_contains("abc", ""));
    assert!(!str_contains("ab", "abc"));
    assert!(str_contains("aab", "ab"));
}

#[test]
fn parse_u16_bounds() {
    assert_eq!(parse_u16("0"), Some(0));
    assert_eq!(parse_u16("3"), Some(3));
    assert_eq!(parse_u16("65535"), Some(65535));
    assert_eq!(parse_u16("65536"), None);
    assert_eq!(parse_u16("+7"), Some(7));
    assert_eq!(parse_u16(""), None);
    assert_eq!(parse_u16("+"), None);
    assert_eq!(parse_u16("12a"), None);
    assert_eq!(parse_u16("-1"), None);
    assert_eq!(parse_u16(" 3"), None);
}

#[test]
fn parse_u64_bounds() {
    assert_eq!(parse_u64("18446744073709551615"), Some(u64::MAX));
    assert_eq!(parse_u64("18446744073709551616"), None);
    assert_eq!(parse_u64("000123"), Some(123));
    assert_eq!(parse_u64("1.5"), None);
}

#[test]
fn parse_i32_signs_and_bounds() {
    assert_eq!(parse_i32("100"), Some(100));
    assert_eq!(parse_i32("-5"), Some(-5));
    assert_eq!(parse_i32("+42"), Some(42));
    assert_eq!(parse_i32("2147483647"), Some(i32::MAX));
    assert_eq!(parse_i32("2147483648"), None);
    assert_eq!(parse_i32("-2147483648"), Some(i32::MIN));
    assert_eq!(parse_i32("-2147483649"), None);
    assert_eq!(parse_i32("-"), None);
    assert_eq!(parse_i32("--1"), None);
}
