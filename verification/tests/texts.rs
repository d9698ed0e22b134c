use overlapper::order::{compare_bytes, ordering_of};
use overlapper::text::{parse_i32, push_decimal, push_signed};
use std::cmp::Ordering;

#[test]
fn numerals_are_read() {
    assert_eq!(parse_i32("0"), Some(0));
    assert_eq!(parse_i32("17"), Some(17));
    assert_eq!(parse_i32("+17"), Some(17));
    assert_eq!(parse_i32("-17"), Some(-17));
    assert_eq!(parse_i32("007"), Some(7));
    assert_eq!(parse_i32("2147483647"), Some(i32::MAX));
    assert_eq!(parse_i32("-2147483648"), Some(i32::MIN));
}

#[test]
fn what_is_no_numeral_is_refused() {
    assert_eq!(parse_i32(""), None);
    assert_eq!(parse_i32("+"), None);
    assert_eq!(parse_i32("-"), None);
    assert_eq!(parse_i32("1 "), None);
    assert_eq!(parse_i32(" 1"), None);
    assert_eq!(parse_i32("1a"), None);
    assert_eq!(parse_i32("--1"), None);
    assert_eq!(parse_i32("1.5"), None);
    assert_eq!(parse_i32("2147483648"), None);
    assert_eq!(parse_i32("-2147483649"), None);
    assert_eq!(parse_i32("99999999999999999999999"), None);
    assert_eq!(parse_i32("٣"), None);
}

#[test]
fn numerals_agree_with_the_standard_library() {
    for text in ["0", "-0", "+0", "12", "-12", "2147483647", "2147483648", "x", "", "+-1", "1_0"] {
        assert_eq!(parse_i32(text), text.parse::<i32>().ok(), "{:?}", text);
    }
}

#[test]
fn numbers_are_written() {
    for n in [0u64, 1, 9, 10, 11, 99, 100, 12345, u64::MAX] {
        let mut text = String::from("n=");
        push_decimal(&mut text, n);
        assert_eq!(text, format!("n={}", n));
    }
    for i in [0i64, 1, -1, 10, -10, 987, -987, i64::MAX, i64::MIN] {
        let mut text = String::new();
        push_signed(&mut text, i);
        assert_eq!(text, format!("{}", i));
    }
}

#[test]
fn byte_strings_are_compared_as_in_a_dictionary() {
    assert_eq!(compare_bytes(b"", b""), 0);
    assert_eq!(compare_bytes(b"", b"a"), -1);
    assert_eq!(compare_bytes(b"a", b""), 1);
    assert_eq!(compare_bytes(b"abc", b"abd"), -1);
    assert_eq!(compare_bytes(b"abd", b"abc"), 1);
    assert_eq!(compare_bytes(b"ab", b"abc"), -1);
    assert_eq!(compare_bytes(b"b", b"abc"), 1);
    assert_eq!(compare_bytes(b"read10", b"read9"), -1);
    assert_eq!(compare_bytes(b"same", b"same"), 0);
    for (a, b) in [("", "x"), ("aa", "ab"), ("b", "aa"), ("k", "k"), ("é", "z")] {
        assert_eq!(ordering_of(compare_bytes(a.as_bytes(), b.as_bytes())), a.cmp(b));
    }
}

#[test]
fn signs_stand_for_orderings() {
    assert_eq!(ordering_of(-1), Ordering::Less);
    assert_eq!(ordering_of(0), Ordering::Equal);
    assert_eq!(ordering_of(1), Ordering::Greater);
}
