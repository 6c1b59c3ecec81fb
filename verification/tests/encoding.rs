use kubelog::bytes::{copy_range, push_all, push_be, push_le, read_be, read_le, same_bytes};
use kubelog::text::{
    chars_of, contains, digits_value, matches_at, parse_number, push_decimal, push_padded,
    same_text, starts_with, with_number,
};

#[test]
fn numbers_become_bytes_and_come_back() {
    let mut out = vec![9];
    push_le(&mut out, 0x0102_0304, 4);
    push_be(&mut out, 0x0102_0304, 4);
    assert_eq!(out, [9, 4, 3, 2, 1, 1, 2, 3, 4]);
    assert_eq!(read_le(&out, 1, 4), 0x0102_0304);
    assert_eq!(read_be(&out, 5, 4), 0x0102_0304);
    let mut out = vec![];
    push_le(&mut out, u64::MAX, 8);
    push_be(&mut out, 0x1_0002, 2);
    assert_eq!(read_le(&out, 0, 8), u64::MAX);
    assert_eq!(read_be(&out, 8, 2), 2);
    assert_eq!(read_be(&out, 0, 0), 0);
}

#[test]
fn bytes_are_compared_and_copied() {
    assert!(same_bytes(&[1, 2], &[1, 2]));
    assert!(!same_bytes(&[1, 2], &[1, 3]));
    assert!(!same_bytes(&[1, 2], &[1, 2, 3]));
    assert_eq!(copy_range(&[1, 2, 3, 4], 1, 3), [2, 3]);
    let mut out = vec![1];
    push_all(&mut out, &[2, 3]);
    assert_eq!(out, [1, 2, 3]);
}

#[test]
fn numbers_become_text() {
    let mut text = String::new();
    push_decimal(&mut text, 0);
    push_decimal(&mut text, u64::MAX);
    assert_eq!(text, "018446744073709551615");
    let mut text = String::new();
    push_padded(&mut text, 1234, 6);
    push_padded(&mut text, 1234, 2);
    assert_eq!(text, "00123434");
    assert_eq!(with_number("a", 10, "b"), "a10b");
}

#[test]
fn text_becomes_numbers() {
    let number = |s: &str, max| parse_number(&chars_of(s), 0, chars_of(s).len(), max);
    assert_eq!(number("18446744073709551615", u64::MAX), Some(u64::MAX));
    assert_eq!(number("18446744073709551616", u64::MAX), None);
    assert_eq!(number("256", 255), None);
    assert_eq!(number("000255", 255), Some(255));
    assert_eq!(number("+12", 255), Some(12));
    for faulty in ["", "+", "-1", "1 ", "++1", "\u{0661}"] {
        assert_eq!(number(faulty, 255), None);
    }
    assert_eq!(digits_value(&chars_of("x42y"), 1, 3, 99), Some(42));
    assert_eq!(digits_value(&chars_of("+42"), 0, 3, 99), None);
}

#[test]
fn text_is_searched() {
    assert!(contains("segment capacity reached", "capacity"));
    assert!(contains("capacity", "capacity"));
    assert!(contains("anything", ""));
    assert!(!contains("capacit", "capacity"));
    assert!(contains("aab", "ab"));
    assert!(starts_with("buffer too small: 1", "buffer too small:"));
    assert!(!starts_with("a buffer too small:", "buffer too small:"));
    assert!(same_text("gr\u{fc}n", "gr\u{fc}n"));
    assert!(!same_text("a", "A"));
    assert!(matches_at(&chars_of("abc"), &chars_of("bc"), 1));
    assert!(!matches_at(&chars_of("abc"), &chars_of("bc"), 2));
}
