//! Numbers and texts.

use nixcon_quiz::sort::{order, Rank};
use nixcon_quiz::text::{
    blank, chars_of, decimal_string, lex_before, push_hex, push_hex_padded, read_unsigned, same,
    string_of, trim_range,
};

#[test]
fn numbers_are_written_out() {
    assert_eq!(decimal_string(0), "0");
    assert_eq!(decimal_string(u64::MAX), "18446744073709551615");
    let mut out = "x".to_string();
    push_hex(&mut out, 0xbeef);
    assert_eq!(out, "xbeef");
    push_hex_padded(&mut out, 10, 4);
    assert_eq!(out, "xbeef000a");
}

#[test]
fn numbers_are_read_back() {
    let read = |text: &str, limit: u64| {
        let chars = chars_of(text);
        read_unsigned(&chars, 0, chars.len(), limit)
    };
    assert_eq!(read("007", 10), Some(7));
    assert_eq!(read("18446744073709551615", u64::MAX), Some(u64::MAX));
    assert_eq!(read("18446744073709551616", u64::MAX), None);
    assert_eq!(read("1e3", 10000), None);
}

#[test]
fn white_space_is_trimmed() {
    let trim = |text: &str| {
        let chars = chars_of(text);
        let (a, b) = trim_range(&chars, 0, chars.len());
        string_of(&chars, a, b)
    };
    assert_eq!(trim("\u{3000} a b\t\r\n"), "a b");
    assert_eq!(trim(" "), "");
    assert!(blank("\u{a0}\n"));
    assert!(!blank(" . "));
}

#[test]
fn texts_compare_like_in_a_dictionary() {
    let before = |a: &str, b: &str| lex_before(&chars_of(a), &chars_of(b));
    assert!(before("", "a"));
    assert!(before("a", "ab"));
    assert!(before("Z", "a"));
    assert!(!before("b", "ab"));
    assert!(before("x", "x"));
    assert!(same("é", "é"));
    assert!(!same("a", "A"));
}

#[test]
fn sorting_keeps_the_order_of_equals() {
    let rank = |first: u64, text: &str, second: u64| Rank {
        first,
        text: chars_of(text),
        second,
    };
    let ranks = vec![
        rank(1, "b", 0),
        rank(0, "z", 9),
        rank(1, "a", 2),
        rank(1, "b", 0),
        rank(1, "a", 1),
    ];
    assert_eq!(order(&ranks), [1, 4, 2, 0, 3]);
}
