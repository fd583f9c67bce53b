//! Text helpers.
use meetily::text::{
    decimal_of, eq_ignore_ascii_case, is_before, join_words, parse_digits, parse_i32,
    split_whitespace, trim,
};

#[test]
fn numbers_read_back() {
    for n in [0u64, 7, 10, 99, 1000, 18_446_744_073_709_551_615] {
        let s = decimal_of(n);
        assert_eq!(s, n.to_string());
        let chars: Vec<char> = s.chars().collect();
        assert_eq!(parse_digits(&chars), Some(n));
    }
    assert_eq!(parse_i32("-2147483648"), Some(i32::MIN));
    assert_eq!(parse_i32("+5"), Some(5));
    assert_eq!(parse_i32("2147483648"), None);
    assert_eq!(parse_i32("-"), None);
    assert_eq!(parse_i32(""), None);
}

#[test]
fn words_are_split_and_joined() {
    assert_eq!(split_whitespace("  a\tb\u{a0}c\n"), vec!["a", "b", "c"]);
    assert_eq!(trim("\u{2003} x y \r\n"), "x y");
    assert_eq!(join_words(&["a".to_string(), "b".to_string()], ", "), "a, b");
    assert_eq!(join_words(&[], ", "), "");
}

#[test]
fn texts_are_compared() {
    assert!(eq_ignore_ascii_case("MiSha", "mIsHA"));
    assert!(!eq_ignore_ascii_case("Ä", "ä"));
    assert!(is_before("a", "ab"));
    assert!(is_before("Z", "a"));
    assert!(!is_before("b", "b"));
}
