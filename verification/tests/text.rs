use enargeia::text::{
    decimal_of, flatten, join, read_integer, read_natural, replace_chars, shorten,
    signed_decimal_of, split_lines, split_words, str_before, trimmed,
};

fn chars(s: &str) -> Vec<char> {
    s.chars().collect()
}

#[test]
fn trims_and_splits_on_unicode_space() {
    assert_eq!(trimmed("\u{a0} a b \t\n"), "a b");
    assert_eq!(split_words(&chars("  one\u{2003}two\nthree ")), vec!["one", "two", "three"]);
    assert!(split_words(&chars(" \t ")).is_empty());
}

#[test]
fn numbers_read_and_print() {
    assert_eq!(decimal_of(0), "0");
    assert_eq!(decimal_of(u64::MAX), "18446744073709551615");
    assert_eq!(signed_decimal_of(i64::MIN), "-9223372036854775808");
    assert_eq!(read_integer("-42"), Some(-42));
    assert_eq!(read_integer("+42"), Some(42));
    assert_eq!(read_integer("9223372036854775808"), None);
    assert_eq!(read_integer("-9223372036854775808"), Some(i64::MIN));
    assert_eq!(read_integer(""), None);
    assert_eq!(read_integer("-"), None);
    assert_eq!(read_integer(" 1"), None);
    assert_eq!(read_natural("18446744073709551615"), Some(u64::MAX));
    assert_eq!(read_natural("-1"), None);
}

#[test]
fn replaces_from_left_to_right() {
    let r: String = replace_chars(&chars("aaaa&amp;b"), "aa", "x").into_iter().collect();
    assert_eq!(r, "xx&amp;b");
}

#[test]
fn lines_as_the_standard_library_splits_them() {
    for s in ["", "a", "a\n", "a\nb", "a\r\nb\r\n", "\n\n", "a\rb\n"] {
        let expected: Vec<&str> = s.lines().collect();
        assert_eq!(split_lines(s), expected, "{s:?}");
    }
}

#[test]
fn joins_flattens_and_shortens() {
    let parts = vec!["a".to_string(), "b".to_string(), "c".to_string()];
    assert_eq!(join(&parts, ", "), "a, b, c");
    assert_eq!(flatten(&parts), "abc");
    assert_eq!(shorten("2026-09-08T14:30:00+00:00", 10), "2026-09-08");
    assert_eq!(shorten("2026", 10), "2026");
    // A cut inside a character leaves the text as it is.
    assert_eq!(shorten("ééé", 3), "ééé");
    assert_eq!(shorten("ééé", 4), "éé");
}

#[test]
fn order_of_texts_is_that_of_their_bytes() {
    assert!(str_before("2025-01-01", "2026-01-01"));
    assert!(str_before("", "a"));
    assert!(!str_before("a", "a"));
    assert!(str_before("Z", "a"));
    assert!(str_before("z", "é"));
}
