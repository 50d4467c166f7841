//! Text operations.

use pixie_pi::text::{
    chars_of, contains, count_matches, ends_with, is_blank, is_whitespace, join,
    lines, split, split_once, split_whitespace, starts_with, to_ascii_lowercase, trim, trim_end,
};

#[test]
fn joining_the_pieces_restores_the_text() {
    for s in ["", "a", "a,b", ",", ",,x,", "é,日本"] {
        assert_eq!(join(&split(s, ','), ","), s);
    }
    assert_eq!(split("a,,b", ','), vec!["a", "", "b"]);
}

#[test]
fn white_space_is_that_of_unicode() {
    for n in 0u32..0x3100 {
        if let Some(c) = char::from_u32(n) {
            assert_eq!(is_whitespace(c), c.is_whitespace(), "{n:x}");
        }
    }
    for s in ["", "  a b\t", "\u{3000}x\u{85}", " \n"] {
        assert_eq!(trim(s), s.trim());
        assert_eq!(trim_end(s), s.trim_end());
        assert_eq!(is_blank(s), s.trim().is_empty());
        assert_eq!(split_whitespace(s), s.split_whitespace().collect::<Vec<_>>());
    }
}

#[test]
fn texts_are_searched() {
    assert!(contains("hello", "ell") && !contains("hello", "x"));
    assert!(contains("", ""));
    assert!(starts_with("hello", "he") && ends_with("hello", "lo"));
    assert_eq!(count_matches(&chars_of("aaaa"), &chars_of("aa")), 2);
    assert_eq!(split_once("a=b=c", '='), Some(("a".to_string(), "b=c".to_string())));
    assert_eq!(split_once("abc", '='), None);
    assert_eq!(lines("a\n\nb\n"), vec!["a", "", "b"]);
    assert_eq!(to_ascii_lowercase("AÉb"), "aÉb");
}
