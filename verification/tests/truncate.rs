//! Truncation and sizes.

use pixie_pi::ai::response::truncate;
use pixie_pi::tools::truncate::{
    format_size, logical_line_count, truncate_head, truncate_line, truncate_tail, value_of_double,
};

#[test]
fn truncate_is_char_safe_on_multibyte() {
    let s = "中".repeat(3000);
    let t = truncate(&s, 2000);
    assert!(t.chars().count() <= 2001);
    assert!(t.ends_with('…'));
}

#[test]
fn truncate_short_input_unchanged() {
    assert_eq!(truncate("abc", 10), "abc");
    assert_eq!(truncate("ab", 2), "ab");
}

#[test]
fn truncate_cuts_at_char_boundary() {
    let t = truncate("a中b", 2);
    assert_eq!(t, "a中…");
}

#[test]
fn head_truncates_by_lines() {
    let content = "a\nb\nc\nd\ne";
    let r = truncate_head(content, Some(2), Some(1024));
    assert_eq!(r.content, "a\nb");
    assert!(r.truncated);
    assert_eq!(r.truncated_by.as_deref(), Some("lines"));
}

#[test]
fn tail_keeps_recent_lines() {
    let content = "a\nb\nc\nd\ne";
    let r = truncate_tail(content, Some(2), Some(1024));
    assert_eq!(r.content, "d\ne");
    assert!(r.truncated);
}

#[test]
fn line_truncation_is_char_safe() {
    let s = "日本語".repeat(1000);
    let (t, truncated) = truncate_line(&s, Some(10));
    assert!(truncated);
    assert!(t.chars().count() <= 11);
}

#[test]
fn head_does_not_inflate_line_count_for_trailing_newline() {
    let r = truncate_head("a\nb\nc\n", Some(2000), Some(1024));
    assert_eq!(r.total_lines, 3);
    assert_eq!(r.output_lines, 3);
    assert!(!r.truncated);
}

#[test]
fn tail_does_not_inflate_line_count_for_trailing_newline() {
    let r = truncate_tail("a\nb\nc\n", Some(2000), Some(1024));
    assert_eq!(r.total_lines, 3);
    assert_eq!(r.output_lines, 3);
    assert!(!r.truncated);
}

#[test]
fn tail_truncation_reports_an_exact_line_range() {
    let r = truncate_tail("1\n2\n3\n4\n5\n6\n7\n8\n9\n10\n", Some(3), Some(1024));
    assert_eq!(r.total_lines, 10);
    assert_eq!(r.output_lines, 3);
    assert_eq!(r.content, "8\n9\n10");
    assert!(r.truncated);
}

#[test]
fn tail_reports_bytes_when_single_kept_line_exceeds_byte_limit() {
    let r = truncate_tail("abcdef", Some(10), Some(3));
    assert_eq!(r.content, "abcdef");
    assert!(r.truncated);
    assert_eq!(r.truncated_by.as_deref(), Some("bytes"));
}

#[test]
fn head_allows_single_line_at_exact_byte_limit() {
    let r = truncate_head("abc", Some(10), Some(3));
    assert_eq!(r.content, "abc");
    assert_eq!(r.output_bytes, 3);
    assert!(!r.truncated);
}

#[test]
fn tail_allows_single_line_at_exact_byte_limit() {
    let r = truncate_tail("abc", Some(10), Some(3));
    assert_eq!(r.content, "abc");
    assert_eq!(r.output_bytes, 3);
    assert!(!r.truncated);
}

#[test]
fn tail_handles_single_empty_line_with_trailing_newline() {
    let r = truncate_tail("\n", Some(10), Some(10));
    assert_eq!(r.content, "");
    assert_eq!(r.output_lines, 1);
    assert_eq!(r.total_lines, 1);
    assert!(!r.truncated);
}

#[test]
fn tail_preserves_trailing_empty_logical_line() {
    let r = truncate_tail("a\n\n", Some(2), Some(10));
    assert_eq!(r.content, "a\n");
    assert_eq!(r.output_lines, 2);
    assert_eq!(r.total_lines, 2);
    assert!(!r.truncated);
}

#[test]
fn head_is_bounded_by_bytes() {
    let r = truncate_head("abc\ndef\nghi\n", Some(10), Some(7));
    assert_eq!(r.content, "abc\ndef");
    assert_eq!(r.output_bytes, 7);
    assert_eq!(r.truncated_by.as_deref(), Some("bytes"));
    let r = truncate_head("abc\ndef\nghi\n", Some(10), Some(6));
    assert_eq!(r.content, "abc");
}

#[test]
fn an_overlong_first_line_is_reported() {
    let r = truncate_head("abcdef\nx\n", Some(10), Some(3));
    assert!(r.first_line_exceeds_limit);
    assert_eq!(r.content, "");
    assert_eq!(r.output_lines, 0);
    assert_eq!(r.total_lines, 2);
    assert!(!r.truncated);
}

#[test]
fn truncation_stays_within_its_limits() {
    let text: String = (0..100).map(|i| format!("line {i}\n")).collect();
    for lines in [1usize, 7, 200] {
        for bytes in [10usize, 50, 5000] {
            let h = truncate_head(&text, Some(lines), Some(bytes));
            assert!(h.output_lines <= lines && h.output_bytes <= bytes);
            assert!(h.output_lines >= 1);
            let t = truncate_tail(&text, Some(lines), Some(bytes));
            assert!(t.output_lines <= lines);
            assert!(t.output_bytes <= bytes || t.output_lines == 1);
        }
    }
}

#[test]
fn content_within_the_limits_comes_back_whole() {
    let r = truncate_head("a\nb\n", None, None);
    assert_eq!((r.content.as_str(), r.truncated), ("a\nb", false));
    let r = truncate_tail("a\nb\n", None, None);
    assert_eq!((r.content.as_str(), r.truncated), ("a\nb", false));
}

#[test]
fn logical_lines_are_counted() {
    assert_eq!(logical_line_count(""), 0);
    assert_eq!(logical_line_count("a"), 1);
    assert_eq!(logical_line_count("a\n"), 1);
    assert_eq!(logical_line_count("a\n\n"), 2);
}

#[test]
fn sizes_read_as_rounded_doubles() {
    assert_eq!(format_size(0), "0B");
    assert_eq!(format_size(1023), "1023B");
    assert_eq!(format_size(1024), "1.0KB");
    assert_eq!(format_size(50 * 1024), "50.0KB");
    assert_eq!(format_size(1024 * 1024), "1.0MB");
    let mut samples: Vec<usize> = (1024..20000).step_by(13).collect();
    samples.extend([1048575usize, 1048576, 1100000, 157286400, usize::MAX / 3, usize::MAX]);
    for n in samples {
        let expected = if n < 1024 {
            format!("{n}B")
        } else if n < 1024 * 1024 {
            format!("{:.1}KB", n as f64 / 1024.0)
        } else {
            format!("{:.1}MB", n as f64 / (1024.0 * 1024.0))
        };
        assert_eq!(format_size(n), expected, "{n}");
    }
}

#[test]
fn doubles_are_rounded_to_even() {
    for n in [0u128, 1, 9007199254740991, 9007199254740993, 9007199254740995, 18446744073709551615] {
        assert_eq!(value_of_double(n), (n as f64) as u128);
    }
}
