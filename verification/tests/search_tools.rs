//! The tools that look at files.

use pixie_pi::ai::types::ToolResultContent;
use pixie_pi::tools::find::{FindInput, FindSearch, FindTool};
use pixie_pi::tools::grep::{display_for, GrepInput, GrepSearch, GrepTool};
use pixie_pi::tools::ls::{LsError, LsInput, LsTool};
use pixie_pi::tools::order::sort_texts;
use pixie_pi::tools::pattern::{compile_glob, compile_pattern, glob_wants};
use pixie_pi::tools::read::{
    base64_encode, check_target, detect_image_mime, image_result, read_text, ReadInput, ReadTool,
};
use pixie_pi::tools::write::{write_report, WriteInput, WriteTool};
use pixie_pi::tools::{
    all_tools, coding_tools, read_only_tools, select_tools, BuiltinTool,
};

fn grep_input(pattern: &str) -> GrepInput {
    GrepInput {
        pattern: pattern.to_string(),
        path: None,
        glob: None,
        ignore_case: None,
        literal: None,
        context: None,
        limit: None,
    }
}

fn run_grep(input: GrepInput, files: &[(&str, &str)]) -> String {
    let tool = GrepTool { cwd: "/w".to_string() };
    let target = tool.target(&input, None);
    let mut walk = tool.begin(&input, &target, true, true).unwrap();
    for (name, content) in files {
        if walk.is_full() {
            break;
        }
        let path = format!("{}/{name}", target.path);
        if walk.wants(&path) {
            walk.add(&path, content);
        }
    }
    walk.finish()
}

#[test]
fn context_merges_overlapping_windows_no_duplicates() {
    let mut input = grep_input("MATCH");
    input.context = Some(1);
    let out = run_grep(input, &[("f.txt", "a\nb\nMATCH\nMATCH\nc\nd\n")]);
    let body: Vec<&str> = out.lines().filter(|l| !l.is_empty()).collect();
    assert_eq!(
        body,
        vec!["f.txt-2- b", "f.txt:3: MATCH", "f.txt:4: MATCH", "f.txt-5- c"],
        "adjacent matches should merge into one group with no duplicates"
    );
    assert!(!out.contains("\n--\n"));
}

#[test]
fn context_separates_disjoint_groups() {
    let mut input = grep_input("MATCH");
    input.context = Some(1);
    let out = run_grep(input, &[("f.txt", "MATCH\nx\nx\nx\nx\nx\nx\nx\nMATCH\n")]);
    assert!(out.contains("\n--\n"), "disjoint groups should be separated by --\n{out}");
    assert_eq!(out.matches(":1:").count(), 1);
    assert_eq!(out.matches(":9:").count(), 1);
}

#[test]
fn limit_not_reported_when_matches_equal_limit_exactly() {
    let mut input = grep_input("MATCH");
    input.limit = Some(3);
    let out = run_grep(input, &[("f.txt", "MATCH\nMATCH\nMATCH\n")]);
    assert_eq!(out.matches("f.txt:").count(), 3, "all 3 matches shown");
    assert!(!out.contains("limit reached"), "no false-positive limit notice\n{out}");
}

#[test]
fn limit_reported_and_capped_when_matches_exceed_limit() {
    let mut input = grep_input("MATCH");
    input.limit = Some(3);
    let out = run_grep(input, &[("f.txt", "MATCH\nMATCH\nMATCH\nMATCH\n")]);
    assert_eq!(out.matches("f.txt:").count(), 3, "exactly 3 matches shown");
    assert!(out.contains("limit reached"), "truncation notice present\n{out}");
}

#[test]
fn limit_straddling_two_files_emits_exactly_limit() {
    let mut input = grep_input("MATCH");
    input.limit = Some(3);
    let out = run_grep(input, &[("a.txt", "MATCH\nMATCH\n"), ("b.txt", "MATCH\nMATCH\n")]);
    assert_eq!(out.matches(".txt:").count(), 3, "exactly 3 matches across both files\n{out}");
    assert!(out.contains("limit reached"), "truncation notice present\n{out}");
}

#[test]
fn a_final_newline_is_no_line() {
    let mut input = grep_input("c");
    input.context = Some(5);
    let out = run_grep(input, &[("f", "a\nc\n")]);
    assert_eq!(out, "f-1- a\nf:2: c");
    // Nor does it match.
    assert_eq!(run_grep(grep_input("^$"), &[("f", "a\n")]), "No matches found");
}

#[test]
fn an_empty_file_has_one_empty_line() {
    assert_eq!(run_grep(grep_input("^$"), &[("e.txt", "")]), "e.txt:1: ");
    assert_eq!(run_grep(grep_input("^$"), &[("e.txt", "\n")]), "e.txt:1: ");
    assert_eq!(run_grep(grep_input("."), &[("e.txt", "")]), "No matches found");
}

#[test]
fn a_backslash_escapes_or_separates() {
    let g = compile_glob("a\\*.rs").unwrap();
    let separates = std::path::is_separator('\\');
    assert_eq!(glob_wants(Some(&g), "a*.rs", "none"), !separates);
    assert_eq!(glob_wants(Some(&g), "a/x.rs", "none"), separates);
    let g = compile_glob("a/x.rs").unwrap();
    assert_eq!(glob_wants(Some(&g), "a\\x.rs", "none"), separates);
    assert!(glob_wants(Some(&g), "a/x.rs", "none"));
}

#[test]
fn every_kind_of_line_end_counts() {
    assert_eq!(run_grep(grep_input("b"), &[("f", "a\r\nb\rc")]), "f:2: b");
}

#[test]
fn literal_patterns_are_escaped() {
    let mut input = grep_input("a.c(");
    input.literal = Some(true);
    assert_eq!(run_grep(input, &[("f", "abc(\na.c(\n")]), "f:2: a.c(");
    assert!(compile_pattern("a.c(", true, false).unwrap().is_match("xa.c(x"));
    assert!(compile_pattern("AB", false, true).unwrap().is_match("xaby"));
}

#[test]
fn globs_choose_files() {
    let mut input = grep_input("x");
    input.glob = Some("*.rs".to_string());
    let out = run_grep(input, &[("src/a.rs", "x"), ("b.txt", "x")]);
    assert_eq!(out, "src/a.rs:1: x");
    let g = compile_glob("src/**").unwrap();
    assert!(glob_wants(Some(&g), "src/a/b", "b"));
    assert!(!glob_wants(Some(&g), "lib/a", "a"));
    assert!(glob_wants(None, "lib/a", "a"));
}

#[test]
fn long_lines_are_cut() {
    let line = "y".repeat(600);
    let out = run_grep(grep_input("y"), &[("f", &line)]);
    assert!(out.starts_with(&format!("f:1: {}…", "y".repeat(500))), "{out}");
    assert!(
        out.ends_with("\n\n[Some lines truncated to 500 chars. Use read tool to see full lines]"),
        "{out}"
    );
}

#[test]
fn a_grep_limit_notice_is_exact() {
    let mut input = grep_input("m");
    input.limit = Some(0);
    assert_eq!(
        run_grep(input, &[("f", "m\nm\n")]),
        "f:1: m\n\n[1 matches limit reached. Use limit=2 for more, or refine pattern]"
    );
}

#[test]
fn grep_refuses_in_order() {
    let tool = GrepTool { cwd: "/w".to_string() };
    let mut input = grep_input("(");
    input.path = Some("nowhere".to_string());
    input.glob = Some("[".to_string());
    let t = tool.target(&input, None);
    let e = tool.begin(&input, &t, false, false).unwrap_err().message();
    assert!(e.starts_with("Invalid regex pattern: "), "{e}");
    input.pattern = "x".to_string();
    let e = tool.begin(&input, &t, false, false).unwrap_err().message();
    assert_eq!(e, "Path not found: nowhere");
    let e = tool.begin(&input, &t, true, true).unwrap_err().message();
    assert!(e.starts_with("Invalid glob: "), "{e}");
    assert_eq!(tool.schema().name, "grep");
}

#[test]
fn files_are_shown_below_the_root() {
    assert_eq!(display_for("/w/a/b.rs", "/w", true), "a/b.rs");
    assert_eq!(display_for("/w/b.rs", "/w/b.rs", false), "b.rs");
    assert_eq!(display_for("/w", "/w", true), "w");
    let mut s = GrepSearch::new(None, None);
    let re = compile_pattern("q", false, false).unwrap();
    s.search_file(&re, "d", "q\n");
    assert!(!s.is_full());
    assert_eq!(s.finish(), "d:1: q");
}

fn run_find(pattern: &str, limit: Option<usize>, path: Option<&str>, files: &[&str]) -> String {
    let tool = FindTool { cwd: "/w".to_string() };
    let input =
        FindInput { pattern: pattern.to_string(), path: path.map(|p| p.to_string()), limit };
    let target = tool.target(&input, None);
    let mut walk = tool.begin(&input, &target, true).unwrap();
    for f in files {
        if walk.is_full() {
            break;
        }
        walk.add(f);
    }
    walk.finish()
}

#[test]
fn limit_not_reported_when_results_equal_limit_exactly() {
    let out = run_find(
        "match*.txt",
        Some(3),
        None,
        &["/w/match1.txt", "/w/match2.txt", "/w/match3.txt"],
    );
    assert_eq!(out.matches(".txt").count(), 3, "all 3 results shown");
    assert!(!out.contains("limit reached"), "no false-positive limit notice\n{out}");
}

#[test]
fn limit_reported_and_capped_when_results_exceed_limit() {
    let out = run_find(
        "match*.txt",
        Some(3),
        None,
        &["/w/match1.txt", "/w/match2.txt", "/w/match3.txt", "/w/match4.txt"],
    );
    assert_eq!(out.matches(".txt").count(), 3, "exactly 3 results shown");
    assert!(out.contains("limit reached"), "truncation notice present\n{out}");
}

#[test]
fn find_limit_zero_is_clamped_to_one_not_reported_empty() {
    let out = run_find("match*.txt", Some(0), None, &["/w/match.txt"]);
    assert!(
        out.contains("match.txt"),
        "limit:0 should be clamped to 1 and show the match, got: {out}"
    );
    assert!(
        !out.contains("No files found"),
        "limit:0 must not report 'No files found' when a file matches: {out}"
    );
}

#[test]
fn searching_a_single_file_returns_its_name() {
    let out = run_find("*.txt", None, Some("match.txt"), &["/w/match.txt"]);
    assert_eq!(out, "match.txt");
}

#[test]
fn found_files_are_sorted() {
    let out = run_find("**/*.rs", None, None, &["/w/b/z.rs", "/w/a.rs", "/w/b/a.rs", "/w/c.txt"]);
    assert_eq!(out, "a.rs\nb/a.rs\nb/z.rs");
    assert_eq!(run_find("*.md", None, None, &["/w/a.rs"]), "No files found matching pattern");
    let sorted = sort_texts(vec!["b".to_string(), "é".to_string(), "B".to_string()]);
    assert_eq!(sorted, vec!["B", "b", "é"]);
}

#[test]
fn find_refuses_in_order() {
    let tool = FindTool { cwd: "/w".to_string() };
    let input = FindInput { pattern: "[".to_string(), path: Some("/x".to_string()), limit: None };
    let t = tool.target(&input, None);
    assert_eq!(tool.begin(&input, &t, false).unwrap_err().message(), "Path not found: /x");
    let e = tool.begin(&input, &t, true).unwrap_err().message();
    assert!(e.starts_with("Invalid glob pattern: "), "{e}");
    let mut s = FindSearch::new(Some(1));
    s.consider("a".to_string(), true);
    s.consider("b".to_string(), false);
    assert!(!s.is_full());
    s.consider("c".to_string(), true);
    assert!(s.is_full());
    assert_eq!(
        s.finish(),
        "a\n\n[1 results limit reached. Use limit=2 for more, or refine pattern]"
    );
}

fn run_ls(limit: Option<usize>, entries: &[(&str, bool)]) -> String {
    let tool = LsTool { cwd: "/w".to_string() };
    let input = LsInput { path: None, limit };
    let target = tool.target(&input, None);
    let mut listing = match tool.begin(&input, &target, true, true) {
        Ok(l) => l,
        Err(e) => panic!("{}", e.message()),
    };
    for (name, is_dir) in entries {
        listing.push(name.to_string(), *is_dir);
    }
    listing.finish()
}

#[test]
fn ls_limit_zero_is_clamped_to_one_not_reported_empty() {
    let out = run_ls(Some(0), &[("a.txt", false), ("b.txt", false)]);
    assert!(
        out.contains("a.txt"),
        "limit:0 should be clamped to 1 and show an entry, got: {out}"
    );
    assert!(
        !out.contains("empty directory"),
        "limit:0 must not report '(empty directory)' when entries exist: {out}"
    );
}

#[test]
fn limit_keeps_first_entries_in_sorted_order_and_reports_more() {
    let out = run_ls(Some(2), &[("z.txt", false), ("a.txt", false), ("m.txt", false)]);
    assert!(out.starts_with("a.txt\nm.txt"), "sorted limited output: {out}");
    assert!(!out.contains("z.txt"), "limit should cap visible rows: {out}");
    assert!(out.contains("2 entries limit reached"), "limit notice present: {out}");
}

#[test]
fn listings_ignore_the_order_of_entries() {
    let a = run_ls(None, &[("B", false), ("a", true), ("b", false), (".x", false)]);
    let b = run_ls(None, &[(".x", false), ("b", false), ("B", false), ("a", true)]);
    assert_eq!(a, b);
    assert_eq!(a, ".x\na/\nB\nb");
    assert_eq!(run_ls(None, &[]), "(empty directory)");
}

#[test]
fn ls_refuses_what_is_no_directory() {
    let tool = LsTool { cwd: "/w".to_string() };
    let input = LsInput { path: Some("d".to_string()), limit: None };
    let t = tool.target(&input, None);
    assert!(matches!(
        tool.begin(&input, &t, false, false),
        Err(LsError::NotFound { display }) if display == "d"
    ));
    match tool.begin(&input, &t, true, false) {
        Err(e) => assert_eq!(e.message(), "Not a directory: d"),
        Ok(_) => panic!("expected an error"),
    }
    let e = LsError::Unreadable { message: "m".to_string() };
    assert_eq!(e.message(), "Cannot read directory: m");
}

fn run_read(content: &str, offset: Option<usize>, limit: Option<usize>) -> Result<String, String> {
    read_text(content, offset, limit, "f.txt").map_err(|e| e.message())
}

#[test]
fn trailing_newline_does_not_inflate_line_count() {
    let out = run_read("l1\nl2\nl3\n", None, Some(2)).unwrap();
    assert!(
        out.contains("[1 more lines in file. Use offset=3 to continue.]"),
        "expected exact remaining-count message, got:\n{out}"
    );
}

#[test]
fn offset_beyond_end_uses_exact_line_count() {
    let err = run_read("l1\nl2\nl3\n", Some(4), None).unwrap_err();
    assert!(err.contains("3 lines total"), "expected '3 lines total' in error, got: {err}");
}

#[test]
fn limit_zero_is_clamped_to_one_not_an_empty_no_op() {
    let out = run_read("l1\nl2\nl3\n", None, Some(0)).unwrap();
    assert!(out.contains("l1"), "limit:0 must still return the first line, got: {out}");
    assert!(
        !out.starts_with('\n'),
        "limit:0 must not return an empty/leading-blank read: {out:?}"
    );
    assert!(
        out.contains("Use offset=2"),
        "continuation hint must advance to offset 2, not point back at offset 1: {out}"
    );
}

#[test]
fn full_read_of_trailing_newline_file_has_no_phantom_blank_line() {
    let out = run_read("a\nb\nc\n", None, None).unwrap();
    assert!(!out.ends_with('\n'), "no trailing newline/blank line: {out:?}");
    assert_eq!(out, "a\nb\nc");
}

#[test]
fn reads_are_paged() {
    let text: String = (1..=2500).map(|i| format!("{i}\n")).collect();
    let out = run_read(&text, None, None).unwrap();
    assert!(
        out.ends_with("2000\n\n[Showing lines 1-2000 of 2500. Use offset=2001 to continue.]"),
        "{}",
        &out[out.len() - 100..]
    );
    let rest = run_read(&text, Some(2001), None).unwrap();
    assert!(rest.starts_with("2001\n"));
    assert!(rest.ends_with("\n2500"));
    let wide: String = (0..20).map(|_| "z".repeat(5000) + "\n").collect();
    let out = run_read(&wide, Some(3), None).unwrap();
    assert!(
        out.ends_with("[Showing lines 3-12 of 20 (50.0KB limit). Use offset=13 to continue.]"),
        "{}",
        &out[out.len() - 100..]
    );
    let huge = "z".repeat(60000);
    assert_eq!(
        run_read(&huge, None, None).unwrap(),
        "[Line 1 exceeds 50.0KB limit. Use bash: sed -n '1p' f.txt | head -c 51200]"
    );
}

#[test]
fn following_the_notices_gives_the_file() {
    let text: String = (1..=2500).map(|i| format!("line {i}\n")).collect();
    for limit in [None, Some(1), Some(7), Some(2400)] {
        let mut offset: usize = 1;
        let mut pages: Vec<String> = Vec::new();
        loop {
            let out = run_read(&text, Some(offset), limit).unwrap();
            match out.rfind("\n\n[") {
                Some(at) => {
                    let tail = "Use offset=";
                    let from = out.rfind(tail).unwrap() + tail.len();
                    let upto = out.rfind(" to continue.]").unwrap();
                    let next: usize = out[from..upto].parse().unwrap();
                    assert!(next > offset);
                    pages.push(out[..at].to_string());
                    offset = next;
                }
                None => {
                    pages.push(out);
                    break;
                }
            }
        }
        assert_eq!(pages.join("\n") + "\n", text, "limit {limit:?}");
    }
}

fn read_input(path: Option<&str>, file_path: Option<&str>) -> ReadInput {
    ReadInput {
        path: path.map(|p| p.to_string()),
        file_path: file_path.map(|p| p.to_string()),
        offset: None,
        limit: None,
    }
}

#[test]
fn reads_are_checked() {
    let tool = ReadTool { cwd: "/w".to_string() };
    let e = tool.target(&read_input(None, None), true, None).unwrap_err();
    assert_eq!(e.message(), "read requires a 'path' parameter");
    let e = tool.target(&read_input(Some("f"), None), true, None).unwrap_err();
    assert_eq!(e.message(), "Operation aborted");
    let t = tool.target(&read_input(None, Some("f")), false, None).unwrap();
    assert_eq!((t.raw.as_str(), t.path.as_str()), ("f", "/w/f"));
    assert_eq!(check_target(&t, false, false).unwrap_err().message(), "File not found: f");
    assert_eq!(
        check_target(&t, true, true).unwrap_err().message(),
        "Path is a directory, not a file: f"
    );
    assert!(check_target(&t, true, false).is_ok());
}

#[test]
fn images_are_attached() {
    assert_eq!(detect_image_mime("a/B.JPEG"), Some("image/jpeg"));
    assert_eq!(detect_image_mime("x.webp"), Some("image/webp"));
    assert_eq!(detect_image_mime("x.txt"), None);
    let r = image_result(b"Man", "image/png");
    assert_eq!(r.content.len(), 2);
    assert!(matches!(
        &r.content[0],
        ToolResultContent::Text { text } if text == "Read image file [image/png]"
    ));
    assert!(matches!(
        &r.content[1],
        ToolResultContent::Image { data, mime_type } if data == "TWFu" && mime_type == "image/png"
    ));
}

#[test]
fn base64_is_padded() {
    assert_eq!(base64_encode(b""), "");
    assert_eq!(base64_encode(b"f"), "Zg==");
    assert_eq!(base64_encode(b"fo"), "Zm8=");
    assert_eq!(base64_encode(b"foo"), "Zm9v");
    assert_eq!(base64_encode(b"foobar"), "Zm9vYmFy");
    assert_eq!(base64_encode(&[0xfb, 0xff, 0xfe]), "+//+");
    assert_ne!(base64_encode(&[0]), base64_encode(&[0, 0]));
}

#[test]
fn writes_are_reported() {
    assert_eq!(write_report("añ", "f"), "Successfully wrote 3 bytes to f");
    let tool = WriteTool { cwd: "/w".to_string() };
    let mut input = WriteInput { path: None, file_path: None, content: None };
    let e = tool.target(&input, None).unwrap_err();
    assert_eq!(e, "write requires a 'path' parameter");
    assert_eq!(input.text(), "");
    input.file_path = Some("~/x".to_string());
    let t = tool.target(&input, Some("/home/u")).unwrap();
    assert_eq!((t.path.as_str(), t.display.as_str()), ("/home/u/x", "~/x"));
    assert_eq!(tool.schema().name, "write");
}

#[test]
fn tool_sets_are_fixed() {
    let names = |v: Vec<BuiltinTool>| v.into_iter().map(|t| t.name()).collect::<Vec<_>>();
    assert_eq!(names(coding_tools()), vec!["read", "bash", "edit", "write"]);
    assert_eq!(names(read_only_tools()), vec!["read", "grep", "find", "ls"]);
    assert_eq!(
        names(all_tools()),
        vec!["read", "bash", "edit", "write", "grep", "find", "ls"]
    );
    let wanted = vec!["ls".to_string(), "nope".to_string(), "read".to_string()];
    assert_eq!(names(select_tools(&wanted)), vec!["read", "ls"]);
}

#[test]
fn schemas_name_their_parameters() {
    let s = ReadTool { cwd: String::new() }.schema();
    assert_eq!(s.name, "read");
    let required = s.input_schema.get("required").unwrap().as_array().unwrap();
    assert_eq!(required[0].as_str(), Some("path"));
    let s = LsTool { cwd: String::new() }.schema();
    assert!(s.input_schema.get("required").is_none());
    assert!(s.input_schema.get("properties").unwrap().get("limit").is_some());
    let s = FindTool { cwd: String::new() }.schema();
    assert_eq!(s.name, "find");
}

#[test]
fn neighbouring_pages_make_the_file() {
    let text = "a\nb\n\nc\nd\n";
    let mut pages: Vec<String> = Vec::new();
    for start in [1usize, 3, 5] {
        let page = run_read(text, Some(start), Some(2)).unwrap();
        pages.push(page.split("\n\n[").next().unwrap().to_string());
    }
    assert_eq!(pages.join("\n") + "\n", text);
}
