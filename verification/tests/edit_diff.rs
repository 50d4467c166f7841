//! Edits, diffs and line endings.

use pixie_pi::json::Json;
use pixie_pi::tools::diff::{diff_lines, diff_middle, DiffOp};
use pixie_pi::tools::edit::{
    check_request, edit_content, edit_details, edit_report, prepare_arguments, prepare_with,
    read_request, EditRequestError, EditTool,
};
use pixie_pi::tools::edit_diff::{
    apply_edits, detect_line_ending, generate_diff, normalize_for_fuzzy_match, normalize_to_lf,
    restore_line_endings, split_lines_with_endings, strip_and_fold, strip_bom, Edit, EditError,
    LineEnding,
};

fn edit(old: &str, new: &str) -> Edit {
    Edit { old_text: old.to_string(), new_text: new.to_string() }
}

#[test]
fn applies_unique_non_overlapping_edits() {
    let content = "fn main() {\n    let x = 1;\n    let y = 2;\n}\n";
    let edits = vec![edit("let x = 1;", "let x = 42;"), edit("let y = 2;", "let y = 99;")];
    let (base, new) = apply_edits(content, &edits, "f.rs").unwrap();
    assert!(new.contains("let x = 42;"));
    assert!(new.contains("let y = 99;"));
    assert!(!base.contains("let x = 42;"));
}

#[test]
fn rejects_non_unique_oldtext() {
    let content = "a\na\n";
    let edits = vec![edit("a", "b")];
    let err = apply_edits(content, &edits, "f").unwrap_err();
    assert!(err.message().contains("not unique"));
}

#[test]
fn rejects_overlapping_edits() {
    let content = "abcdef";
    let edits = vec![edit("abcd", "X"), edit("cdef", "Y")];
    let err = apply_edits(content, &edits, "f").unwrap_err();
    assert!(err.message().contains("Overlap"));
}

#[test]
fn fuzzy_rescues_trailing_whitespace_and_preserves_untouched_lines() {
    // The file's `foo  ` line has trailing spaces that the old text lacks. Only
    // the touched lines are rewritten.
    let content = "header   \nfoo  \nbar\nfooter   \n";
    let edits = vec![edit("foo\nbar", "REPLACED")];
    let (base, new) = apply_edits(content, &edits, "f.rs").unwrap();
    assert_eq!(
        new, "header   \nREPLACED\nfooter   \n",
        "fuzzy edit must replace only the touched lines: {new:?}"
    );
    assert_eq!(base, content, "base is the original content");
}

#[test]
fn fuzzy_rescues_smart_quotes_and_dashes() {
    let content = "it\u{2019}s here\u{2014}now\n";
    let edits = vec![edit("it's here-now", "done")];
    let (_base, new) = apply_edits(content, &edits, "f").unwrap();
    assert!(new.contains("done"), "{new}");
}

#[test]
fn fuzzy_count_rejects_whitespace_only_duplicate() {
    let content = "foo   \nfoo\n";
    let edits = vec![edit("foo", "bar")];
    let err = apply_edits(content, &edits, "f").unwrap_err().message();
    assert!(err.contains("not unique"), "{err}");
    assert!(err.contains("2 matches"), "{err}");
}

#[test]
fn fuzzy_genuinely_absent_oldtext_still_errors() {
    let content = "hello world\n";
    let edits = vec![edit("missing", "x")];
    let err = apply_edits(content, &edits, "f").unwrap_err().message();
    assert!(err.contains("was not found"), "{err}");
}

#[test]
fn diff_shows_changes() {
    let (diff, first) = generate_diff("a\nb\nc\n", "a\nB\nc\n", "f");
    assert!(diff.contains("-b"));
    assert!(diff.contains("+B"));
    assert_eq!(first, Some(2));
}

#[test]
fn matches_crlf_oldtext() {
    let normalized = normalize_to_lf("a\r\nb\r\n");
    let edits = vec![edit("a\r\nb", "c\nd")];
    let (_, new) = apply_edits(&normalized, &edits, "f").unwrap();
    assert!(new.contains("c\nd"));
}

#[test]
fn crlf_restore_has_no_doubled_carriage_returns() {
    let normalized = normalize_to_lf("fn main() {\r\n    let x = 1;\r\n}\r\n");
    let edits = vec![edit("let x = 1;", "let x = 2;\n    let y = 3;")];
    let (_, new_normalized) = apply_edits(&normalized, &edits, "f.rs").unwrap();
    let restored = restore_line_endings(&new_normalized, LineEnding::Crlf);
    assert!(!restored.contains("\r\r"), "doubled CR after restore");
    assert_eq!(restored, "fn main() {\r\n    let x = 2;\r\n    let y = 3;\r\n}\r\n");
}

#[test]
fn multihunk_diff_has_correct_line_numbers() {
    // Two single-line changes ten lines apart make two hunks.
    let base = "1\n2\n3\n4\n5\n6\n7\n8\n9\n10\n11\n";
    let new = "X\n2\n3\n4\n5\n6\n7\n8\n9\n10\nY\n";
    let (diff, first) = generate_diff(base, new, "f");
    assert!(
        diff.contains("@@ -8,4 +8,4 @@"),
        "second hunk header should be @@ -8,4 +8,4 @@\ngot:\n{diff}"
    );
    assert_eq!(first, Some(1));
    assert!(
        !diff.ends_with(" \n"),
        "diff should not end with a spurious empty context line, got:\n{diff:?}"
    );
}

#[test]
fn small_edit_in_a_large_file_produces_a_focused_diff() {
    let base: String =
        (0..2000).map(|i| format!("line-{i}")).collect::<Vec<_>>().join("\n") + "\n";
    let new = {
        let mut lines: Vec<String> = (0..2000).map(|i| format!("line-{i}")).collect();
        lines[1234] = "line-1234-CHANGED".into();
        lines.join("\n") + "\n"
    };
    let (diff, first) = generate_diff(&base, &new, "f");
    assert_eq!(first, Some(1235), "first changed line is line 1235 (1-indexed)");
    assert!(diff.contains("-line-1234\n"), "{diff}");
    assert!(diff.contains("+line-1234-CHANGED\n"), "{diff}");
    assert!(
        diff.contains("@@ -1232,7 +1232,7 @@\n"),
        "expected a single focused hunk header, got:\n{diff}"
    );
    assert!(!diff.contains("line-0\n"));
    assert!(!diff.contains("line-1999\n"));
}

#[test]
fn large_full_rewrite_uses_the_bounded_fallback() {
    // Every line differs, so the changed middle is over the budget of the table.
    let base: String = (0..2000).map(|i| format!("old-{i}\n")).collect();
    let new: String = (0..2000).map(|i| format!("new-{i}\n")).collect();
    let (diff, first) = generate_diff(&base, &new, "big.txt");
    assert!(diff.starts_with("--- big.txt\n+++ big.txt\n"), "{diff}");
    assert_eq!(first, Some(1));
    assert!(diff.contains("-old-0\n"), "{diff}");
    assert!(diff.contains("+new-0\n"), "{diff}");
}

#[test]
fn a_diff_is_exact() {
    let (diff, first) = generate_diff("a\nb\nc\n", "a\nB\nc\n", "f");
    assert_eq!(diff, "--- f\n+++ f\n@@ -1,3 +1,3 @@\n a\n-b\n+B\n c\n");
    assert_eq!(first, Some(2));
}

#[test]
fn a_diff_of_equal_sides_has_no_hunk() {
    let (diff, first) = generate_diff("a\nb\n", "a\nb\n", "f");
    assert!(!diff.contains("@@"), "{diff}");
    assert_eq!(first, None);
}

fn sides(ops: &[DiffOp]) -> (Vec<String>, Vec<String>) {
    let mut old = Vec::new();
    let mut new = Vec::new();
    for op in ops {
        match op {
            DiffOp::Equal(l) => {
                old.push(l.clone());
                new.push(l.clone());
            }
            DiffOp::Delete(l) => old.push(l.clone()),
            DiffOp::Insert(l) => new.push(l.clone()),
        }
    }
    (old, new)
}

fn words(s: &str) -> Vec<String> {
    s.split(' ').map(|w| w.to_string()).collect()
}

#[test]
fn a_diff_reproduces_both_sides() {
    let a = words("a b c d e f g");
    let b = words("b x d e y g z");
    let ops = diff_lines(&a, &b);
    assert_eq!(sides(&ops), (a, b));
}

#[test]
fn a_diff_keeps_a_longest_common_subsequence() {
    let a = words("a b c d e f g");
    let b = words("b x d e y g z");
    let ops = diff_lines(&a, &b);
    let kept = ops.iter().filter(|o| matches!(o, DiffOp::Equal(_))).count();
    assert_eq!(kept, 4);
}

fn steps(ops: &[DiffOp]) -> Vec<String> {
    ops.iter()
        .map(|o| match o {
            DiffOp::Equal(l) => format!("={l}"),
            DiffOp::Delete(l) => format!("-{l}"),
            DiffOp::Insert(l) => format!("+{l}"),
        })
        .collect()
}

#[test]
fn shared_ends_do_not_change_the_steps() {
    let ops = diff_lines(&words("x c"), &words("c y c"));
    assert_eq!(steps(&ops), vec!["-x", "=c", "+y", "+c"]);
    let ops = diff_lines(&words("c y c"), &words("x c"));
    assert_eq!(steps(&ops), vec!["-c", "-y", "+x", "=c"]);
    let a = words("h a b c d t a b t");
    let b = words("h b d a c t t b t");
    assert_eq!(steps(&diff_lines(&a, &b)), steps(&diff_middle(&a, &b)));
}

#[test]
fn edit_errors_have_their_words() {
    let path = "src/a.rs".to_string();
    assert_eq!(
        EditError::EmptyOldText { path: path.clone() }.message(),
        "Could not edit file: src/a.rs. An edits[].oldText is empty."
    );
    assert_eq!(
        EditError::NotUnique { path: path.clone(), count: 3 }.message(),
        "Could not edit file: src/a.rs. The oldText is not unique (found 3 matches). Include more surrounding context so oldText matches exactly one location."
    );
    let err = apply_edits("abc", &[edit("", "x")], "src/a.rs").unwrap_err();
    assert!(matches!(err, EditError::EmptyOldText { .. }));
    let err = apply_edits("abc", &[edit("zzz", "x")], "src/a.rs").unwrap_err();
    assert!(matches!(err, EditError::NotFound { .. }));
    let err = apply_edits("aXa", &[edit("a", "x")], "src/a.rs").unwrap_err();
    assert!(matches!(err, EditError::NotUnique { count: 2, .. }));
    let err = apply_edits("abcd", &[edit("abc", "x"), edit("bcd", "y")], "p").unwrap_err();
    assert!(matches!(err, EditError::Overlapping { .. }));
}

#[test]
fn a_blank_oldtext_must_be_unique_too() {
    let err = apply_edits("  a\n  b\n", &[edit("  ", "\t")], "f").unwrap_err();
    assert!(matches!(err, EditError::NotUnique { count: 2, .. }));
    assert!(err.message().contains("not unique"));
    let (_, new) = apply_edits("  a\nb\n", &[edit("  ", "\t")], "f").unwrap();
    assert_eq!(new, "\ta\nb\n");
}

#[test]
fn a_blank_last_line_stays_behind_a_fuzzy_edit() {
    let content = "it\u{2019}s\n  ";
    let (base, new) = apply_edits(content, &[edit("it's", "done")], "f").unwrap();
    assert_eq!(base, content);
    assert_eq!(new, "done\n  ");
    let (_, new) = apply_edits("it\u{2019}s\n \t\nx \n", &[edit("it's", "done")], "f").unwrap();
    assert_eq!(new, "done\n \t\nx \n");
}

#[test]
fn the_order_of_edits_does_not_matter() {
    let content = "one\ntw\u{2019}o \nthree\nfour ";
    let edits = [edit("one", "1"), edit("tw'o", "2"), edit("three", "3")];
    let (_, first) = apply_edits(content, &edits, "f").unwrap();
    assert_eq!(first, "1\n2\n3\nfour ");
    let turned = [edit("three", "3"), edit("one", "1"), edit("tw'o", "2")];
    let (_, second) = apply_edits(content, &turned, "f").unwrap();
    assert_eq!(first, second);
}

#[test]
fn text_between_edits_is_kept() {
    let (_, new) = apply_edits("0a1b2", &[edit("b", "B"), edit("a", "AA")], "f").unwrap();
    assert_eq!(new, "0AA1B2");
}

#[test]
fn line_endings_are_told_apart_and_restored() {
    assert_eq!(detect_line_ending("a\r\nb"), LineEnding::Crlf);
    assert_eq!(detect_line_ending("a\nb"), LineEnding::Lf);
    assert_eq!(normalize_to_lf("a\r\nb\rc\nd"), "a\nb\nc\nd");
    assert_eq!(restore_line_endings("a\nb\n", LineEnding::Crlf), "a\r\nb\r\n");
    assert_eq!(restore_line_endings("a\nb\n", LineEnding::Lf), "a\nb\n");
    let text = "x\r\ny\r\n";
    assert_eq!(restore_line_endings(&normalize_to_lf(text), LineEnding::Crlf), text);
}

#[test]
fn a_byte_order_mark_is_split_off() {
    assert_eq!(strip_bom("\u{FEFF}abc"), ("\u{FEFF}".to_string(), "abc".to_string()));
    assert_eq!(strip_bom("abc"), (String::new(), "abc".to_string()));
}

#[test]
fn fuzzy_forms_fold_compatibility_characters() {
    // NFKC makes the ligature two letters and the full-width letter a plain one.
    assert_eq!(normalize_for_fuzzy_match("\u{FB01}n \u{FF21}  \n"), "fin A\n");
    assert_eq!(strip_and_fold("\u{201C}q\u{201D} \u{2013} x  \ny\t"), "\"q\" - x\ny");
}

#[test]
fn no_character_makes_or_takes_a_newline() {
    for c in '\u{0}'..=char::MAX {
        let text: String = [c, '\n', c].iter().collect();
        let folded = normalize_for_fuzzy_match(&text);
        let before = text.matches('\n').count();
        assert_eq!(folded.matches('\n').count(), before, "{:x}", c as u32);
    }
}

#[test]
fn lines_keep_their_ends() {
    assert_eq!(split_lines_with_endings("a\nb\n"), vec!["a\n", "b\n"]);
    assert_eq!(split_lines_with_endings("a\nb"), vec!["a\n", "b"]);
}

#[test]
fn an_edit_keeps_the_dress_of_its_file() {
    let raw = "\u{FEFF}a\r\nb\r\nc\r\n";
    let report = edit_content(raw, &vec![edit("b", "x\ny")], "f").unwrap();
    assert_eq!(report.content, "\u{FEFF}a\r\nx\r\ny\r\nc\r\n");
    assert_eq!(report.first_changed_line, Some(2));
    assert!(report.diff.contains("-b\n+x\n+y\n"), "{}", report.diff);
    assert!(edit_content(raw, &vec![edit("nope", "x")], "f").is_err());
}

fn object(fields: &[(&str, Json)]) -> Json {
    let mut out = Json::object();
    for (k, v) in fields {
        out = out.with(k, v.clone());
    }
    out
}

#[test]
fn a_single_pair_becomes_a_list_of_edits() {
    let args = object(&[
        ("path", Json::str("f")),
        ("oldText", Json::str("a")),
        ("newText", Json::str("b")),
    ]);
    let p = prepare_arguments(args);
    assert!(p.get("oldText").is_none());
    assert!(p.get("newText").is_none());
    assert_eq!(p.string_at("path"), Some("f"));
    let edits = p.get("edits").unwrap().as_array().unwrap();
    assert_eq!(edits.len(), 1);
    assert_eq!(edits[0].string_at("oldText"), Some("a"));
    assert_eq!(edits[0].string_at("newText"), Some("b"));
}

#[test]
fn edits_may_come_as_a_text() {
    let args = object(&[
        ("path", Json::str("f")),
        ("edits", Json::str("[{\"oldText\":\"a\",\"newText\":\"b\"}]")),
        ("oldText", Json::str("c")),
        ("newText", Json::str("d")),
    ]);
    let p = prepare_arguments(args);
    let edits = p.get("edits").unwrap().as_array().unwrap();
    assert_eq!(edits.len(), 2);
    assert_eq!(edits[0].string_at("oldText"), Some("a"));
    assert_eq!(edits[1].string_at("newText"), Some("d"));
    // A text that is no array stays as it is.
    let p = prepare_arguments(object(&[("edits", Json::str("{}"))]));
    assert_eq!(p.string_at("edits"), Some("{}"));
    let p = prepare_with(object(&[("edits", Json::str("x"))]), None);
    assert_eq!(p.string_at("edits"), Some("x"));
    assert_eq!(prepare_arguments(Json::str("s")).as_str(), Some("s"));
}

#[test]
fn edit_requests_are_checked() {
    let e = read_request(&Json::object()).unwrap_err();
    assert_eq!(e.message(), "edit requires a 'path' parameter");
    let e = read_request(&object(&[("file_path", Json::str("f"))])).unwrap_err();
    assert_eq!(e.message(), "edit requires an 'edits' array with at least one replacement");
    let args = object(&[("file_path", Json::str("f")), ("edits", Json::Null)]);
    let (path, edits) = read_request(&args).unwrap();
    assert_eq!(path, "f");
    assert!(edits.is_null());
    let e = check_request(&vec![], true, "f").unwrap_err();
    assert_eq!(e.message(), "edits must contain at least one replacement");
    let e = check_request(&vec![edit("a", "b")], false, "f").unwrap_err();
    assert_eq!(e.message(), "Could not edit file: f. File does not exist.");
    assert!(check_request(&vec![edit("a", "b")], true, "f").is_ok());
    let e = EditRequestError::BadEdits { message: "m".to_string() };
    assert_eq!(e.message(), "edits must be an array of {oldText,newText}: m");
}

#[test]
fn edit_reports_are_exact() {
    assert_eq!(edit_report(2, "f", "D"), "Successfully replaced 2 block(s) in f.\n\nD");
    let d = edit_details("D", Some(7));
    assert_eq!(d.string_at("diff"), Some("D"));
    assert_eq!(d.natural_at("firstChangedLine"), Some(7));
    assert!(edit_details("D", None).get("firstChangedLine").unwrap().is_null());
    let tool = EditTool { cwd: "/w".to_string() };
    assert_eq!(tool.schema().name, "edit");
    let t = tool.target("a/b", None);
    assert_eq!((t.path.as_str(), t.display.as_str()), ("/w/a/b", "a/b"));
}

#[test]
fn prepared_arguments_stay_prepared() {
    for text in [
        r#"{"path":"f","oldText":"a","newText":"b"}"#,
        r#"{"path":"f","edits":"[1]","oldText":"a"}"#,
        r#"{"edits":"no json"}"#,
        "7",
    ] {
        let once = prepare_arguments(pixie_pi::json::parse(text).unwrap());
        let twice = prepare_arguments(once.clone());
        assert_eq!(pixie_pi::json::write(&twice), pixie_pi::json::write(&once));
    }
}

#[test]
fn an_edited_file_reads_back() {
    for raw in ["a\r\nb\r\n", "\u{FEFF}a\nb\n", "a\nb\n"] {
        let report = edit_content(raw, &vec![edit("b", "x\ny")], "f").unwrap();
        let (_, body) = strip_bom(&report.content);
        assert_eq!(normalize_to_lf(&body), "a\nx\ny\n");
    }
}

#[test]
fn a_single_edit_replaces_its_text() {
    let (_, new) = apply_edits("one two three", &[edit("two", "2")], "f").unwrap();
    assert_eq!(new, "one 2 three");
}
