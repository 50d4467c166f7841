//! The interactive session, the command line and paths.

use pixie_pi::ai::types::{Message, ThinkingLevel, Usage, UserMessage};
use pixie_pi::ai::{builtin_models, DEFAULT_ANTHROPIC_BASE_URL};
use pixie_pi::cli::{file_of_argument, is_file_argument, split_arguments, OutputMode};
use pixie_pi::config::{agent_dir, project_session_dir, session_file};
use pixie_pi::modes::interactive::{
    banner, compacted, handle_slash, read_line, turn_summary, InputLine, Shown, SlashResult,
    Surroundings, Tone,
};
use pixie_pi::session::AgentSession;
use pixie_pi::tools::util::{
    display_path, expand_tilde, file_name, join_path, resolve_read_path, resolve_to_cwd,
    shorten_path, strip_prefix,
};

#[test]
fn lines_are_told_apart() {
    assert!(matches!(read_line("  \t"), InputLine::Blank));
    assert!(matches!(read_line(" /help me "), InputLine::Slash(c) if c == "/help me"));
    assert!(matches!(read_line(" hello / "), InputLine::Prompt(p) if p == "hello /"));
}

fn session() -> AgentSession {
    let model = builtin_models(DEFAULT_ANTHROPIC_BASE_URL, "family").remove(0);
    let mut s = AgentSession::new(
        "/w".to_string(),
        "sys".to_string(),
        model,
        ThinkingLevel::Medium,
        vec![],
    );
    s.messages.push(Message::User(UserMessage::text("abcd")));
    s
}

fn plain(v: &[Shown]) -> Vec<String> {
    v.iter()
        .map(|l| l.spans.iter().map(|s| s.text.as_str()).collect::<String>())
        .collect()
}

fn run(s: &mut AgentSession, line: &str) -> (SlashResult, Vec<String>, bool) {
    let models = builtin_models(DEFAULT_ANTHROPIC_BASE_URL, "family");
    let around = Surroundings { models: &models, usage_percent: 6, cost: "0.012345" };
    let (next, shown) = handle_slash(s, line, &around);
    let error = shown.iter().any(|l| l.error);
    (next, plain(&shown), error)
}

#[test]
fn commands_answer_in_words() {
    let mut s = session();
    let current = |t: &str| (SlashResult::Continue, vec![t.to_string()], false);
    let wrong = |t: &str| (SlashResult::Continue, vec![t.to_string()], true);
    assert_eq!(run(&mut s, "/model"), current("current: family-sonnet-4-6"));
    assert_eq!(run(&mut s, "/model opus"), current("family-sonnet-4-6 → family-opus-4-8"));
    assert_eq!(s.model.id, "family-opus-4-8");
    assert_eq!(run(&mut s, "/model gpt"), wrong("Unknown model"));
    assert_eq!(run(&mut s, "/thinking LOW x"), current("thinking: Low"));
    assert_eq!(s.thinking, ThinkingLevel::Low);
    assert_eq!(
        run(&mut s, "/thinking"),
        wrong("Invalid thinking level (off/minimal/low/medium/high/xhigh)")
    );
    assert_eq!(run(&mut s, "/foo bar"), wrong("Unknown command: /foo (try /help)"));
    assert_eq!(run(&mut s, "/ctx"), current("1/1000000 tokens (6%)"));
    s.total_usage =
        Usage { input: 12345, output: 6789, cache_read: 0, cache_write: 0, total_tokens: 0 };
    assert_eq!(run(&mut s, "/cost"), current("$0.012345 (12345 in, 6789 out)"));
    assert_eq!(run(&mut s, "/tools"), current("tools "));
    assert_eq!(run(&mut s, "/system"), current("sys"));
    assert_eq!(run(&mut s, "/"), (SlashResult::Continue, vec![], false));
    assert_eq!(s.messages.len(), 1);
    assert_eq!(run(&mut s, "/clear"), current("Conversation cleared."));
    assert!(s.messages.is_empty());
    assert_eq!(run(&mut s, "/compact"), (SlashResult::Compact, vec![], false));
    assert_eq!(plain(&compacted(15)), vec!["Compacted: 15 messages"]);
}

#[test]
fn only_exit_commands_end_the_session() {
    let mut s = session();
    for line in ["/exit", "/quit now", "/q"] {
        assert_eq!(run(&mut s, line).0, SlashResult::Exit);
    }
    for line in ["/help", "/h", "/?", "/exits", "/ q2"] {
        assert_eq!(run(&mut s, line).0, SlashResult::Continue);
    }
}

#[test]
fn help_lists_the_commands() {
    let mut s = session();
    let (_, lines, _) = run(&mut s, "/help");
    assert_eq!(
        lines,
        vec![
            "Available commands:",
            "  /help  show available commands",
            "  /exit  quit the session",
            "  /clear  clear conversation",
            "  /model <id>  switch model",
            "  /thinking <lvl>  set thinking level",
            "  /compact  compress old messages",
            "  /context  show token usage",
        ]
    );
}

#[test]
fn a_long_system_prompt_is_previewed() {
    let mut s = session();
    s.system_prompt = "é".repeat(401);
    let (_, lines, _) = run(&mut s, "/system");
    assert_eq!(lines, vec!["é".repeat(400), "…".to_string()]);
    s.system_prompt = "é".repeat(400);
    assert_eq!(run(&mut s, "/system").1.len(), 1);
}

#[test]
fn the_banner_is_short() {
    let shown = banner(&session(), "0.1.1", 2);
    assert_eq!(
        plain(&shown),
        vec!["pixie-pi v0.1.1 — family-sonnet-4-6 — 2%", "cwd: /w", "Type /help for commands", ""]
    );
    assert_eq!(shown[0].spans[0].tone, Tone::Magenta);
}

#[test]
fn summaries_are_shown_when_they_matter() {
    let u = Usage { input: 5678, output: 1234, cache_read: 0, cache_write: 0, total_tokens: 0 };
    assert_eq!(turn_summary(&u, false, "0.0034", 50), None);
    assert_eq!(
        turn_summary(&u, false, "0.0034", 65).as_deref(),
        Some("  ↳ 1234 out, 5678 in, $0.0034, ctx 65%")
    );
    assert!(turn_summary(&u, true, "0.0234", 1).is_some());
}

#[test]
fn file_arguments_are_split_off() {
    let args: Vec<String> =
        ["@a.txt", "do", "@@x", "@", "-p", "@b"].iter().map(|s| s.to_string()).collect();
    let (files, rest) = split_arguments(&args);
    assert_eq!(files, vec!["@a.txt", "@b"]);
    assert_eq!(rest, vec!["do", "@@x", "@", "-p"]);
    assert!(is_file_argument("@a"));
    assert_eq!(file_of_argument("@a.txt"), "a.txt");
    assert_eq!(OutputMode::parse("json"), Some(OutputMode::Json));
    assert_eq!(OutputMode::parse("text"), Some(OutputMode::Text));
    assert_eq!(OutputMode::parse("xml"), None);
}

#[test]
fn configuration_has_its_places() {
    assert_eq!(agent_dir(Some("~/x"), Some("/c"), Some("/h")), "/h/x");
    assert_eq!(agent_dir(Some(""), Some("/c"), Some("/h")), "/c/pixie-pi/agent");
    assert_eq!(agent_dir(None, None, Some("/h")), "/h/pixie-pi/agent");
    assert_eq!(agent_dir(None, None, None), "./pixie-pi/agent");
    assert_eq!(project_session_dir("/a", 0xab), "/a/sessions/--00000000000000ab--");
    assert_eq!(
        session_file("/a", u64::MAX),
        "/a/sessions/--ffffffffffffffff--/session.jsonl"
    );
}

#[test]
fn paths_are_resolved() {
    assert_eq!(resolve_to_cwd("a/b", "/w", None), "/w/a/b");
    assert_eq!(resolve_to_cwd("/a", "/w", None), "/a");
    assert_eq!(resolve_read_path("~", "/w", Some("/h")), "/h");
    assert_eq!(expand_tilde("~/a", Some("/h")), "/h/a");
    assert_eq!(expand_tilde("~/a", None), "~/a");
    assert_eq!(expand_tilde("~a", Some("/h")), "~a");
    assert_eq!(join_path("/w/", "a"), "/w/a");
    for path in ["x", "~/y", "/z", "", "."] {
        assert!(resolve_to_cwd(path, "/w", Some("/h")).starts_with('/'));
    }
}

#[test]
fn paths_are_taken_apart_as_std_does() {
    for (path, base) in [
        ("/a/b/c", "/a"),
        ("/a/b/c", "/a/b/c"),
        ("/a//b/./c/", "/a/b"),
        ("/ab", "/a"),
        ("a/b", "a"),
        ("/a/b", "a"),
        ("./a/b", "./a"),
        ("a/..", "a"),
        ("/a/b", "/"),
    ] {
        let expected = std::path::Path::new(path)
            .strip_prefix(base)
            .ok()
            .map(|p| p.to_string_lossy().to_string());
        assert_eq!(strip_prefix(path, base), expected, "{path} below {base}");
        let expected =
            std::path::Path::new(path).file_name().map(|n| n.to_string_lossy().to_string());
        assert_eq!(file_name(path), expected, "{path}");
    }
}

#[test]
fn paths_are_shown_short() {
    assert_eq!(shorten_path("/w/a", "/w", Some("/h")), "a");
    assert_eq!(shorten_path("/w", "/w", Some("/h")), ".");
    assert_eq!(shorten_path("/h/a", "/w", Some("/h")), "~/a");
    assert_eq!(shorten_path("/x/a", "/w", Some("/h")), "/x/a");
    assert_eq!(display_path("a", "/w", None), "a");
}
