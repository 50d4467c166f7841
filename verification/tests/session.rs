//! Sessions, compaction and session files.

use pixie_pi::agent::context::ToolInfo;
use pixie_pi::agent::tool::ExecutionMode;
use pixie_pi::ai::types::{
    now_ms, AssistantMessage, ContentBlock, Message, StopReason, ThinkingLevel, ToolResultContent,
    ToolResultMessage, ToolSchema, Usage, UserBlock, UserMessage,
};
use pixie_pi::ai::{builtin_models, DEFAULT_ANTHROPIC_BASE_URL};
use pixie_pi::json::Json;
use pixie_pi::session::{
    compact_marker, compaction_budget, default_compact_model, estimate_tokens, session_content,
    session_records, summary_of, summary_prompt, transcript_for_summary, AgentSession,
};

fn session_with(messages: Vec<Message>) -> AgentSession {
    let mut model = builtin_models(DEFAULT_ANTHROPIC_BASE_URL, "family")[0].clone();
    model.context_window = 1; // tiny so compaction always wants to drop
    let session = AgentSession::new(
        ".".to_string(),
        "sys".into(),
        model,
        ThinkingLevel::Off,
        vec![],
    );
    AgentSession { messages, ..session }
}

fn user(s: &str) -> Message {
    Message::User(UserMessage::text(s))
}

fn assistant() -> Message {
    Message::Assistant(AssistantMessage::empty())
}

fn saying(s: &str) -> AssistantMessage {
    let mut m = AssistantMessage::empty();
    m.content.push(ContentBlock::Text { text: s.to_string() });
    m
}

fn result(id: &str, s: &str) -> Message {
    Message::ToolResult(ToolResultMessage {
        tool_call_id: id.into(),
        tool_name: "read".into(),
        content: vec![ToolResultContent::text(s)],
        is_error: false,
        timestamp: 0,
    })
}

#[test]
fn default_compact_model_uses_the_cheapest_tier() {
    let registry = builtin_models(DEFAULT_ANTHROPIC_BASE_URL, "family");
    let session = session_with(vec![]);
    let cm = session.summary_model(&registry, None);
    assert!(cm.id.contains("haiku"), "default compact model should be haiku: {}", cm.id);
    let cm = default_compact_model(&registry, None, &session.model);
    assert!(cm.id.contains("haiku"), "default compact model should be haiku: {}", cm.id);
}

#[test]
fn a_summary_model_can_be_named_or_set() {
    let registry = builtin_models(DEFAULT_ANTHROPIC_BASE_URL, "family");
    let mut session = session_with(vec![]);
    assert_eq!(session.summary_model(&registry, Some("opus")).id, "family-opus-4-8");
    assert_eq!(session.summary_model(&vec![], None).id, "family-sonnet-4-6");
    session.compact_model = Some(registry[1].clone());
    assert_eq!(session.summary_model(&registry, Some("haiku")).id, "family-opus-4-8");
}

#[test]
fn compaction_cut_drops_oldest_exchange_at_user_boundary() {
    let msgs = vec![
        user("first prompt"),
        assistant(),
        user("second prompt"),
        assistant(),
        user("third prompt"),
        assistant(),
    ];
    let s = session_with(msgs);
    let cut = s.compaction_cut();
    assert!(cut >= 2, "should cut at least the first exchange, got {cut}");
    let remaining = &s.messages[cut..];
    assert!(matches!(remaining.first(), Some(Message::User(_))), "starts with user");
    assert!(matches!(remaining.get(1), Some(Message::Assistant(_))), "alternates");
}

#[test]
fn compaction_cut_refuses_to_sever_tool_chain() {
    let msgs = vec![
        user("only prompt"),
        assistant(),
        result("t1", "x"),
        assistant(),
        result("t2", "y"),
    ];
    let s = session_with(msgs.clone());
    assert_eq!(s.compaction_cut(), 0, "no safe user boundary → no cut");
    assert_eq!(s.messages.len(), msgs.len(), "nothing dropped");
}

#[test]
fn apply_compaction_folds_summary_ahead_of_kept_user_text() {
    let msgs = vec![user("old prompt"), assistant(), user("kept prompt"), assistant()];
    let mut s = session_with(msgs);
    s.apply_compaction(2, Some("The user wanted to refactor parse()."));
    assert_eq!(s.messages.len(), 2, "dropped 2, kept 2");
    match &s.messages[0] {
        Message::User(u) => {
            let t = u.text_content();
            assert!(t.contains("Compaction summary"), "summary header present: {t}");
            assert!(
                t.contains("The user wanted to refactor parse()."),
                "summary body present: {t}"
            );
            assert!(t.contains("kept prompt"), "original user text preserved: {t}");
            assert!(t.find("Compaction summary").unwrap() < t.find("kept prompt").unwrap());
        }
        _ => panic!("must start with a user message"),
    }
}

#[test]
fn apply_compaction_falls_back_to_note_without_summary() {
    let msgs = vec![user("old"), assistant(), user("kept"), assistant()];
    let mut s = session_with(msgs);
    s.apply_compaction(2, None);
    assert_eq!(s.messages.len(), 2);
    assert!(matches!(s.messages.first(), Some(Message::User(_))));
    match &s.messages[0] {
        Message::User(u) => assert!(u.text_content().contains("dropped")),
        _ => unreachable!(),
    }
}

#[test]
fn small_transcripts_are_left_alone() {
    let s = session_with(vec![user("a"), assistant(), user("b"), assistant()]);
    assert_eq!(s.compaction_cut(), 0);
    let mut roomy = session_with(vec![user("a"), assistant(), user("b"), assistant(), user("c")]);
    roomy.model.context_window = 1_000_000;
    assert_eq!(roomy.compaction_cut(), 0);
    assert!(!roomy.should_compact());
}

#[test]
fn tokens_are_estimated_from_bytes() {
    assert_eq!(estimate_tokens(&[]), 0);
    let s = session_with(vec![user("abcdefgh"), result("t", "中中中中")]);
    assert_eq!(s.estimated_tokens(), (8 + 12) / 4);
    assert!(s.should_compact());
}

#[test]
fn the_budget_is_four_fifths_of_the_window() {
    for window in [0usize, 1, 2, 3, 5, 10, 200_000, 1_000_000, 123_456_789, usize::MAX] {
        assert_eq!(compaction_budget(window), (window as f64 * 0.8) as usize, "{window}");
    }
}

#[test]
fn transcripts_are_rendered_for_a_summary() {
    let mut m = saying("thinking aloud");
    m.content.push(ContentBlock::ToolCall {
        id: "t".to_string(),
        name: "read".to_string(),
        arguments: Json::object().with("path", Json::str("f")),
    });
    let messages = vec![user("do it"), Message::Assistant(m), result("t", "content")];
    let t = transcript_for_summary(&messages);
    assert!(t.contains("do it"), "{t}");
    assert!(t.contains("thinking aloud"), "{t}");
    assert!(t.contains("read"), "{t}");
    assert!(t.contains("{\"path\":\"f\"}"), "{t}");
    assert!(t.contains("content"), "{t}");
    let p = summary_prompt(&messages).unwrap();
    assert!(p.contains(&t), "{p}");
    assert!(summary_prompt(&[]).is_none());
}

#[test]
fn a_summary_is_the_text_of_a_good_answer() {
    assert_eq!(summary_of(Some(&saying(" short\n"))), Some(" short\n".to_string()));
    assert_eq!(summary_of(Some(&saying("  "))), None);
    assert_eq!(summary_of(None), None);
    let mut bad = saying("x");
    bad.stop_reason = StopReason::Error;
    bad.error_message = Some("e".to_string());
    assert_eq!(summary_of(Some(&bad)), None);
}

#[test]
fn a_session_file_gives_back_its_records() {
    let records = vec!["{\"a\":1}".to_string(), "{\"b\":\"x y\"}".to_string()];
    let content = session_content(&records);
    assert_eq!(content, "{\"a\":1}\n{\"b\":\"x y\"}\n");
    assert_eq!(session_records(&content), records);
    assert_eq!(session_records("a\r\n\n  \nb"), vec!["a", "b"]);
}

fn tool(name: &str) -> ToolInfo {
    ToolInfo {
        schema: ToolSchema {
            name: name.to_string(),
            description: String::new(),
            input_schema: Json::object(),
        },
        mode: ExecutionMode::Parallel,
    }
}

#[test]
fn a_session_knows_its_options() {
    let mut s = session_with(vec![]);
    s.tools = vec![tool("read"), tool("ls")];
    assert_eq!(s.tool_names(), vec!["read", "ls"]);
    s.api_key = Some("k".to_string());
    s.max_tokens = Some(7);
    let o = s.stream_options();
    assert_eq!(o.api_key.as_deref(), Some("k"));
    assert_eq!(o.max_tokens, Some(7));
    assert_eq!(o.reasoning, Some(ThinkingLevel::Off));
    assert!(o.cache_control);
    let o = s.summary_options();
    assert_eq!((o.max_tokens, o.timeout_ms), (Some(1024), Some(60000)));
    assert!(!o.cache_control);
    s.model.reasoning = false;
    assert_eq!(s.stream_options().reasoning, None);
}

#[test]
fn usage_adds_up() {
    let mut s = session_with(vec![]);
    let u = Usage { input: 1, output: 2, cache_read: 3, cache_write: 4, total_tokens: 10 };
    s.add_usage(&u);
    s.add_usage(&u);
    assert_eq!(
        s.total_usage,
        Usage { input: 2, output: 4, cache_read: 6, cache_write: 8, total_tokens: 20 }
    );
    let mut v = u;
    v.total_tokens = 0;
    v.recompute_total();
    assert_eq!(v.total_tokens, 10);
}

#[test]
fn messages_have_roles_and_texts() {
    assert_eq!(user("a").role(), "user");
    assert_eq!(assistant().role(), "assistant");
    assert_eq!(result("t", "x").role(), "toolResult");
    let m = UserMessage::new(vec![
        UserBlock::text("a"),
        UserBlock::Image { data: String::new(), mime_type: String::new() },
        UserBlock::text("b"),
    ]);
    assert_eq!(m.text_content(), "a\nb");
    assert_eq!(saying("x").text_content(), "x");
    assert_eq!(compact_marker().as_str(), Some("compacted"));
    // Later than 2020, and not going backwards.
    let t = now_ms();
    assert!(t > 1_577_836_800_000);
    assert!(now_ms() >= t);
}

#[test]
fn compaction_severs_no_tool_result_and_shortens() {
    let mut caller = AssistantMessage::empty();
    caller.content.push(ContentBlock::ToolCall {
        id: "t1".to_string(),
        name: "read".to_string(),
        arguments: Json::object(),
    });
    let mut s = session_with(vec![
        user("first"),
        assistant(),
        user("second"),
        Message::Assistant(caller),
        result("t1", "content"),
        assistant(),
    ]);
    let before = s.messages.len();
    let cut = s.compaction_cut();
    assert_eq!(cut, 2);
    s.apply_compaction(cut, None);
    assert_eq!(s.messages.len(), before - cut);
    let roles: Vec<&str> = s.messages.iter().map(|m| m.role()).collect();
    assert_eq!(roles, vec!["user", "assistant", "toolResult", "assistant"]);
}
