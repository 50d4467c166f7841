//! The agent loop and its tools.

use pixie_pi::agent::agent_loop::{
    answer_calls, apply_event, build_result_message, check_call, check_gate, end_event, force_sequential,
    goes_on, settle, start_event, tool_calls, AgentRun, ToolCall,
};
use pixie_pi::agent::context::{AgentContext, AgentEvent, ToolInfo};
use pixie_pi::agent::tool::{validate_required, BeforeToolCallResult, ExecutionMode, ToolResult};
use pixie_pi::ai::builtin_models;
use pixie_pi::ai::stream::AssistantMessageEvent;
use pixie_pi::ai::types::{
    AssistantMessage, ContentBlock, Message, StopReason, ToolResultContent, ToolSchema,
    UserMessage,
};
use pixie_pi::json;
use pixie_pi::json::Json;

#[test]
fn apply_event_assembles_text() {
    let mut msg = AssistantMessage::empty();
    apply_event(&mut msg, &AssistantMessageEvent::TextStart { content_index: 0 });
    apply_event(
        &mut msg,
        &AssistantMessageEvent::TextDelta { content_index: 0, delta: "Hello ".into() },
    );
    apply_event(
        &mut msg,
        &AssistantMessageEvent::TextDelta { content_index: 0, delta: "world".into() },
    );
    assert_eq!(msg.content.len(), 1);
    match &msg.content[0] {
        ContentBlock::Text { text } => assert_eq!(text, "Hello world"),
        _ => panic!("expected text block"),
    }
}

#[test]
fn replayed_events_show_the_message() {
    let mut msg = AssistantMessage::empty();
    apply_event(&mut msg, &AssistantMessageEvent::ThinkingStart { content_index: 0 });
    apply_event(
        &mut msg,
        &AssistantMessageEvent::ThinkingDelta { content_index: 0, delta: "hm".into() },
    );
    apply_event(&mut msg, &AssistantMessageEvent::ToolCallStart { content_index: 1 });
    assert_eq!(msg.content.len(), 2);
    assert!(matches!(&msg.content[0], ContentBlock::Thinking { thinking, .. } if thinking == "hm"));
    assert!(msg.content[1].is_tool_call());
    // A delta for another kind of block changes nothing.
    apply_event(
        &mut msg,
        &AssistantMessageEvent::TextDelta { content_index: 0, delta: "x".into() },
    );
    assert_eq!(msg.content.len(), 2);
    let mut last = AssistantMessage::empty();
    last.content.push(ContentBlock::Text { text: "end".into() });
    apply_event(
        &mut msg,
        &AssistantMessageEvent::Done { reason: StopReason::Stop, message: last },
    );
    assert_eq!(msg.text_content(), "end");
}

fn tool(name: &str, mode: ExecutionMode) -> ToolInfo {
    ToolInfo {
        schema: ToolSchema {
            name: name.to_string(),
            description: String::new(),
            input_schema: json::parse(r#"{"type":"object","required":["path"]}"#).unwrap(),
        },
        mode,
    }
}

fn context() -> AgentContext {
    AgentContext::new(
        "sys".to_string(),
        vec![tool("read", ExecutionMode::Parallel), tool("edit", ExecutionMode::Sequential)],
    )
}

fn call(name: &str) -> ToolCall {
    ToolCall { id: "t1".to_string(), name: name.to_string(), arguments: Json::object() }
}

fn text_of(r: &ToolResult) -> &str {
    match &r.content[0] {
        ToolResultContent::Text { text } => text,
        _ => panic!("expected text"),
    }
}

#[test]
fn calls_are_collected_in_order() {
    let mut m = AssistantMessage::empty();
    for name in ["a", "b"] {
        m.content.push(ContentBlock::Text { text: "t".to_string() });
        m.content.push(ContentBlock::ToolCall {
            id: name.to_string(),
            name: name.to_string(),
            arguments: Json::object(),
        });
    }
    let calls = tool_calls(&m);
    assert_eq!(calls.iter().map(|c| c.id.as_str()).collect::<Vec<_>>(), vec!["a", "b"]);
    assert!(goes_on(&calls, false));
    assert!(!goes_on(&calls, true));
    assert!(!goes_on(&vec![], false));
}

#[test]
fn one_sequential_tool_makes_all_wait() {
    let ctx = context();
    assert!(!force_sequential(&ctx, &vec![call("read")], ExecutionMode::Parallel));
    assert!(force_sequential(&ctx, &vec![call("read"), call("edit")], ExecutionMode::Parallel));
    assert!(force_sequential(&ctx, &vec![call("read")], ExecutionMode::Sequential));
    assert!(!force_sequential(&ctx, &vec![call("unknown")], ExecutionMode::Parallel));
    assert_eq!(ctx.find_tool("edit"), Some(1));
    assert_eq!(ctx.find_tool("nope"), None);
}

#[test]
fn calls_are_checked_before_they_run() {
    let ctx = context();
    let r = check_call(&ctx, "nope", &Json::object()).unwrap();
    assert_eq!(text_of(&r), "Tool nope not found");
    assert!(check_call(&ctx, "read", &Json::object()).is_some());
    assert!(check_call(&ctx, "read", &Json::object().with("path", Json::str("f"))).is_none());
    let null = Json::object().with("path", Json::Null);
    assert!(validate_required(&ctx.tools[0].schema.input_schema, &null).is_err());
    assert!(validate_required(&Json::object(), &Json::object()).is_ok());
}

#[test]
fn gates_can_block() {
    assert!(check_gate(&BeforeToolCallResult::allow()).is_none());
    let r = check_gate(&BeforeToolCallResult::block("no")).unwrap();
    assert_eq!(text_of(&r), "no");
    let r = check_gate(&BeforeToolCallResult { block: true, reason: None }).unwrap();
    assert_eq!(text_of(&r), "Tool execution was blocked");
}

#[test]
fn outcomes_become_messages() {
    let (r, is_error) = settle(Err("boom".to_string()));
    assert_eq!((text_of(&r), is_error), ("boom", true));
    let (r, is_error) = settle(Ok(ToolResult::text("fine").with_details(Json::str("d"))));
    assert!(!is_error);
    assert_eq!(r.details.as_str(), Some("d"));
    let m = build_result_message(&call("read"), r, is_error);
    assert_eq!((m.tool_call_id.as_str(), m.tool_name.as_str()), ("t1", "read"));
    assert!(!m.is_error);
    assert!(matches!(start_event(&call("read")), AgentEvent::ToolExecutionStart { .. }));
    assert!(matches!(
        end_event(&call("read"), true),
        AgentEvent::ToolExecutionEnd { is_error: true, .. }
    ));
}

#[test]
fn a_run_keeps_its_transcript() {
    let model = builtin_models("b", "family").remove(0);
    let prompt = Message::User(UserMessage::text("go"));
    let (mut run, events) = AgentRun::begin(vec![], &vec![prompt]);
    assert_eq!(events.len(), 3);
    assert!(matches!(events[0], AgentEvent::AgentStart));
    assert!(matches!(run.begin_response(&model), AgentEvent::MessageStart(_)));
    assert_eq!(run.messages.len(), 2);
    run.on_event(&AssistantMessageEvent::TextStart { content_index: 0 });
    let mut full = AssistantMessage::empty();
    full.content.push(ContentBlock::Text { text: "done".to_string() });
    run.on_event(&AssistantMessageEvent::Done { reason: StopReason::Stop, message: full });
    let (message, events) = run.end_response();
    assert_eq!(message.text_content(), "done");
    assert_eq!(events.len(), 2);
    let answer = build_result_message(&call("read"), ToolResult::text("x"), false);
    let events = run.end_turn(message, vec![answer]);
    assert_eq!(events.len(), 3);
    assert!(matches!(events[2], AgentEvent::TurnEnd { .. }));
    match run.end() {
        AgentEvent::AgentEnd { messages } => {
            let roles: Vec<&str> = messages.iter().map(|m| m.role()).collect();
            assert_eq!(roles, vec!["user", "assistant", "toolResult"]);
        }
        e => panic!("{e:?}"),
    }
}

#[test]
fn results_answer_the_calls_in_order() {
    let calls: Vec<ToolCall> = ["a", "b", "c"]
        .iter()
        .map(|id| ToolCall {
            id: id.to_string(),
            name: format!("tool-{id}"),
            arguments: Json::object(),
        })
        .collect();
    let outcomes = || vec![(ToolResult::text("1"), false), (ToolResult::error("2"), true)];
    let messages = answer_calls(&calls, outcomes());
    let seen: Vec<(&str, &str, bool)> = messages
        .iter()
        .map(|m| (m.tool_call_id.as_str(), m.tool_name.as_str(), m.is_error))
        .collect();
    assert_eq!(seen, vec![("a", "tool-a", false), ("b", "tool-b", true)]);
    assert_eq!(answer_calls(&vec![call("read")], outcomes()).len(), 1);
    assert!(answer_calls(&calls, vec![]).is_empty());
}
