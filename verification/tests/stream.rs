//! The streaming protocol: server-sent events, partial JSON, responses.

use pixie_pi::ai::anthropic::{
    build_headers, build_request_body, cache_ephemeral, convert_messages, convert_result_content,
    convert_tools, level_to_budget, level_to_effort, messages_url, stream_request, LlmContext,
    SimpleStreamOptions,
};
use pixie_pi::ai::response::{
    api_error_text, apply_usage, failure_event, map_stop_reason, opening_event,
    request_failed_text, ResponseReader, SendOutcome,
};
use pixie_pi::ai::stream::{
    consume_line, parse_streaming_json, pick_value, repair_json, repair_text,
    AssistantMessageEvent, ServerSentEvent, SseDecoder,
};
use pixie_pi::ai::types::{
    AssistantMessage, ContentBlock, Message, Model, StopReason, ThinkingLevel, ToolResultContent,
    ToolResultMessage, ToolSchema, Usage, UserBlock, UserMessage,
};
use pixie_pi::ai::{builtin_models, resolve_model, DEFAULT_ANTHROPIC_BASE_URL};
use pixie_pi::json;
use pixie_pi::json::Json;

#[test]
fn sse_decodes_message_events() {
    let raw = b"event: message_start\n\
                data: {\"type\":\"message_start\"}\n\
                \n\
                event: content_block_delta\n\
                data: {\"type\":\"content_block_delta\",\"index\":0,\"delta\":{\"type\":\"text_delta\",\"text\":\"Hi\"}}\n\
                \n\
                event: message_stop\n\
                data: {\"type\":\"message_stop\"}\n\n";
    let mut dec = SseDecoder::new();
    let events = dec.feed(raw);
    let events: Vec<_> = events.into_iter().chain(dec.finish()).collect();
    assert_eq!(events.len(), 3);
    assert_eq!(events[0].event.as_deref(), Some("message_start"));
    assert_eq!(events[1].event.as_deref(), Some("content_block_delta"));
}

#[test]
fn parse_streaming_json_repairs_truncated_input() {
    let v = parse_streaming_json(r#"{"path":"foo.txt"#);
    assert_eq!(v.string_at("path"), Some("foo.txt"));

    let v = parse_streaming_json(r#"{"edits":[{"oldText":"a","newText":"b"}"#);
    assert_eq!(v.get("edits").unwrap().as_array().unwrap()[0].string_at("oldText"), Some("a"));

    // Already-complete JSON passes through unchanged.
    let v = parse_streaming_json(r#"{"command":"ls"}"#);
    assert_eq!(v.string_at("command"), Some("ls"));

    // Empty input yields an empty object.
    assert!(parse_streaming_json("").is_object());
}

#[test]
fn parse_streaming_json_repairs_trailing_comma() {
    let v = parse_streaming_json(r#"{"path":"foo","#);
    assert_eq!(v.string_at("path"), Some("foo"));

    // A comma inside a string value is kept: only the dangling one goes.
    let v = parse_streaming_json(r#"{"a":"x,y","#);
    assert_eq!(v.string_at("a"), Some("x,y"));

    // Nested trailing comma inside a truncated array.
    let v = parse_streaming_json(r#"{"items":[1,2,"#);
    let items = v.get("items").unwrap().as_array().unwrap();
    assert_eq!(items[0].as_u64(), Some(1));
    assert_eq!(items[1].as_u64(), Some(2));
}

#[test]
fn consume_line_handles_crlf() {
    let (line, rest) = consume_line("abc\r\ndef").unwrap();
    assert_eq!(line, "abc");
    assert_eq!(rest, "def");
}

#[test]
fn lines_end_in_any_way() {
    assert_eq!(consume_line("a\nb"), Some(("a".to_string(), "b".to_string())));
    assert_eq!(consume_line("a\rb"), Some(("a".to_string(), "b".to_string())));
    assert_eq!(consume_line("ab"), None);
}

fn pairs(v: Vec<ServerSentEvent>) -> Vec<(Option<String>, String)> {
    v.into_iter().map(|e| (e.event, e.data)).collect()
}

#[test]
fn a_line_end_may_come_in_two_chunks() {
    let mut d = SseDecoder::new();
    assert!(d.feed(b"event: a\r").is_empty());
    assert_eq!(
        pairs(d.feed(b"\ndata: x\r\n\r\n")),
        vec![(Some("a".to_string()), "x".to_string())]
    );
    assert!(d.finish().is_empty());
}

#[test]
fn a_return_ends_a_line_at_once() {
    let mut d = SseDecoder::new();
    assert_eq!(pairs(d.feed(b"data: x\r\r")), vec![(None, "x".to_string())]);
    assert!(d.feed(b"\n").is_empty());
    assert_eq!(pairs(d.feed(b"data: y\n\n")), vec![(None, "y".to_string())]);
    assert!(d.finish().is_empty());
    let mut d = SseDecoder::new();
    assert!(d.feed(b"data: z\r").is_empty());
    assert!(d.feed(b"").is_empty());
    assert!(d.feed(b"\n").is_empty());
    assert_eq!(pairs(d.feed(b"\n")), vec![(None, "z".to_string())]);
    let mut d = SseDecoder::new();
    assert!(d.feed(b"data: w\r").is_empty());
    assert_eq!(pairs(d.finish()), vec![(None, "w".to_string())]);
}

#[test]
fn line_ends_of_two_characters_may_be_cut_anywhere() {
    let raw = "event: a\r\ndata: 1\r\ndata: 2\r\n\r\ndata: x\r\rdata: y\n\n";
    let mut whole = SseDecoder::new();
    let mut all = pairs(whole.feed_text(raw));
    all.extend(pairs(whole.finish()));
    assert_eq!(
        all,
        vec![
            (Some("a".to_string()), "1\n2".to_string()),
            (None, "x".to_string()),
            (None, "y".to_string()),
        ]
    );
    for cut in 0..raw.len() {
        let mut d = SseDecoder::new();
        let mut got = pairs(d.feed_text(&raw[..cut]));
        got.extend(pairs(d.feed_text(&raw[cut..])));
        got.extend(pairs(d.finish()));
        assert_eq!(got, all, "cut at {cut}");
    }
}

#[test]
fn feeding_in_parts_is_feeding_at_once() {
    let raw = "event: a\ndata: 1\ndata: 2\n\n: note\ndata: x\n\nevent: b\n\n";
    let mut whole = SseDecoder::new();
    let mut all = pairs(whole.feed_text(raw));
    all.extend(pairs(whole.finish()));
    for cut in 0..raw.len() {
        let mut d = SseDecoder::new();
        let mut got = pairs(d.feed_text(&raw[..cut]));
        got.extend(pairs(d.feed_text(&raw[cut..])));
        got.extend(pairs(d.finish()));
        assert_eq!(got, all, "cut at {cut}");
    }
    assert_eq!(all[0], (Some("a".to_string()), "1\n2".to_string()));
}

#[test]
fn bytes_that_are_no_text_are_replaced() {
    let mut d = SseDecoder::new();
    let got = pairs(d.feed(b"data: \xff!\n\n"));
    assert_eq!(got, vec![(None, "\u{FFFD}!".to_string())]);
}

#[test]
fn repairs_close_what_is_open() {
    assert_eq!(repair_text(r#"{"a":[1,{"b":"c"#), r#"{"a":[1,{"b":"c"}]}"#);
    assert_eq!(repair_text(r#"{"a":1,"#), r#"{"a":1}"#);
    assert!(repair_json(r#"{"a":"#).is_none());
    assert!(pick_value("", None, None).is_object());
}

#[test]
fn json_is_read_and_written() {
    let v = json::parse(r#"{"b":[true,null,-1.5,7],"a":"x"}"#).unwrap();
    assert_eq!(v.string_at("a"), Some("x"));
    let b = v.get("b").unwrap().as_array().unwrap();
    assert_eq!(b.len(), 4);
    assert_eq!(b[3].as_u64(), Some(7));
    assert_eq!(b[2].as_u64(), None);
    assert_eq!(json::write(&v), r#"{"a":"x","b":[true,null,-1.5,7]}"#);
    assert!(json::parse("{").is_none());
    let n = Json::UInt(3).clone();
    assert_eq!(n.as_u64(), Some(3));
    assert_eq!(b[2].clone().as_u64(), None);
}

fn model() -> Model {
    builtin_models("http://localhost/", "family").remove(0)
}

fn sse(event: &str, data: &str) -> String {
    format!("event: {event}\ndata: {data}\n\n")
}

fn a_response() -> String {
    let mut s = String::new();
    s += &sse("message_start", r#"{"type":"message_start","message":{"id":"m1","usage":{"input_tokens":10,"cache_read_input_tokens":3}}}"#);
    s += &sse("content_block_start", r#"{"type":"content_block_start","index":0,"content_block":{"type":"text","text":""}}"#);
    s += &sse("content_block_delta", r#"{"type":"content_block_delta","index":0,"delta":{"type":"text_delta","text":"Hel"}}"#);
    s += &sse("content_block_delta", r#"{"type":"content_block_delta","index":0,"delta":{"type":"text_delta","text":"lo"}}"#);
    s += &sse("content_block_stop", r#"{"type":"content_block_stop","index":0}"#);
    s += &sse("content_block_start", r#"{"type":"content_block_start","index":1,"content_block":{"type":"tool_use","id":"t1","name":"read","input":{}}}"#);
    s += &sse("content_block_delta", r#"{"type":"content_block_delta","index":1,"delta":{"type":"input_json_delta","partial_json":"{\"path\":"}}"#);
    s += &sse("content_block_delta", r#"{"type":"content_block_delta","index":1,"delta":{"type":"input_json_delta","partial_json":"\"f\"}"}}"#);
    s += &sse("content_block_stop", r#"{"type":"content_block_stop","index":1}"#);
    s += &sse("message_delta", r#"{"type":"message_delta","delta":{"stop_reason":"tool_use"},"usage":{"output_tokens":5}}"#);
    s
}

#[test]
fn a_response_is_assembled() {
    let text = a_response() + &sse("message_stop", r#"{"type":"message_stop"}"#);
    let mut reader = ResponseReader::new(&model());
    let mut events = reader.read_chunk(text.as_bytes());
    events.extend(reader.end(false));
    let terminal = events
        .iter()
        .filter(|e| matches!(e, AssistantMessageEvent::Done { .. } | AssistantMessageEvent::Error { .. }))
        .count();
    assert_eq!(terminal, 1, "a stream ends once");
    match events.pop().unwrap() {
        AssistantMessageEvent::Done { reason, message } => {
            assert_eq!(reason, StopReason::ToolUse);
            assert_eq!(message.response_id.as_deref(), Some("m1"));
            assert_eq!(message.model, "family-sonnet-4-6");
            assert_eq!(
                message.usage,
                Usage { input: 10, output: 5, cache_read: 3, cache_write: 0, total_tokens: 18 }
            );
            assert_eq!(message.content.len(), 2);
            assert_eq!(message.content[0].as_text(), Some("Hello"));
            let (id, name, args) = message.content[1].as_tool_call().unwrap();
            assert_eq!((id, name), ("t1", "read"));
            assert_eq!(args.string_at("path"), Some("f"));
        }
        e => panic!("{e:?}"),
    }
}

#[test]
fn a_response_that_breaks_off_is_an_error() {
    let mut reader = ResponseReader::new(&model());
    reader.read_chunk(a_response().as_bytes());
    match reader.end(false).pop().unwrap() {
        AssistantMessageEvent::Error { reason, message } => {
            assert_eq!(reason, StopReason::Error);
            assert_eq!(
                message.error_message.as_deref(),
                Some("Anthropic stream ended before message_stop")
            );
        }
        e => panic!("{e:?}"),
    }
}

#[test]
fn an_aborted_response_says_so() {
    let text = a_response() + &sse("message_stop", r#"{"type":"message_stop"}"#);
    let mut reader = ResponseReader::new(&model());
    reader.read_chunk(text.as_bytes());
    match reader.end(true).pop().unwrap() {
        AssistantMessageEvent::Done { reason, .. } => assert_eq!(reason, StopReason::Aborted),
        e => panic!("{e:?}"),
    }
}

#[test]
fn parsed_events_are_taken_as_given() {
    let mut reader = ResponseReader::new(&model());
    let e = ServerSentEvent { event: None, data: "not json".to_string() };
    let start = json::parse(
        r#"{"type":"content_block_start","index":0,"content_block":{"type":"thinking","thinking":""}}"#,
    );
    assert!(matches!(
        reader.handle_parsed(&e, start),
        Some(AssistantMessageEvent::ThinkingStart { content_index: 0 })
    ));
    assert!(reader.handle_sse(&e).is_none());
}

#[test]
fn an_error_event_is_kept_in_the_message() {
    let mut reader = ResponseReader::new(&model());
    reader.read_chunk(sse("error", "overloaded").as_bytes());
    match reader.terminal_event(false) {
        AssistantMessageEvent::Done { message, .. } => {
            assert_eq!(message.error_message.as_deref(), Some("overloaded"));
        }
        e => panic!("{e:?}"),
    }
}

#[test]
fn a_stream_opens_by_what_became_of_the_request() {
    assert!(matches!(opening_event(&SendOutcome::Accepted), AssistantMessageEvent::Start));
    let cases = vec![
        (SendOutcome::Aborted, StopReason::Aborted, "Request aborted".to_string()),
        (
            SendOutcome::Failed("no route".to_string()),
            StopReason::Error,
            "Request failed: no route".to_string(),
        ),
        (
            SendOutcome::Refused { status: "429 Too Many".to_string(), body: "x".repeat(2001) },
            StopReason::Error,
            format!("Anthropic API error (429 Too Many): {}…", "x".repeat(2000)),
        ),
    ];
    for (outcome, expected, text) in cases {
        match opening_event(&outcome) {
            AssistantMessageEvent::Error { reason, message } => {
                assert_eq!(reason, expected);
                assert_eq!(message.stop_reason, expected);
                assert_eq!(message.error_message, Some(text));
            }
            e => panic!("{e:?}"),
        }
    }
    assert_eq!(api_error_text("500", "b"), "Anthropic API error (500): b");
    assert_eq!(request_failed_text("e"), "Request failed: e");
    assert!(matches!(
        failure_event(StopReason::Aborted, "m"),
        AssistantMessageEvent::Error { reason: StopReason::Aborted, .. }
    ));
}

#[test]
fn stop_reasons_are_mapped() {
    assert_eq!(map_stop_reason("end_turn"), StopReason::Stop);
    assert_eq!(map_stop_reason("max_tokens"), StopReason::Length);
    assert_eq!(map_stop_reason("tool_use"), StopReason::ToolUse);
    assert_eq!(map_stop_reason("refusal"), StopReason::Error);
    assert_eq!(map_stop_reason("anything"), StopReason::Stop);
}

#[test]
fn usage_is_reported_field_by_field() {
    let mut u = Usage { input: 1, output: 2, cache_read: 3, cache_write: 4, total_tokens: 0 };
    apply_usage(&mut u, &json::parse(r#"{"output_tokens":9}"#).unwrap());
    assert_eq!((u.input, u.output, u.cache_read, u.cache_write), (1, 9, 3, 4));
}

#[test]
fn headers_carry_one_credential() {
    let mut o = SimpleStreamOptions::default();
    assert!(o.cache_control);
    assert_eq!(build_headers(&o).len(), 3);
    o.api_key = Some("k".to_string());
    let h = build_headers(&o);
    assert_eq!(h[3], ("x-api-key".to_string(), "k".to_string()));
    o.auth_token = Some("t".to_string());
    let h = build_headers(&o);
    assert_eq!(h.len(), 4);
    assert_eq!(h[3], ("authorization".to_string(), "Bearer t".to_string()));
    // What no header can hold is left out.
    o.auth_token = Some("a\nb".to_string());
    assert_eq!(build_headers(&o).len(), 3);
    assert!(!o.cache_control(false).cache_control);
}

#[test]
fn requests_go_below_the_base_url() {
    assert_eq!(messages_url("https://x//"), "https://x/v1/messages");
    assert_eq!(messages_url("https://x"), "https://x/v1/messages");
}

#[test]
fn thinking_levels_have_efforts_and_budgets() {
    assert_eq!(level_to_effort(ThinkingLevel::Off), None);
    assert_eq!(level_to_effort(ThinkingLevel::Minimal), Some("low"));
    assert_eq!(level_to_effort(ThinkingLevel::Xhigh), Some("xhigh"));
    assert!(level_to_budget(ThinkingLevel::Low) < level_to_budget(ThinkingLevel::High));
    assert_eq!(ThinkingLevel::parse("HIGH"), Some(ThinkingLevel::High));
    assert_eq!(ThinkingLevel::parse("none"), None);
}

fn user(s: &str) -> Message {
    Message::User(UserMessage::text(s))
}

fn assistant(content: Vec<ContentBlock>) -> Message {
    let mut m = AssistantMessage::empty();
    m.content = content;
    Message::Assistant(m)
}

fn call(id: &str) -> ContentBlock {
    ContentBlock::ToolCall {
        id: id.to_string(),
        name: "read".to_string(),
        arguments: Json::object(),
    }
}

fn result(id: &str, text: &str) -> Message {
    Message::ToolResult(ToolResultMessage {
        tool_call_id: id.to_string(),
        tool_name: "read".to_string(),
        content: vec![ToolResultContent::text(text)],
        is_error: false,
        timestamp: 0,
    })
}

#[test]
fn consecutive_tool_results_share_one_entry() {
    let messages = vec![
        user("go"),
        assistant(vec![call("a"), call("b")]),
        result("a", "1"),
        result("b", "2"),
        user("on"),
    ];
    let out = convert_messages(&messages, None);
    assert_eq!(out.len(), 4);
    assert_eq!(out[2].string_at("role"), Some("user"));
    let blocks = out[2].get("content").unwrap().as_array().unwrap();
    assert_eq!(blocks.len(), 2);
    assert_eq!(blocks[0].string_at("tool_use_id"), Some("a"));
    assert_eq!(blocks[1].string_at("tool_use_id"), Some("b"));
}

#[test]
fn the_last_user_entry_is_marked_wherever_it_stands() {
    let mark = cache_ephemeral();
    let yo = ContentBlock::Text { text: "yo".to_string() };
    let out = convert_messages(&[user("hi"), assistant(vec![yo])], Some(&mark));
    assert_eq!(out.len(), 2);
    assert_eq!(out[0].string_at("role"), Some("user"));
    let blocks = out[0].get("content").unwrap().as_array().unwrap();
    assert_eq!(blocks.len(), 1);
    assert_eq!(blocks[0].string_at("type"), Some("text"));
    assert_eq!(blocks[0].string_at("text"), Some("hi"));
    assert_eq!(
        blocks[0].get("cache_control").unwrap().string_at("type"),
        Some("ephemeral")
    );
    assert_eq!(out[1].string_at("role"), Some("assistant"));
    assert!(!json::write(&out[1]).contains("cache_control"));
    let answers = vec![
        user("go"),
        assistant(vec![call("a"), call("b")]),
        result("a", "1"),
        result("b", "2"),
        assistant(vec![call("c")]),
    ];
    let out = convert_messages(&answers, Some(&mark));
    let marks: Vec<bool> = out.iter().map(|e| json::write(e).contains("cache_control")).collect();
    assert_eq!(marks, vec![false, false, true, false]);
    let blocks = out[2].get("content").unwrap().as_array().unwrap();
    assert!(blocks[0].get("cache_control").is_none());
    assert!(blocks[1].get("cache_control").is_some());
}

#[test]
fn only_the_last_entry_is_marked() {
    let mark = cache_ephemeral();
    let out = convert_messages(&[user("a"), user("b")], Some(&mark));
    let texts: Vec<String> = out.iter().map(json::write).collect();
    assert!(!texts[0].contains("cache_control"), "{}", texts[0]);
    assert!(texts[1].contains("\"cache_control\":{\"type\":\"ephemeral\"}"), "{}", texts[1]);
}

#[test]
fn blank_texts_and_thoughts_are_left_out() {
    let thought = ContentBlock::Thinking {
        thinking: "t".to_string(),
        thinking_signature: "s".to_string(),
        redacted: false,
    };
    let out = convert_messages(
        &[user("q"), assistant(vec![thought, ContentBlock::Text { text: "  ".to_string() }])],
        None,
    );
    assert_eq!(
        json::write(&out[1]),
        r#"{"content":[{"signature":"s","thinking":"t","type":"thinking"}],"role":"assistant"}"#
    );
}

#[test]
fn images_make_a_list_of_blocks() {
    let text = convert_result_content(&vec![ToolResultContent::text("a")]);
    assert_eq!(text.as_str(), Some("a"));
    let both = convert_result_content(&vec![
        ToolResultContent::text("a"),
        ToolResultContent::Image { data: "QQ==".to_string(), mime_type: "image/png".to_string() },
    ]);
    assert_eq!(
        json::write(&both),
        r#"[{"text":"a","type":"text"},{"source":{"data":"QQ==","media_type":"image/png","type":"base64"},"type":"image"}]"#
    );
}

fn schema(name: &str) -> ToolSchema {
    ToolSchema {
        name: name.to_string(),
        description: "d".to_string(),
        input_schema: json::parse(
            r#"{"type":"object","properties":{"path":{"type":"string"}},"required":["path"]}"#,
        )
        .unwrap(),
    }
}

#[test]
fn the_last_tool_is_marked() {
    let mark = cache_ephemeral();
    let out = convert_tools(&[schema("a"), schema("b")], Some(&mark));
    assert!(out[0].get("cache_control").is_none());
    assert!(out[1].get("cache_control").is_some());
    assert_eq!(out[1].string_at("name"), Some("b"));
}

#[test]
fn a_request_body_is_exact() {
    let m = model();
    let messages = vec![Message::User(UserMessage::new(vec![UserBlock::text("hi")]))];
    let context = LlmContext { system_prompt: Some("sys"), messages: &messages, tools: &[] };
    let mut o = SimpleStreamOptions::default().cache_control(false);
    o.max_tokens = Some(100);
    o.reasoning = Some(ThinkingLevel::Low);
    let body = json::write(&build_request_body(&m, &context, &o));
    assert_eq!(
        body,
        concat_lines(&[
            r#"{"max_tokens":100,"messages":[{"content":"hi","role":"user"}],"#,
            r#""model":"family-sonnet-4-6","output_config":{"effort":"low"},"stream":true,"#,
            r#""system":[{"text":"sys","type":"text"}],"#,
            r#""thinking":{"display":"summarized","effort":"low","type":"adaptive"}}"#,
        ])
    );
    let r = stream_request(&m, &context, &o);
    assert_eq!(r.url, "http://localhost/v1/messages");
    assert_eq!(json::write(&r.body), body);
    assert_eq!(r.timeout_ms, None);
    assert_eq!(r.headers.len(), 3);
}

fn concat_lines(parts: &[&str]) -> String {
    parts.concat()
}

#[test]
fn models_are_resolved_by_pattern() {
    let registry = builtin_models(DEFAULT_ANTHROPIC_BASE_URL, "family");
    assert_eq!(registry.len(), 3);
    assert_eq!(resolve_model(&registry, "OPUS").unwrap().id, "family-opus-4-8");
    assert_eq!(resolve_model(&registry, "anthropic/haiku:high").unwrap().id, "family-haiku-4-5");
    assert!(resolve_model(&registry, "openai/opus").is_none());
    assert!(resolve_model(&registry, "gpt").is_none());
    assert_eq!(registry[0].base_url, "https://api.anthropic.com");
}
