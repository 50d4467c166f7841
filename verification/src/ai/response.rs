//! Reading a streamed model response: each server-sent event advances the
//! message under way and may give one assistant event; the end of the stream
//! gives the terminal event.

use std::collections::HashMap;

use vstd::prelude::*;

use crate::ai::stream::{
    fed, finished, lossy_text, parse_streaming_json, sse_events, streaming_value, AssistantMessageEvent,
    ServerSentEvent, SseDecoder, SseEvent, SseState, StreamEvent,
};
use crate::ai::types::{
    blank_assistant, blocks_of, usage_total, AssistantMessage, AssistantView, BlockView,
    ContentBlock, Model, StopReason, Usage,
};
use crate::json;
use crate::json::{
    field, field_or_null, holds, json_parsed, lacks, natural_field, opt_json, or_empty,
    string_field, Json, JsonView,
};
use crate::text;
use crate::tools::truncate::{cut_line, truncate_line};

verus! {

broadcast use vstd::std_specs::hash::group_hash_axioms;

// ---------------------------------------------------------------------------
// State
// ---------------------------------------------------------------------------

/// What a content block is, as the provider announced it.
#[derive(Debug, Clone, Copy, PartialEq, Eq, Structural)]
pub enum BlockKind {
    Text,
    Thinking,
    RedactedThinking,
    ToolUse,
}

/// Per content-block streaming scratch: the provider's block index maps to the
/// index in the message, the block kind, and any accumulated tool-call JSON.
#[derive(Debug)]
struct BlockScratch {
    our_index: usize,
    kind: BlockKind,
    partial_json: String,
}

pub ghost struct Scratch {
    pub our_index: int,
    pub kind: BlockKind,
    pub partial: Seq<char>,
}

impl View for BlockScratch {
    type V = Scratch;

    closed spec fn view(&self) -> Scratch {
        Scratch {
            our_index: self.our_index as int,
            kind: self.kind,
            partial: self.partial_json@,
        }
    }
}

/// A response under way.
#[derive(Debug)]
pub struct ResponseReader {
    decoder: SseDecoder,
    message: AssistantMessage,
    blocks: HashMap<u64, BlockScratch>,
    saw_start: bool,
    saw_stop: bool,
}

/// The model of a response under way: the message so far, the blocks that are
/// still open by the provider's index, and whether the message has started and
/// stopped.
#[verifier::ext_equal]
pub ghost struct Progress {
    pub message: AssistantView,
    pub blocks: Map<u64, Scratch>,
    pub saw_start: bool,
    pub saw_stop: bool,
}

impl ResponseReader {
    /// The state of the event decoder.
    pub closed spec fn decoder_state(&self) -> SseState {
        self.decoder@
    }

    closed spec fn open_blocks(&self) -> Map<u64, Scratch> {
        self.blocks@.map_values(|b: BlockScratch| b@)
    }
}

impl View for ResponseReader {
    type V = Progress;

    closed spec fn view(&self) -> Progress {
        Progress {
            message: self.message@,
            blocks: self.open_blocks(),
            saw_start: self.saw_start,
            saw_stop: self.saw_stop,
        }
    }
}

// ---------------------------------------------------------------------------
// Steps
// ---------------------------------------------------------------------------

pub open spec fn stop_reason_of(reason: Seq<char>) -> StopReason {
    if reason == "max_tokens"@ {
        StopReason::Length
    } else if reason == "tool_use"@ {
        StopReason::ToolUse
    } else if reason == "refusal"@ || reason == "sensitive"@ {
        StopReason::Error
    } else {
        StopReason::Stop
    }
}

pub open spec fn or_kept(new: Option<u64>, old: u64) -> u64 {
    match new {
        Some(n) => n,
        None => old,
    }
}

/// `u` with the counters that the provider reports, and their total.
pub open spec fn usage_reported(u: Usage, j: JsonView) -> Usage {
    let counted = Usage {
        input: or_kept(natural_field(j, "input_tokens"@), u.input),
        output: or_kept(natural_field(j, "output_tokens"@), u.output),
        cache_read: or_kept(natural_field(j, "cache_read_input_tokens"@), u.cache_read),
        cache_write: or_kept(natural_field(j, "cache_creation_input_tokens"@), u.cache_write),
        total_tokens: u.total_tokens,
    };
    Usage { total_tokens: usage_total(counted), ..counted }
}

/// The usage after an event that may report one in its field `usage`.
pub open spec fn usage_after(u: Usage, j: JsonView) -> Usage {
    match field(j, "usage"@) {
        Some(r) => usage_reported(u, r),
        None => u,
    }
}

pub open spec fn block_index(j: JsonView) -> u64 {
    or_kept(natural_field(j, "index"@), 0)
}

/// The kind that a block announces; a block without one is text.
pub open spec fn announced_kind(block: JsonView) -> Option<BlockKind> {
    match string_field(block, "type"@) {
        None => Some(BlockKind::Text),
        Some(t) => if t == "text"@ {
            Some(BlockKind::Text)
        } else if t == "thinking"@ {
            Some(BlockKind::Thinking)
        } else if t == "redacted_thinking"@ {
            Some(BlockKind::RedactedThinking)
        } else if t == "tool_use"@ {
            Some(BlockKind::ToolUse)
        } else {
            None
        },
    }
}

/// The block that is opened for an announced one.
pub open spec fn opened_block(kind: BlockKind, block: JsonView) -> BlockView {
    match kind {
        BlockKind::Text => BlockView::Text(Seq::empty()),
        BlockKind::Thinking => BlockView::Thinking(Seq::empty(), Seq::empty(), false),
        BlockKind::RedactedThinking => BlockView::Thinking(
            "[Reasoning redacted]"@,
            or_empty(string_field(block, "data"@)),
            true,
        ),
        BlockKind::ToolUse => BlockView::ToolCall(
            or_empty(string_field(block, "id"@)),
            or_empty(string_field(block, "name"@)),
            JsonView::Obj(Map::empty()),
        ),
    }
}

pub open spec fn start_event(kind: BlockKind, i: int) -> StreamEvent {
    match kind {
        BlockKind::Text => StreamEvent::TextStart(i),
        BlockKind::Thinking => StreamEvent::ThinkingStart(i),
        BlockKind::RedactedThinking => StreamEvent::ThinkingStart(i),
        BlockKind::ToolUse => StreamEvent::ToolCallStart(i),
    }
}

pub open spec fn end_event(kind: BlockKind, i: int) -> StreamEvent {
    match kind {
        BlockKind::Text => StreamEvent::TextEnd(i),
        BlockKind::Thinking => StreamEvent::ThinkingEnd(i),
        BlockKind::RedactedThinking => StreamEvent::ThinkingEnd(i),
        BlockKind::ToolUse => StreamEvent::ToolCallEnd(i),
    }
}

pub open spec fn with_content(p: Progress, content: Seq<BlockView>) -> Progress {
    Progress { message: AssistantView { content, ..p.message }, ..p }
}

/// The message starts.
pub open spec fn after_message_start(p: Progress, j: JsonView) -> Progress {
    let begun = Progress { saw_start: true, ..p };
    match field(j, "message"@) {
        None => begun,
        Some(m) => Progress {
            message: AssistantView {
                response_id: match string_field(m, "id"@) {
                    Some(id) => Some(id),
                    None => p.message.response_id,
                },
                usage: usage_after(p.message.usage, m),
                ..p.message
            },
            ..begun
        },
    }
}

/// A block starts: it goes to the end of the message.
pub open spec fn after_block_start(p: Progress, j: JsonView) -> (Progress, Option<StreamEvent>) {
    let block = field_or_null(j, "content_block"@);
    let i = p.message.content.len() as int;
    match announced_kind(block) {
        None => (p, None),
        Some(kind) => (
            Progress {
                blocks: p.blocks.insert(
                    block_index(j),
                    Scratch { our_index: i, kind, partial: Seq::empty() },
                ),
                ..with_content(p, p.message.content.push(opened_block(kind, block)))
            },
            Some(start_event(kind, i)),
        ),
    }
}

/// An open block grows.
pub open spec fn after_block_delta(p: Progress, j: JsonView) -> (Progress, Option<StreamEvent>) {
    let index = block_index(j);
    let delta = field_or_null(j, "delta"@);
    let kind = or_empty(string_field(delta, "type"@));
    let content = p.message.content;
    if !p.blocks.dom().contains(index) || p.blocks[index].our_index >= content.len() {
        (p, None)
    } else {
        let open = p.blocks[index];
        let i = open.our_index;
        match content[i] {
            BlockView::Text(t) => match string_field(delta, "text"@) {
                Some(x) => if kind == "text_delta"@ {
                    (
                        with_content(p, content.update(i, BlockView::Text(t + x))),
                        Some(StreamEvent::TextDelta(i, x)),
                    )
                } else {
                    (p, None)
                },
                None => (p, None),
            },
            BlockView::Thinking(t, s, redacted) => if kind == "thinking_delta"@ {
                match string_field(delta, "thinking"@) {
                    Some(x) => (
                        with_content(p, content.update(i, BlockView::Thinking(t + x, s, redacted))),
                        Some(StreamEvent::ThinkingDelta(i, x)),
                    ),
                    None => (p, None),
                }
            } else if kind == "signature_delta"@ {
                match string_field(delta, "signature"@) {
                    Some(x) => (
                        with_content(p, content.update(i, BlockView::Thinking(t, s + x, redacted))),
                        None,
                    ),
                    None => (p, None),
                }
            } else {
                (p, None)
            },
            BlockView::ToolCall(id, name, _) => match string_field(delta, "partial_json"@) {
                Some(x) => if kind == "input_json_delta"@ {
                    let partial = open.partial + x;
                    (
                        Progress {
                            blocks: p.blocks.insert(index, Scratch { partial, ..open }),
                            ..with_content(
                                p,
                                content.update(
                                    i,
                                    BlockView::ToolCall(id, name, streaming_value(partial)),
                                ),
                            )
                        },
                        Some(StreamEvent::ToolCallDelta(i, x)),
                    )
                } else {
                    (p, None)
                },
                None => (p, None),
            },
        }
    }
}

/// A block stops: a tool call gets its final arguments.
pub open spec fn after_block_stop(p: Progress, j: JsonView) -> (Progress, Option<StreamEvent>) {
    let index = block_index(j);
    if !p.blocks.dom().contains(index) {
        (p, None)
    } else {
        let open = p.blocks[index];
        let i = open.our_index;
        let content = p.message.content;
        let closed = if i < content.len() {
            match content[i] {
                BlockView::ToolCall(id, name, _) => content.update(
                    i,
                    BlockView::ToolCall(id, name, streaming_value(open.partial)),
                ),
                _ => content,
            }
        } else {
            content
        };
        (
            Progress { blocks: p.blocks.remove(index), ..with_content(p, closed) },
            Some(end_event(open.kind, i)),
        )
    }
}

/// The message as a whole changes: its stop reason and its usage.
pub open spec fn after_message_delta(p: Progress, j: JsonView) -> Progress {
    Progress {
        message: AssistantView {
            stop_reason: match string_field(field_or_null(j, "delta"@), "stop_reason"@) {
                Some(r) => stop_reason_of(r),
                None => p.message.stop_reason,
            },
            usage: usage_after(p.message.usage, j),
            ..p.message
        },
        ..p
    }
}

/// What a parsed event does.
pub open spec fn after_value(p: Progress, j: JsonView) -> (Progress, Option<StreamEvent>) {
    let kind = or_empty(string_field(j, "type"@));
    if kind == "message_start"@ {
        (after_message_start(p, j), None)
    } else if kind == "content_block_start"@ {
        after_block_start(p, j)
    } else if kind == "content_block_delta"@ {
        after_block_delta(p, j)
    } else if kind == "content_block_stop"@ {
        after_block_stop(p, j)
    } else if kind == "message_delta"@ {
        (after_message_delta(p, j), None)
    } else if kind == "message_stop"@ {
        (Progress { saw_stop: true, ..p }, None)
    } else {
        (p, None)
    }
}

/// What a server-sent event does, given what its data parses to. An error event
/// leaves its data as the message's error; data that is no JSON does nothing.
pub open spec fn after_event(p: Progress, e: SseEvent, parsed: Option<JsonView>) -> (
    Progress,
    Option<StreamEvent>,
) {
    if e.event == Some("error"@) {
        (
            Progress {
                message: AssistantView { error_message: Some(e.data), ..p.message },
                ..p
            },
            None,
        )
    } else {
        match parsed {
            None => (p, None),
            Some(j) => after_value(p, j),
        }
    }
}

pub open spec fn event_seq(e: Option<StreamEvent>) -> Seq<StreamEvent> {
    match e {
        Some(x) => seq![x],
        None => Seq::empty(),
    }
}

/// What a run of server-sent events does.
pub open spec fn after_events(p: Progress, events: Seq<SseEvent>) -> (Progress, Seq<StreamEvent>)
    decreases events.len(),
{
    if events.len() == 0 {
        (p, Seq::empty())
    } else {
        let (mid, given) = after_events(p, events.drop_last());
        let e = events.last();
        let (end, ev) = after_event(mid, e, json_parsed(e.data));
        (end, given + event_seq(ev))
    }
}

/// The terminal event of a response. A message that started and never stopped
/// is an error; otherwise it is done, and an aborted run says so.
pub open spec fn terminal(p: Progress, cancelled: bool) -> StreamEvent {
    let counted = AssistantView {
        usage: Usage { total_tokens: usage_total(p.message.usage), ..p.message.usage },
        ..p.message
    };
    if p.saw_start && !p.saw_stop {
        StreamEvent::Error(
            StopReason::Error,
            AssistantView {
                error_message: Some("Anthropic stream ended before message_stop"@),
                ..counted
            },
        )
    } else {
        let reason = if cancelled {
            StopReason::Aborted
        } else {
            p.message.stop_reason
        };
        StreamEvent::Done(reason, AssistantView { stop_reason: reason, ..counted })
    }
}

/// The event that ends a request which gave no response.
pub open spec fn failure(reason: StopReason, message: Seq<char>, timestamp: i64) -> StreamEvent {
    StreamEvent::Error(
        reason,
        AssistantView {
            stop_reason: reason,
            error_message: Some(message),
            ..blank_assistant(timestamp)
        },
    )
}

// ---------------------------------------------------------------------------
// Execution
// ---------------------------------------------------------------------------

pub fn map_stop_reason(reason: &str) -> (r: StopReason)
    ensures
        r == stop_reason_of(reason@),
{
    if text::same(reason, "max_tokens") {
        StopReason::Length
    } else if text::same(reason, "tool_use") {
        StopReason::ToolUse
    } else if text::same(reason, "refusal") || text::same(reason, "sensitive") {
        StopReason::Error
    } else {
        StopReason::Stop
    }
}

pub fn apply_usage(usage: &mut Usage, value: &Json)
    ensures
        *final(usage) == usage_reported(*old(usage), value@),
{
    if let Some(v) = value.natural_at("input_tokens") {
        usage.input = v;
    }
    if let Some(v) = value.natural_at("output_tokens") {
        usage.output = v;
    }
    if let Some(v) = value.natural_at("cache_read_input_tokens") {
        usage.cache_read = v;
    }
    if let Some(v) = value.natural_at("cache_creation_input_tokens") {
        usage.cache_write = v;
    }
    usage.recompute_total();
}

fn index_at(j: &Json) -> (r: u64)
    ensures
        r == block_index(j@),
{
    match j.natural_at("index") {
        Some(n) => n,
        None => 0,
    }
}

fn kind_of(block: &Json) -> (r: Option<BlockKind>)
    ensures
        r == announced_kind(block@),
{
    match block.string_at("type") {
        None => Some(BlockKind::Text),
        Some(t) => if text::same(t, "text") {
            Some(BlockKind::Text)
        } else if text::same(t, "thinking") {
            Some(BlockKind::Thinking)
        } else if text::same(t, "redacted_thinking") {
            Some(BlockKind::RedactedThinking)
        } else if text::same(t, "tool_use") {
            Some(BlockKind::ToolUse)
        } else {
            None
        },
    }
}

fn open_block(kind: BlockKind, block: &Json) -> (r: ContentBlock)
    ensures
        r@ == opened_block(kind, block@),
{
    match kind {
        BlockKind::Text => ContentBlock::Text { text: String::new() },
        BlockKind::Thinking => ContentBlock::Thinking {
            thinking: String::new(),
            thinking_signature: String::new(),
            redacted: false,
        },
        BlockKind::RedactedThinking => ContentBlock::Thinking {
            thinking: "[Reasoning redacted]".to_string(),
            thinking_signature: block.string_or_empty("data"),
            redacted: true,
        },
        BlockKind::ToolUse => ContentBlock::ToolCall {
            id: block.string_or_empty("id"),
            name: block.string_or_empty("name"),
            arguments: Json::object(),
        },
    }
}

fn make_start_event(kind: BlockKind, content_index: usize) -> (r: AssistantMessageEvent)
    ensures
        r@ == start_event(kind, content_index as int),
{
    match kind {
        BlockKind::Text => AssistantMessageEvent::TextStart { content_index },
        BlockKind::Thinking => AssistantMessageEvent::ThinkingStart { content_index },
        BlockKind::RedactedThinking => AssistantMessageEvent::ThinkingStart { content_index },
        BlockKind::ToolUse => AssistantMessageEvent::ToolCallStart { content_index },
    }
}

fn make_end_event(kind: BlockKind, content_index: usize) -> (r: AssistantMessageEvent)
    ensures
        r@ == end_event(kind, content_index as int),
{
    match kind {
        BlockKind::Text => AssistantMessageEvent::TextEnd { content_index },
        BlockKind::Thinking => AssistantMessageEvent::ThinkingEnd { content_index },
        BlockKind::RedactedThinking => AssistantMessageEvent::ThinkingEnd { content_index },
        BlockKind::ToolUse => AssistantMessageEvent::ToolCallEnd { content_index },
    }
}

pub open spec fn opt_event(o: Option<AssistantMessageEvent>) -> Option<StreamEvent> {
    match o {
        Some(e) => Some(e@),
        None => None,
    }
}

impl ResponseReader {
    /// A response of `model` that has not begun.
    pub fn new(model: &Model) -> (r: ResponseReader)
        ensures
            r@ == (Progress {
                message: AssistantView {
                    model: model@.id,
                    provider: model@.provider,
                    ..blank_assistant(r@.message.timestamp)
                },
                blocks: Map::empty(),
                saw_start: false,
                saw_stop: false,
            }),
            r.decoder_state() == SseState::start(),
    {
        let mut message: AssistantMessage = AssistantMessage::empty();
        message.model = model.id.clone();
        message.provider = model.provider.clone();
        let blocks: HashMap<u64, BlockScratch> = HashMap::new();
        let r: ResponseReader = ResponseReader {
            decoder: SseDecoder::new(),
            message,
            blocks,
            saw_start: false,
            saw_stop: false,
        };
        assert(r.open_blocks() =~= Map::<u64, Scratch>::empty());
        r
    }

    fn block_start(&mut self, j: &Json) -> (r: Option<AssistantMessageEvent>)
        ensures
            (final(self)@, opt_event(r)) == after_block_start(old(self)@, j@),
            final(self).decoder_state() == old(self).decoder_state(),
    {
        let index: u64 = index_at(j);
        let block: Json = j.field_copy("content_block");
        let kind: BlockKind = match kind_of(&block) {
            Some(k) => k,
            None => {
                return None;
            },
        };
        let our_index: usize = self.message.content.len();
        let opened: ContentBlock = open_block(kind, &block);
        let ghost before = self.message.content@;
        let ghost blocks_before = self.open_blocks();
        proof {
            assert(blocks_of(before.push(opened)) =~= blocks_of(before).push(opened@));
        }
        self.message.content.push(opened);
        let scratch: BlockScratch = BlockScratch { our_index, kind, partial_json: String::new() };
        self.blocks.insert(index, scratch);
        assert(self.open_blocks() =~= blocks_before.insert(index, scratch@));
        Some(make_start_event(kind, our_index))
    }

    fn block_stop(&mut self, j: &Json) -> (r: Option<AssistantMessageEvent>)
        ensures
            (final(self)@, opt_event(r)) == after_block_stop(old(self)@, j@),
            final(self).decoder_state() == old(self).decoder_state(),
    {
        let index: u64 = index_at(j);
        let ghost blocks_before = self.open_blocks();
        let scratch: BlockScratch = match self.blocks.remove(&index) {
            Some(s) => s,
            None => {
                assert(self.open_blocks() =~= blocks_before);
                assert(!blocks_before.dom().contains(index));
                return None;
            },
        };
        assert(self.open_blocks() =~= blocks_before.remove(index));
        assert(blocks_before[index] == scratch@);
        let i: usize = scratch.our_index;
        if i < self.message.content.len() {
            let ghost before = self.message.content@;
            match &mut self.message.content[i] {
                ContentBlock::ToolCall { arguments, .. } => {
                    *arguments = parse_streaming_json(scratch.partial_json.as_str());
                },
                _ => {},
            }
            proof {
                let after = self.message.content@;
                assert(blocks_of(after) =~= blocks_of(before).update(i as int, after[i as int]@));
                assert(blocks_of(before)[i as int] == before[i as int]@);
                if !(before[i as int]@ is ToolCall) {
                    assert(blocks_of(after) =~= blocks_of(before));
                }
            }
        }
        Some(make_end_event(scratch.kind, i))
    }

    #[verifier::rlimit(40)]
    fn block_delta(&mut self, j: &Json) -> (r: Option<AssistantMessageEvent>)
        ensures
            (final(self)@, opt_event(r)) == after_block_delta(old(self)@, j@),
            final(self).decoder_state() == old(self).decoder_state(),
    {
        let index: u64 = index_at(j);
        let delta: Json = j.field_copy("delta");
        let kind: String = delta.string_or_empty("type");
        let ghost blocks_before = self.open_blocks();
        let mut scratch: BlockScratch = match self.blocks.remove(&index) {
            Some(s) => s,
            None => {
                assert(self.open_blocks() =~= blocks_before);
                assert(!blocks_before.dom().contains(index));
                return None;
            },
        };
        assert(blocks_before[index] == scratch@);
        let i: usize = scratch.our_index;
        let mut event: Option<AssistantMessageEvent> = None;
        if i < self.message.content.len() {
            let ghost before = self.message.content@;
            match &mut self.message.content[i] {
                ContentBlock::Text { text: t } => {
                    if text::same(kind.as_str(), "text_delta") {
                        if let Some(x) = delta.string_at("text") {
                            t.append(x);
                            event = Some(
                                AssistantMessageEvent::TextDelta {
                                    content_index: i,
                                    delta: x.to_string(),
                                },
                            );
                        }
                    }
                },
                ContentBlock::Thinking { thinking, thinking_signature, .. } => {
                    if text::same(kind.as_str(), "thinking_delta") {
                        if let Some(x) = delta.string_at("thinking") {
                            thinking.append(x);
                            event = Some(
                                AssistantMessageEvent::ThinkingDelta {
                                    content_index: i,
                                    delta: x.to_string(),
                                },
                            );
                        }
                    } else if text::same(kind.as_str(), "signature_delta") {
                        if let Some(x) = delta.string_at("signature") {
                            thinking_signature.append(x);
                        }
                    }
                },
                ContentBlock::ToolCall { arguments, .. } => {
                    if text::same(kind.as_str(), "input_json_delta") {
                        if let Some(x) = delta.string_at("partial_json") {
                            scratch.partial_json.append(x);
                            event = Some(
                                AssistantMessageEvent::ToolCallDelta {
                                    content_index: i,
                                    delta: x.to_string(),
                                },
                            );
                            *arguments = parse_streaming_json(scratch.partial_json.as_str());
                        }
                    }
                },
            }
            proof {
                let after = self.message.content@;
                assert(blocks_of(before)[i as int] == before[i as int]@);
                assert(blocks_of(after) =~= blocks_of(before).update(i as int, after[i as int]@));
                if after[i as int]@ == before[i as int]@ {
                    assert(blocks_of(after) =~= blocks_of(before));
                }
            }
        }
        self.blocks.insert(index, scratch);
        assert(self.open_blocks() =~= blocks_before.insert(index, scratch@));
        proof {
            if scratch@ == blocks_before[index] {
                assert(blocks_before.insert(index, scratch@) =~= blocks_before);
            }
        }
        event
    }

    /// Take in one server-sent event, given what its data parses to.
    pub fn handle_parsed(&mut self, sse: &ServerSentEvent, parsed: Option<Json>) -> (r: Option<
        AssistantMessageEvent,
    >)
        ensures
            (final(self)@, opt_event(r)) == after_event(old(self)@, sse@, opt_json(parsed)),
            final(self).decoder_state() == old(self).decoder_state(),
    {
        if let Some(name) = &sse.event {
            if text::same(name.as_str(), "error") {
                self.message.error_message = Some(sse.data.clone());
                return None;
            }
        }
        let j: Json = match parsed {
            Some(j) => j,
            None => {
                return None;
            },
        };
        let kind: String = j.string_or_empty("type");
        if text::same(kind.as_str(), "message_start") {
            self.saw_start = true;
            if let Some(m) = j.get("message") {
                if let Some(id) = m.string_at("id") {
                    self.message.response_id = Some(id.to_string());
                }
                if let Some(u) = m.get("usage") {
                    apply_usage(&mut self.message.usage, u);
                }
            }
            None
        } else if text::same(kind.as_str(), "content_block_start") {
            self.block_start(&j)
        } else if text::same(kind.as_str(), "content_block_delta") {
            self.block_delta(&j)
        } else if text::same(kind.as_str(), "content_block_stop") {
            self.block_stop(&j)
        } else if text::same(kind.as_str(), "message_delta") {
            if let Some(d) = j.get("delta") {
                if let Some(reason) = d.string_at("stop_reason") {
                    self.message.stop_reason = map_stop_reason(reason);
                }
            }
            if let Some(u) = j.get("usage") {
                apply_usage(&mut self.message.usage, u);
            }
            None
        } else if text::same(kind.as_str(), "message_stop") {
            self.saw_stop = true;
            None
        } else {
            None
        }
    }

    /// Take in one server-sent event.
    pub fn handle_sse(&mut self, sse: &ServerSentEvent) -> (r: Option<AssistantMessageEvent>)
        ensures
            (final(self)@, opt_event(r)) == after_event(
                old(self)@,
                sse@,
                json_parsed(sse@.data),
            ),
            final(self).decoder_state() == old(self).decoder_state(),
    {
        let parsed: Option<Json> = json::parse(sse.data.as_str());
        self.handle_parsed(sse, parsed)
    }

    fn handle_all(&mut self, events: &Vec<ServerSentEvent>) -> (r: Vec<AssistantMessageEvent>)
        ensures
            (final(self)@, events_of(r@)) == after_events(old(self)@, sse_events(events@)),
            final(self).decoder_state() == old(self).decoder_state(),
    {
        let ghost start = self@;
        let ghost decoder = self.decoder_state();
        let ghost all = sse_events(events@);
        let mut out: Vec<AssistantMessageEvent> = Vec::new();
        let mut i: usize = 0;
        assert(events_of(out@) =~= Seq::<StreamEvent>::empty());
        while i < events.len()
            invariant
                all == sse_events(events@),
                i <= events@.len(),
                (self@, events_of(out@)) == after_events(start, all.take(i as int)),
                self.decoder_state() == decoder,
            decreases events@.len() - i,
        {
            let ghost given = events_of(out@);
            proof {
                assert(all.take(i + 1).drop_last() =~= all.take(i as int));
                assert(all.take(i + 1).last() == events@[i as int]@);
            }
            match self.handle_sse(&events[i]) {
                Some(e) => {
                    assert(events_of(out@.push(e)) =~= given + seq![e@]);
                    out.push(e);
                },
                None => {
                    assert(given + Seq::<StreamEvent>::empty() =~= given);
                },
            }
            i += 1;
        }
        assert(all.take(all.len() as int) =~= all);
        out
    }

    /// Take in a chunk of the response body.
    pub fn read_chunk(&mut self, bytes: &[u8]) -> (r: Vec<AssistantMessageEvent>)
        ensures
            ({
                let (decoder, events) = fed(old(self).decoder_state(), lossy_text(bytes@));
                &&& final(self).decoder_state() == decoder
                &&& (final(self)@, events_of(r@)) == after_events(old(self)@, events)
            }),
    {
        let ghost before = self@;
        let events: Vec<ServerSentEvent> = self.decoder.feed(bytes);
        assert(self@ == before);
        self.handle_all(&events)
    }

    /// Take in what the end of the body closes, and give the events of that and
    /// the terminal event last.
    pub fn end(self, cancelled: bool) -> (r: Vec<AssistantMessageEvent>)
        ensures
            ({
                let (_, events) = finished(self.decoder_state());
                let (last, given) = after_events(self@, events);
                events_of(r@) == given.push(terminal(last, cancelled))
            }),
    {
        let mut this: ResponseReader = self;
        let ghost before = this@;
        let events: Vec<ServerSentEvent> = this.decoder.finish();
        assert(this@ == before);
        let mut out: Vec<AssistantMessageEvent> = this.handle_all(&events);
        let last: AssistantMessageEvent = this.terminal_event(cancelled);
        assert(events_of(out@.push(last)) =~= events_of(out@).push(last@));
        out.push(last);
        out
    }

    /// The terminal event, for the message as it stands.
    pub fn terminal_event(self, cancelled: bool) -> (r: AssistantMessageEvent)
        ensures
            r@ == terminal(self@, cancelled),
    {
        let mut message: AssistantMessage = self.message;
        message.usage.recompute_total();
        if self.saw_start && !self.saw_stop {
            message.error_message = Some("Anthropic stream ended before message_stop".to_string());
            return AssistantMessageEvent::Error { reason: StopReason::Error, message };
        }
        let reason: StopReason = if cancelled {
            StopReason::Aborted
        } else {
            message.stop_reason
        };
        message.stop_reason = reason;
        AssistantMessageEvent::Done { reason, message }
    }
}

pub open spec fn events_of(v: Seq<AssistantMessageEvent>) -> Seq<StreamEvent> {
    v.map_values(|e: AssistantMessageEvent| e@)
}

/// The event that ends a request which gave no response.
pub fn failure_event(reason: StopReason, message: &str) -> (r: AssistantMessageEvent)
    ensures
        exists|timestamp: i64| r@ == #[trigger] failure(reason, message@, timestamp),
{
    let mut m: AssistantMessage = AssistantMessage::empty();
    let ghost timestamp = m.timestamp;
    m.stop_reason = reason;
    m.error_message = Some(message.to_string());
    let r: AssistantMessageEvent = AssistantMessageEvent::Error { reason, message: m };
    assert(r@ == failure(reason, message@, timestamp));
    r
}

/// A text cut to `max` characters, marked by an ellipsis when something went.
pub fn truncate(s: &str, max: usize) -> (r: String)
    ensures
        r@ == cut_line(s@, max as int),
{
    let (cut, _): (String, bool) = truncate_line(s, Some(max));
    cut
}

/// What is reported when the API refuses a request.
pub fn api_error_text(status: &str, body: &str) -> (r: String)
    ensures
        r@ == "Anthropic API error ("@ + status@ + "): "@ + cut_line(body@, 2000),
{
    let mut out: String = "Anthropic API error (".to_string();
    out.append(status);
    out.append("): ");
    out.append(truncate(body, 2000).as_str());
    out
}

/// What is reported when a request could not be sent.
pub fn request_failed_text(error: &str) -> (r: String)
    ensures
        r@ == "Request failed: "@ + error@,
{
    let mut out: String = "Request failed: ".to_string();
    out.append(error);
    out
}

/// What became of sending a request.
#[derive(Debug)]
pub enum SendOutcome {
    /// It was called off.
    Aborted,
    /// It could not be sent.
    Failed(String),
    /// The API refused it, with a status and a body.
    Refused { status: String, body: String },
    /// The API accepted it: the response body follows.
    Accepted,
}

/// The first event of a stream: a start where the request was accepted, and
/// otherwise the failure that is also its last one.
pub fn opening_event(outcome: &SendOutcome) -> (r: AssistantMessageEvent)
    ensures
        match outcome {
            SendOutcome::Aborted => exists|timestamp: i64|
                r@ == #[trigger] failure(StopReason::Aborted, "Request aborted"@, timestamp),
            SendOutcome::Failed(e) => exists|timestamp: i64|
                r@ == #[trigger] failure(StopReason::Error, "Request failed: "@ + e@, timestamp),
            SendOutcome::Refused { status, body } => exists|timestamp: i64|
                r@ == #[trigger] failure(
                    StopReason::Error,
                    "Anthropic API error ("@ + status@ + "): "@ + cut_line(body@, 2000),
                    timestamp,
                ),
            SendOutcome::Accepted => r@ == StreamEvent::Start,
        },
{
    match outcome {
        SendOutcome::Aborted => failure_event(StopReason::Aborted, "Request aborted"),
        SendOutcome::Failed(e) => failure_event(
            StopReason::Error,
            request_failed_text(e.as_str()).as_str(),
        ),
        SendOutcome::Refused { status, body } => failure_event(
            StopReason::Error,
            api_error_text(status.as_str(), body.as_str()).as_str(),
        ),
        SendOutcome::Accepted => AssistantMessageEvent::Start,
    }
}

// ---------------------------------------------------------------------------
// Laws
// ---------------------------------------------------------------------------

/// The block that an open scratch belongs to is there, and of its kind.
pub open spec fn kind_fits(kind: BlockKind, b: BlockView) -> bool {
    match kind {
        BlockKind::Text => b is Text,
        BlockKind::Thinking => b matches BlockView::Thinking(_, _, redacted) && !redacted,
        BlockKind::RedactedThinking => b matches BlockView::Thinking(_, _, redacted) && redacted,
        BlockKind::ToolUse => b is ToolCall,
    }
}

/// Every open block stands in the message, under the kind it was announced as.
pub open spec fn open_blocks_valid(p: Progress) -> bool {
    forall|index: u64| #[trigger]
        p.blocks.dom().contains(index) ==> {
            &&& 0 <= p.blocks[index].our_index < p.message.content.len()
            &&& kind_fits(p.blocks[index].kind, p.message.content[p.blocks[index].our_index])
        }
}

/// Whatever the provider sends, the open blocks stay valid: each of them is in
/// the message, under the kind it was announced as.
pub proof fn law_open_blocks_stay_valid(p: Progress, e: SseEvent, parsed: Option<JsonView>)
    requires
        open_blocks_valid(p),
    ensures
        open_blocks_valid(after_event(p, e, parsed).0),
{
    let q = after_event(p, e, parsed).0;
    assert forall|index: u64| #[trigger] q.blocks.dom().contains(index) implies {
        &&& 0 <= q.blocks[index].our_index < q.message.content.len()
        &&& kind_fits(q.blocks[index].kind, q.message.content[q.blocks[index].our_index])
    } by {
        if p.blocks.dom().contains(index) {
            assert(0 <= p.blocks[index].our_index < p.message.content.len());
        }
        if let Some(j) = parsed {
            let at = block_index(j);
            if p.blocks.dom().contains(at) {
                assert(0 <= p.blocks[at].our_index < p.message.content.len());
            }
        }
    }
}

/// Is this an event that ends a stream?
pub open spec fn is_terminal(e: StreamEvent) -> bool {
    e is Done || e is Error
}

/// A stream ends once: whatever the provider sends, no event on the way is
/// terminal, and the last one is.
pub proof fn law_a_stream_ends_once(p: Progress, events: Seq<SseEvent>, cancelled: bool)
    ensures
        ({
            let (last, given) = after_events(p, events);
            &&& forall|i: int| 0 <= i < given.len() ==> !is_terminal(#[trigger] given[i])
            &&& is_terminal(terminal(last, cancelled))
        }),
    decreases events.len(),
{
    if events.len() > 0 {
        law_a_stream_ends_once(p, events.drop_last(), cancelled);
    }
}

/// A response only ever grows: an event adds at most one block, and never takes
/// one away.
pub proof fn law_content_only_grows(p: Progress, e: SseEvent, parsed: Option<JsonView>)
    requires
        open_blocks_valid(p),
    ensures
        p.message.content.len() <= after_event(p, e, parsed).0.message.content.len()
            <= p.message.content.len() + 1,
{
    if let Some(j) = parsed {
        let at = block_index(j);
        if p.blocks.dom().contains(at) {
            assert(0 <= p.blocks[at].our_index < p.message.content.len());
        }
    }
}

/// The names of events, blocks and deltas all differ.
proof fn lemma_names_differ()
    ensures
        "message_start"@ != "content_block_start"@,
        "message_start"@ != "content_block_delta"@,
        "message_start"@ != "content_block_stop"@,
        "message_start"@ != "message_delta"@,
        "message_start"@ != "message_stop"@,
        "content_block_start"@ != "content_block_delta"@,
        "content_block_start"@ != "content_block_stop"@,
        "content_block_start"@ != "message_delta"@,
        "content_block_start"@ != "message_stop"@,
        "content_block_delta"@ != "content_block_stop"@,
        "content_block_delta"@ != "message_delta"@,
        "content_block_delta"@ != "message_stop"@,
        "content_block_stop"@ != "message_delta"@,
        "content_block_stop"@ != "message_stop"@,
        "message_delta"@ != "message_stop"@,
        "text"@ != "thinking"@,
        "text"@ != "redacted_thinking"@,
        "text"@ != "tool_use"@,
        "thinking"@ != "redacted_thinking"@,
        "thinking"@ != "tool_use"@,
        "redacted_thinking"@ != "tool_use"@,
        "thinking_delta"@ != "signature_delta"@,
        "max_tokens"@ != "tool_use"@,
        "max_tokens"@ != "refusal"@,
        "max_tokens"@ != "sensitive"@,
        "tool_use"@ != "refusal"@,
        "tool_use"@ != "sensitive"@,
{
    reveal_strlit("message_start");
    reveal_strlit("content_block_start");
    reveal_strlit("content_block_delta");
    reveal_strlit("content_block_stop");
    reveal_strlit("message_delta");
    reveal_strlit("message_stop");
    reveal_strlit("text");
    reveal_strlit("thinking");
    reveal_strlit("redacted_thinking");
    reveal_strlit("tool_use");
    reveal_strlit("thinking_delta");
    reveal_strlit("signature_delta");
    reveal_strlit("max_tokens");
    reveal_strlit("refusal");
    reveal_strlit("sensitive");
    assert("message_start"@.len() != "content_block_start"@.len());
    assert("message_start"@.len() != "content_block_delta"@.len());
    assert("message_start"@.len() != "content_block_stop"@.len());
    assert("message_start"@[8] != "message_delta"@[8]);
    assert("message_start"@.len() != "message_stop"@.len());
    assert("content_block_start"@[14] != "content_block_delta"@[14]);
    assert("content_block_start"@.len() != "content_block_stop"@.len());
    assert("content_block_start"@.len() != "message_delta"@.len());
    assert("content_block_start"@.len() != "message_stop"@.len());
    assert("content_block_delta"@.len() != "content_block_stop"@.len());
    assert("content_block_delta"@.len() != "message_delta"@.len());
    assert("content_block_delta"@.len() != "message_stop"@.len());
    assert("content_block_stop"@.len() != "message_delta"@.len());
    assert("content_block_stop"@.len() != "message_stop"@.len());
    assert("message_delta"@.len() != "message_stop"@.len());
    assert("text"@.len() != "thinking"@.len());
    assert("text"@.len() != "redacted_thinking"@.len());
    assert("text"@.len() != "tool_use"@.len());
    assert("thinking"@.len() != "redacted_thinking"@.len());
    assert("thinking"@[1] != "tool_use"@[1]);
    assert("redacted_thinking"@.len() != "tool_use"@.len());
    assert("thinking_delta"@.len() != "signature_delta"@.len());
    assert("max_tokens"@.len() != "tool_use"@.len());
    assert("max_tokens"@.len() != "refusal"@.len());
    assert("max_tokens"@.len() != "sensitive"@.len());
    assert("tool_use"@.len() != "refusal"@.len());
    assert("tool_use"@.len() != "sensitive"@.len());
}

/// An event under its own name, with `kind` as the type in its data.
pub open spec fn is_event(e: SseEvent, j: JsonView, kind: Seq<char>) -> bool {
    e.event != Some("error"@) && holds(j, "type"@, JsonView::Str(kind))
}

/// A piece `x` for block `n`: the delta has type `kind` and holds `x` under
/// `key`.
pub open spec fn is_piece(
    e: SseEvent,
    j: JsonView,
    n: u64,
    kind: Seq<char>,
    key: Seq<char>,
    x: Seq<char>,
) -> bool {
    &&& is_event(e, j, "content_block_delta"@)
    &&& holds(j, "index"@, JsonView::UInt(n))
    &&& exists|d: JsonView|
        #[trigger] holds(j, "delta"@, d) && holds(d, "type"@, JsonView::Str(kind)) && holds(
            d,
            key,
            JsonView::Str(x),
        )
}

/// Block `n` is open, and is `b`, at place `i` of the message.
pub open spec fn is_open(p: Progress, n: u64, i: int, b: BlockView) -> bool {
    &&& p.blocks.dom().contains(n)
    &&& p.blocks[n].our_index == i
    &&& 0 <= i < p.message.content.len()
    &&& p.message.content[i] == b
}

/// Only the content differs, and only at `i`, where there is now `b`.
pub open spec fn only_block_changed(p: Progress, q: Progress, i: int, b: BlockView) -> bool {
    &&& q.message.content == p.message.content.update(i, b)
    &&& q.message == (AssistantView { content: q.message.content, ..p.message })
    &&& q.saw_start == p.saw_start
    &&& q.saw_stop == p.saw_stop
}

/// A piece of text is put behind the text of its block, and handed on.
pub proof fn law_a_text_piece_is_added(
    p: Progress,
    e: SseEvent,
    j: JsonView,
    n: u64,
    i: int,
    t: Seq<char>,
    x: Seq<char>,
)
    requires
        is_piece(e, j, n, "text_delta"@, "text"@, x),
        is_open(p, n, i, BlockView::Text(t)),
    ensures
        ({
            let (q, ev) = after_event(p, e, Some(j));
            &&& only_block_changed(p, q, i, BlockView::Text(t + x))
            &&& q.blocks == p.blocks
            &&& ev == Some(StreamEvent::TextDelta(i, x))
        }),
{
    lemma_names_differ();
}

/// A piece of a thought is put behind the thought of its block, and handed on.
pub proof fn law_a_thinking_piece_is_added(
    p: Progress,
    e: SseEvent,
    j: JsonView,
    n: u64,
    i: int,
    t: Seq<char>,
    s: Seq<char>,
    redacted: bool,
    x: Seq<char>,
)
    requires
        is_piece(e, j, n, "thinking_delta"@, "thinking"@, x),
        is_open(p, n, i, BlockView::Thinking(t, s, redacted)),
    ensures
        ({
            let (q, ev) = after_event(p, e, Some(j));
            &&& only_block_changed(p, q, i, BlockView::Thinking(t + x, s, redacted))
            &&& q.blocks == p.blocks
            &&& ev == Some(StreamEvent::ThinkingDelta(i, x))
        }),
{
    lemma_names_differ();
}

/// A piece of a signature is put behind the signature of its block; the thought
/// stays as it is.
pub proof fn law_a_signature_piece_is_added(
    p: Progress,
    e: SseEvent,
    j: JsonView,
    n: u64,
    i: int,
    t: Seq<char>,
    s: Seq<char>,
    redacted: bool,
    x: Seq<char>,
)
    requires
        is_piece(e, j, n, "signature_delta"@, "signature"@, x),
        is_open(p, n, i, BlockView::Thinking(t, s, redacted)),
    ensures
        ({
            let (q, ev) = after_event(p, e, Some(j));
            &&& only_block_changed(p, q, i, BlockView::Thinking(t, s + x, redacted))
            &&& q.blocks == p.blocks
            &&& ev is None
        }),
{
    lemma_names_differ();
}

/// A piece of a tool call's arguments is put behind the pieces before it; the
/// call keeps its id and its name, and has the arguments that all the pieces so
/// far stand for.
pub proof fn law_an_argument_piece_is_added(
    p: Progress,
    e: SseEvent,
    j: JsonView,
    n: u64,
    i: int,
    id: Seq<char>,
    name: Seq<char>,
    arguments: JsonView,
    x: Seq<char>,
)
    requires
        is_piece(e, j, n, "input_json_delta"@, "partial_json"@, x),
        is_open(p, n, i, BlockView::ToolCall(id, name, arguments)),
    ensures
        ({
            let (q, ev) = after_event(p, e, Some(j));
            let all = p.blocks[n].partial + x;
            &&& only_block_changed(
                p,
                q,
                i,
                BlockView::ToolCall(id, name, streaming_value(all)),
            )
            &&& q.blocks == p.blocks.insert(n, Scratch { partial: all, ..p.blocks[n] })
            &&& ev == Some(StreamEvent::ToolCallDelta(i, x))
        }),
{
    lemma_names_differ();
}

/// All signature pieces of a block, one after the other, make its signature.
pub proof fn law_a_signature_is_all_its_pieces(
    p: Progress,
    events: Seq<SseEvent>,
    xs: Seq<Seq<char>>,
    n: u64,
    i: int,
    t: Seq<char>,
    s: Seq<char>,
    redacted: bool,
)
    requires
        is_open(p, n, i, BlockView::Thinking(t, s, redacted)),
        xs.len() == events.len(),
        forall|k: int|
            0 <= k < events.len() ==> (json_parsed((#[trigger] events[k]).data) matches Some(j)
                && is_piece(events[k], j, n, "signature_delta"@, "signature"@, xs[k])),
    ensures
        ({
            let (q, given) = after_events(p, events);
            &&& only_block_changed(
                p,
                q,
                i,
                BlockView::Thinking(t, s + xs.flatten_alt(), redacted),
            )
            &&& q.blocks == p.blocks
            &&& given.len() == 0
        }),
    decreases events.len(),
{
    if events.len() == 0 {
        assert(s + xs.flatten_alt() =~= s);
        assert(p.message.content =~= p.message.content.update(
            i,
            BlockView::Thinking(t, s, redacted),
        ));
    } else {
        let init = events.drop_last();
        let ys = xs.drop_last();
        assert forall|k: int| 0 <= k < init.len() implies (json_parsed(
            (#[trigger] init[k]).data,
        ) matches Some(j) && is_piece(init[k], j, n, "signature_delta"@, "signature"@, ys[k])) by {
            assert(init[k] == events[k]);
        }
        law_a_signature_is_all_its_pieces(p, init, ys, n, i, t, s, redacted);
        let mid = after_events(p, init).0;
        let e = events[events.len() - 1];
        let x = xs[xs.len() - 1];
        let j = json_parsed(e.data)->0;
        assert(is_piece(e, j, n, "signature_delta"@, "signature"@, x));
        law_a_signature_piece_is_added(
            mid,
            e,
            j,
            n,
            i,
            t,
            s + ys.flatten_alt(),
            redacted,
            x,
        );
        assert((s + ys.flatten_alt()) + x =~= s + xs.flatten_alt());
        let q = after_events(p, events).0;
        assert(q.message.content =~= p.message.content.update(
            i,
            BlockView::Thinking(t, s + xs.flatten_alt(), redacted),
        ));
    }
}

/// All pieces of a text, one after the other, make the text, and each of them is
/// handed on in its turn.
pub proof fn law_a_text_is_all_its_pieces(
    p: Progress,
    events: Seq<SseEvent>,
    xs: Seq<Seq<char>>,
    n: u64,
    i: int,
    t: Seq<char>,
)
    requires
        is_open(p, n, i, BlockView::Text(t)),
        xs.len() == events.len(),
        forall|k: int|
            0 <= k < events.len() ==> (json_parsed((#[trigger] events[k]).data) matches Some(j)
                && is_piece(events[k], j, n, "text_delta"@, "text"@, xs[k])),
    ensures
        ({
            let (q, given) = after_events(p, events);
            &&& only_block_changed(p, q, i, BlockView::Text(t + xs.flatten_alt()))
            &&& q.blocks == p.blocks
            &&& given == xs.map_values(|x: Seq<char>| StreamEvent::TextDelta(i, x))
        }),
    decreases events.len(),
{
    let told = |x: Seq<char>| StreamEvent::TextDelta(i, x);
    if events.len() == 0 {
        assert(t + xs.flatten_alt() =~= t);
        assert(p.message.content =~= p.message.content.update(i, BlockView::Text(t)));
        assert(xs.map_values(told) =~= Seq::<StreamEvent>::empty());
    } else {
        let init = events.drop_last();
        let ys = xs.drop_last();
        assert forall|k: int| 0 <= k < init.len() implies (json_parsed(
            (#[trigger] init[k]).data,
        ) matches Some(j) && is_piece(init[k], j, n, "text_delta"@, "text"@, ys[k])) by {
            assert(init[k] == events[k]);
        }
        law_a_text_is_all_its_pieces(p, init, ys, n, i, t);
        let mid = after_events(p, init).0;
        let e = events[events.len() - 1];
        let x = xs[xs.len() - 1];
        let j = json_parsed(e.data)->0;
        assert(is_piece(e, j, n, "text_delta"@, "text"@, x));
        law_a_text_piece_is_added(mid, e, j, n, i, t + ys.flatten_alt(), x);
        assert((t + ys.flatten_alt()) + x =~= t + xs.flatten_alt());
        let (q, given) = after_events(p, events);
        assert(q.message.content =~= p.message.content.update(
            i,
            BlockView::Text(t + xs.flatten_alt()),
        ));
        assert(given =~= xs.map_values(told));
    }
}

/// All pieces of a thought, one after the other, make the thought.
pub proof fn law_a_thought_is_all_its_pieces(
    p: Progress,
    events: Seq<SseEvent>,
    xs: Seq<Seq<char>>,
    n: u64,
    i: int,
    t: Seq<char>,
    s: Seq<char>,
    redacted: bool,
)
    requires
        is_open(p, n, i, BlockView::Thinking(t, s, redacted)),
        xs.len() == events.len(),
        forall|k: int|
            0 <= k < events.len() ==> (json_parsed((#[trigger] events[k]).data) matches Some(j)
                && is_piece(events[k], j, n, "thinking_delta"@, "thinking"@, xs[k])),
    ensures
        ({
            let (q, given) = after_events(p, events);
            &&& only_block_changed(
                p,
                q,
                i,
                BlockView::Thinking(t + xs.flatten_alt(), s, redacted),
            )
            &&& q.blocks == p.blocks
            &&& given == xs.map_values(|x: Seq<char>| StreamEvent::ThinkingDelta(i, x))
        }),
    decreases events.len(),
{
    let told = |x: Seq<char>| StreamEvent::ThinkingDelta(i, x);
    if events.len() == 0 {
        assert(t + xs.flatten_alt() =~= t);
        assert(p.message.content =~= p.message.content.update(
            i,
            BlockView::Thinking(t, s, redacted),
        ));
        assert(xs.map_values(told) =~= Seq::<StreamEvent>::empty());
    } else {
        let init = events.drop_last();
        let ys = xs.drop_last();
        assert forall|k: int| 0 <= k < init.len() implies (json_parsed(
            (#[trigger] init[k]).data,
        ) matches Some(j) && is_piece(init[k], j, n, "thinking_delta"@, "thinking"@, ys[k])) by {
            assert(init[k] == events[k]);
        }
        law_a_thought_is_all_its_pieces(p, init, ys, n, i, t, s, redacted);
        let mid = after_events(p, init).0;
        let e = events[events.len() - 1];
        let x = xs[xs.len() - 1];
        let j = json_parsed(e.data)->0;
        assert(is_piece(e, j, n, "thinking_delta"@, "thinking"@, x));
        law_a_thinking_piece_is_added(mid, e, j, n, i, t + ys.flatten_alt(), s, redacted, x);
        assert((t + ys.flatten_alt()) + x =~= t + xs.flatten_alt());
        let (q, given) = after_events(p, events);
        assert(q.message.content =~= p.message.content.update(
            i,
            BlockView::Thinking(t + xs.flatten_alt(), s, redacted),
        ));
        assert(given =~= xs.map_values(told));
    }
}

/// All pieces of a tool call's arguments, one after the other, are what the call
/// is parsed from: the call keeps its id and name, and stands open with all of
/// them.
pub proof fn law_arguments_are_all_their_pieces(
    p: Progress,
    events: Seq<SseEvent>,
    xs: Seq<Seq<char>>,
    n: u64,
    i: int,
    id: Seq<char>,
    name: Seq<char>,
    arguments: JsonView,
)
    requires
        is_open(p, n, i, BlockView::ToolCall(id, name, arguments)),
        xs.len() == events.len() > 0,
        forall|k: int|
            0 <= k < events.len() ==> (json_parsed((#[trigger] events[k]).data) matches Some(j)
                && is_piece(events[k], j, n, "input_json_delta"@, "partial_json"@, xs[k])),
    ensures
        ({
            let (q, given) = after_events(p, events);
            let all = p.blocks[n].partial + xs.flatten_alt();
            &&& only_block_changed(
                p,
                q,
                i,
                BlockView::ToolCall(id, name, streaming_value(all)),
            )
            &&& q.blocks == p.blocks.insert(n, Scratch { partial: all, ..p.blocks[n] })
            &&& given == xs.map_values(|x: Seq<char>| StreamEvent::ToolCallDelta(i, x))
        }),
    decreases events.len(),
{
    let told = |x: Seq<char>| StreamEvent::ToolCallDelta(i, x);
    let init = events.drop_last();
    let ys = xs.drop_last();
    let e = events[events.len() - 1];
    let x = xs[xs.len() - 1];
    let j = json_parsed(e.data)->0;
    assert(is_piece(e, j, n, "input_json_delta"@, "partial_json"@, x));
    let (mid, before) = after_events(p, init);
    let (q, given) = after_events(p, events);
    let part = p.blocks[n].partial;
    assert((part + ys.flatten_alt()) + x =~= part + xs.flatten_alt());
    if init.len() == 0 {
        law_an_argument_piece_is_added(p, e, j, n, i, id, name, arguments, x);
        assert(part + ys.flatten_alt() =~= part);
    } else {
        assert forall|k: int| 0 <= k < init.len() implies (json_parsed(
            (#[trigger] init[k]).data,
        ) matches Some(j) && is_piece(
            init[k],
            j,
            n,
            "input_json_delta"@,
            "partial_json"@,
            ys[k],
        )) by {
            assert(init[k] == events[k]);
        }
        law_arguments_are_all_their_pieces(p, init, ys, n, i, id, name, arguments);
        let held = streaming_value(part + ys.flatten_alt());
        law_an_argument_piece_is_added(mid, e, j, n, i, id, name, held, x);
    }
    assert(q.message.content =~= p.message.content.update(
        i,
        BlockView::ToolCall(id, name, streaming_value(part + xs.flatten_alt())),
    ));
    assert(q.blocks =~= p.blocks.insert(
        n,
        Scratch { partial: part + xs.flatten_alt(), ..p.blocks[n] },
    ));
    assert(given =~= xs.map_values(told));
}

/// A block that starts goes to the end of the message, empty but for what is
/// announced with it, and is open under the provider's index from then on. The
/// blocks before it stay as they are.
pub proof fn law_a_block_starts_empty_at_the_end(
    p: Progress,
    e: SseEvent,
    j: JsonView,
    n: u64,
    block: JsonView,
)
    requires
        is_event(e, j, "content_block_start"@),
        holds(j, "index"@, JsonView::UInt(n)),
        holds(j, "content_block"@, block),
    ensures
        ({
            let (q, ev) = after_event(p, e, Some(j));
            let i = p.message.content.len() as int;
            &&& q.saw_start == p.saw_start && q.saw_stop == p.saw_stop
            &&& q.message == (AssistantView { content: q.message.content, ..p.message })
            &&& holds(block, "type"@, JsonView::Str("text"@)) ==> {
                &&& q.message.content == p.message.content.push(BlockView::Text(Seq::empty()))
                &&& ev == Some(StreamEvent::TextStart(i))
                &&& q.blocks[n].kind == BlockKind::Text
            }
            &&& holds(block, "type"@, JsonView::Str("thinking"@)) ==> {
                &&& q.message.content == p.message.content.push(
                    BlockView::Thinking(Seq::empty(), Seq::empty(), false),
                )
                &&& ev == Some(StreamEvent::ThinkingStart(i))
                &&& q.blocks[n].kind == BlockKind::Thinking
            }
            &&& forall|data: Seq<char>|
                holds(block, "type"@, JsonView::Str("redacted_thinking"@)) && #[trigger] holds(
                    block,
                    "data"@,
                    JsonView::Str(data),
                ) ==> {
                    &&& q.message.content == p.message.content.push(
                        BlockView::Thinking("[Reasoning redacted]"@, data, true),
                    )
                    &&& ev == Some(StreamEvent::ThinkingStart(i))
                    &&& q.blocks[n].kind == BlockKind::RedactedThinking
                }
            &&& forall|id: Seq<char>, name: Seq<char>|
                holds(block, "type"@, JsonView::Str("tool_use"@)) && #[trigger] holds(
                    block,
                    "id"@,
                    JsonView::Str(id),
                ) && #[trigger] holds(block, "name"@, JsonView::Str(name)) ==> {
                    &&& q.message.content == p.message.content.push(
                        BlockView::ToolCall(id, name, JsonView::Obj(Map::empty())),
                    )
                    &&& ev == Some(StreamEvent::ToolCallStart(i))
                    &&& q.blocks[n].kind == BlockKind::ToolUse
                }
            &&& q.message.content.len() > p.message.content.len() ==> {
                &&& q.blocks.dom() == p.blocks.dom().insert(n)
                &&& q.blocks[n].our_index == i
                &&& q.blocks[n].partial.len() == 0
                &&& forall|k: u64| k != n && p.blocks.dom().contains(k) ==> #[trigger] q.blocks[k]
                    == p.blocks[k]
            }
            &&& q.message.content.len() == p.message.content.len() ==> q == p && ev is None
        }),
{
    lemma_names_differ();
    let (q, ev) = after_event(p, e, Some(j));
    assert(field(j, "content_block"@) == Some(block));
    if q.message.content.len() > p.message.content.len() {
        assert(q.blocks.dom() =~= p.blocks.dom().insert(n));
    }
}

/// A block of a kind that is not known is passed over.
pub proof fn law_unknown_blocks_are_passed_over(
    p: Progress,
    e: SseEvent,
    j: JsonView,
    block: JsonView,
    kind: Seq<char>,
)
    requires
        is_event(e, j, "content_block_start"@),
        holds(j, "content_block"@, block),
        holds(block, "type"@, JsonView::Str(kind)),
        kind != "text"@,
        kind != "thinking"@,
        kind != "redacted_thinking"@,
        kind != "tool_use"@,
    ensures
        after_event(p, e, Some(j)) == (p, None::<StreamEvent>),
{
    lemma_names_differ();
}

/// A block that stops is open no longer, and is told by the event of its kind. A
/// tool call then has the arguments that all its pieces stand for; any other
/// block stays as it is.
pub proof fn law_a_block_stops_as_it_is(
    p: Progress,
    e: SseEvent,
    j: JsonView,
    n: u64,
    i: int,
    b: BlockView,
)
    requires
        is_event(e, j, "content_block_stop"@),
        holds(j, "index"@, JsonView::UInt(n)),
        is_open(p, n, i, b),
        kind_fits(p.blocks[n].kind, b),
    ensures
        ({
            let (q, ev) = after_event(p, e, Some(j));
            &&& q.blocks == p.blocks.remove(n)
            &&& (match b {
                BlockView::ToolCall(id, name, _) => {
                    &&& only_block_changed(
                        p,
                        q,
                        i,
                        BlockView::ToolCall(id, name, streaming_value(p.blocks[n].partial)),
                    )
                    &&& ev == Some(StreamEvent::ToolCallEnd(i))
                },
                BlockView::Text(_) => q.message == p.message && ev == Some(
                    StreamEvent::TextEnd(i),
                ),
                BlockView::Thinking(_, _, _) => q.message == p.message && ev == Some(
                    StreamEvent::ThinkingEnd(i),
                ),
            })
            &&& q.saw_start == p.saw_start
            &&& q.saw_stop == p.saw_stop
        }),
{
    lemma_names_differ();
}

/// The first message event gives the message its id, and its first usage.
pub proof fn law_a_message_starts_with_its_id(
    p: Progress,
    e: SseEvent,
    j: JsonView,
    m: JsonView,
    id: Seq<char>,
)
    requires
        is_event(e, j, "message_start"@),
        holds(j, "message"@, m),
        holds(m, "id"@, JsonView::Str(id)),
    ensures
        ({
            let (q, ev) = after_event(p, e, Some(j));
            &&& q.saw_start
            &&& q.saw_stop == p.saw_stop
            &&& q.blocks == p.blocks
            &&& q.message.response_id == Some(id)
            &&& q.message == (AssistantView {
                response_id: Some(id),
                usage: q.message.usage,
                ..p.message
            })
            &&& ev is None
        }),
{
    lemma_names_differ();
}

/// A message that stops is known to have stopped.
pub proof fn law_a_message_stops(p: Progress, e: SseEvent, j: JsonView)
    requires
        is_event(e, j, "message_stop"@),
    ensures
        ({
            let (q, ev) = after_event(p, e, Some(j));
            &&& q.saw_stop
            &&& q.saw_start == p.saw_start
            &&& q.message == p.message
            &&& q.blocks == p.blocks
            &&& ev is None
        }),
{
    lemma_names_differ();
}

/// The reason to stop is the one that the provider gives: a limit, a tool to be
/// used, a refusal, or else a plain end. Without one it stays what it was.
pub proof fn law_the_stop_reason_is_the_providers(
    p: Progress,
    e: SseEvent,
    j: JsonView,
    delta: JsonView,
)
    requires
        is_event(e, j, "message_delta"@),
        holds(j, "delta"@, delta),
    ensures
        ({
            let (q, ev) = after_event(p, e, Some(j));
            let reason = q.message.stop_reason;
            &&& ev is None
            &&& q.blocks == p.blocks && q.saw_start == p.saw_start && q.saw_stop == p.saw_stop
            &&& q.message == (AssistantView {
                stop_reason: reason,
                usage: q.message.usage,
                ..p.message
            })
            &&& lacks(delta, "stop_reason"@) ==> reason == p.message.stop_reason
            &&& holds(delta, "stop_reason"@, JsonView::Null) ==> reason == p.message.stop_reason
            &&& forall|r: Seq<char>| #[trigger]
                holds(delta, "stop_reason"@, JsonView::Str(r)) ==> {
                    &&& reason == StopReason::Length <==> r == "max_tokens"@
                    &&& reason == StopReason::ToolUse <==> r == "tool_use"@
                    &&& reason == StopReason::Error <==> r == "refusal"@ || r == "sensitive"@
                    &&& reason != StopReason::Aborted
                }
        }),
{
    lemma_names_differ();
}

/// Events of other types change nothing and give nothing, and neither does data
/// that is no JSON.
pub proof fn law_other_events_are_passed_over(
    p: Progress,
    e: SseEvent,
    j: JsonView,
    kind: Seq<char>,
)
    requires
        is_event(e, j, kind),
        kind != "message_start"@,
        kind != "content_block_start"@,
        kind != "content_block_delta"@,
        kind != "content_block_stop"@,
        kind != "message_delta"@,
        kind != "message_stop"@,
    ensures
        after_event(p, e, Some(j)) == (p, None::<StreamEvent>),
        after_event(p, e, None) == (p, None::<StreamEvent>),
{
}

/// An error event leaves its data as the message's error, whatever the data is.
pub proof fn law_an_error_event_is_the_messages_error(
    p: Progress,
    e: SseEvent,
    parsed: Option<JsonView>,
)
    requires
        e.event == Some("error"@),
    ensures
        ({
            let (q, ev) = after_event(p, e, parsed);
            &&& q.message == (AssistantView { error_message: Some(e.data), ..p.message })
            &&& q.blocks == p.blocks && q.saw_start == p.saw_start && q.saw_stop == p.saw_stop
            &&& ev is None
        }),
{
}

/// Every counter that a report holds replaces the one before, every other one
/// stays, and the total is the sum of the four, where it fits.
pub proof fn law_reported_counters_replace_the_old(u: Usage, j: JsonView)
    ensures
        ({
            let r = usage_reported(u, j);
            &&& forall|n: u64| #[trigger]
                holds(j, "input_tokens"@, JsonView::UInt(n)) ==> r.input == n
            &&& forall|n: u64| #[trigger]
                holds(j, "output_tokens"@, JsonView::UInt(n)) ==> r.output == n
            &&& forall|n: u64| #[trigger]
                holds(j, "cache_read_input_tokens"@, JsonView::UInt(n)) ==> r.cache_read == n
            &&& forall|n: u64| #[trigger]
                holds(j, "cache_creation_input_tokens"@, JsonView::UInt(n)) ==> r.cache_write == n
            &&& lacks(j, "input_tokens"@) ==> r.input == u.input
            &&& lacks(j, "output_tokens"@) ==> r.output == u.output
            &&& lacks(j, "cache_read_input_tokens"@) ==> r.cache_read == u.cache_read
            &&& lacks(j, "cache_creation_input_tokens"@) ==> r.cache_write == u.cache_write
            &&& r.input + r.output + r.cache_read + r.cache_write <= u64::MAX ==> r.total_tokens
                == r.input + r.output + r.cache_read + r.cache_write
        }),
{
    let r = usage_reported(u, j);
    let sum = r.input + r.output + r.cache_read + r.cache_write;
    if sum <= u64::MAX {
        assert(sum % 0x1_0000_0000_0000_0000 == sum);
    }
}

/// The usage of a message is reported where the message starts, within the
/// message, and where it changes, beside the change.
pub proof fn law_usage_is_reported_with_the_message(
    p: Progress,
    e: SseEvent,
    j: JsonView,
    m: JsonView,
    report: JsonView,
)
    ensures
        is_event(e, j, "message_start"@) && holds(j, "message"@, m) && holds(m, "usage"@, report)
            ==> after_event(p, e, Some(j)).0.message.usage == usage_reported(
            p.message.usage,
            report,
        ),
        is_event(e, j, "message_delta"@) && holds(j, "usage"@, report) ==> after_event(
            p,
            e,
            Some(j),
        ).0.message.usage == usage_reported(p.message.usage, report),
        is_event(e, j, "message_delta"@) && lacks(j, "usage"@) ==> after_event(
            p,
            e,
            Some(j),
        ).0.message.usage == p.message.usage,
{
    lemma_names_differ();
}

/// Events are taken in one after the other: a run of them does what its first
/// part does, and then its second part from there.
pub proof fn law_events_are_taken_in_order(p: Progress, a: Seq<SseEvent>, b: Seq<SseEvent>)
    ensures
        after_events(p, Seq::empty()) == (p, Seq::<StreamEvent>::empty()),
        ({
            let (mid, first) = after_events(p, a);
            let (end, second) = after_events(mid, b);
            after_events(p, a + b) == (end, first + second)
        }),
        a.len() == 1 ==> {
            let (q, ev) = after_event(p, a[0], json_parsed(a[0].data));
            after_events(p, a) == (
                q,
                match ev {
                    Some(x) => seq![x],
                    None => Seq::empty(),
                },
            )
        },
    decreases b.len(),
{
    let (mid, first) = after_events(p, a);
    if b.len() == 0 {
        assert(a + b =~= a);
        assert(first + Seq::<StreamEvent>::empty() =~= first);
    } else {
        law_events_are_taken_in_order(p, a, b.drop_last());
        assert((a + b).drop_last() =~= a + b.drop_last());
        let (end, second) = after_events(mid, b);
        assert(after_events(p, a + b).1 =~= first + second);
    }
    if a.len() == 1 {
        assert(a.drop_last() =~= Seq::<SseEvent>::empty());
        assert(after_events(p, a.drop_last()) == (p, Seq::<StreamEvent>::empty()));
        let (q, ev) = after_event(p, a[0], json_parsed(a[0].data));
        assert(first =~= (match ev {
            Some(x) => seq![x],
            None => Seq::empty(),
        }));
    }
}

/// A stream ends with the message as it was assembled: its content, id, model
/// and counters. It is an error just where the message started and never stopped;
/// otherwise the reason is the provider's, or that it was called off.
pub proof fn law_a_stream_ends_with_the_assembled_message(p: Progress, cancelled: bool)
    ensures
        (p.saw_start && !p.saw_stop) <==> terminal(p, cancelled) is Error,
        match terminal(p, cancelled) {
            StreamEvent::Done(reason, m) => {
                &&& reason == (if cancelled {
                    StopReason::Aborted
                } else {
                    p.message.stop_reason
                })
                &&& m.stop_reason == reason
                &&& m.error_message == p.message.error_message
                &&& m.content == p.message.content
                &&& m.response_id == p.message.response_id
                &&& m.model == p.message.model
                &&& m.provider == p.message.provider
                &&& m.timestamp == p.message.timestamp
            },
            StreamEvent::Error(reason, m) => {
                &&& reason == StopReason::Error
                &&& m.error_message == Some("Anthropic stream ended before message_stop"@)
                &&& m.stop_reason == p.message.stop_reason
                &&& m.content == p.message.content
                &&& m.response_id == p.message.response_id
                &&& m.model == p.message.model
                &&& m.provider == p.message.provider
                &&& m.timestamp == p.message.timestamp
            },
            _ => false,
        },
        ({
            let u = p.message.usage;
            let w = match terminal(p, cancelled) {
                StreamEvent::Done(_, m) => m.usage,
                StreamEvent::Error(_, m) => m.usage,
                _ => u,
            };
            &&& w.input == u.input && w.output == u.output
            &&& w.cache_read == u.cache_read && w.cache_write == u.cache_write
            &&& u.input + u.output + u.cache_read + u.cache_write <= u64::MAX ==> w.total_tokens
                == u.input + u.output + u.cache_read + u.cache_write
        }),
{
    let u = p.message.usage;
    let sum = u.input + u.output + u.cache_read + u.cache_write;
    if sum <= u64::MAX {
        assert(sum % 0x1_0000_0000_0000_0000 == sum);
    }
}

/// A request that gave no response ends in an error event with an empty message,
/// which says why.
pub proof fn law_a_failure_says_why(reason: StopReason, message: Seq<char>, timestamp: i64)
    ensures
        match failure(reason, message, timestamp) {
            StreamEvent::Error(r, m) => {
                &&& r == reason
                &&& m.stop_reason == reason
                &&& m.error_message == Some(message)
                &&& m.content.len() == 0
                &&& m.timestamp == timestamp
            },
            _ => false,
        },
{
}

/// An event without an index belongs to block 0, and a block that announces no type
/// is text.
pub proof fn law_missing_fields_have_their_defaults(
    p: Progress,
    e: SseEvent,
    j: JsonView,
    block: JsonView,
)
    requires
        is_event(e, j, "content_block_start"@),
        lacks(j, "index"@),
        holds(j, "content_block"@, block),
        lacks(block, "type"@),
    ensures
        ({
            let (q, ev) = after_event(p, e, Some(j));
            &&& q.message.content == p.message.content.push(BlockView::Text(Seq::empty()))
            &&& q.blocks.dom().contains(0)
            &&& q.blocks[0].our_index == p.message.content.len()
            &&& ev == Some(StreamEvent::TextStart(p.message.content.len() as int))
        }),
{
    lemma_names_differ();
}

/// A piece for a block that is not open is passed over, and so is the stop of one.
pub proof fn law_pieces_of_closed_blocks_are_passed_over(
    p: Progress,
    e: SseEvent,
    j: JsonView,
    n: u64,
)
    requires
        is_event(e, j, "content_block_delta"@) || is_event(e, j, "content_block_stop"@),
        holds(j, "index"@, JsonView::UInt(n)),
        !p.blocks.dom().contains(n),
    ensures
        after_event(p, e, Some(j)) == (p, None::<StreamEvent>),
{
    lemma_names_differ();
}

/// A piece that does not fit its block is passed over: a text takes text, a thought
/// takes thoughts and signatures, a call takes arguments.
pub proof fn law_pieces_that_do_not_fit_are_passed_over(
    p: Progress,
    e: SseEvent,
    j: JsonView,
    n: u64,
    i: int,
    b: BlockView,
    delta: JsonView,
    kind: Seq<char>,
)
    requires
        is_event(e, j, "content_block_delta"@),
        holds(j, "index"@, JsonView::UInt(n)),
        holds(j, "delta"@, delta),
        holds(delta, "type"@, JsonView::Str(kind)),
        is_open(p, n, i, b),
        match b {
            BlockView::Text(_) => kind != "text_delta"@,
            BlockView::Thinking(_, _, _) => kind != "thinking_delta"@ && kind != "signature_delta"@,
            BlockView::ToolCall(_, _, _) => kind != "input_json_delta"@,
        },
    ensures
        after_event(p, e, Some(j)) == (p, None::<StreamEvent>),
{
    lemma_names_differ();
}

/// What a starting message leaves out stays as it was.
pub proof fn law_a_starting_message_may_leave_things_out(
    p: Progress,
    e: SseEvent,
    j: JsonView,
    m: JsonView,
)
    requires
        is_event(e, j, "message_start"@),
    ensures
        lacks(j, "message"@) ==> after_event(p, e, Some(j)) == (
            Progress { saw_start: true, ..p },
            None::<StreamEvent>,
        ),
        holds(j, "message"@, m) && lacks(m, "id"@) ==> after_event(
            p,
            e,
            Some(j),
        ).0.message.response_id == p.message.response_id,
        holds(j, "message"@, m) && lacks(m, "usage"@) ==> after_event(p, e, Some(j)).0.message.usage
            == p.message.usage,
        after_event(p, e, Some(j)).0.saw_start,
{
    lemma_names_differ();
}

} // verus!
