//! The agent loop: stream an assistant response, execute any tool calls, feed
//! results back, and repeat until the model stops. The steps between the
//! outside work are here; whoever drives them performs the requests and runs
//! the tools.

use vstd::prelude::*;

use crate::agent::context::{
    law_the_first_tool_of_a_name_is_found, run_events_of, tool_named, tool_results_of, tools_of,
    AgentContext, AgentEvent, RunEvent, ToolInfoView,
};
use crate::agent::tool::{
    refusal, text_result, validate_required, BeforeToolCallResult, ExecutionMode, ResultView,
    ToolResult,
};
use crate::ai::response::{after_event, block_index, open_blocks_valid, Progress};
use crate::ai::stream::{AssistantMessageEvent, SseEvent, StreamEvent};
use crate::ai::types::{
    blank_assistant, blocks_of, messages_of, now_ms, AssistantMessage,
    AssistantView, BlockView, ContentBlock, MediaView, Message, MessageView, Model, StopReason,
    ToolResultMessage, ToolResultView, Usage,
};
use crate::json::{Json, JsonView};
use crate::text;
use crate::tools::truncate::fewer;

verus! {

// ---------------------------------------------------------------------------
// The partial message
// ---------------------------------------------------------------------------

/// `content` with copies of `b` at its end, so that it has a block `i`.
pub open spec fn padded(content: Seq<BlockView>, i: int, b: BlockView) -> Seq<BlockView>
    decreases i + 1 - content.len(),
{
    if content.len() > i {
        content
    } else {
        padded(content.push(b), i, b)
    }
}

/// What a streaming event does to the partial message.
pub open spec fn applied(m: AssistantView, e: StreamEvent) -> AssistantView {
    match e {
        StreamEvent::TextStart(i) => AssistantView {
            content: padded(m.content, i, BlockView::Text(Seq::empty())),
            ..m
        },
        StreamEvent::TextDelta(i, x) => if 0 <= i < m.content.len() {
            match m.content[i] {
                BlockView::Text(t) => AssistantView {
                    content: m.content.update(i, BlockView::Text(t + x)),
                    ..m
                },
                _ => m,
            }
        } else {
            m
        },
        StreamEvent::ThinkingStart(i) => AssistantView {
            content: padded(
                m.content,
                i,
                BlockView::Thinking(Seq::empty(), Seq::empty(), false),
            ),
            ..m
        },
        StreamEvent::ThinkingDelta(i, x) => if 0 <= i < m.content.len() {
            match m.content[i] {
                BlockView::Thinking(t, s, r) => AssistantView {
                    content: m.content.update(i, BlockView::Thinking(t + x, s, r)),
                    ..m
                },
                _ => m,
            }
        } else {
            m
        },
        StreamEvent::ToolCallStart(i) => AssistantView {
            content: padded(
                m.content,
                i,
                BlockView::ToolCall(Seq::empty(), Seq::empty(), JsonView::Obj(Map::empty())),
            ),
            ..m
        },
        StreamEvent::Done(_, full) => full,
        StreamEvent::Error(_, full) => full,
        _ => m,
    }
}

/// Pad `content` with copies of `block`, so that it has a block `index`.
fn ensure_block(content: &mut Vec<ContentBlock>, index: usize, block: &ContentBlock)
    ensures
        blocks_of(final(content)@) == padded(blocks_of(old(content)@), index as int, block@),
{
    let ghost start = blocks_of(content@);
    while content.len() <= index
        invariant
            padded(blocks_of(content@), index as int, block@) == padded(
                start,
                index as int,
                block@,
            ),
        decreases index + 1 - content@.len(),
    {
        let b: ContentBlock = block.clone();
        assert(blocks_of(content@.push(b)) =~= blocks_of(content@).push(b@));
        content.push(b);
    }
}

/// Reconstruct a partial assistant message from fine-grained events (for live
/// rendering). The authoritative message arrives via `Done`/`Error`.
pub fn apply_event(msg: &mut AssistantMessage, event: &AssistantMessageEvent)
    ensures
        final(msg)@ == applied(old(msg)@, event@),
{
    match event {
        AssistantMessageEvent::TextStart { content_index } => {
            ensure_block(
                &mut msg.content,
                *content_index,
                &ContentBlock::Text { text: String::new() },
            );
        },
        AssistantMessageEvent::TextDelta { content_index, delta } => {
            let i: usize = *content_index;
            if i < msg.content.len() {
                let ghost before = msg.content@;
                match &mut msg.content[i] {
                    ContentBlock::Text { text: t } => {
                        t.append(delta.as_str());
                    },
                    _ => {},
                }
                proof {
                    let after = msg.content@;
                    assert(blocks_of(before)[i as int] == before[i as int]@);
                    assert(blocks_of(after) =~= blocks_of(before).update(
                        i as int,
                        after[i as int]@,
                    ));
                    if after[i as int]@ == before[i as int]@ {
                        assert(blocks_of(after) =~= blocks_of(before));
                    }
                }
            }
        },
        AssistantMessageEvent::ThinkingStart { content_index } => {
            ensure_block(
                &mut msg.content,
                *content_index,
                &ContentBlock::Thinking {
                    thinking: String::new(),
                    thinking_signature: String::new(),
                    redacted: false,
                },
            );
        },
        AssistantMessageEvent::ThinkingDelta { content_index, delta } => {
            let i: usize = *content_index;
            if i < msg.content.len() {
                let ghost before = msg.content@;
                match &mut msg.content[i] {
                    ContentBlock::Thinking { thinking, .. } => {
                        thinking.append(delta.as_str());
                    },
                    _ => {},
                }
                proof {
                    let after = msg.content@;
                    assert(blocks_of(before)[i as int] == before[i as int]@);
                    assert(blocks_of(after) =~= blocks_of(before).update(
                        i as int,
                        after[i as int]@,
                    ));
                    if after[i as int]@ == before[i as int]@ {
                        assert(blocks_of(after) =~= blocks_of(before));
                    }
                }
            }
        },
        AssistantMessageEvent::ToolCallStart { content_index } => {
            ensure_block(
                &mut msg.content,
                *content_index,
                &ContentBlock::ToolCall {
                    id: String::new(),
                    name: String::new(),
                    arguments: Json::object(),
                },
            );
        },
        AssistantMessageEvent::Done { message, .. } => {
            *msg = message.clone();
        },
        AssistantMessageEvent::Error { message, .. } => {
            *msg = message.clone();
        },
        _ => {},
    }
}

// ---------------------------------------------------------------------------
// Tool calls
// ---------------------------------------------------------------------------

/// A tool call of an assistant message.
#[derive(Debug)]
pub struct ToolCall {
    pub id: String,
    pub name: String,
    pub arguments: Json,
}

pub ghost struct CallView {
    pub id: Seq<char>,
    pub name: Seq<char>,
    pub arguments: JsonView,
}

impl View for ToolCall {
    type V = CallView;

    open spec fn view(&self) -> CallView {
        CallView { id: self.id@, name: self.name@, arguments: self.arguments@ }
    }
}

pub open spec fn calls_of(v: Seq<ToolCall>) -> Seq<CallView> {
    v.map_values(|c: ToolCall| c@)
}

/// The tool calls among content blocks, in order.
pub open spec fn calls_in(v: Seq<BlockView>) -> Seq<CallView>
    decreases v.len(),
{
    if v.len() == 0 {
        Seq::empty()
    } else {
        match v.last() {
            BlockView::ToolCall(id, name, arguments) => calls_in(v.drop_last()).push(
                CallView { id, name, arguments },
            ),
            _ => calls_in(v.drop_last()),
        }
    }
}

/// The tool calls of an assistant message.
pub fn tool_calls(message: &AssistantMessage) -> (r: Vec<ToolCall>)
    ensures
        calls_of(r@) == calls_in(message@.content),
{
    let ghost all = blocks_of(message.content@);
    let mut out: Vec<ToolCall> = Vec::new();
    let mut i: usize = 0;
    assert(calls_of(out@) =~= Seq::<CallView>::empty());
    while i < message.content.len()
        invariant
            all == blocks_of(message.content@),
            i <= message.content@.len(),
            calls_of(out@) == calls_in(all.take(i as int)),
        decreases message.content@.len() - i,
    {
        proof {
            assert(all.take(i + 1).drop_last() =~= all.take(i as int));
            assert(all.take(i + 1).last() == message.content@[i as int]@);
        }
        if let ContentBlock::ToolCall { id, name, arguments } = &message.content[i] {
            let c: ToolCall = ToolCall {
                id: id.clone(),
                name: name.clone(),
                arguments: arguments.clone(),
            };
            assert(calls_of(out@.push(c)) =~= calls_of(out@).push(c@));
            out.push(c);
        }
        i += 1;
    }
    assert(all.take(all.len() as int) =~= all);
    out
}

/// Does a tool of that name insist on running alone?
pub open spec fn runs_alone(tools: Seq<ToolInfoView>, name: Seq<char>) -> bool {
    tool_named(tools, name, 0) matches Some(i) && tools[i].mode == ExecutionMode::Sequential
}

/// Must the calls run one at a time? They must where the loop is set so, or
/// where one of the tools insists.
pub open spec fn must_be_sequential(
    tools: Seq<ToolInfoView>,
    calls: Seq<CallView>,
    mode: ExecutionMode,
) -> bool {
    mode == ExecutionMode::Sequential || exists|i: int|
        0 <= i < calls.len() && runs_alone(tools, (#[trigger] calls[i]).name)
}

fn id_is_sequential(ctx: &AgentContext, name: &str) -> (r: bool)
    ensures
        r == runs_alone(tools_of(ctx.tools@), name@),
{
    match ctx.find_tool(name) {
        Some(i) => {
            assert(tools_of(ctx.tools@)[i as int] == ctx.tools@[i as int]@);
            ctx.tools[i].mode == ExecutionMode::Sequential
        },
        None => false,
    }
}

/// Decide whether the calls of one assistant message run one at a time.
pub fn force_sequential(ctx: &AgentContext, calls: &Vec<ToolCall>, mode: ExecutionMode) -> (r: bool)
    ensures
        r == must_be_sequential(tools_of(ctx.tools@), calls_of(calls@), mode),
{
    if mode == ExecutionMode::Sequential {
        return true;
    }
    let ghost all = calls_of(calls@);
    let mut i: usize = 0;
    while i < calls.len()
        invariant
            all == calls_of(calls@),
            i <= calls@.len(),
            forall|k: int|
                0 <= k < i ==> !runs_alone(tools_of(ctx.tools@), (#[trigger] all[k]).name),
        decreases calls@.len() - i,
    {
        assert(all[i as int] == calls@[i as int]@);
        if id_is_sequential(ctx, calls[i].name.as_str()) {
            return true;
        }
        i += 1;
    }
    false
}

/// What a call is answered with before its tool runs, if it may not run: the
/// tool must exist, and its arguments must have what it requires.
pub open spec fn answered_at_once(
    tools: Seq<ToolInfoView>,
    name: Seq<char>,
    prepared: JsonView,
) -> Option<ResultView> {
    match tool_named(tools, name, 0) {
        None => Some(text_result("Tool "@ + name + " not found"@)),
        Some(i) => match refusal(tools[i].schema.input_schema, prepared) {
            Some(e) => Some(text_result(e)),
            None => None,
        },
    }
}

/// Check a call against the tool it names. `prepared` are the arguments as the
/// tool has normalized them.
pub fn check_call(ctx: &AgentContext, name: &str, prepared: &Json) -> (r: Option<ToolResult>)
    ensures
        match r {
            Some(t) => answered_at_once(tools_of(ctx.tools@), name@, prepared@) == Some(t@),
            None => answered_at_once(tools_of(ctx.tools@), name@, prepared@) is None,
        },
{
    match ctx.find_tool(name) {
        None => {
            let mut message: String = "Tool ".to_string();
            message.append(name);
            message.append(" not found");
            Some(ToolResult::error(message.as_str()))
        },
        Some(i) => {
            assert(tools_of(ctx.tools@)[i as int] == ctx.tools@[i as int]@);
            match validate_required(&ctx.tools[i].schema.input_schema, prepared) {
                Err(e) => Some(ToolResult::error(e.as_str())),
                Ok(_) => None,
            }
        },
    }
}

/// What a blocked call is answered with.
pub open spec fn gate_answer(block: bool, reason: Option<Seq<char>>) -> Option<ResultView> {
    if block {
        Some(
            text_result(
                match reason {
                    Some(r) => r,
                    None => "Tool execution was blocked"@,
                },
            ),
        )
    } else {
        None
    }
}

/// Act on the decision that was taken before a call.
pub fn check_gate(decision: &BeforeToolCallResult) -> (r: Option<ToolResult>)
    ensures
        match r {
            Some(t) => gate_answer(decision.block, text::opt_view(decision.reason)) == Some(t@),
            None => gate_answer(decision.block, text::opt_view(decision.reason)) is None,
        },
{
    if !decision.block {
        return None;
    }
    match &decision.reason {
        Some(reason) => Some(ToolResult::error(reason.as_str())),
        None => Some(ToolResult::error("Tool execution was blocked")),
    }
}

/// The result of a tool that ran: a failure becomes an error result.
pub fn settle(outcome: Result<ToolResult, String>) -> (r: (ToolResult, bool))
    ensures
        match outcome {
            Ok(t) => r.0 == t && !r.1,
            Err(e) => r.0@ == text_result(e@) && r.1,
        },
{
    match outcome {
        Ok(t) => (t, false),
        Err(e) => (ToolResult::error(e.as_str()), true),
    }
}

/// The message that answers a call.
pub fn build_result_message(call: &ToolCall, result: ToolResult, is_error: bool) -> (r:
    ToolResultMessage)
    ensures
        r@ == (ToolResultView {
            tool_call_id: call@.id,
            tool_name: call@.name,
            content: result@.content,
            is_error,
            timestamp: r@.timestamp,
        }),
{
    ToolResultMessage {
        tool_call_id: call.id.clone(),
        tool_name: call.name.clone(),
        content: result.content,
        is_error,
        timestamp: now_ms(),
    }
}

/// The answers to the first calls, in call order.
pub open spec fn answers(
    calls: Seq<CallView>,
    outcomes: Seq<(ResultView, bool)>,
    messages: Seq<ToolResultView>,
) -> bool {
    &&& messages.len() == fewer(calls.len(), outcomes.len())
    &&& forall|i: int|
        #![trigger messages[i]]
        0 <= i < messages.len() ==> messages[i] == (ToolResultView {
            tool_call_id: calls[i].id,
            tool_name: calls[i].name,
            content: outcomes[i].0.content,
            is_error: outcomes[i].1,
            timestamp: messages[i].timestamp,
        })
}

pub open spec fn outcomes_of(v: Seq<(ToolResult, bool)>) -> Seq<(ResultView, bool)> {
    v.map_values(|o: (ToolResult, bool)| (o.0@, o.1))
}

/// Answer calls with their outcomes, in call order. Where a run is aborted,
/// there are fewer outcomes than calls: the calls behind them stay unanswered.
pub fn answer_calls(calls: &Vec<ToolCall>, outcomes: Vec<(ToolResult, bool)>) -> (r: Vec<
    ToolResultMessage,
>)
    ensures
        answers(calls_of(calls@), outcomes_of(outcomes@), tool_results_of(r@)),
{
    let ghost all = outcomes_of(outcomes@);
    let ghost given = outcomes@;
    let mut rest: Vec<(ToolResult, bool)> = outcomes;
    while rest.len() > calls.len()
        invariant
            rest@ == given.take(rest@.len() as int),
            rest@.len() <= given.len(),
            given.len() >= calls@.len() ==> rest@.len() >= calls@.len(),
            given.len() < calls@.len() ==> rest@.len() == given.len(),
        decreases rest@.len(),
    {
        let ghost before = rest@;
        rest.pop();
        assert(rest@ =~= given.take(before.len() - 1));
    }
    let total: usize = rest.len();
    let ghost kept = rest@;
    let mut back: Vec<ToolResultMessage> = Vec::new();
    while rest.len() > 0
        invariant
            total == kept.len(),
            total <= calls@.len(),
            rest@.len() + back@.len() == total,
            rest@ == kept.take(rest@.len() as int),
            forall|k: int|
                #![trigger back@[k]]
                0 <= k < back@.len() ==> back@[k]@ == (ToolResultView {
                    tool_call_id: calls@[total - 1 - k]@.id,
                    tool_name: calls@[total - 1 - k]@.name,
                    content: kept[total - 1 - k].0@.content,
                    is_error: kept[total - 1 - k].1,
                    timestamp: back@[k]@.timestamp,
                }),
        decreases rest@.len(),
    {
        let n: usize = rest.len();
        match rest.pop() {
            Some((result, is_error)) => {
                assert((result, is_error) == kept[n - 1]);
                assert(rest@ =~= kept.take(n - 1));
                back.push(build_result_message(&calls[n - 1], result, is_error));
            },
            None => {},
        }
    }
    let mut out: Vec<ToolResultMessage> = Vec::new();
    while back.len() > 0
        invariant
            total <= calls@.len(),
            out@.len() + back@.len() == total,
            forall|k: int|
                #![trigger back@[k]]
                0 <= k < back@.len() ==> back@[k]@ == (ToolResultView {
                    tool_call_id: calls@[total - 1 - k]@.id,
                    tool_name: calls@[total - 1 - k]@.name,
                    content: kept[total - 1 - k].0@.content,
                    is_error: kept[total - 1 - k].1,
                    timestamp: back@[k]@.timestamp,
                }),
            forall|i: int|
                #![trigger out@[i]]
                0 <= i < out@.len() ==> out@[i]@ == (ToolResultView {
                    tool_call_id: calls@[i]@.id,
                    tool_name: calls@[i]@.name,
                    content: kept[i].0@.content,
                    is_error: kept[i].1,
                    timestamp: out@[i]@.timestamp,
                }),
        decreases back@.len(),
    {
        let ghost before = back@;
        match back.pop() {
            Some(m) => {
                assert(m == before[before.len() - 1]);
                out.push(m);
            },
            None => {},
        }
    }
    proof {
        let messages = tool_results_of(out@);
        assert forall|i: int| #![trigger messages[i]] 0 <= i < messages.len() implies messages[i]
            == (ToolResultView {
            tool_call_id: calls_of(calls@)[i].id,
            tool_name: calls_of(calls@)[i].name,
            content: all[i].0.content,
            is_error: all[i].1,
            timestamp: messages[i].timestamp,
        }) by {
            assert(messages[i] == out@[i]@);
            assert(kept[i] == given[i]);
        }
    }
    out
}

pub fn start_event(call: &ToolCall) -> (r: AgentEvent)
    ensures
        r@ == RunEvent::ToolExecutionStart(call@.id, call@.name, call@.arguments),
{
    AgentEvent::ToolExecutionStart {
        tool_call_id: call.id.clone(),
        tool_name: call.name.clone(),
        args: call.arguments.clone(),
    }
}

pub fn end_event(call: &ToolCall, is_error: bool) -> (r: AgentEvent)
    ensures
        r@ == RunEvent::ToolExecutionEnd(call@.id, call@.name, is_error),
{
    AgentEvent::ToolExecutionEnd {
        tool_call_id: call.id.clone(),
        tool_name: call.name.clone(),
        is_error,
    }
}

// ---------------------------------------------------------------------------
// The run
// ---------------------------------------------------------------------------

/// A run of the loop: the transcript, and the response under way.
#[derive(Debug)]
pub struct AgentRun {
    pub messages: Vec<Message>,
    partial: AssistantMessage,
    authoritative: Option<AssistantMessage>,
}

pub ghost struct RunState {
    pub messages: Seq<MessageView>,
    pub partial: AssistantView,
    pub authoritative: Option<AssistantView>,
}

impl View for AgentRun {
    type V = RunState;

    closed spec fn view(&self) -> RunState {
        RunState {
            messages: messages_of(self.messages@),
            partial: self.partial@,
            authoritative: match self.authoritative {
                Some(m) => Some(m@),
                None => None,
            },
        }
    }
}

/// A message that arrives whole starts and ends at once.
pub open spec fn announced(v: Seq<MessageView>) -> Seq<RunEvent>
    decreases v.len(),
{
    if v.len() == 0 {
        Seq::empty()
    } else {
        announced(v.drop_last()).push(RunEvent::MessageStart(v.last())).push(
            RunEvent::MessageEnd(v.last()),
        )
    }
}

pub open spec fn as_messages(v: Seq<ToolResultView>) -> Seq<MessageView> {
    v.map_values(|t: ToolResultView| MessageView::ToolResult(t))
}

/// The transcript with `m` in place of a final assistant message.
pub open spec fn last_replaced(v: Seq<MessageView>, m: AssistantView) -> Seq<MessageView> {
    if v.len() > 0 && v.last() is Assistant {
        v.drop_last().push(MessageView::Assistant(m))
    } else {
        v
    }
}

proof fn lemma_events_push(v: Seq<AgentEvent>, e: AgentEvent)
    ensures
        run_events_of(v.push(e)) == run_events_of(v).push(e@),
{
    assert(run_events_of(v.push(e)) =~= run_events_of(v).push(e@));
}

proof fn lemma_messages_push(v: Seq<Message>, m: Message)
    ensures
        messages_of(v.push(m)) == messages_of(v).push(m@),
{
    assert(messages_of(v.push(m)) =~= messages_of(v).push(m@));
}

impl AgentRun {
    /// Begin a run: the prompts go behind the transcript.
    pub fn begin(messages: Vec<Message>, prompts: &Vec<Message>) -> (r: (
        AgentRun,
        Vec<AgentEvent>,
    ))
        ensures
            r.0@.messages == messages_of(messages@) + messages_of(prompts@),
            run_events_of(r.1@) == seq![RunEvent::AgentStart] + announced(messages_of(prompts@)),
    {
        let ghost start = messages_of(messages@);
        let ghost all = messages_of(prompts@);
        let mut messages: Vec<Message> = messages;
        let mut events: Vec<AgentEvent> = Vec::new();
        events.push(AgentEvent::AgentStart);
        let mut i: usize = 0;
        assert(run_events_of(events@) =~= seq![RunEvent::AgentStart] + announced(all.take(0)));
        assert(messages_of(messages@) =~= start + all.take(0));
        while i < prompts.len()
            invariant
                all == messages_of(prompts@),
                i <= prompts@.len(),
                messages_of(messages@) == start + all.take(i as int),
                run_events_of(events@) == seq![RunEvent::AgentStart] + announced(
                    all.take(i as int),
                ),
            decreases prompts@.len() - i,
        {
            let ghost given = run_events_of(events@);
            let m: Message = prompts[i].clone();
            let a: AgentEvent = AgentEvent::MessageStart(m.clone());
            let b: AgentEvent = AgentEvent::MessageEnd(m.clone());
            proof {
                assert(all[i as int] == m@);
                assert(all.take(i + 1).drop_last() =~= all.take(i as int));
                assert(all.take(i + 1) =~= all.take(i as int).push(m@));
                lemma_messages_push(messages@, m);
                lemma_events_push(events@, a);
                lemma_events_push(events@.push(a), b);
                assert(given.push(a@).push(b@) =~= seq![RunEvent::AgentStart] + announced(
                    all.take(i + 1),
                ));
                assert(messages_of(messages@).push(m@) =~= start + all.take(i + 1));
            }
            messages.push(m);
            events.push(a);
            events.push(b);
            i += 1;
        }
        assert(all.take(all.len() as int) =~= all);
        (AgentRun { messages, partial: AssistantMessage::empty(), authoritative: None }, events)
    }

    /// Begin a response: a placeholder goes behind the transcript.
    pub fn begin_response(&mut self, model: &Model) -> (r: AgentEvent)
        ensures
            ({
                let blank = AssistantView {
                    model: model@.id,
                    provider: model@.provider,
                    ..blank_assistant(final(self)@.partial.timestamp)
                };
                &&& final(self)@ == (RunState {
                    messages: old(self)@.messages.push(MessageView::Assistant(blank)),
                    partial: blank,
                    authoritative: None,
                })
                &&& r@ == RunEvent::MessageStart(MessageView::Assistant(blank))
            }),
    {
        let mut partial: AssistantMessage = AssistantMessage::empty();
        partial.model = model.id.clone();
        partial.provider = model.provider.clone();
        let slot: Message = Message::Assistant(partial.clone());
        proof {
            lemma_messages_push(self.messages@, slot);
        }
        self.messages.push(slot);
        self.partial = partial;
        self.authoritative = None;
        AgentEvent::MessageStart(Message::Assistant(self.partial.clone()))
    }

    /// Take in one event of the response.
    pub fn on_event(&mut self, event: &AssistantMessageEvent)
        ensures
            final(self)@ == (RunState {
                partial: applied(old(self)@.partial, event@),
                authoritative: match event@ {
                    StreamEvent::Done(_, m) => Some(m),
                    StreamEvent::Error(_, m) => Some(m),
                    _ => old(self)@.authoritative,
                },
                ..old(self)@
            }),
    {
        match event {
            AssistantMessageEvent::Done { message, .. } => {
                self.authoritative = Some(message.clone());
            },
            AssistantMessageEvent::Error { message, .. } => {
                self.authoritative = Some(message.clone());
            },
            _ => {},
        }
        apply_event(&mut self.partial, event);
    }

    /// End the response: the authoritative message, or else the partial one,
    /// takes the placeholder's place.
    pub fn end_response(&mut self) -> (r: (AssistantMessage, Vec<AgentEvent>))
        ensures
            ({
                let m = match old(self)@.authoritative {
                    Some(m) => m,
                    None => old(self)@.partial,
                };
                &&& r.0@ == m
                &&& final(self)@.messages == last_replaced(old(self)@.messages, m)
                &&& run_events_of(r.1@) == seq![
                    RunEvent::MessageEnd(MessageView::Assistant(m)),
                    RunEvent::Usage(m.usage),
                ]
            }),
    {
        let message: AssistantMessage = match &self.authoritative {
            Some(m) => m.clone(),
            None => self.partial.clone(),
        };
        let ghost before = self.messages@;
        let total: usize = self.messages.len();
        let waiting: bool = if total > 0 {
            assert(messages_of(before).last() == before.last()@);
            match &self.messages[total - 1] {
                Message::Assistant(_) => true,
                _ => false,
            }
        } else {
            false
        };
        if waiting {
            self.messages.pop();
            let slot: Message = Message::Assistant(message.clone());
            proof {
                assert(self.messages@ =~= before.drop_last());
                lemma_messages_push(self.messages@, slot);
                assert(messages_of(self.messages@) =~= messages_of(before).drop_last());
            }
            self.messages.push(slot);
        }
        let mut events: Vec<AgentEvent> = Vec::new();
        events.push(AgentEvent::MessageEnd(Message::Assistant(message.clone())));
        events.push(AgentEvent::Usage(message.usage));
        assert(run_events_of(events@) =~= seq![
            RunEvent::MessageEnd(MessageView::Assistant(message@)),
            RunEvent::Usage(message@.usage),
        ]);
        (message, events)
    }

    /// End a turn: the tool results go behind the transcript.
    pub fn end_turn(&mut self, message: AssistantMessage, results: Vec<ToolResultMessage>) -> (r:
        Vec<AgentEvent>)
        ensures
            final(self)@.messages == old(self)@.messages + as_messages(tool_results_of(results@)),
            run_events_of(r@) == announced(as_messages(tool_results_of(results@))).push(
                RunEvent::TurnEnd(message@, tool_results_of(results@)),
            ),
    {
        let ghost start = self@.messages;
        let ghost all = as_messages(tool_results_of(results@));
        let mut events: Vec<AgentEvent> = Vec::new();
        let mut i: usize = 0;
        assert(run_events_of(events@) =~= announced(all.take(0)));
        assert(messages_of(self.messages@) =~= start + all.take(0));
        while i < results.len()
            invariant
                all == as_messages(tool_results_of(results@)),
                i <= results@.len(),
                messages_of(self.messages@) == start + all.take(i as int),
                run_events_of(events@) == announced(all.take(i as int)),
            decreases results@.len() - i,
        {
            let m: Message = Message::ToolResult(results[i].clone());
            let a: AgentEvent = AgentEvent::MessageStart(m.clone());
            let b: AgentEvent = AgentEvent::MessageEnd(m.clone());
            proof {
                assert(tool_results_of(results@)[i as int] == results@[i as int]@);
                assert(all[i as int] == m@);
                assert(all.take(i + 1).drop_last() =~= all.take(i as int));
                assert(all.take(i + 1) =~= all.take(i as int).push(m@));
                lemma_messages_push(self.messages@, m);
                lemma_events_push(events@, a);
                lemma_events_push(events@.push(a), b);
                assert(messages_of(self.messages@).push(m@) =~= start + all.take(i + 1));
            }
            self.messages.push(m);
            events.push(a);
            events.push(b);
            i += 1;
        }
        assert(all.take(all.len() as int) =~= all);
        let last: AgentEvent = AgentEvent::TurnEnd { message, tool_results: results };
        proof {
            lemma_events_push(events@, last);
        }
        events.push(last);
        events
    }

    /// End the run.
    pub fn end(self) -> (r: AgentEvent)
        ensures
            r@ == RunEvent::AgentEnd(self@.messages),
    {
        AgentEvent::AgentEnd { messages: self.messages }
    }
}

/// Does the loop go on after a turn? It stops when the assistant made no tool
/// call, or when the run was aborted.
pub fn goes_on(calls: &Vec<ToolCall>, cancelled: bool) -> (r: bool)
    ensures
        r == (calls_of(calls@).len() > 0 && !cancelled),
{
    calls.len() > 0 && !cancelled
}

// ---------------------------------------------------------------------------
// Laws
// ---------------------------------------------------------------------------

/// Does the partial message show the full one? It has the same texts, the same
/// thoughts unless they are redacted, and tool calls in the same places.
pub open spec fn shows(partial: Seq<BlockView>, full: Seq<BlockView>) -> bool {
    &&& partial.len() == full.len()
    &&& forall|i: int|
        0 <= i < full.len() ==> shows_block(#[trigger] partial[i], full[i])
}

pub open spec fn shows_block(partial: BlockView, full: BlockView) -> bool {
    match full {
        BlockView::Text(t) => partial == BlockView::Text(t),
        BlockView::Thinking(t, _, redacted) => partial matches BlockView::Thinking(u, _, _) && (
        !redacted ==> u == t),
        BlockView::ToolCall(_, _, _) => partial is ToolCall,
    }
}

pub open spec fn maybe_applied(m: AssistantView, e: Option<StreamEvent>) -> AssistantView {
    match e {
        Some(ev) => applied(m, ev),
        None => m,
    }
}

proof fn lemma_padded_by_one(content: Seq<BlockView>, b: BlockView)
    ensures
        padded(content, content.len() as int, b) == content.push(b),
{
    reveal_with_fuel(padded, 2);
}

/// Live rendering keeps up: replaying the event that a server-sent event gives
/// on a partial message that shows the full one gives a partial message that
/// shows the full one afterwards.
pub proof fn law_replayed_events_show_the_message(
    partial: AssistantView,
    p: Progress,
    e: SseEvent,
    parsed: Option<JsonView>,
)
    requires
        open_blocks_valid(p),
        shows(partial.content, p.message.content),
    ensures
        shows(
            maybe_applied(partial, after_event(p, e, parsed).1).content,
            after_event(p, e, parsed).0.message.content,
        ),
{
    let (q, ev) = after_event(p, e, parsed);
    let after = maybe_applied(partial, ev);
    let n = p.message.content.len() as int;
    assert(partial.content.len() == n);
    lemma_padded_by_one(partial.content, BlockView::Text(Seq::empty()));
    lemma_padded_by_one(
        partial.content,
        BlockView::Thinking(Seq::empty(), Seq::empty(), false),
    );
    lemma_padded_by_one(
        partial.content,
        BlockView::ToolCall(Seq::empty(), Seq::empty(), JsonView::Obj(Map::empty())),
    );
    if let Some(j) = parsed {
        let at = block_index(j);
        if p.blocks.dom().contains(at) {
            let i = p.blocks[at].our_index;
            assert(0 <= i < n);
            assert(shows_block(partial.content[i], p.message.content[i]));
        }
    }
    assert forall|i: int| 0 <= i < q.message.content.len() implies shows_block(
        #[trigger] after.content[i],
        q.message.content[i],
    ) by {
        if i < n {
            assert(shows_block(partial.content[i], p.message.content[i]));
        }
    }
}

/// A turn only appends: a response that takes the placeholder's place, and the
/// tool results behind it, leave everything before them as it was.
pub proof fn law_a_turn_only_appends(
    before: Seq<MessageView>,
    placeholder: AssistantView,
    message: AssistantView,
    results: Seq<ToolResultView>,
)
    ensures
        last_replaced(before.push(MessageView::Assistant(placeholder)), message) + as_messages(
            results,
        ) == before + seq![MessageView::Assistant(message)] + as_messages(results),
{
    let open = before.push(MessageView::Assistant(placeholder));
    assert(open.drop_last() =~= before);
    assert(before.push(MessageView::Assistant(message)) =~= before + seq![
        MessageView::Assistant(message),
    ]);
}

/// Results answer the calls of their message in order: the first result carries
/// the id of the first call, and so on.
pub proof fn law_results_answer_the_calls_in_order(
    calls: Seq<CallView>,
    outcomes: Seq<(ResultView, bool)>,
    messages: Seq<ToolResultView>,
    i: int,
)
    requires
        answers(calls, outcomes, messages),
        outcomes.len() == calls.len(),
        0 <= i < calls.len(),
    ensures
        messages.len() == calls.len(),
        messages[i].tool_call_id == calls[i].id,
{
}

/// The calls of a message are its tool calls, in their order, each with its id,
/// name and arguments.
pub proof fn law_calls_are_those_of_the_message(v: Seq<BlockView>, b: BlockView)
    ensures
        calls_in(Seq::empty()).len() == 0,
        match b {
            BlockView::ToolCall(id, name, arguments) => {
                let all = calls_in(v.push(b));
                &&& all.len() == calls_in(v).len() + 1
                &&& all.drop_last() == calls_in(v)
                &&& all.last().id == id
                &&& all.last().name == name
                &&& all.last().arguments == arguments
            },
            _ => calls_in(v.push(b)) == calls_in(v),
        },
{
    assert(v.push(b).drop_last() =~= v);
    if b is ToolCall {
        assert(calls_in(v.push(b)).drop_last() =~= calls_in(v));
    }
}

/// Calls run one at a time just where the run asks for it, or where one of them
/// is of a tool that asks for it.
pub proof fn law_calls_run_alone_where_asked(
    tools: Seq<ToolInfoView>,
    calls: Seq<CallView>,
    mode: ExecutionMode,
)
    ensures
        mode == ExecutionMode::Sequential ==> must_be_sequential(tools, calls, mode),
        must_be_sequential(tools, calls, mode) && mode != ExecutionMode::Sequential ==> exists|
            c: int,
            t: int,
        |
            0 <= c < calls.len() && 0 <= t < tools.len() && (#[trigger] calls[c]).name == (
            #[trigger] tools[t]).schema.name && tools[t].mode == ExecutionMode::Sequential,
        forall|c: int, t: int|
            0 <= c < calls.len() && 0 <= t < tools.len() && (#[trigger] calls[c]).name == (
            #[trigger] tools[t]).schema.name && tools[t].mode == ExecutionMode::Sequential && (
            forall|k: int| 0 <= k < t ==> (#[trigger] tools[k]).schema.name != calls[c].name)
                ==> must_be_sequential(tools, calls, mode),
{
    if must_be_sequential(tools, calls, mode) && mode != ExecutionMode::Sequential {
        let c = choose|c: int|
            0 <= c < calls.len() && runs_alone(tools, (#[trigger] calls[c]).name);
        law_the_first_tool_of_a_name_is_found(tools, calls[c].name, 0);
        let t = tool_named(tools, calls[c].name, 0)->0;
        assert(calls[c].name == tools[t].schema.name);
    }
    assert forall|c: int, t: int|
        0 <= c < calls.len() && 0 <= t < tools.len() && (#[trigger] calls[c]).name == (
        #[trigger] tools[t]).schema.name && tools[t].mode == ExecutionMode::Sequential && (forall|
            k: int,
        | 0 <= k < t ==> (#[trigger] tools[k]).schema.name != calls[c].name) implies must_be_sequential(
    tools, calls, mode) by {
        law_the_first_tool_of_a_name_is_found(tools, calls[c].name, 0);
        assert(runs_alone(tools, calls[c].name));
    }
}

/// A call of a tool that is not there is answered by saying so; a call of one
/// that is there is run where its arguments are accepted, and is answered by the
/// refusal where they are not.
pub proof fn law_calls_are_checked_before_they_run(
    tools: Seq<ToolInfoView>,
    name: Seq<char>,
    args: JsonView,
    t: int,
)
    ensures
        (forall|k: int| 0 <= k < tools.len() ==> (#[trigger] tools[k]).schema.name != name) ==> (
        answered_at_once(tools, name, args) matches Some(r) && r.content == seq![
            MediaView::Text("Tool "@ + name + " not found"@),
        ]),
        0 <= t < tools.len() && tools[t].schema.name == name && (forall|k: int|
            0 <= k < t ==> (#[trigger] tools[k]).schema.name != name) ==> match refusal(
            tools[t].schema.input_schema,
            args,
        ) {
            None => answered_at_once(tools, name, args) is None,
            Some(e) => answered_at_once(tools, name, args) matches Some(r) && r.content == seq![
                MediaView::Text(e),
            ],
        },
{
    law_the_first_tool_of_a_name_is_found(tools, name, 0);
}

/// A gate answers a call just where it blocks it, by its reason, or by a plain
/// text where it gives none.
pub proof fn law_a_gate_answers_only_what_it_blocks(reason: Option<Seq<char>>)
    ensures
        gate_answer(false, reason) is None,
        gate_answer(true, reason) matches Some(r) && r.content == seq![
            MediaView::Text(
                match reason {
                    Some(s) => s,
                    None => "Tool execution was blocked"@,
                },
            ),
        ],
{
}

/// Every call is answered, in its order: under its id and name, with what came of
/// it and whether it failed.
pub proof fn law_results_carry_what_came_of_the_calls(
    calls: Seq<CallView>,
    outcomes: Seq<(ResultView, bool)>,
    messages: Seq<ToolResultView>,
    i: int,
)
    requires
        answers(calls, outcomes, messages),
        outcomes.len() == calls.len(),
        0 <= i < calls.len(),
    ensures
        messages.len() == calls.len(),
        messages[i].tool_call_id == calls[i].id,
        messages[i].tool_name == calls[i].name,
        messages[i].content == outcomes[i].0.content,
        messages[i].is_error == outcomes[i].1,
{
}

/// Every message is announced by its start and its end, in their order.
pub proof fn law_every_message_is_announced(v: Seq<MessageView>, i: int)
    requires
        0 <= i < v.len(),
    ensures
        announced(v).len() == 2 * v.len(),
        announced(v)[2 * i] == RunEvent::MessageStart(v[i]),
        announced(v)[2 * i + 1] == RunEvent::MessageEnd(v[i]),
    decreases v.len(),
{
    let init = v.drop_last();
    if init.len() == 0 {
        assert(announced(init).len() == 0);
    } else if i < init.len() {
        law_every_message_is_announced(init, i);
    } else {
        law_every_message_is_announced(init, 0);
    }
}

/// The final message replaces the one under way, whole; a piece goes to the end of
/// its own block and changes nothing else; a block that starts next is added
/// empty.
pub proof fn law_events_are_applied_to_their_block(
    m: AssistantView,
    full: AssistantView,
    reason: StopReason,
    i: int,
    x: Seq<char>,
)
    ensures
        applied(m, StreamEvent::Done(reason, full)) == full,
        applied(m, StreamEvent::Error(reason, full)) == full,
        0 <= i < m.content.len() && m.content[i] is Text ==> ({
            let r = applied(m, StreamEvent::TextDelta(i, x));
            &&& r.content == m.content.update(i, BlockView::Text(m.content[i]->Text_0 + x))
            &&& r == (AssistantView { content: r.content, ..m })
        }),
        0 <= i < m.content.len() && m.content[i] is Thinking ==> ({
            let r = applied(m, StreamEvent::ThinkingDelta(i, x));
            let b = m.content[i];
            &&& r.content == m.content.update(
                i,
                BlockView::Thinking(b->Thinking_0 + x, b->Thinking_1, b->Thinking_2),
            )
            &&& r == (AssistantView { content: r.content, ..m })
        }),
        i == m.content.len() ==> applied(m, StreamEvent::TextStart(i)) == (AssistantView {
            content: m.content.push(BlockView::Text(Seq::empty())),
            ..m
        }),
        i == m.content.len() ==> applied(m, StreamEvent::ThinkingStart(i)) == (AssistantView {
            content: m.content.push(BlockView::Thinking(Seq::empty(), Seq::empty(), false)),
            ..m
        }),
        i == m.content.len() ==> applied(m, StreamEvent::ToolCallStart(i)) == (AssistantView {
            content: m.content.push(
                BlockView::ToolCall(Seq::empty(), Seq::empty(), JsonView::Obj(Map::empty())),
            ),
            ..m
        }),
        applied(m, StreamEvent::TextEnd(i)) == m,
        applied(m, StreamEvent::ThinkingEnd(i)) == m,
        applied(m, StreamEvent::ToolCallEnd(i)) == m,
        applied(m, StreamEvent::ToolCallDelta(i, x)) == m,
{
    reveal_with_fuel(padded, 2);
}

} // verus!
