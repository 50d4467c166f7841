//! Agent context snapshot and event protocol.

use vstd::prelude::*;

use crate::agent::tool::ExecutionMode;
use crate::ai::stream::{AssistantMessageEvent, StreamEvent};
use crate::ai::types::{
    messages_of, AssistantMessage, AssistantView, Message, MessageView, ToolResultMessage,
    ToolResultView, ToolSchema, ToolSchemaView, Usage,
};
use crate::json::{Json, JsonView};
use crate::text;

verus! {

/// What the loop knows of a tool: its schema and how it may run.
#[derive(Debug)]
pub struct ToolInfo {
    pub schema: ToolSchema,
    pub mode: ExecutionMode,
}

pub ghost struct ToolInfoView {
    pub schema: ToolSchemaView,
    pub mode: ExecutionMode,
}

impl View for ToolInfo {
    type V = ToolInfoView;

    open spec fn view(&self) -> ToolInfoView {
        ToolInfoView { schema: self.schema@, mode: self.mode }
    }
}

pub open spec fn tools_of(v: Seq<ToolInfo>) -> Seq<ToolInfoView> {
    v.map_values(|t: ToolInfo| t@)
}

/// A snapshot of agent state passed into the loop.
#[derive(Debug)]
pub struct AgentContext {
    pub system_prompt: String,
    pub messages: Vec<Message>,
    pub tools: Vec<ToolInfo>,
}

/// The first tool of that name, from `i` on.
pub open spec fn tool_named(v: Seq<ToolInfoView>, name: Seq<char>, i: int) -> Option<int>
    decreases v.len() - i,
{
    if i < 0 || i >= v.len() {
        None
    } else if v[i].schema.name == name {
        Some(i)
    } else {
        tool_named(v, name, i + 1)
    }
}

impl AgentContext {
    pub fn new(system_prompt: String, tools: Vec<ToolInfo>) -> (r: AgentContext)
        ensures
            r.system_prompt == system_prompt,
            r.messages@.len() == 0,
            r.tools == tools,
    {
        AgentContext { system_prompt, messages: Vec::new(), tools }
    }

    /// Look up a tool by name: its place in the list.
    pub fn find_tool(&self, name: &str) -> (r: Option<usize>)
        ensures
            match r {
                Some(i) => tool_named(tools_of(self.tools@), name@, 0) == Some(i as int) && i
                    < self.tools@.len(),
                None => tool_named(tools_of(self.tools@), name@, 0) is None,
            },
    {
        let ghost all = tools_of(self.tools@);
        let mut i: usize = 0;
        while i < self.tools.len()
            invariant
                all == tools_of(self.tools@),
                i <= self.tools@.len(),
                tool_named(all, name@, 0) == tool_named(all, name@, i as int),
            decreases self.tools@.len() - i,
        {
            assert(all[i as int] == self.tools@[i as int]@);
            if text::same(self.tools[i].schema.name.as_str(), name) {
                return Some(i);
            }
            i += 1;
        }
        None
    }
}

/// Events emitted by the agent loop for UI updates.
#[derive(Debug)]
pub enum AgentEvent {
    AgentStart,
    AgentEnd { messages: Vec<Message> },
    TurnStart,
    TurnEnd { message: AssistantMessage, tool_results: Vec<ToolResultMessage> },
    MessageStart(Message),
    /// Fine-grained streaming event for an in-progress assistant message.
    MessageUpdate { event: AssistantMessageEvent },
    MessageEnd(Message),
    ToolExecutionStart { tool_call_id: String, tool_name: String, args: Json },
    ToolExecutionEnd { tool_call_id: String, tool_name: String, is_error: bool },
    /// Aggregated token usage for the most recent assistant turn.
    Usage(Usage),
    /// A fatal agent error (loop could not complete).
    Error(String),
}

pub ghost enum RunEvent {
    AgentStart,
    AgentEnd(Seq<MessageView>),
    TurnStart,
    TurnEnd(AssistantView, Seq<ToolResultView>),
    MessageStart(MessageView),
    MessageUpdate(StreamEvent),
    MessageEnd(MessageView),
    ToolExecutionStart(Seq<char>, Seq<char>, JsonView),
    ToolExecutionEnd(Seq<char>, Seq<char>, bool),
    Usage(Usage),
    Error(Seq<char>),
}

pub open spec fn tool_results_of(v: Seq<ToolResultMessage>) -> Seq<ToolResultView> {
    v.map_values(|m: ToolResultMessage| m@)
}

impl View for AgentEvent {
    type V = RunEvent;

    open spec fn view(&self) -> RunEvent {
        match self {
            AgentEvent::AgentStart => RunEvent::AgentStart,
            AgentEvent::AgentEnd { messages } => RunEvent::AgentEnd(messages_of(messages@)),
            AgentEvent::TurnStart => RunEvent::TurnStart,
            AgentEvent::TurnEnd { message, tool_results } => RunEvent::TurnEnd(
                message@,
                tool_results_of(tool_results@),
            ),
            AgentEvent::MessageStart(m) => RunEvent::MessageStart(m@),
            AgentEvent::MessageUpdate { event } => RunEvent::MessageUpdate(event@),
            AgentEvent::MessageEnd(m) => RunEvent::MessageEnd(m@),
            AgentEvent::ToolExecutionStart {
                tool_call_id,
                tool_name,
                args,
            } => RunEvent::ToolExecutionStart(tool_call_id@, tool_name@, args@),
            AgentEvent::ToolExecutionEnd {
                tool_call_id,
                tool_name,
                is_error,
            } => RunEvent::ToolExecutionEnd(tool_call_id@, tool_name@, *is_error),
            AgentEvent::Usage(u) => RunEvent::Usage(*u),
            AgentEvent::Error(e) => RunEvent::Error(e@),
        }
    }
}

pub open spec fn run_events_of(v: Seq<AgentEvent>) -> Seq<RunEvent> {
    v.map_values(|e: AgentEvent| e@)
}

/// A tool is found by its name, and the first of that name where there are more.
pub proof fn law_the_first_tool_of_a_name_is_found(
    v: Seq<ToolInfoView>,
    name: Seq<char>,
    from: int,
)
    requires
        0 <= from <= v.len(),
    ensures
        match tool_named(v, name, from) {
            Some(i) => from <= i < v.len() && v[i].schema.name == name && forall|k: int|
                from <= k < i ==> (#[trigger] v[k]).schema.name != name,
            None => forall|k: int| from <= k < v.len() ==> (#[trigger] v[k]).schema.name != name,
        },
    decreases v.len() - from,
{
    if from < v.len() && v[from].schema.name != name {
        law_the_first_tool_of_a_name_is_found(v, name, from + 1);
    }
}

} // verus!
