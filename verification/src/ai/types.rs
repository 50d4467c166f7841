//! Messages, content blocks, usage, models and tool schemas: the boundary
//! between the agent loop and the provider.

use vstd::prelude::*;

use crate::json::{Json, JsonView};
use crate::text;

verus! {

/// Which wire protocol a model speaks.
#[derive(Debug, Clone, Copy, PartialEq, Eq, Structural)]
pub enum Api {
    AnthropicMessages,
}

impl Default for Api {
    fn default() -> (r: Api)
        ensures
            r == Api::AnthropicMessages,
    {
        Api::AnthropicMessages
    }
}

/// Why the assistant stopped generating.
#[derive(Debug, Clone, Copy, PartialEq, Eq, Structural)]
pub enum StopReason {
    Stop,
    Length,
    ToolUse,
    Error,
    Aborted,
}

impl Default for StopReason {
    fn default() -> (r: StopReason)
        ensures
            r == StopReason::Stop,
    {
        StopReason::Stop
    }
}

/// Reasoning/thinking level for models that support it.
#[derive(Debug, Clone, Copy, PartialEq, Eq, Structural)]
pub enum ThinkingLevel {
    Off,
    Minimal,
    Low,
    Medium,
    High,
    Xhigh,
}

impl Default for ThinkingLevel {
    fn default() -> (r: ThinkingLevel)
        ensures
            r == ThinkingLevel::Medium,
    {
        ThinkingLevel::Medium
    }
}

impl ThinkingLevel {
    /// The level that a word names, whatever its ASCII case.
    pub open spec fn named(s: Seq<char>) -> Option<ThinkingLevel> {
        let l = text::lower(s);
        if l == "off"@ {
            Some(ThinkingLevel::Off)
        } else if l == "minimal"@ {
            Some(ThinkingLevel::Minimal)
        } else if l == "low"@ {
            Some(ThinkingLevel::Low)
        } else if l == "medium"@ {
            Some(ThinkingLevel::Medium)
        } else if l == "high"@ {
            Some(ThinkingLevel::High)
        } else if l == "xhigh"@ {
            Some(ThinkingLevel::Xhigh)
        } else {
            None
        }
    }

    /// The level of a name, whatever its ASCII case.
    pub fn parse(s: &str) -> (r: Option<ThinkingLevel>)
        ensures
            r == ThinkingLevel::named(s@),
    {
        let lower: String = text::to_ascii_lowercase(s);
        let l: &str = lower.as_str();
        if text::same(l, "off") {
            Some(ThinkingLevel::Off)
        } else if text::same(l, "minimal") {
            Some(ThinkingLevel::Minimal)
        } else if text::same(l, "low") {
            Some(ThinkingLevel::Low)
        } else if text::same(l, "medium") {
            Some(ThinkingLevel::Medium)
        } else if text::same(l, "high") {
            Some(ThinkingLevel::High)
        } else if text::same(l, "xhigh") {
            Some(ThinkingLevel::Xhigh)
        } else {
            None
        }
    }
}

// ---------------------------------------------------------------------------
// Content blocks
// ---------------------------------------------------------------------------

/// A single block within an assistant message.
#[derive(Debug)]
pub enum ContentBlock {
    Text { text: String },
    Thinking { thinking: String, thinking_signature: String, redacted: bool },
    ToolCall { id: String, name: String, arguments: Json },
}

/// The model of a content block.
pub ghost enum BlockView {
    Text(Seq<char>),
    Thinking(Seq<char>, Seq<char>, bool),
    ToolCall(Seq<char>, Seq<char>, JsonView),
}

impl View for ContentBlock {
    type V = BlockView;

    open spec fn view(&self) -> BlockView {
        match self {
            ContentBlock::Text { text } => BlockView::Text(text@),
            ContentBlock::Thinking { thinking, thinking_signature, redacted } => BlockView::Thinking(
                thinking@,
                thinking_signature@,
                *redacted,
            ),
            ContentBlock::ToolCall { id, name, arguments } => BlockView::ToolCall(
                id@,
                name@,
                arguments@,
            ),
        }
    }
}

pub open spec fn blocks_of(v: Seq<ContentBlock>) -> Seq<BlockView> {
    v.map_values(|b: ContentBlock| b@)
}

impl ContentBlock {
    pub fn as_text(&self) -> (r: Option<&str>)
        ensures
            match r {
                Some(t) => self@ == BlockView::Text(t@),
                None => !(self@ is Text),
            },
    {
        match self {
            ContentBlock::Text { text } => Some(text.as_str()),
            _ => None,
        }
    }

    pub fn is_tool_call(&self) -> (r: bool)
        ensures
            r == (self@ is ToolCall),
    {
        match self {
            ContentBlock::ToolCall { .. } => true,
            _ => false,
        }
    }

    /// Returns (id, name, arguments) if this is a tool call.
    pub fn as_tool_call(&self) -> (r: Option<(&str, &str, &Json)>)
        ensures
            match r {
                Some((id, name, arguments)) => self@ == BlockView::ToolCall(
                    id@,
                    name@,
                    arguments@,
                ),
                None => !(self@ is ToolCall),
            },
    {
        match self {
            ContentBlock::ToolCall { id, name, arguments } => Some(
                (id.as_str(), name.as_str(), arguments),
            ),
            _ => None,
        }
    }
}

impl Clone for ContentBlock {
    fn clone(&self) -> (r: ContentBlock)
        ensures
            r@ == self@,
    {
        match self {
            ContentBlock::Text { text } => ContentBlock::Text { text: text.clone() },
            ContentBlock::Thinking {
                thinking,
                thinking_signature,
                redacted,
            } => ContentBlock::Thinking {
                thinking: thinking.clone(),
                thinking_signature: thinking_signature.clone(),
                redacted: *redacted,
            },
            ContentBlock::ToolCall { id, name, arguments } => ContentBlock::ToolCall {
                id: id.clone(),
                name: name.clone(),
                arguments: arguments.clone(),
            },
        }
    }
}

/// The model of a block that holds a text or an image.
pub ghost enum MediaView {
    Text(Seq<char>),
    /// base64 data and MIME type
    Image(Seq<char>, Seq<char>),
}

/// A block within a user message.
#[derive(Debug)]
pub enum UserBlock {
    Text { text: String },
    Image { data: String, mime_type: String },
}

impl View for UserBlock {
    type V = MediaView;

    open spec fn view(&self) -> MediaView {
        match self {
            UserBlock::Text { text } => MediaView::Text(text@),
            UserBlock::Image { data, mime_type } => MediaView::Image(data@, mime_type@),
        }
    }
}

pub open spec fn user_blocks_of(v: Seq<UserBlock>) -> Seq<MediaView> {
    v.map_values(|b: UserBlock| b@)
}

impl UserBlock {
    pub fn text(s: &str) -> (r: UserBlock)
        ensures
            r@ == MediaView::Text(s@),
    {
        UserBlock::Text { text: s.to_string() }
    }
}

impl Clone for UserBlock {
    fn clone(&self) -> (r: UserBlock)
        ensures
            r@ == self@,
    {
        match self {
            UserBlock::Text { text } => UserBlock::Text { text: text.clone() },
            UserBlock::Image { data, mime_type } => UserBlock::Image {
                data: data.clone(),
                mime_type: mime_type.clone(),
            },
        }
    }
}

/// Content returned from a tool execution.
#[derive(Debug)]
pub enum ToolResultContent {
    Text { text: String },
    Image { data: String, mime_type: String },
}

impl View for ToolResultContent {
    type V = MediaView;

    open spec fn view(&self) -> MediaView {
        match self {
            ToolResultContent::Text { text } => MediaView::Text(text@),
            ToolResultContent::Image { data, mime_type } => MediaView::Image(data@, mime_type@),
        }
    }
}

pub open spec fn result_blocks_of(v: Seq<ToolResultContent>) -> Seq<MediaView> {
    v.map_values(|b: ToolResultContent| b@)
}

impl ToolResultContent {
    pub fn text(s: &str) -> (r: ToolResultContent)
        ensures
            r@ == MediaView::Text(s@),
    {
        ToolResultContent::Text { text: s.to_string() }
    }
}

impl Clone for ToolResultContent {
    fn clone(&self) -> (r: ToolResultContent)
        ensures
            r@ == self@,
    {
        match self {
            ToolResultContent::Text { text } => ToolResultContent::Text { text: text.clone() },
            ToolResultContent::Image { data, mime_type } => ToolResultContent::Image {
                data: data.clone(),
                mime_type: mime_type.clone(),
            },
        }
    }
}

/// The texts among text and image blocks, in order.
pub open spec fn media_texts(v: Seq<MediaView>) -> Seq<Seq<char>>
    decreases v.len(),
{
    if v.len() == 0 {
        Seq::empty()
    } else {
        match v.last() {
            MediaView::Text(t) => media_texts(v.drop_last()).push(t),
            MediaView::Image(_, _) => media_texts(v.drop_last()),
        }
    }
}

/// The texts among content blocks, in order.
pub open spec fn block_texts(v: Seq<BlockView>) -> Seq<Seq<char>>
    decreases v.len(),
{
    if v.len() == 0 {
        Seq::empty()
    } else {
        match v.last() {
            BlockView::Text(t) => block_texts(v.drop_last()).push(t),
            _ => block_texts(v.drop_last()),
        }
    }
}

pub open spec fn has_image(v: Seq<MediaView>) -> bool {
    exists|i: int| 0 <= i < v.len() && #[trigger] v[i] is Image
}

// ---------------------------------------------------------------------------
// Messages
// ---------------------------------------------------------------------------

/// `std::time::SystemTime::now`: the wall clock in milliseconds since the Unix
/// epoch. Nothing is claimed of it.
#[verifier::external_body]
pub fn now_ms() -> (r: i64) {
    std::time::SystemTime::now()
        .duration_since(std::time::UNIX_EPOCH)
        .map(|d| d.as_millis() as i64)
        .unwrap_or(0)
}

/// A user-authored message.
#[derive(Debug)]
pub struct UserMessage {
    pub content: Vec<UserBlock>,
    pub timestamp: i64,
}

pub ghost struct UserView {
    pub content: Seq<MediaView>,
    pub timestamp: i64,
}

impl View for UserMessage {
    type V = UserView;

    open spec fn view(&self) -> UserView {
        UserView { content: user_blocks_of(self.content@), timestamp: self.timestamp }
    }
}

/// Texts joined by newlines, images omitted.
pub open spec fn media_text(v: Seq<MediaView>) -> Seq<char> {
    text::joined(media_texts(v), "\n"@)
}

impl UserMessage {
    pub fn new(content: Vec<UserBlock>) -> (r: UserMessage)
        ensures
            r@.content == user_blocks_of(content@),
            r.content == content,
    {
        UserMessage { content, timestamp: now_ms() }
    }

    pub fn text(s: &str) -> (r: UserMessage)
        ensures
            r@.content == seq![MediaView::Text(s@)],
    {
        let mut content: Vec<UserBlock> = Vec::new();
        content.push(UserBlock::text(s));
        assert(user_blocks_of(content@) =~= seq![MediaView::Text(s@)]);
        UserMessage::new(content)
    }

    /// Concatenated plain-text view (images omitted).
    pub fn text_content(&self) -> (r: String)
        ensures
            r@ == media_text(self@.content),
    {
        let ghost all = user_blocks_of(self.content@);
        let mut parts: Vec<String> = Vec::new();
        let mut i: usize = 0;
        while i < self.content.len()
            invariant
                all == user_blocks_of(self.content@),
                i <= self.content@.len(),
                text::views(parts@) == media_texts(all.take(i as int)),
            decreases self.content@.len() - i,
        {
            assert(all.take(i + 1).drop_last() =~= all.take(i as int));
            assert(all.take(i + 1).last() == self.content@[i as int]@);
            match &self.content[i] {
                UserBlock::Text { text } => {
                    let t: String = text.clone();
                    proof {
                        text::lemma_views_push(parts@, t);
                    }
                    parts.push(t);
                },
                UserBlock::Image { .. } => {},
            }
            i += 1;
        }
        assert(all.take(all.len() as int) =~= all);
        text::join(&parts, "\n")
    }
}

impl Clone for UserMessage {
    fn clone(&self) -> (r: UserMessage)
        ensures
            r@ == self@,
    {
        let ghost all = user_blocks_of(self.content@);
        let mut content: Vec<UserBlock> = Vec::new();
        let mut i: usize = 0;
        while i < self.content.len()
            invariant
                all == user_blocks_of(self.content@),
                i <= self.content@.len(),
                user_blocks_of(content@) == all.take(i as int),
            decreases self.content@.len() - i,
        {
            let b: UserBlock = self.content[i].clone();
            assert(user_blocks_of(content@.push(b)) =~= user_blocks_of(content@).push(b@));
            assert(all.take(i + 1) =~= all.take(i as int).push(b@));
            content.push(b);
            i += 1;
        }
        assert(all.take(all.len() as int) =~= all);
        UserMessage { content, timestamp: self.timestamp }
    }
}

/// Token counts of a turn or of a session.
#[derive(Debug, Clone, Copy, PartialEq, Eq, Structural)]
pub struct Usage {
    pub input: u64,
    pub output: u64,
    pub cache_read: u64,
    pub cache_write: u64,
    pub total_tokens: u64,
}

impl Default for Usage {
    fn default() -> (r: Usage)
        ensures
            r == (Usage { input: 0, output: 0, cache_read: 0, cache_write: 0, total_tokens: 0 }),
    {
        Usage { input: 0, output: 0, cache_read: 0, cache_write: 0, total_tokens: 0 }
    }
}

/// A sum kept in 64 bits.
pub open spec fn sum64(a: int, b: int) -> int {
    (a + b) % 0x1_0000_0000_0000_0000
}

/// `a` with every counter of `b` added to it, in 64 bits.
pub open spec fn usage_sum(a: Usage, b: Usage) -> Usage {
    Usage {
        input: sum64(a.input as int, b.input as int) as u64,
        output: sum64(a.output as int, b.output as int) as u64,
        cache_read: sum64(a.cache_read as int, b.cache_read as int) as u64,
        cache_write: sum64(a.cache_write as int, b.cache_write as int) as u64,
        total_tokens: sum64(a.total_tokens as int, b.total_tokens as int) as u64,
    }
}

/// The total of the four counters, in 64 bits.
pub open spec fn usage_total(u: Usage) -> u64 {
    ((u.input + u.output + u.cache_read + u.cache_write) % 0x1_0000_0000_0000_0000) as u64
}

fn wrapped_sum(a: u64, b: u64) -> (r: u64)
    ensures
        r == sum64(a as int, b as int),
{
    a.wrapping_add(b)
}

impl Usage {
    pub fn add(&mut self, other: &Usage)
        ensures
            *final(self) == usage_sum(*old(self), *other),
    {
        self.input = wrapped_sum(self.input, other.input);
        self.output = wrapped_sum(self.output, other.output);
        self.cache_read = wrapped_sum(self.cache_read, other.cache_read);
        self.cache_write = wrapped_sum(self.cache_write, other.cache_write);
        self.total_tokens = wrapped_sum(self.total_tokens, other.total_tokens);
    }

    pub fn recompute_total(&mut self)
        ensures
            *final(self) == (Usage { total_tokens: usage_total(*old(self)), ..*old(self) }),
    {
        let a: u64 = wrapped_sum(self.input, self.output);
        let b: u64 = wrapped_sum(a, self.cache_read);
        self.total_tokens = wrapped_sum(b, self.cache_write);
    }
}

/// A message produced by the model.
#[derive(Debug)]
pub struct AssistantMessage {
    pub content: Vec<ContentBlock>,
    pub usage: Usage,
    pub stop_reason: StopReason,
    pub error_message: Option<String>,
    pub response_id: Option<String>,
    pub model: String,
    pub provider: String,
    pub timestamp: i64,
}

pub ghost struct AssistantView {
    pub content: Seq<BlockView>,
    pub usage: Usage,
    pub stop_reason: StopReason,
    pub error_message: Option<Seq<char>>,
    pub response_id: Option<Seq<char>>,
    pub model: Seq<char>,
    pub provider: Seq<char>,
    pub timestamp: i64,
}

impl View for AssistantMessage {
    type V = AssistantView;

    open spec fn view(&self) -> AssistantView {
        AssistantView {
            content: blocks_of(self.content@),
            usage: self.usage,
            stop_reason: self.stop_reason,
            error_message: text::opt_view(self.error_message),
            response_id: text::opt_view(self.response_id),
            model: self.model@,
            provider: self.provider@,
            timestamp: self.timestamp,
        }
    }
}

/// An assistant message without content, made at `timestamp`.
pub open spec fn blank_assistant(timestamp: i64) -> AssistantView {
    AssistantView {
        content: Seq::empty(),
        usage: Usage { input: 0, output: 0, cache_read: 0, cache_write: 0, total_tokens: 0 },
        stop_reason: StopReason::Stop,
        error_message: None,
        response_id: None,
        model: Seq::empty(),
        provider: Seq::empty(),
        timestamp,
    }
}

/// The texts of the content, one after the other.
pub open spec fn assistant_text(v: Seq<BlockView>) -> Seq<char> {
    text::joined(block_texts(v), Seq::empty())
}

pub fn copy_opt(o: &Option<String>) -> (r: Option<String>)
    ensures
        text::opt_view(r) == text::opt_view(*o),
{
    match o {
        Some(s) => Some(s.clone()),
        None => None,
    }
}

impl AssistantMessage {
    pub fn empty() -> (r: AssistantMessage)
        ensures
            r@ == blank_assistant(r.timestamp),
    {
        let content: Vec<ContentBlock> = Vec::new();
        assert(blocks_of(content@) =~= Seq::<BlockView>::empty());
        AssistantMessage {
            content,
            usage: Usage { input: 0, output: 0, cache_read: 0, cache_write: 0, total_tokens: 0 },
            stop_reason: StopReason::Stop,
            error_message: None,
            response_id: None,
            model: String::new(),
            provider: String::new(),
            timestamp: now_ms(),
        }
    }

    pub fn text_content(&self) -> (r: String)
        ensures
            r@ == assistant_text(self@.content),
    {
        let ghost all = blocks_of(self.content@);
        let mut parts: Vec<String> = Vec::new();
        let mut i: usize = 0;
        while i < self.content.len()
            invariant
                all == blocks_of(self.content@),
                i <= self.content@.len(),
                text::views(parts@) == block_texts(all.take(i as int)),
            decreases self.content@.len() - i,
        {
            assert(all.take(i + 1).drop_last() =~= all.take(i as int));
            assert(all.take(i + 1).last() == self.content@[i as int]@);
            match self.content[i].as_text() {
                Some(t) => {
                    let t: String = t.to_string();
                    proof {
                        text::lemma_views_push(parts@, t);
                    }
                    parts.push(t);
                },
                None => {},
            }
            i += 1;
        }
        assert(all.take(all.len() as int) =~= all);
        proof {
            reveal_strlit("");
            assert(""@ =~= Seq::<char>::empty());
        }
        text::join(&parts, "")
    }
}

impl Clone for AssistantMessage {
    fn clone(&self) -> (r: AssistantMessage)
        ensures
            r@ == self@,
    {
        let ghost all = blocks_of(self.content@);
        let mut content: Vec<ContentBlock> = Vec::new();
        let mut i: usize = 0;
        while i < self.content.len()
            invariant
                all == blocks_of(self.content@),
                i <= self.content@.len(),
                blocks_of(content@) == all.take(i as int),
            decreases self.content@.len() - i,
        {
            let b: ContentBlock = self.content[i].clone();
            assert(blocks_of(content@.push(b)) =~= blocks_of(content@).push(b@));
            assert(all.take(i + 1) =~= all.take(i as int).push(b@));
            content.push(b);
            i += 1;
        }
        assert(all.take(all.len() as int) =~= all);
        AssistantMessage {
            content,
            usage: self.usage,
            stop_reason: self.stop_reason,
            error_message: copy_opt(&self.error_message),
            response_id: copy_opt(&self.response_id),
            model: self.model.clone(),
            provider: self.provider.clone(),
            timestamp: self.timestamp,
        }
    }
}

/// A tool-result message fed back to the model.
#[derive(Debug)]
pub struct ToolResultMessage {
    pub tool_call_id: String,
    pub tool_name: String,
    pub content: Vec<ToolResultContent>,
    pub is_error: bool,
    pub timestamp: i64,
}

pub ghost struct ToolResultView {
    pub tool_call_id: Seq<char>,
    pub tool_name: Seq<char>,
    pub content: Seq<MediaView>,
    pub is_error: bool,
    pub timestamp: i64,
}

impl View for ToolResultMessage {
    type V = ToolResultView;

    open spec fn view(&self) -> ToolResultView {
        ToolResultView {
            tool_call_id: self.tool_call_id@,
            tool_name: self.tool_name@,
            content: result_blocks_of(self.content@),
            is_error: self.is_error,
            timestamp: self.timestamp,
        }
    }
}

/// The texts of tool-result content, joined by newlines.
pub fn result_text(content: &Vec<ToolResultContent>) -> (r: String)
    ensures
        r@ == media_text(result_blocks_of(content@)),
{
    let ghost all = result_blocks_of(content@);
    let mut parts: Vec<String> = Vec::new();
    let mut i: usize = 0;
    while i < content.len()
        invariant
            all == result_blocks_of(content@),
            i <= content@.len(),
            text::views(parts@) == media_texts(all.take(i as int)),
        decreases content@.len() - i,
    {
        assert(all.take(i + 1).drop_last() =~= all.take(i as int));
        assert(all.take(i + 1).last() == content@[i as int]@);
        match &content[i] {
            ToolResultContent::Text { text } => {
                let t: String = text.clone();
                proof {
                    text::lemma_views_push(parts@, t);
                }
                parts.push(t);
            },
            ToolResultContent::Image { .. } => {},
        }
        i += 1;
    }
    assert(all.take(all.len() as int) =~= all);
    text::join(&parts, "\n")
}

/// A copy of tool-result content.
pub fn copy_results(content: &Vec<ToolResultContent>) -> (r: Vec<ToolResultContent>)
    ensures
        result_blocks_of(r@) == result_blocks_of(content@),
{
    let ghost all = result_blocks_of(content@);
    let mut out: Vec<ToolResultContent> = Vec::new();
    let mut i: usize = 0;
    while i < content.len()
        invariant
            all == result_blocks_of(content@),
            i <= content@.len(),
            result_blocks_of(out@) == all.take(i as int),
        decreases content@.len() - i,
    {
        let b: ToolResultContent = content[i].clone();
        assert(result_blocks_of(out@.push(b)) =~= result_blocks_of(out@).push(b@));
        assert(all.take(i + 1) =~= all.take(i as int).push(b@));
        out.push(b);
        i += 1;
    }
    assert(all.take(all.len() as int) =~= all);
    out
}

impl Clone for ToolResultMessage {
    fn clone(&self) -> (r: ToolResultMessage)
        ensures
            r@ == self@,
    {
        ToolResultMessage {
            tool_call_id: self.tool_call_id.clone(),
            tool_name: self.tool_name.clone(),
            content: copy_results(&self.content),
            is_error: self.is_error,
            timestamp: self.timestamp,
        }
    }
}

/// The union of messages that make up a transcript.
#[derive(Debug)]
pub enum Message {
    User(UserMessage),
    Assistant(AssistantMessage),
    ToolResult(ToolResultMessage),
}

pub ghost enum MessageView {
    User(UserView),
    Assistant(AssistantView),
    ToolResult(ToolResultView),
}

impl View for Message {
    type V = MessageView;

    open spec fn view(&self) -> MessageView {
        match self {
            Message::User(m) => MessageView::User(m@),
            Message::Assistant(m) => MessageView::Assistant(m@),
            Message::ToolResult(m) => MessageView::ToolResult(m@),
        }
    }
}

pub open spec fn messages_of(v: Seq<Message>) -> Seq<MessageView> {
    v.map_values(|m: Message| m@)
}

pub open spec fn role_of(m: MessageView) -> Seq<char> {
    match m {
        MessageView::User(_) => "user"@,
        MessageView::Assistant(_) => "assistant"@,
        MessageView::ToolResult(_) => "toolResult"@,
    }
}

impl Message {
    pub fn role(&self) -> (r: &'static str)
        ensures
            r@ == role_of(self@),
    {
        match self {
            Message::User(_) => "user",
            Message::Assistant(_) => "assistant",
            Message::ToolResult(_) => "toolResult",
        }
    }
}

impl Clone for Message {
    fn clone(&self) -> (r: Message)
        ensures
            r@ == self@,
    {
        match self {
            Message::User(m) => Message::User(m.clone()),
            Message::Assistant(m) => Message::Assistant(m.clone()),
            Message::ToolResult(m) => Message::ToolResult(m.clone()),
        }
    }
}

impl From<UserMessage> for Message {
    fn from(m: UserMessage) -> (r: Message) {
        Message::User(m)
    }
}

impl vstd::std_specs::convert::FromSpecImpl<UserMessage> for Message {
    open spec fn obeys_from_spec() -> bool {
        true
    }

    open spec fn from_spec(m: UserMessage) -> Message {
        Message::User(m)
    }
}

impl From<AssistantMessage> for Message {
    fn from(m: AssistantMessage) -> (r: Message) {
        Message::Assistant(m)
    }
}

impl vstd::std_specs::convert::FromSpecImpl<AssistantMessage> for Message {
    open spec fn obeys_from_spec() -> bool {
        true
    }

    open spec fn from_spec(m: AssistantMessage) -> Message {
        Message::Assistant(m)
    }
}

impl From<ToolResultMessage> for Message {
    fn from(m: ToolResultMessage) -> (r: Message) {
        Message::ToolResult(m)
    }
}

impl vstd::std_specs::convert::FromSpecImpl<ToolResultMessage> for Message {
    open spec fn obeys_from_spec() -> bool {
        true
    }

    open spec fn from_spec(m: ToolResultMessage) -> Message {
        Message::ToolResult(m)
    }
}

// ---------------------------------------------------------------------------
// Model
// ---------------------------------------------------------------------------

/// Prices per million tokens, in US cents.
#[derive(Debug, Clone, Copy, PartialEq, Eq, Structural)]
pub struct Prices {
    pub input: u64,
    pub output: u64,
    pub cache_read: u64,
    pub cache_write: u64,
}

/// A resolved model definition used to drive provider requests.
#[derive(Debug)]
pub struct Model {
    pub id: String,
    pub provider: String,
    pub api: Api,
    /// Maximum output tokens the model can produce in one turn.
    pub max_tokens: usize,
    /// Context window size in tokens.
    pub context_window: usize,
    /// Base URL the provider POSTs to.
    pub base_url: String,
    /// Whether the model supports extended thinking / reasoning.
    pub reasoning: bool,
    /// Adaptive-thinking models select effort rather than a token budget.
    pub force_adaptive_thinking: bool,
    /// Whether passing `temperature` is supported.
    pub supports_temperature: bool,
    pub prices: Prices,
}

pub ghost struct ModelView {
    pub id: Seq<char>,
    pub provider: Seq<char>,
    pub api: Api,
    pub max_tokens: usize,
    pub context_window: usize,
    pub base_url: Seq<char>,
    pub reasoning: bool,
    pub force_adaptive_thinking: bool,
    pub supports_temperature: bool,
    pub prices: Prices,
}

impl View for Model {
    type V = ModelView;

    open spec fn view(&self) -> ModelView {
        ModelView {
            id: self.id@,
            provider: self.provider@,
            api: self.api,
            max_tokens: self.max_tokens,
            context_window: self.context_window,
            base_url: self.base_url@,
            reasoning: self.reasoning,
            force_adaptive_thinking: self.force_adaptive_thinking,
            supports_temperature: self.supports_temperature,
            prices: self.prices,
        }
    }
}

pub open spec fn models_of(v: Seq<Model>) -> Seq<ModelView> {
    v.map_values(|m: Model| m@)
}

impl Clone for Model {
    fn clone(&self) -> (r: Model)
        ensures
            r@ == self@,
    {
        Model {
            id: self.id.clone(),
            provider: self.provider.clone(),
            api: self.api,
            max_tokens: self.max_tokens,
            context_window: self.context_window,
            base_url: self.base_url.clone(),
            reasoning: self.reasoning,
            force_adaptive_thinking: self.force_adaptive_thinking,
            supports_temperature: self.supports_temperature,
            prices: self.prices,
        }
    }
}

// ---------------------------------------------------------------------------
// Tool schema
// ---------------------------------------------------------------------------

/// The schema fragment sent to the model describing an available tool.
#[derive(Debug)]
pub struct ToolSchema {
    pub name: String,
    pub description: String,
    pub input_schema: Json,
}

pub ghost struct ToolSchemaView {
    pub name: Seq<char>,
    pub description: Seq<char>,
    pub input_schema: JsonView,
}

impl View for ToolSchema {
    type V = ToolSchemaView;

    open spec fn view(&self) -> ToolSchemaView {
        ToolSchemaView {
            name: self.name@,
            description: self.description@,
            input_schema: self.input_schema@,
        }
    }
}

pub open spec fn schemas_of(v: Seq<ToolSchema>) -> Seq<ToolSchemaView> {
    v.map_values(|t: ToolSchema| t@)
}

// ---------------------------------------------------------------------------
// Laws
// ---------------------------------------------------------------------------

/// The text of some blocks is their texts in order, a line apart; an image adds
/// nothing.
pub proof fn law_media_text_is_the_texts_a_line_apart(
    v: Seq<MediaView>,
    t: Seq<char>,
    data: Seq<char>,
    mime: Seq<char>,
)
    ensures
        media_text(Seq::empty()).len() == 0,
        media_text(seq![MediaView::Text(t)]) == t,
        media_text(v.push(MediaView::Image(data, mime))) == media_text(v),
        (exists|i: int| 0 <= i < v.len() && #[trigger] v[i] is Text) ==> media_text(
            v.push(MediaView::Text(t)),
        ) == media_text(v) + "\n"@ + t,
        (forall|i: int| 0 <= i < v.len() ==> #[trigger] v[i] is Image) ==> media_text(
            v.push(MediaView::Text(t)),
        ) == t,
{
    let one = seq![MediaView::Text(t)];
    let none = Seq::<Seq<char>>::empty();
    assert(one.drop_last() =~= Seq::<MediaView>::empty());
    assert(media_texts(one.drop_last()) == none);
    assert(media_texts(one) == none.push(t));
    text::lemma_joined_push(none, t, "\n"@);
    assert(v.push(MediaView::Image(data, mime)).drop_last() =~= v);
    assert(v.push(MediaView::Text(t)).drop_last() =~= v);
    text::lemma_joined_push(media_texts(v), t, "\n"@);
    lemma_some_text(v);
}

proof fn lemma_some_text(v: Seq<MediaView>)
    ensures
        media_texts(v).len() > 0 <==> exists|i: int| 0 <= i < v.len() && #[trigger] v[i] is Text,
    decreases v.len(),
{
    if v.len() > 0 {
        let init = v.drop_last();
        lemma_some_text(init);
        if v.last() is Text {
            assert(v[v.len() - 1] is Text);
        } else if media_texts(init).len() > 0 {
            let i = choose|i: int| 0 <= i < init.len() && #[trigger] init[i] is Text;
            assert(v[i] is Text);
        } else if exists|i: int| 0 <= i < v.len() && #[trigger] v[i] is Text {
            let i = choose|i: int| 0 <= i < v.len() && #[trigger] v[i] is Text;
            assert(init[i] is Text);
        }
    }
}

/// The text of an assistant message is its texts, one right behind the other;
/// thoughts and calls add nothing.
pub proof fn law_assistant_text_is_its_texts(v: Seq<BlockView>, b: BlockView)
    ensures
        assistant_text(Seq::empty()).len() == 0,
        assistant_text(v.push(b)) == (match b {
            BlockView::Text(t) => assistant_text(v) + t,
            _ => assistant_text(v),
        }),
{
    assert(v.push(b).drop_last() =~= v);
    if let BlockView::Text(t) = b {
        let none = Seq::<char>::empty();
        text::lemma_joined_push(block_texts(v), t, none);
        assert(text::joined(block_texts(v), none) + none + t =~= assistant_text(v) + t);
        if block_texts(v).len() == 0 {
            assert(assistant_text(v) + t =~= t);
        }
    }
}

/// Adding up usage adds up every counter, where the sums fit.
pub proof fn law_usage_adds_up(a: Usage, b: Usage)
    ensures
        ({
            let r = usage_sum(a, b);
            &&& a.input + b.input <= u64::MAX ==> r.input == a.input + b.input
            &&& a.output + b.output <= u64::MAX ==> r.output == a.output + b.output
            &&& a.cache_read + b.cache_read <= u64::MAX ==> r.cache_read == a.cache_read
                + b.cache_read
            &&& a.cache_write + b.cache_write <= u64::MAX ==> r.cache_write == a.cache_write
                + b.cache_write
            &&& a.total_tokens + b.total_tokens <= u64::MAX ==> r.total_tokens == a.total_tokens
                + b.total_tokens
        }),
        a.input + a.output + a.cache_read + a.cache_write <= u64::MAX ==> usage_total(a) == a.input
            + a.output + a.cache_read + a.cache_write,
{
}

/// The roles of messages.
pub proof fn law_messages_have_their_roles(m: MessageView)
    ensures
        m is User ==> role_of(m) == "user"@,
        m is Assistant ==> role_of(m) == "assistant"@,
        m is ToolResult ==> role_of(m) == "toolResult"@,
{
}

/// A level is told by its name, whatever the case.
pub proof fn law_levels_are_told_by_their_name(s: Seq<char>)
    ensures
        ThinkingLevel::named(s) == Some(ThinkingLevel::Off) <==> text::lower(s) == "off"@,
        ThinkingLevel::named(s) == Some(ThinkingLevel::Minimal) <==> text::lower(s) == "minimal"@,
        ThinkingLevel::named(s) == Some(ThinkingLevel::Low) <==> text::lower(s) == "low"@,
        ThinkingLevel::named(s) == Some(ThinkingLevel::Medium) <==> text::lower(s) == "medium"@,
        ThinkingLevel::named(s) == Some(ThinkingLevel::High) <==> text::lower(s) == "high"@,
        ThinkingLevel::named(s) == Some(ThinkingLevel::Xhigh) <==> text::lower(s) == "xhigh"@,
{
    reveal_strlit("off");
    reveal_strlit("minimal");
    reveal_strlit("low");
    reveal_strlit("medium");
    reveal_strlit("high");
    reveal_strlit("xhigh");
    assert("off"@.len() == 3 && "low"@.len() == 3 && "off"@[0] != "low"@[0]);
    assert("minimal"@.len() == 7 && "medium"@.len() == 6);
    assert("high"@.len() == 4 && "xhigh"@.len() == 5);
}

} // verus!
