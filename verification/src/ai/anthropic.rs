//! Requests to the Anthropic Messages API: headers and body.

use vstd::prelude::*;
use vstd::utf8::encode_utf8;

use crate::ai::types::{
    blocks_of, has_image, media_text, messages_of, result_blocks_of, result_text,
    schemas_of, user_blocks_of, BlockView, ContentBlock, MediaView, Message,
    MessageView, Model, ModelView, ThinkingLevel, ToolResultContent, ToolResultView, ToolSchema,
    ToolSchemaView, UserBlock, UserMessage,
};
use crate::json::{
    field, holds, items_model, lacks, lemma_items, lemma_items_push, opt_json, string_field, Json,
    JsonView,
};
use crate::text;

verus! {

/// Options for a streaming request.
#[derive(Debug)]
pub struct SimpleStreamOptions {
    pub api_key: Option<String>,
    /// If set, sent as `Authorization: Bearer <token>` instead of `x-api-key`.
    pub auth_token: Option<String>,
    pub max_tokens: Option<usize>,
    /// A JSON number.
    pub temperature: Option<Json>,
    pub reasoning: Option<ThinkingLevel>,
    pub thinking_budget_tokens: Option<usize>,
    /// Attach `cache_control: ephemeral` to the system prompt and the last
    /// user message to enable prompt caching. Default: true.
    pub cache_control: bool,
    pub timeout_ms: Option<u64>,
}

pub ghost struct OptionsView {
    pub api_key: Option<Seq<char>>,
    pub auth_token: Option<Seq<char>>,
    pub max_tokens: Option<usize>,
    pub temperature: Option<JsonView>,
    pub reasoning: Option<ThinkingLevel>,
    pub thinking_budget_tokens: Option<usize>,
    pub cache_control: bool,
    pub timeout_ms: Option<u64>,
}

impl View for SimpleStreamOptions {
    type V = OptionsView;

    open spec fn view(&self) -> OptionsView {
        OptionsView {
            api_key: text::opt_view(self.api_key),
            auth_token: text::opt_view(self.auth_token),
            max_tokens: self.max_tokens,
            temperature: opt_json(self.temperature),
            reasoning: self.reasoning,
            thinking_budget_tokens: self.thinking_budget_tokens,
            cache_control: self.cache_control,
            timeout_ms: self.timeout_ms,
        }
    }
}

/// The options when nothing is asked for.
pub open spec fn default_options() -> OptionsView {
    OptionsView {
        api_key: None,
        auth_token: None,
        max_tokens: None,
        temperature: None,
        reasoning: None,
        thinking_budget_tokens: None,
        cache_control: true,
        timeout_ms: None,
    }
}

impl Default for SimpleStreamOptions {
    fn default() -> (r: SimpleStreamOptions)
        ensures
            r@ == default_options(),
    {
        SimpleStreamOptions {
            api_key: None,
            auth_token: None,
            max_tokens: None,
            temperature: None,
            reasoning: None,
            thinking_budget_tokens: None,
            cache_control: true,
            timeout_ms: None,
        }
    }
}

impl SimpleStreamOptions {
    pub fn cache_control(self, on: bool) -> (r: SimpleStreamOptions)
        ensures
            r@ == (OptionsView { cache_control: on, ..self@ }),
    {
        let mut r: SimpleStreamOptions = self;
        r.cache_control = on;
        r
    }
}

/// The LLM-facing context: system prompt + transcript + tool schemas.
pub struct LlmContext<'a> {
    pub system_prompt: Option<&'a str>,
    pub messages: &'a [Message],
    pub tools: &'a [ToolSchema],
}

// ---------------------------------------------------------------------------
// Headers
// ---------------------------------------------------------------------------

/// May a text stand in a header? Its bytes are visible, above ASCII, or tabs.
pub open spec fn header_valid(s: Seq<char>) -> bool {
    forall|i: int|
        0 <= i < encode_utf8(s).len() ==> {
            let b = #[trigger] encode_utf8(s)[i];
            (b >= 32 && b != 127) || b == 9
        }
}

/// `reqwest::header::HeaderValue::from_str`: does it accept the text? It does
/// when every byte is at least 32 and not 127, or is a tab.
#[verifier::external_body]
fn header_accepts(s: &str) -> (r: bool)
    ensures
        r == header_valid(s@),
{
    reqwest::header::HeaderValue::from_str(s).is_ok()
}

/// The credential header: a bearer token goes before an API key; a value that
/// no header can hold is left out.
pub open spec fn credential_headers(o: OptionsView) -> Seq<(Seq<char>, Seq<char>)> {
    match o.auth_token {
        Some(token) => if header_valid("Bearer "@ + token) {
            seq![("authorization"@, "Bearer "@ + token)]
        } else {
            Seq::empty()
        },
        None => match o.api_key {
            Some(key) => if header_valid(key) {
                seq![("x-api-key"@, key)]
            } else {
                Seq::empty()
            },
            None => Seq::empty(),
        },
    }
}

/// The headers of a request.
pub open spec fn request_headers(o: OptionsView) -> Seq<(Seq<char>, Seq<char>)> {
    seq![
        ("accept"@, "application/json"@),
        ("anthropic-version"@, "2023-06-01"@),
        ("anthropic-dangerous-direct-browser-access"@, "true"@),
    ] + credential_headers(o)
}

pub open spec fn header_views(v: Seq<(String, String)>) -> Seq<(Seq<char>, Seq<char>)> {
    v.map_values(|h: (String, String)| (h.0@, h.1@))
}

pub fn build_headers(options: &SimpleStreamOptions) -> (r: Vec<(String, String)>)
    ensures
        header_views(r@) == request_headers(options@),
{
    let mut out: Vec<(String, String)> = Vec::new();
    out.push(("accept".to_string(), "application/json".to_string()));
    out.push(("anthropic-version".to_string(), "2023-06-01".to_string()));
    out.push(("anthropic-dangerous-direct-browser-access".to_string(), "true".to_string()));
    match &options.auth_token {
        Some(token) => {
            let mut value: String = "Bearer ".to_string();
            value.append(token.as_str());
            if header_accepts(value.as_str()) {
                out.push(("authorization".to_string(), value));
            }
        },
        None => match &options.api_key {
            Some(key) => {
                if header_accepts(key.as_str()) {
                    out.push(("x-api-key".to_string(), key.clone()));
                }
            },
            None => {},
        },
    }
    assert(header_views(out@) =~= request_headers(options@));
    out
}

/// `s` without the slashes at its end.
pub open spec fn without_slashes(s: Seq<char>) -> Seq<char>
    decreases s.len(),
{
    if s.len() > 0 && s.last() == '/' {
        without_slashes(s.drop_last())
    } else {
        s
    }
}

/// Where requests to the API at `base_url` go.
pub fn messages_url(base_url: &str) -> (r: String)
    ensures
        r@ == without_slashes(base_url@) + "/v1/messages"@,
{
    let v: Vec<char> = text::chars_of(base_url);
    let mut end: usize = v.len();
    assert(v@.take(v@.len() as int) =~= v@);
    while end > 0 && v[end - 1] == '/'
        invariant
            end <= v@.len(),
            v@ == base_url@,
            without_slashes(v@.take(end as int)) == without_slashes(base_url@),
        decreases end,
    {
        assert(v@.take(end as int).drop_last() =~= v@.take(end - 1));
        end -= 1;
    }
    let mut out: String = text::string_of(&v, 0, end);
    assert(out@ =~= v@.take(end as int));
    out.append("/v1/messages");
    out
}

// ---------------------------------------------------------------------------
// Thinking
// ---------------------------------------------------------------------------

/// The effort of a thinking level, for adaptive models.
pub open spec fn effort_of(level: ThinkingLevel) -> Option<Seq<char>> {
    match level {
        ThinkingLevel::Off => None,
        ThinkingLevel::Minimal => Some("low"@),
        ThinkingLevel::Low => Some("low"@),
        ThinkingLevel::Medium => Some("medium"@),
        ThinkingLevel::High => Some("high"@),
        ThinkingLevel::Xhigh => Some("xhigh"@),
    }
}

/// Translate a thinking level to an effort string for adaptive models. Returns
/// `None` when thinking is off.
pub fn level_to_effort(level: ThinkingLevel) -> (r: Option<&'static str>)
    ensures
        text::opt_str(r) == effort_of(level),
{
    match level {
        ThinkingLevel::Off => None,
        ThinkingLevel::Minimal => Some("low"),
        ThinkingLevel::Low => Some("low"),
        ThinkingLevel::Medium => Some("medium"),
        ThinkingLevel::High => Some("high"),
        ThinkingLevel::Xhigh => Some("xhigh"),
    }
}

/// The token budget of a thinking level.
pub open spec fn budget_of(level: ThinkingLevel) -> usize {
    match level {
        ThinkingLevel::Off => 0,
        ThinkingLevel::Minimal => 1024,
        ThinkingLevel::Low => 4096,
        ThinkingLevel::Medium => 8192,
        ThinkingLevel::High => 16000,
        ThinkingLevel::Xhigh => 24000,
    }
}

pub fn level_to_budget(level: ThinkingLevel) -> (r: usize)
    ensures
        r == budget_of(level),
{
    match level {
        ThinkingLevel::Off => 0,
        ThinkingLevel::Minimal => 1024,
        ThinkingLevel::Low => 4096,
        ThinkingLevel::Medium => 8192,
        ThinkingLevel::High => 16000,
        ThinkingLevel::Xhigh => 24000,
    }
}

/// A budget below the output cap, and never under 1024.
pub open spec fn clamped_budget(budget: usize, max_tokens: usize) -> usize {
    let cap = if max_tokens > 0 {
        (max_tokens - 1) as usize
    } else {
        0
    };
    let low = if budget <= cap {
        budget
    } else {
        cap
    };
    if low >= 1024 {
        low
    } else {
        1024
    }
}

// ---------------------------------------------------------------------------
// JSON shapes
// ---------------------------------------------------------------------------

pub open spec fn string_value(t: Seq<char>) -> JsonView {
    JsonView::Str(t)
}

pub open spec fn object_of_one(k: Seq<char>, v: JsonView) -> JsonView {
    JsonView::Obj(Map::empty().insert(k, v))
}

pub open spec fn object_of_two(k: Seq<char>, v: JsonView, l: Seq<char>, w: JsonView) -> JsonView {
    JsonView::Obj(Map::empty().insert(k, v).insert(l, w))
}

pub open spec fn object_of_three(
    k: Seq<char>,
    v: JsonView,
    l: Seq<char>,
    w: JsonView,
    m: Seq<char>,
    x: JsonView,
) -> JsonView {
    JsonView::Obj(Map::empty().insert(k, v).insert(l, w).insert(m, x))
}

pub open spec fn object_of_four(
    k: Seq<char>,
    v: JsonView,
    l: Seq<char>,
    w: JsonView,
    m: Seq<char>,
    x: JsonView,
    n: Seq<char>,
    y: JsonView,
) -> JsonView {
    JsonView::Obj(Map::empty().insert(k, v).insert(l, w).insert(m, x).insert(n, y))
}

/// An object with one field set; anything else is left as it is.
pub open spec fn with_field(j: JsonView, k: Seq<char>, v: JsonView) -> JsonView {
    match j {
        JsonView::Obj(m) => JsonView::Obj(m.insert(k, v)),
        _ => j,
    }
}

/// The mark that asks for caching.
pub open spec fn ephemeral() -> JsonView {
    object_of_one("type"@, string_value("ephemeral"@))
}

pub open spec fn cache_mark(on: bool) -> Option<JsonView> {
    if on {
        Some(ephemeral())
    } else {
        None
    }
}

pub fn cache_ephemeral() -> (r: Json)
    ensures
        r@ == ephemeral(),
{
    Json::object().with("type", Json::str("ephemeral"))
}

pub open spec fn text_block(t: Seq<char>) -> JsonView {
    object_of_two("type"@, string_value("text"@), "text"@, string_value(t))
}

pub open spec fn image_block(data: Seq<char>, mime: Seq<char>) -> JsonView {
    object_of_two(
        "type"@,
        string_value("image"@),
        "source"@,
        object_of_three("type"@, string_value("base64"@), "media_type"@, string_value(mime), "data"@, string_value(data)),
    )
}

pub open spec fn media_block(b: MediaView) -> JsonView {
    match b {
        MediaView::Text(t) => text_block(t),
        MediaView::Image(data, mime) => image_block(data, mime),
    }
}

fn make_text_block(t: &str) -> (r: Json)
    ensures
        r@ == text_block(t@),
{
    Json::object().with("type", Json::str("text")).with("text", Json::str(t))
}

fn make_image_block(data: &str, mime: &str) -> (r: Json)
    ensures
        r@ == image_block(data@, mime@),
{
    let source: Json = Json::object().with("type", Json::str("base64")).with(
        "media_type",
        Json::str(mime),
    ).with("data", Json::str(data));
    Json::object().with("type", Json::str("image")).with("source", source)
}

pub open spec fn entry(role: Seq<char>, content: JsonView) -> JsonView {
    object_of_two("role"@, string_value(role), "content"@, content)
}

fn make_entry(role: &str, content: Json) -> (r: Json)
    ensures
        r@ == entry(role@, content@),
{
    Json::object().with("role", Json::str(role)).with("content", content)
}

// ---------------------------------------------------------------------------
// Messages
// ---------------------------------------------------------------------------

/// The blocks of user content with images: blank texts are left out.
pub open spec fn user_blocks(v: Seq<MediaView>) -> Seq<JsonView>
    decreases v.len(),
{
    if v.len() == 0 {
        Seq::empty()
    } else {
        let rest = user_blocks(v.drop_last());
        match v.last() {
            MediaView::Text(t) => if text::is_blank_text(t) {
                rest
            } else {
                rest.push(text_block(t))
            },
            MediaView::Image(data, mime) => rest.push(image_block(data, mime)),
        }
    }
}

pub open spec fn one(j: JsonView) -> Seq<JsonView> {
    seq![j]
}

/// What a user message becomes: plain text where it has no image, nothing where
/// it is blank.
pub open spec fn user_entry(v: Seq<MediaView>) -> Seq<JsonView> {
    if !has_image(v) {
        if text::is_blank_text(media_text(v)) {
            Seq::empty()
        } else {
            one(entry("user"@, string_value(media_text(v))))
        }
    } else if user_blocks(v).len() == 0 {
        Seq::empty()
    } else {
        one(entry("user"@, JsonView::Arr(user_blocks(v))))
    }
}

/// What an assistant block becomes. Blank texts and thoughts are left out; a
/// thought without a signature is sent as text.
pub open spec fn assistant_block(b: BlockView) -> Seq<JsonView> {
    match b {
        BlockView::Text(t) => if text::is_blank_text(t) {
            Seq::empty()
        } else {
            one(text_block(t))
        },
        BlockView::Thinking(t, signature, redacted) => if redacted {
            one(object_of_two("type"@, string_value("redacted_thinking"@), "data"@, string_value(signature)))
        } else if text::is_blank_text(t) {
            Seq::empty()
        } else if signature.len() == 0 {
            one(text_block(t))
        } else {
            one(
                object_of_three(
                    "type"@,
                    string_value("thinking"@),
                    "thinking"@,
                    string_value(t),
                    "signature"@,
                    string_value(signature),
                ),
            )
        },
        BlockView::ToolCall(id, name, arguments) => one(
            object_of_four(
                "type"@,
                string_value("tool_use"@),
                "id"@,
                string_value(id),
                "name"@,
                string_value(name),
                "input"@,
                arguments,
            ),
        ),
    }
}

pub open spec fn assistant_blocks(v: Seq<BlockView>) -> Seq<JsonView>
    decreases v.len(),
{
    if v.len() == 0 {
        Seq::empty()
    } else {
        assistant_blocks(v.drop_last()) + assistant_block(v.last())
    }
}

pub open spec fn assistant_entry(v: Seq<BlockView>) -> Seq<JsonView> {
    if assistant_blocks(v).len() == 0 {
        Seq::empty()
    } else {
        one(entry("assistant"@, JsonView::Arr(assistant_blocks(v))))
    }
}

/// Tool-result content: plain text where it has no image.
pub open spec fn result_content(v: Seq<MediaView>) -> JsonView {
    if has_image(v) {
        JsonView::Arr(v.map_values(|b: MediaView| media_block(b)))
    } else {
        string_value(media_text(v))
    }
}

pub open spec fn result_block(t: ToolResultView) -> JsonView {
    object_of_four(
        "type"@,
        string_value("tool_result"@),
        "tool_use_id"@,
        string_value(t.tool_call_id),
        "content"@,
        result_content(t.content),
        "is_error"@,
        JsonView::Bool(t.is_error),
    )
}

/// The end of the run of tool results that `i` is in.
pub open spec fn run_end(v: Seq<MessageView>, i: int) -> int
    decreases v.len() - i,
{
    if 0 <= i < v.len() && v[i] is ToolResult {
        run_end(v, i + 1)
    } else {
        i
    }
}

/// A run ends between its start and the end of the messages.
pub proof fn lemma_run_end(v: Seq<MessageView>, i: int)
    requires
        0 <= i <= v.len(),
    ensures
        i <= run_end(v, i) <= v.len(),
        forall|k: int| i <= k < run_end(v, i) ==> #[trigger] v[k] is ToolResult,
    decreases v.len() - i,
{
    if i < v.len() && v[i] is ToolResult {
        lemma_run_end(v, i + 1);
    }
}

/// The blocks of the tool results `lo..hi`.
pub open spec fn result_run(v: Seq<MessageView>, lo: int, hi: int) -> Seq<JsonView>
    decreases hi - lo,
{
    if hi <= lo {
        Seq::empty()
    } else {
        match v[hi - 1] {
            MessageView::ToolResult(t) => result_run(v, lo, hi - 1).push(result_block(t)),
            _ => result_run(v, lo, hi - 1),
        }
    }
}

/// The transcript from message `i` on: consecutive tool results make one user
/// message.
pub open spec fn entries(v: Seq<MessageView>, i: int) -> Seq<JsonView>
    decreases v.len() - i,
{
    if i < 0 || i >= v.len() {
        Seq::empty()
    } else {
        match v[i] {
            MessageView::User(u) => user_entry(u.content) + entries(v, i + 1),
            MessageView::Assistant(a) => assistant_entry(a.content) + entries(v, i + 1),
            MessageView::ToolResult(_) => {
                let end = run_end(v, i + 1);
                proof {
                    lemma_run_end(v, i + 1);
                }
                one(entry("user"@, JsonView::Arr(result_run(v, i, end)))) + entries(v, end)
            },
        }
    }
}

/// An entry with the cache mark on its last block. A text becomes a block for
/// that.
pub open spec fn marked(e: JsonView, mark: JsonView) -> JsonView {
    match field(e, "content"@) {
        Some(JsonView::Arr(a)) => if a.len() > 0 {
            with_field(
                e,
                "content"@,
                JsonView::Arr(a.drop_last().push(with_field(a.last(), "cache_control"@, mark))),
            )
        } else {
            e
        },
        Some(JsonView::Str(t)) => with_field(
            e,
            "content"@,
            JsonView::Arr(one(with_field(text_block(t), "cache_control"@, mark))),
        ),
        _ => e,
    }
}

pub open spec fn is_users(e: JsonView) -> bool {
    string_field(e, "role"@) == Some("user"@)
}

/// The place of the last user entry among the first `n`.
pub open spec fn last_user(v: Seq<JsonView>, n: int) -> Option<int>
    decreases n,
{
    if n <= 0 || n > v.len() {
        None
    } else if is_users(v[n - 1]) {
        Some(n - 1)
    } else {
        last_user(v, n - 1)
    }
}

/// The cache mark goes on the last user entry, wherever it stands.
pub open spec fn last_user_marked(v: Seq<JsonView>, mark: Option<JsonView>) -> Seq<JsonView> {
    match (mark, last_user(v, v.len() as int)) {
        (Some(m), Some(i)) => v.update(i, marked(v[i], m)),
        _ => v,
    }
}

proof fn lemma_last_user(v: Seq<JsonView>, n: int)
    requires
        n <= v.len(),
    ensures
        last_user(v, n) matches Some(i) ==> 0 <= i < n && is_users(v[i]) && forall|k: int|
            i < k < n ==> !is_users(#[trigger] v[k]),
        last_user(v, n) is None ==> forall|k: int| 0 <= k < n ==> !is_users(#[trigger] v[k]),
    decreases n,
{
    if n > 0 && !is_users(v[n - 1]) {
        lemma_last_user(v, n - 1);
    }
}

fn has_image_block(content: &Vec<UserBlock>) -> (r: bool)
    ensures
        r == has_image(user_blocks_of(content@)),
{
    let ghost all = user_blocks_of(content@);
    let mut i: usize = 0;
    while i < content.len()
        invariant
            all == user_blocks_of(content@),
            i <= content@.len(),
            forall|k: int| 0 <= k < i ==> !(#[trigger] all[k] is Image),
        decreases content@.len() - i,
    {
        assert(all[i as int] == content@[i as int]@);
        match &content[i] {
            UserBlock::Image { .. } => {
                return true;
            },
            UserBlock::Text { .. } => {},
        }
        i += 1;
    }
    false
}

fn convert_user(u: &UserMessage) -> (r: Option<Json>)
    ensures
        user_entry(u@.content) == (match r {
            Some(j) => one(j@),
            None => Seq::empty(),
        }),
{
    if !has_image_block(&u.content) {
        let t: String = u.text_content();
        if text::is_blank(t.as_str()) {
            return None;
        }
        return Some(make_entry("user", Json::Str(t)));
    }
    let ghost all = user_blocks_of(u.content@);
    let mut blocks: Vec<Json> = Vec::new();
    let mut i: usize = 0;
    while i < u.content.len()
        invariant
            all == user_blocks_of(u.content@),
            i <= u.content@.len(),
            items_model(blocks@) == user_blocks(all.take(i as int)),
        decreases u.content@.len() - i,
    {
        proof {
            assert(all.take(i + 1).drop_last() =~= all.take(i as int));
            assert(all.take(i + 1).last() == u.content@[i as int]@);
        }
        match &u.content[i] {
            UserBlock::Text { text: t } => {
                if !text::is_blank(t.as_str()) {
                    let b: Json = make_text_block(t.as_str());
                    proof {
                        lemma_items_push(blocks@, b);
                    }
                    blocks.push(b);
                }
            },
            UserBlock::Image { data, mime_type } => {
                let b: Json = make_image_block(data.as_str(), mime_type.as_str());
                proof {
                    lemma_items_push(blocks@, b);
                }
                blocks.push(b);
            },
        }
        i += 1;
    }
    proof {
        assert(all.take(all.len() as int) =~= all);
        lemma_items(blocks@);
    }
    if blocks.len() == 0 {
        return None;
    }
    Some(make_entry("user", Json::Arr(blocks)))
}

fn convert_block(b: &ContentBlock) -> (r: Option<Json>)
    ensures
        assistant_block(b@) == (match r {
            Some(j) => one(j@),
            None => Seq::empty(),
        }),
{
    match b {
        ContentBlock::Text { text: t } => {
            if text::is_blank(t.as_str()) {
                None
            } else {
                Some(make_text_block(t.as_str()))
            }
        },
        ContentBlock::Thinking { thinking, thinking_signature, redacted } => {
            if *redacted {
                Some(
                    Json::object().with("type", Json::str("redacted_thinking")).with(
                        "data",
                        Json::str(thinking_signature.as_str()),
                    ),
                )
            } else if text::is_blank(thinking.as_str()) {
                None
            } else if thinking_signature.as_str().is_empty() {
                Some(make_text_block(thinking.as_str()))
            } else {
                Some(
                    Json::object().with("type", Json::str("thinking")).with(
                        "thinking",
                        Json::str(thinking.as_str()),
                    ).with("signature", Json::str(thinking_signature.as_str())),
                )
            }
        },
        ContentBlock::ToolCall { id, name, arguments } => Some(
            Json::object().with("type", Json::str("tool_use")).with(
                "id",
                Json::str(id.as_str()),
            ).with("name", Json::str(name.as_str())).with("input", arguments.clone()),
        ),
    }
}

fn convert_assistant(content: &Vec<ContentBlock>) -> (r: Option<Json>)
    ensures
        assistant_entry(blocks_of(content@)) == (match r {
            Some(j) => one(j@),
            None => Seq::empty(),
        }),
{
    let ghost all = blocks_of(content@);
    let mut blocks: Vec<Json> = Vec::new();
    let mut i: usize = 0;
    while i < content.len()
        invariant
            all == blocks_of(content@),
            i <= content@.len(),
            items_model(blocks@) == assistant_blocks(all.take(i as int)),
        decreases content@.len() - i,
    {
        let ghost given = items_model(blocks@);
        proof {
            assert(all.take(i + 1).drop_last() =~= all.take(i as int));
            assert(all.take(i + 1).last() == content@[i as int]@);
        }
        match convert_block(&content[i]) {
            Some(b) => {
                proof {
                    lemma_items_push(blocks@, b);
                    assert(given + one(b@) =~= given.push(b@));
                }
                blocks.push(b);
            },
            None => {
                assert(given + Seq::<JsonView>::empty() =~= given);
            },
        }
        i += 1;
    }
    proof {
        assert(all.take(all.len() as int) =~= all);
        lemma_items(blocks@);
    }
    if blocks.len() == 0 {
        return None;
    }
    Some(make_entry("assistant", Json::Arr(blocks)))
}

pub fn convert_result_content(content: &Vec<ToolResultContent>) -> (r: Json)
    ensures
        r@ == result_content(result_blocks_of(content@)),
{
    let ghost all = result_blocks_of(content@);
    let mut image: bool = false;
    let mut blocks: Vec<Json> = Vec::new();
    let mut i: usize = 0;
    while i < content.len()
        invariant
            all == result_blocks_of(content@),
            i <= content@.len(),
            items_model(blocks@) == all.take(i as int).map_values(|b: MediaView| media_block(b)),
            image == (exists|k: int| 0 <= k < i && #[trigger] all[k] is Image),
        decreases content@.len() - i,
    {
        assert(all[i as int] == content@[i as int]@);
        let b: Json = match &content[i] {
            ToolResultContent::Text { text: t } => make_text_block(t.as_str()),
            ToolResultContent::Image { data, mime_type } => {
                image = true;
                make_image_block(data.as_str(), mime_type.as_str())
            },
        };
        proof {
            lemma_items_push(blocks@, b);
            assert(all.take(i + 1).map_values(|b: MediaView| media_block(b)) =~= all.take(
                i as int,
            ).map_values(|b: MediaView| media_block(b)).push(b@));
        }
        blocks.push(b);
        i += 1;
    }
    assert(all.take(all.len() as int) =~= all);
    if image {
        Json::Arr(blocks)
    } else {
        Json::Str(result_text(content))
    }
}

fn mark_entry(e: &Json, mark: &Json) -> (r: Json)
    ensures
        r@ == marked(e@, mark@),
{
    match e.get("content") {
        Some(Json::Arr(a)) => {
            proof {
                lemma_items(a@);
            }
            let total: usize = a.len();
            if total == 0 {
                return e.clone();
            }
            let mut items: Vec<Json> = Vec::new();
            let mut i: usize = 0;
            assert(items_model(items@) =~= items_model(a@).take(0));
            while i < total - 1
                invariant
                    total == a@.len(),
                    total > 0,
                    i <= total - 1,
                    items_model(a@).len() == a@.len(),
                    forall|k: int| 0 <= k < a@.len() ==> #[trigger] items_model(a@)[k] == a@[k]@,
                    items_model(items@) == items_model(a@).take(i as int),
                decreases total - i,
            {
                let x: Json = a[i].clone();
                proof {
                    lemma_items_push(items@, x);
                    assert(items_model(a@).take(i + 1) =~= items_model(a@).take(i as int).push(x@));
                }
                items.push(x);
                i += 1;
            }
            let x: Json = a[total - 1].clone().with("cache_control", mark.clone());
            proof {
                lemma_items_push(items@, x);
                assert(items_model(a@).take(total - 1) =~= items_model(a@).drop_last());
            }
            items.push(x);
            e.clone().with("content", Json::Arr(items))
        },
        Some(Json::Str(t)) => {
            let mut items: Vec<Json> = Vec::new();
            let x: Json = make_text_block(t.as_str()).with("cache_control", mark.clone());
            proof {
                lemma_items_push(items@, x);
                assert(items_model(items@).push(x@) =~= one(x@));
            }
            items.push(x);
            e.clone().with("content", Json::Arr(items))
        },
        _ => e.clone(),
    }
}

/// Put the cache mark on the last user entry.
fn mark_last_user(v: &mut Vec<Json>, mark: &Json)
    ensures
        items_model(final(v)@) == last_user_marked(items_model(old(v)@), Some(mark@)),
{
    let ghost start = v@;
    let ghost all = items_model(v@);
    proof {
        lemma_items(v@);
    }
    let mut n: usize = v.len();
    while n > 0
        invariant
            v@ == start,
            start == old(v)@,
            n <= v@.len(),
            all == items_model(start),
            all.len() == start.len(),
            forall|k: int| 0 <= k < start.len() ==> #[trigger] all[k] == start[k]@,
            last_user(all, n as int) == last_user(all, all.len() as int),
        decreases n,
    {
        assert(all[n - 1] == v@[n - 1]@);
        let here: bool = match v[n - 1].string_at("role") {
            Some(role) => text::same(role, "user"),
            None => false,
        };
        if here {
            let new: Json = mark_entry(&v[n - 1], mark);
            v[n - 1] = new;
            proof {
                lemma_items(v@);
                assert(v@ =~= start.update(n - 1, new));
                assert(items_model(v@) =~= all.update(n - 1, new@));
            }
            return;
        }
        n -= 1;
    }
}

/// Convert the transcript into message parameters, grouping consecutive tool
/// results into a single `user` message (required by the API) and attaching the
/// cache mark to the last block of the last user message.
pub fn convert_messages(messages: &[Message], cache: Option<&Json>) -> (r: Vec<Json>)
    ensures
        items_model(r@) == last_user_marked(
            entries(messages_of(messages@), 0),
            match cache {
                Some(c) => Some(c@),
                None => None,
            },
        ),
{
    let ghost all = messages_of(messages@);
    let total: usize = messages.len();
    let mut out: Vec<Json> = Vec::new();
    let mut i: usize = 0;
    assert(items_model(out@) + entries(all, 0) =~= entries(all, 0));
    while i < total
        invariant
            all == messages_of(messages@),
            total == messages@.len(),
            i <= total,
            items_model(out@) + entries(all, i as int) == entries(all, 0),
        decreases total - i,
    {
        let ghost given = items_model(out@);
        let lo: usize = i;
        assert(all[i as int] == messages@[i as int]@);
        match &messages[i] {
            Message::User(u) => {
                match convert_user(u) {
                    Some(j) => {
                        proof {
                            lemma_items_push(out@, j);
                            assert(given.push(j@) + entries(all, i + 1) =~= given + (one(j@)
                                + entries(all, i + 1)));
                        }
                        out.push(j);
                    },
                    None => {
                        assert(Seq::<JsonView>::empty() + entries(all, i + 1) =~= entries(
                            all,
                            i + 1,
                        ));
                    },
                }
                i += 1;
            },
            Message::Assistant(a) => {
                match convert_assistant(&a.content) {
                    Some(j) => {
                        proof {
                            lemma_items_push(out@, j);
                            assert(given.push(j@) + entries(all, i + 1) =~= given + (one(j@)
                                + entries(all, i + 1)));
                        }
                        out.push(j);
                    },
                    None => {
                        assert(Seq::<JsonView>::empty() + entries(all, i + 1) =~= entries(
                            all,
                            i + 1,
                        ));
                    },
                }
                i += 1;
            },
            Message::ToolResult(_) => {
                let mut results: Vec<Json> = Vec::new();
                let mut open: bool = true;
                assert(items_model(results@) =~= result_run(all, lo as int, lo as int));
                while open
                    invariant
                        all == messages_of(messages@),
                        total == messages@.len(),
                        lo <= i <= total,
                        lo < total,
                        all[lo as int] is ToolResult,
                        i > lo ==> run_end(all, i as int) == run_end(all, lo + 1),
                        i == lo ==> open,
                        !open ==> i == run_end(all, lo + 1),
                        items_model(results@) == result_run(all, lo as int, i as int),
                    decreases total - i + (if open {
                        1int
                    } else {
                        0int
                    }),
                {
                    if i >= total {
                        open = false;
                    } else {
                        assert(all[i as int] == messages@[i as int]@);
                        match &messages[i] {
                            Message::ToolResult(tr) => {
                                let b: Json = Json::object().with(
                                    "type",
                                    Json::str("tool_result"),
                                ).with("tool_use_id", Json::str(tr.tool_call_id.as_str())).with(
                                    "content",
                                    convert_result_content(&tr.content),
                                ).with("is_error", Json::Bool(tr.is_error));
                                proof {
                                    lemma_items_push(results@, b);
                                }
                                results.push(b);
                                i += 1;
                            },
                            _ => {
                                open = false;
                            },
                        }
                    }
                }
                let j: Json = make_entry("user", Json::Arr(results));
                proof {
                    lemma_run_end(all, lo + 1);
                    lemma_items_push(out@, j);
                    assert(given.push(j@) + entries(all, i as int) =~= given + (one(j@) + entries(
                        all,
                        i as int,
                    )));
                }
                out.push(j);
            },
        }
    }
    assert(entries(all, i as int) =~= Seq::<JsonView>::empty());
    assert(items_model(out@) =~= entries(all, 0));
    if let Some(mark) = cache {
        mark_last_user(&mut out, mark);
    }
    out
}

// ---------------------------------------------------------------------------
// Tools and body
// ---------------------------------------------------------------------------

pub open spec fn or_value(o: Option<JsonView>, default: JsonView) -> JsonView {
    match o {
        Some(v) => v,
        None => default,
    }
}

/// What a tool becomes.
pub open spec fn tool_entry(t: ToolSchemaView) -> JsonView {
    object_of_three(
        "name"@,
        string_value(t.name),
        "description"@,
        string_value(t.description),
        "input_schema"@,
        object_of_three(
            "type"@,
            string_value("object"@),
            "properties"@,
            or_value(field(t.input_schema, "properties"@), JsonView::Obj(Map::empty())),
            "required"@,
            or_value(field(t.input_schema, "required"@), JsonView::Arr(Seq::empty())),
        ),
    )
}

/// The tools, with the cache mark on the last one.
pub open spec fn tool_entries(v: Seq<ToolSchemaView>, mark: Option<JsonView>) -> Seq<JsonView> {
    Seq::new(
        v.len(),
        |i: int|
            match mark {
                Some(m) => if i == v.len() - 1 {
                    with_field(tool_entry(v[i]), "cache_control"@, m)
                } else {
                    tool_entry(v[i])
                },
                None => tool_entry(v[i]),
            },
    )
}

pub open spec fn mark_view(cache: Option<&Json>) -> Option<JsonView> {
    match cache {
        Some(c) => Some(c@),
        None => None,
    }
}

pub fn convert_tools(tools: &[ToolSchema], cache: Option<&Json>) -> (r: Vec<Json>)
    ensures
        items_model(r@) == tool_entries(schemas_of(tools@), mark_view(cache)),
{
    let ghost all = schemas_of(tools@);
    let ghost want = tool_entries(all, mark_view(cache));
    let total: usize = tools.len();
    let mut out: Vec<Json> = Vec::new();
    let mut i: usize = 0;
    while i < total
        invariant
            all == schemas_of(tools@),
            want == tool_entries(all, mark_view(cache)),
            total == tools@.len(),
            i <= total,
            items_model(out@) == want.take(i as int),
        decreases total - i,
    {
        let t: &ToolSchema = &tools[i];
        assert(all[i as int] == t@);
        let properties: Json = match t.input_schema.get("properties") {
            Some(v) => v.clone(),
            None => Json::object(),
        };
        let required: Json = match t.input_schema.get("required") {
            Some(v) => v.clone(),
            None => Json::Arr(Vec::new()),
        };
        let schema: Json = Json::object().with("type", Json::str("object")).with(
            "properties",
            properties,
        ).with("required", required);
        let mut e: Json = Json::object().with("name", Json::str(t.name.as_str())).with(
            "description",
            Json::str(t.description.as_str()),
        ).with("input_schema", schema);
        if i == total - 1 {
            if let Some(mark) = cache {
                e = e.with("cache_control", mark.clone());
            }
        }
        proof {
            lemma_items_push(out@, e);
            assert(want[i as int] == e@);
            assert(want.take(i + 1) =~= want.take(i as int).push(e@));
        }
        out.push(e);
        i += 1;
    }
    assert(want.take(total as int) =~= want);
    out
}

/// The output cap of a request.
pub open spec fn output_cap(m: ModelView, o: OptionsView) -> usize {
    match o.max_tokens {
        Some(n) => n,
        None => m.max_tokens,
    }
}

/// The system prompt, unless it is blank.
pub open spec fn with_system(
    body: JsonView,
    prompt: Option<Seq<char>>,
    mark: Option<JsonView>,
) -> JsonView {
    match prompt {
        Some(p) => if text::is_blank_text(p) {
            body
        } else {
            with_field(
                body,
                "system"@,
                JsonView::Arr(
                    one(
                        match mark {
                            Some(m) => with_field(text_block(p), "cache_control"@, m),
                            None => text_block(p),
                        },
                    ),
                ),
            )
        },
        None => body,
    }
}

/// How a model is told to think: not at all, with an effort where it adapts, or
/// with a token budget. A model that cannot think gets a temperature instead,
/// where one is asked for and it takes one.
pub open spec fn with_thinking(body: JsonView, m: ModelView, o: OptionsView) -> JsonView {
    let off = with_field(body, "thinking"@, object_of_one("type"@, string_value("disabled"@)));
    if m.reasoning {
        match o.reasoning {
            None => off,
            Some(level) => if level == ThinkingLevel::Off {
                off
            } else if m.force_adaptive_thinking {
                let adaptive = object_of_two("type"@, string_value("adaptive"@), "display"@, string_value("summarized"@));
                match effort_of(level) {
                    Some(e) => with_field(
                        with_field(body, "output_config"@, object_of_one("effort"@, string_value(e))),
                        "thinking"@,
                        with_field(adaptive, "effort"@, string_value(e)),
                    ),
                    None => with_field(body, "thinking"@, adaptive),
                }
            } else {
                let budget = match o.thinking_budget_tokens {
                    Some(b) => b,
                    None => budget_of(level),
                };
                with_field(
                    body,
                    "thinking"@,
                    object_of_three(
                        "type"@,
                        string_value("enabled"@),
                        "budget_tokens"@,
                        JsonView::UInt(clamped_budget(budget, output_cap(m, o)) as u64),
                        "display"@,
                        string_value("summarized"@),
                    ),
                )
            },
        }
    } else {
        match o.temperature {
            Some(t) => if m.supports_temperature {
                with_field(body, "temperature"@, t)
            } else {
                body
            },
            None => body,
        }
    }
}

pub open spec fn with_tools(
    body: JsonView,
    tools: Seq<ToolSchemaView>,
    mark: Option<JsonView>,
) -> JsonView {
    if tools.len() == 0 {
        body
    } else {
        with_field(body, "tools"@, JsonView::Arr(tool_entries(tools, mark)))
    }
}

/// The body of a request.
pub open spec fn request_body(
    m: ModelView,
    prompt: Option<Seq<char>>,
    messages: Seq<MessageView>,
    tools: Seq<ToolSchemaView>,
    o: OptionsView,
) -> JsonView {
    let mark = cache_mark(o.cache_control);
    let base = object_of_four(
        "model"@,
        string_value(m.id),
        "messages"@,
        JsonView::Arr(last_user_marked(entries(messages, 0), mark)),
        "max_tokens"@,
        JsonView::UInt(output_cap(m, o) as u64),
        "stream"@,
        JsonView::Bool(true),
    );
    with_tools(with_thinking(with_system(base, prompt, mark), m, o), tools, mark)
}

fn clamp_budget(budget: usize, max_tokens: usize) -> (r: usize)
    ensures
        r == clamped_budget(budget, max_tokens),
{
    let cap: usize = if max_tokens > 0 {
        max_tokens - 1
    } else {
        0
    };
    let low: usize = if budget <= cap {
        budget
    } else {
        cap
    };
    if low >= 1024 {
        low
    } else {
        1024
    }
}

fn add_thinking(body: Json, model: &Model, options: &SimpleStreamOptions, max_tokens: usize) -> (r:
    Json)
    requires
        max_tokens == output_cap(model@, options@),
        body@ is Obj,
    ensures
        r@ == with_thinking(body@, model@, options@),
        r@ is Obj,
{
    if model.reasoning {
        let level: ThinkingLevel = match options.reasoning {
            Some(level) => level,
            None => ThinkingLevel::Off,
        };
        if level == ThinkingLevel::Off {
            return body.with("thinking", Json::object().with("type", Json::str("disabled")));
        }
        if model.force_adaptive_thinking {
            let adaptive: Json = Json::object().with("type", Json::str("adaptive")).with(
                "display",
                Json::str("summarized"),
            );
            match level_to_effort(level) {
                Some(e) => body.with(
                    "output_config",
                    Json::object().with("effort", Json::str(e)),
                ).with("thinking", adaptive.with("effort", Json::str(e))),
                None => body.with("thinking", adaptive),
            }
        } else {
            let budget: usize = match options.thinking_budget_tokens {
                Some(b) => b,
                None => level_to_budget(level),
            };
            let clamped: usize = clamp_budget(budget, max_tokens);
            body.with(
                "thinking",
                Json::object().with("type", Json::str("enabled")).with(
                    "budget_tokens",
                    Json::UInt(clamped as u64),
                ).with("display", Json::str("summarized")),
            )
        }
    } else {
        match &options.temperature {
            Some(t) => if model.supports_temperature {
                body.with("temperature", t.clone())
            } else {
                body
            },
            None => body,
        }
    }
}

/// The body of a streaming request.
pub fn build_request_body(
    model: &Model,
    context: &LlmContext<'_>,
    options: &SimpleStreamOptions,
) -> (r: Json)
    ensures
        r@ == request_body(
            model@,
            text::opt_str(context.system_prompt),
            messages_of(context.messages@),
            schemas_of(context.tools@),
            options@,
        ),
{
    let max_tokens: usize = match options.max_tokens {
        Some(n) => n,
        None => model.max_tokens,
    };
    let owned: Option<Json> = if options.cache_control {
        Some(cache_ephemeral())
    } else {
        None
    };
    let cache: Option<&Json> = match &owned {
        Some(c) => Some(c),
        None => None,
    };
    let messages: Vec<Json> = convert_messages(context.messages, cache);
    let mut body: Json = Json::object().with("model", Json::str(model.id.as_str())).with(
        "messages",
        Json::Arr(messages),
    ).with("max_tokens", Json::UInt(max_tokens as u64)).with("stream", Json::Bool(true));
    if let Some(prompt) = context.system_prompt {
        if !text::is_blank(prompt) {
            let mut block: Json = make_text_block(prompt);
            if let Some(mark) = cache {
                block = block.with("cache_control", mark.clone());
            }
            let mut system: Vec<Json> = Vec::new();
            proof {
                lemma_items_push(system@, block);
                assert(items_model(system@).push(block@) =~= one(block@));
            }
            system.push(block);
            body = body.with("system", Json::Arr(system));
        }
    }
    body = add_thinking(body, model, options, max_tokens);
    if context.tools.len() > 0 {
        body = body.with("tools", Json::Arr(convert_tools(context.tools, cache)));
    }
    body
}

/// A streaming request, ready to be sent.
#[derive(Debug)]
pub struct StreamRequest {
    pub url: String,
    pub headers: Vec<(String, String)>,
    pub body: Json,
    pub timeout_ms: Option<u64>,
}

/// The streaming request of a context.
pub fn stream_request(
    model: &Model,
    context: &LlmContext<'_>,
    options: &SimpleStreamOptions,
) -> (r: StreamRequest)
    ensures
        r.url@ == without_slashes(model@.base_url) + "/v1/messages"@,
        header_views(r.headers@) == request_headers(options@),
        r.body@ == request_body(
            model@,
            text::opt_str(context.system_prompt),
            messages_of(context.messages@),
            schemas_of(context.tools@),
            options@,
        ),
        r.timeout_ms == options@.timeout_ms,
{
    StreamRequest {
        url: messages_url(model.base_url.as_str()),
        headers: build_headers(options),
        body: build_request_body(model, context, options),
        timeout_ms: options.timeout_ms,
    }
}

// ---------------------------------------------------------------------------
// Laws
// ---------------------------------------------------------------------------

proof fn lemma_run_end_reaches(v: Seq<MessageView>, i: int, k: int)
    requires
        0 <= i <= k <= v.len(),
        forall|x: int| i <= x < k ==> #[trigger] v[x] is ToolResult,
    ensures
        run_end(v, i) >= k,
    decreases k - i,
{
    lemma_run_end(v, i);
    if i < k {
        lemma_run_end_reaches(v, i + 1, k);
    }
}

proof fn lemma_result_run(v: Seq<MessageView>, lo: int, hi: int)
    requires
        0 <= lo <= hi <= v.len(),
        forall|x: int| lo <= x < hi ==> #[trigger] v[x] is ToolResult,
    ensures
        result_run(v, lo, hi).len() == hi - lo,
        forall|x: int|
            lo <= x < hi ==> result_run(v, lo, hi)[x - lo] == result_block(
                #[trigger] v[x]->ToolResult_0,
            ),
    decreases hi - lo,
{
    if lo < hi {
        lemma_result_run(v, lo, hi - 1);
        assert(v[hi - 1] is ToolResult);
        assert forall|x: int| lo <= x < hi implies result_run(v, lo, hi)[x - lo] == result_block(
            #[trigger] v[x]->ToolResult_0,
        ) by {
            if x < hi - 1 {
                assert(result_run(v, lo, hi - 1)[x - lo] == result_block(v[x]->ToolResult_0));
            }
        }
    }
}

/// Consecutive tool results share one user message, in their order: where a run
/// starts at `i`, the next entry is the user's, and the result at `k` of the run
/// is its block `k - i`.
pub proof fn law_consecutive_tool_results_share_one_entry(v: Seq<MessageView>, i: int, k: int)
    requires
        0 <= i <= k < v.len(),
        forall|x: int| i <= x <= k ==> #[trigger] v[x] is ToolResult,
    ensures
        entries(v, i).len() > 0,
        string_field(entries(v, i)[0], "role"@) == Some("user"@),
        field(entries(v, i)[0], "content"@) matches Some(JsonView::Arr(a)) && k - i < a.len() && a[k
            - i] == result_block(v[k]->ToolResult_0),
{
    assert(v[i] is ToolResult);
    assert forall|x: int| i + 1 <= x < k + 1 implies #[trigger] v[x] is ToolResult by {}
    lemma_run_end(v, i + 1);
    lemma_run_end_reaches(v, i + 1, k + 1);
    let end = run_end(v, i + 1);
    assert forall|x: int| i <= x < end implies #[trigger] v[x] is ToolResult by {}
    lemma_result_run(v, i, end);
    let a = result_run(v, i, end);
    assert(a[k - i] == result_block(v[k]->ToolResult_0));
    reveal_strlit("role");
    reveal_strlit("content");
    assert("role"@.len() != "content"@.len());
}

/// Caching marks the last user entry, and nothing else: it is there where any
/// user entry is, the entries behind it are not a user's, and every other entry
/// is sent as it is.
pub proof fn law_only_the_last_user_entry_is_marked(v: Seq<JsonView>, mark: JsonView)
    ensures
        ({
            let w = last_user_marked(v, Some(mark));
            &&& w.len() == v.len()
            &&& (exists|i: int| 0 <= i < v.len() && is_users(#[trigger] v[i]))
                ==> exists|i: int|
                0 <= i < v.len() && is_users(#[trigger] v[i]) && w[i] == marked(v[i], mark) && (
                forall|k: int| i < k < v.len() ==> !is_users(#[trigger] v[k])) && forall|k: int|
                    0 <= k < v.len() && k != i ==> w[k] == #[trigger] v[k]
            &&& (forall|i: int| 0 <= i < v.len() ==> !is_users(#[trigger] v[i])) ==> w == v
        }),
{
    lemma_last_user(v, v.len() as int);
}

/// The keys of requests all differ where they stand in one object.
proof fn lemma_keys_differ()
    ensures
        "role"@ != "content"@,
        "type"@ != "text"@,
        "type"@ != "cache_control"@,
        "text"@ != "cache_control"@,
        "type"@ != "source"@,
        "type"@ != "media_type"@,
        "type"@ != "data"@,
        "media_type"@ != "data"@,
        "type"@ != "thinking"@,
        "type"@ != "signature"@,
        "thinking"@ != "signature"@,
        "type"@ != "id"@,
        "type"@ != "name"@,
        "type"@ != "input"@,
        "id"@ != "name"@,
        "id"@ != "input"@,
        "name"@ != "input"@,
        "type"@ != "tool_use_id"@,
        "type"@ != "content"@,
        "type"@ != "is_error"@,
        "tool_use_id"@ != "content"@,
        "tool_use_id"@ != "is_error"@,
        "content"@ != "is_error"@,
        "name"@ != "description"@,
        "name"@ != "input_schema"@,
        "name"@ != "cache_control"@,
        "description"@ != "cache_control"@,
        "input_schema"@ != "cache_control"@,
        "description"@ != "input_schema"@,
        "type"@ != "properties"@,
        "type"@ != "required"@,
        "properties"@ != "required"@,
        "type"@ != "budget_tokens"@,
        "type"@ != "display"@,
        "type"@ != "effort"@,
        "budget_tokens"@ != "display"@,
        "display"@ != "effort"@,
        "model"@ != "messages"@,
        "model"@ != "max_tokens"@,
        "model"@ != "stream"@,
        "model"@ != "system"@,
        "model"@ != "thinking"@,
        "model"@ != "output_config"@,
        "model"@ != "temperature"@,
        "model"@ != "tools"@,
        "messages"@ != "max_tokens"@,
        "messages"@ != "stream"@,
        "messages"@ != "system"@,
        "messages"@ != "thinking"@,
        "messages"@ != "output_config"@,
        "messages"@ != "temperature"@,
        "messages"@ != "tools"@,
        "max_tokens"@ != "stream"@,
        "max_tokens"@ != "system"@,
        "max_tokens"@ != "thinking"@,
        "max_tokens"@ != "output_config"@,
        "max_tokens"@ != "temperature"@,
        "max_tokens"@ != "tools"@,
        "stream"@ != "system"@,
        "stream"@ != "thinking"@,
        "stream"@ != "output_config"@,
        "stream"@ != "temperature"@,
        "stream"@ != "tools"@,
        "system"@ != "thinking"@,
        "system"@ != "output_config"@,
        "system"@ != "temperature"@,
        "system"@ != "tools"@,
        "thinking"@ != "output_config"@,
        "thinking"@ != "temperature"@,
        "thinking"@ != "tools"@,
        "output_config"@ != "temperature"@,
        "output_config"@ != "tools"@,
        "temperature"@ != "tools"@,
        "user"@ != "assistant"@,
{
    reveal_strlit("assistant");
    reveal_strlit("budget_tokens");
    reveal_strlit("cache_control");
    reveal_strlit("content");
    reveal_strlit("data");
    reveal_strlit("description");
    reveal_strlit("display");
    reveal_strlit("effort");
    reveal_strlit("id");
    reveal_strlit("input");
    reveal_strlit("input_schema");
    reveal_strlit("is_error");
    reveal_strlit("max_tokens");
    reveal_strlit("media_type");
    reveal_strlit("messages");
    reveal_strlit("model");
    reveal_strlit("name");
    reveal_strlit("output_config");
    reveal_strlit("properties");
    reveal_strlit("required");
    reveal_strlit("role");
    reveal_strlit("signature");
    reveal_strlit("source");
    reveal_strlit("stream");
    reveal_strlit("system");
    reveal_strlit("temperature");
    reveal_strlit("text");
    reveal_strlit("thinking");
    reveal_strlit("tool_use_id");
    reveal_strlit("tools");
    reveal_strlit("type");
    reveal_strlit("user");
    assert("role"@.len() != "content"@.len());
    assert("type"@[1] != "text"@[1]);
    assert("type"@.len() != "cache_control"@.len());
    assert("text"@.len() != "cache_control"@.len());
    assert("type"@.len() != "source"@.len());
    assert("type"@.len() != "media_type"@.len());
    assert("type"@[0] != "data"@[0]);
    assert("media_type"@.len() != "data"@.len());
    assert("type"@.len() != "thinking"@.len());
    assert("type"@.len() != "signature"@.len());
    assert("thinking"@.len() != "signature"@.len());
    assert("type"@.len() != "id"@.len());
    assert("type"@[0] != "name"@[0]);
    assert("type"@.len() != "input"@.len());
    assert("id"@.len() != "name"@.len());
    assert("id"@.len() != "input"@.len());
    assert("name"@.len() != "input"@.len());
    assert("type"@.len() != "tool_use_id"@.len());
    assert("type"@.len() != "content"@.len());
    assert("type"@.len() != "is_error"@.len());
    assert("tool_use_id"@.len() != "content"@.len());
    assert("tool_use_id"@.len() != "is_error"@.len());
    assert("content"@.len() != "is_error"@.len());
    assert("name"@.len() != "description"@.len());
    assert("name"@.len() != "input_schema"@.len());
    assert("name"@.len() != "cache_control"@.len());
    assert("description"@.len() != "cache_control"@.len());
    assert("input_schema"@.len() != "cache_control"@.len());
    assert("description"@.len() != "input_schema"@.len());
    assert("type"@.len() != "properties"@.len());
    assert("type"@.len() != "required"@.len());
    assert("properties"@.len() != "required"@.len());
    assert("type"@.len() != "budget_tokens"@.len());
    assert("type"@.len() != "display"@.len());
    assert("type"@.len() != "effort"@.len());
    assert("budget_tokens"@.len() != "display"@.len());
    assert("display"@.len() != "effort"@.len());
    assert("model"@.len() != "messages"@.len());
    assert("model"@.len() != "max_tokens"@.len());
    assert("model"@.len() != "stream"@.len());
    assert("model"@.len() != "system"@.len());
    assert("model"@.len() != "thinking"@.len());
    assert("model"@.len() != "output_config"@.len());
    assert("model"@.len() != "temperature"@.len());
    assert("model"@[0] != "tools"@[0]);
    assert("messages"@.len() != "max_tokens"@.len());
    assert("messages"@.len() != "stream"@.len());
    assert("messages"@.len() != "system"@.len());
    assert("messages"@[0] != "thinking"@[0]);
    assert("messages"@.len() != "output_config"@.len());
    assert("messages"@.len() != "temperature"@.len());
    assert("messages"@.len() != "tools"@.len());
    assert("max_tokens"@.len() != "stream"@.len());
    assert("max_tokens"@.len() != "system"@.len());
    assert("max_tokens"@.len() != "thinking"@.len());
    assert("max_tokens"@.len() != "output_config"@.len());
    assert("max_tokens"@.len() != "temperature"@.len());
    assert("max_tokens"@.len() != "tools"@.len());
    assert("stream"@[1] != "system"@[1]);
    assert("stream"@.len() != "thinking"@.len());
    assert("stream"@.len() != "output_config"@.len());
    assert("stream"@.len() != "temperature"@.len());
    assert("stream"@.len() != "tools"@.len());
    assert("system"@.len() != "thinking"@.len());
    assert("system"@.len() != "output_config"@.len());
    assert("system"@.len() != "temperature"@.len());
    assert("system"@.len() != "tools"@.len());
    assert("thinking"@.len() != "output_config"@.len());
    assert("thinking"@.len() != "temperature"@.len());
    assert("thinking"@.len() != "tools"@.len());
    assert("output_config"@.len() != "temperature"@.len());
    assert("output_config"@.len() != "tools"@.len());
    assert("temperature"@.len() != "tools"@.len());
    assert("user"@.len() != "assistant"@.len());
}

/// Is the text block of `t`.
pub open spec fn shows_text(b: JsonView, t: Seq<char>) -> bool {
    holds(b, "type"@, JsonView::Str("text"@)) && holds(b, "text"@, JsonView::Str(t))
}

/// Is the image block of base64 `data`.
pub open spec fn shows_image(b: JsonView, data: Seq<char>, mime: Seq<char>) -> bool {
    &&& holds(b, "type"@, JsonView::Str("image"@))
    &&& exists|s: JsonView|
        #[trigger] holds(b, "source"@, s) && holds(s, "type"@, JsonView::Str("base64"@)) && holds(
            s,
            "media_type"@,
            JsonView::Str(mime),
        ) && holds(s, "data"@, JsonView::Str(data))
}

/// Shows a block of a user's or a tool's content.
pub open spec fn shows_media(b: JsonView, m: MediaView) -> bool {
    match m {
        MediaView::Text(t) => shows_text(b, t),
        MediaView::Image(data, mime) => shows_image(b, data, mime),
    }
}

/// Shows the content of a tool result: its texts as one, or a block each where
/// there is an image among them.
pub open spec fn shows_content(c: JsonView, v: Seq<MediaView>) -> bool {
    if exists|i: int| 0 <= i < v.len() && #[trigger] v[i] is Image {
        c matches JsonView::Arr(a) && a.len() == v.len() && forall|i: int|
            0 <= i < v.len() ==> shows_media(a[i], #[trigger] v[i])
    } else {
        c == JsonView::Str(media_text(v))
    }
}

/// Answers a tool call: under its id, with its content and whether it failed.
pub open spec fn shows_result(b: JsonView, t: ToolResultView) -> bool {
    &&& holds(b, "type"@, JsonView::Str("tool_result"@))
    &&& holds(b, "tool_use_id"@, JsonView::Str(t.tool_call_id))
    &&& holds(b, "is_error"@, JsonView::Bool(t.is_error))
    &&& exists|c: JsonView| #[trigger] holds(b, "content"@, c) && shows_content(c, t.content)
}

proof fn lemma_media_shown(m: MediaView)
    ensures
        shows_media(media_block(m), m),
{
    lemma_keys_differ();
    if let MediaView::Image(data, mime) = m {
        let s = object_of_three(
            "type"@,
            string_value("base64"@),
            "media_type"@,
            string_value(mime),
            "data"@,
            string_value(data),
        );
        assert(holds(media_block(m), "source"@, s));
    }
}

proof fn lemma_result_shown(t: ToolResultView)
    ensures
        shows_result(result_block(t), t),
        lacks(result_block(t), "cache_control"@),
{
    lemma_keys_differ();
    let c = result_content(t.content);
    if has_image(t.content) {
        let a = c->Arr_0;
        assert forall|i: int| 0 <= i < t.content.len() implies shows_media(
            a[i],
            #[trigger] t.content[i],
        ) by {
            lemma_media_shown(t.content[i]);
        }
    }
    assert(shows_content(c, t.content));
    assert(holds(result_block(t), "content"@, c));
    reveal_strlit("cache_control");
    reveal_strlit("type");
    reveal_strlit("tool_use_id");
    reveal_strlit("is_error");
    reveal_strlit("content");
    assert("cache_control"@.len() == 13);
}

/// A tool result is sent as it came: where a run of results starts at `i`, the
/// next entry is the user's, and the result at `k` is its block `k - i`, under
/// the id of its call, with its content and whether it failed.
pub proof fn law_a_tool_result_is_sent_as_it_came(v: Seq<MessageView>, i: int, k: int)
    requires
        0 <= i <= k < v.len(),
        forall|x: int| i <= x <= k ==> #[trigger] v[x] is ToolResult,
    ensures
        entries(v, i).len() > 0,
        holds(entries(v, i)[0], "role"@, JsonView::Str("user"@)),
        exists|a: Seq<JsonView>| #[trigger]
            holds(entries(v, i)[0], "content"@, JsonView::Arr(a)) && k - i < a.len()
                && shows_result(a[k - i], v[k]->ToolResult_0),
{
    law_consecutive_tool_results_share_one_entry(v, i, k);
    lemma_keys_differ();
    lemma_result_shown(v[k]->ToolResult_0);
    let a = field(entries(v, i)[0], "content"@)->0->Arr_0;
    assert(holds(entries(v, i)[0], "content"@, JsonView::Arr(a)));
}

/// A user message is sent as the user's: its texts as one where it has no image,
/// and nothing where they are blank.
pub proof fn law_a_user_message_is_sent(v: Seq<MessageView>, i: int)
    requires
        0 <= i < v.len(),
        v[i] is User,
        forall|k: int|
            0 <= k < v[i]->User_0.content.len() ==> !(#[trigger] v[i]->User_0.content[k] is Image),
    ensures
        ({
            let t = media_text(v[i]->User_0.content);
            if text::trimmed(t).len() == 0 {
                entries(v, i) == entries(v, i + 1)
            } else {
                &&& entries(v, i).len() == 1 + entries(v, i + 1).len()
                &&& entries(v, i).skip(1) == entries(v, i + 1)
                &&& holds(entries(v, i)[0], "role"@, JsonView::Str("user"@))
                &&& holds(entries(v, i)[0], "content"@, JsonView::Str(t))
            }
        }),
{
    lemma_keys_differ();
    let t = media_text(v[i]->User_0.content);
    text::lemma_blank_is_trimmed_empty(t);
    if text::is_blank_text(t) {
        assert(entries(v, i) =~= entries(v, i + 1));
    } else {
        assert(entries(v, i).skip(1) =~= entries(v, i + 1));
    }
}

/// The blocks of a user message with an image are sent one for one, but for
/// blank texts.
pub proof fn law_user_blocks_are_sent_in_order(v: Seq<MediaView>, m: MediaView)
    ensures
        user_blocks(Seq::empty()).len() == 0,
        ({
            let all = user_blocks(v.push(m));
            let left_out = m matches MediaView::Text(t) && text::trimmed(t).len() == 0;
            if left_out {
                all == user_blocks(v)
            } else {
                &&& all.len() == user_blocks(v).len() + 1
                &&& all.drop_last() == user_blocks(v)
                &&& shows_media(all.last(), m)
            }
        }),
{
    assert(v.push(m).drop_last() =~= v);
    lemma_media_shown(m);
    if let MediaView::Text(t) = m {
        text::lemma_blank_is_trimmed_empty(t);
    }
    assert(user_blocks(v.push(m)).len() > user_blocks(v).len() ==> user_blocks(
        v.push(m),
    ).drop_last() =~= user_blocks(v));
}

/// A user message with an image is sent as the list of its blocks.
pub proof fn law_a_user_message_with_an_image_is_sent(v: Seq<MessageView>, i: int, k: int)
    requires
        0 <= i < v.len(),
        v[i] is User,
        0 <= k < v[i]->User_0.content.len(),
        v[i]->User_0.content[k] is Image,
    ensures
        ({
            let blocks = user_blocks(v[i]->User_0.content);
            &&& blocks.len() > 0
            &&& entries(v, i).len() == 1 + entries(v, i + 1).len()
            &&& entries(v, i).skip(1) == entries(v, i + 1)
            &&& holds(entries(v, i)[0], "role"@, JsonView::Str("user"@))
            &&& holds(entries(v, i)[0], "content"@, JsonView::Arr(blocks))
        }),
{
    lemma_keys_differ();
    let c = v[i]->User_0.content;
    lemma_images_are_sent(c, k);
    assert(has_image(c));
    assert(entries(v, i).skip(1) =~= entries(v, i + 1));
}

proof fn lemma_images_are_sent(v: Seq<MediaView>, k: int)
    requires
        0 <= k < v.len(),
        v[k] is Image,
    ensures
        user_blocks(v).len() > 0,
    decreases v.len(),
{
    if k < v.len() - 1 {
        lemma_images_are_sent(v.drop_last(), k);
    }
}

/// The blocks of an assistant message are sent in their order, each by its kind:
/// a text as it is, a signed thought with its signature, an unsigned one as text,
/// a redacted one by its data, and a call with its id, name and arguments. Blank
/// texts and thoughts are left out.
pub proof fn law_assistant_blocks_are_sent_in_order(v: Seq<BlockView>, b: BlockView)
    ensures
        assistant_blocks(Seq::empty()).len() == 0,
        ({
            let all = assistant_blocks(v.push(b));
            let before = assistant_blocks(v);
            let left_out = match b {
                BlockView::Text(t) => text::trimmed(t).len() == 0,
                BlockView::Thinking(t, _, redacted) => !redacted && text::trimmed(t).len() == 0,
                BlockView::ToolCall(_, _, _) => false,
            };
            if left_out {
                all == before
            } else {
                &&& all.len() == before.len() + 1
                &&& all.drop_last() == before
                &&& match b {
                    BlockView::Text(t) => shows_text(all.last(), t),
                    BlockView::Thinking(t, signature, redacted) => if redacted {
                        holds(all.last(), "type"@, JsonView::Str("redacted_thinking"@)) && holds(
                            all.last(),
                            "data"@,
                            JsonView::Str(signature),
                        )
                    } else if signature.len() == 0 {
                        shows_text(all.last(), t)
                    } else {
                        &&& holds(all.last(), "type"@, JsonView::Str("thinking"@))
                        &&& holds(all.last(), "thinking"@, JsonView::Str(t))
                        &&& holds(all.last(), "signature"@, JsonView::Str(signature))
                    },
                    BlockView::ToolCall(id, name, arguments) => {
                        &&& holds(all.last(), "type"@, JsonView::Str("tool_use"@))
                        &&& holds(all.last(), "id"@, JsonView::Str(id))
                        &&& holds(all.last(), "name"@, JsonView::Str(name))
                        &&& holds(all.last(), "input"@, arguments)
                    },
                }
            }
        }),
{
    lemma_keys_differ();
    assert(v.push(b).drop_last() =~= v);
    let all = assistant_blocks(v.push(b));
    let before = assistant_blocks(v);
    assert(all == before + assistant_block(b));
    match b {
        BlockView::Text(t) => {
            text::lemma_blank_is_trimmed_empty(t);
        },
        BlockView::Thinking(t, _, _) => {
            text::lemma_blank_is_trimmed_empty(t);
        },
        _ => {},
    }
    if assistant_block(b).len() == 0 {
        assert(all =~= before);
    } else {
        assert(all.drop_last() =~= before);
    }
}

/// An assistant message is sent as the assistant's, as the list of its blocks,
/// unless nothing is left of them.
pub proof fn law_an_assistant_message_is_sent(v: Seq<MessageView>, i: int)
    requires
        0 <= i < v.len(),
        v[i] is Assistant,
    ensures
        ({
            let blocks = assistant_blocks(v[i]->Assistant_0.content);
            if blocks.len() == 0 {
                entries(v, i) == entries(v, i + 1)
            } else {
                &&& entries(v, i).len() == 1 + entries(v, i + 1).len()
                &&& entries(v, i).skip(1) == entries(v, i + 1)
                &&& holds(entries(v, i)[0], "role"@, JsonView::Str("assistant"@))
                &&& holds(entries(v, i)[0], "content"@, JsonView::Arr(blocks))
            }
        }),
{
    lemma_keys_differ();
    if assistant_blocks(v[i]->Assistant_0.content).len() == 0 {
        assert(entries(v, i) =~= entries(v, i + 1));
    } else {
        assert(entries(v, i).skip(1) =~= entries(v, i + 1));
    }
}

/// A run of tool results is one entry, with a block for each and no more, and the
/// rest of the transcript follows it.
pub proof fn law_a_run_of_results_is_one_entry(v: Seq<MessageView>, i: int, end: int)
    requires
        0 <= i < end <= v.len(),
        forall|x: int| i <= x < end ==> #[trigger] v[x] is ToolResult,
        end < v.len() ==> !(v[end] is ToolResult),
    ensures
        entries(v, i).len() == 1 + entries(v, end).len(),
        entries(v, i).skip(1) == entries(v, end),
        exists|a: Seq<JsonView>| #[trigger]
            holds(entries(v, i)[0], "content"@, JsonView::Arr(a)) && a.len() == end - i,
{
    lemma_keys_differ();
    assert(v[i] is ToolResult);
    lemma_run_end(v, i + 1);
    lemma_run_end_reaches(v, i + 1, end);
    assert(run_end(v, i + 1) == end) by {
        if run_end(v, i + 1) > end {
            assert(v[end] is ToolResult);
        }
    }
    lemma_result_run(v, i, end);
    assert(entries(v, i).skip(1) =~= entries(v, end));
    assert(holds(entries(v, i)[0], "content"@, JsonView::Arr(result_run(v, i, end))));
}

proof fn lemma_entries_from(v: Seq<MessageView>, from: int, i: int) -> (before: Seq<JsonView>)
    requires
        0 <= from <= i <= v.len(),
        0 < i < v.len() ==> !(v[i] is ToolResult && v[i - 1] is ToolResult),
    ensures
        entries(v, from) == before + entries(v, i),
    decreases i - from,
{
    if from == i {
        let none = Seq::<JsonView>::empty();
        assert(none + entries(v, i) =~= entries(v, i));
        none
    } else {
        match v[from] {
            MessageView::User(u) => {
                let rest = lemma_entries_from(v, from + 1, i);
                let before = user_entry(u.content) + rest;
                assert(entries(v, from) =~= before + entries(v, i));
                before
            },
            MessageView::Assistant(a) => {
                let rest = lemma_entries_from(v, from + 1, i);
                let before = assistant_entry(a.content) + rest;
                assert(entries(v, from) =~= before + entries(v, i));
                before
            },
            MessageView::ToolResult(_) => {
                let end = run_end(v, from + 1);
                lemma_run_end(v, from + 1);
                assert(end <= i) by {
                    if i < end {
                        assert(v[i] is ToolResult);
                        assert(v[i - 1] is ToolResult);
                    }
                }
                let rest = lemma_entries_from(v, end, i);
                let before = one(entry("user"@, JsonView::Arr(result_run(v, from, end)))) + rest;
                assert(entries(v, from) =~= before + entries(v, i));
                before
            },
        }
    }
}

/// The entries follow the transcript: what is sent of the messages from `i` on is
/// the end of what is sent, unless `i` is within a run of tool results.
pub proof fn law_entries_follow_the_transcript(v: Seq<MessageView>, i: int)
    requires
        0 <= i <= v.len(),
        0 < i < v.len() ==> !(v[i] is ToolResult && v[i - 1] is ToolResult),
    ensures
        entries(v, i).len() <= entries(v, 0).len(),
        entries(v, 0).skip(entries(v, 0).len() - entries(v, i).len()) == entries(v, i),
        entries(v, v.len() as int).len() == 0,
{
    let before = lemma_entries_from(v, 0, i);
    assert(entries(v, 0).skip(entries(v, 0).len() - entries(v, i).len()) =~= entries(v, i));
}

/// The same block, but for a cache mark.
pub open spec fn same_but_mark(b: JsonView, c: JsonView) -> bool {
    match (b, c) {
        (JsonView::Obj(m), JsonView::Obj(n)) => m.remove("cache_control"@) == n.remove(
            "cache_control"@,
        ),
        _ => b == c,
    }
}

/// A cache mark adds itself and nothing else: the entry keeps its role; of a list
/// of blocks the last one gets the mark, and the others stay; a text becomes a
/// text block with the mark.
pub proof fn law_a_mark_adds_only_itself(e: JsonView, mark: JsonView)
    requires
        e is Obj,
    ensures
        ({
            let r = marked(e, mark);
            &&& r matches JsonView::Obj(n) && n.remove("content"@) == e->Obj_0.remove("content"@)
            &&& forall|t: Seq<char>| #[trigger]
                holds(e, "content"@, JsonView::Str(t)) ==> exists|b: JsonView|
                    #![trigger shows_text(b, t)]
                    holds(r, "content"@, JsonView::Arr(seq![b])) && shows_text(b, t) && holds(
                        b,
                        "cache_control"@,
                        mark,
                    )
            &&& forall|a: Seq<JsonView>| #[trigger]
                holds(e, "content"@, JsonView::Arr(a)) && a.len() > 0 && a.last() is Obj ==> exists|
                    b: JsonView,
                | #[trigger]
                    same_but_mark(a.last(), b) && holds(
                        r,
                        "content"@,
                        JsonView::Arr(a.drop_last().push(b)),
                    ) && holds(b, "cache_control"@, mark)
        }),
{
    lemma_keys_differ();
    let r = marked(e, mark);
    let m = e->Obj_0;
    match field(e, "content"@) {
        Some(JsonView::Arr(a)) => {
            if a.len() > 0 {
                let b = with_field(a.last(), "cache_control"@, mark);
                if a.last() is Obj {
                    assert(b->Obj_0.remove("cache_control"@) =~= a.last()->Obj_0.remove(
                        "cache_control"@,
                    ));
                    assert(same_but_mark(a.last(), b));
                }
                assert(r->Obj_0.remove("content"@) =~= m.remove("content"@));
            }
        },
        Some(JsonView::Str(t)) => {
            let b = with_field(text_block(t), "cache_control"@, mark);
            assert(shows_text(b, t));
            assert(r->Obj_0.remove("content"@) =~= m.remove("content"@));
        },
        _ => {},
    }
}

proof fn lemma_marks_keep_results(b: JsonView, c: JsonView, t: ToolResultView)
    requires
        same_but_mark(b, c),
        shows_result(b, t),
        c is Obj,
    ensures
        shows_result(c, t),
{
    lemma_keys_differ();
    let m = b->Obj_0;
    let n = c->Obj_0;
    reveal_strlit("cache_control");
    reveal_strlit("type");
    reveal_strlit("tool_use_id");
    reveal_strlit("is_error");
    reveal_strlit("content");
    assert("cache_control"@.len() == 13);
    assert forall|k: Seq<char>| k != "cache_control"@ && m.dom().contains(k) implies #[trigger]
        n.dom().contains(k) && n[k] == m[k] by {
        assert(m.remove("cache_control"@).dom().contains(k));
        assert(n.remove("cache_control"@).dom().contains(k));
        assert(m.remove("cache_control"@)[k] == n.remove("cache_control"@)[k]);
    }
    let x = choose|x: JsonView| #[trigger] holds(b, "content"@, x) && shows_content(x, t.content);
    assert("type"@ != "cache_control"@);
    assert("tool_use_id"@ != "cache_control"@) by {
        assert("tool_use_id"@.len() == 11);
    }
    assert("is_error"@ != "cache_control"@) by {
        assert("is_error"@.len() == 8);
    }
    assert("content"@ != "cache_control"@) by {
        assert("content"@.len() == 7);
    }
    assert(m.dom().contains("type"@) && m.dom().contains("tool_use_id"@) && m.dom().contains(
        "is_error"@,
    ) && m.dom().contains("content"@));
    assert(n.dom().contains("type"@) && n.dom().contains("tool_use_id"@) && n.dom().contains(
        "is_error"@,
    ) && n.dom().contains("content"@));
    assert(holds(c, "content"@, x));
}

/// Every tool result of a transcript is answered in the request: some entry of
/// the user's holds a block for it, under the id of its call, with its content
/// and whether it failed, with or without a cache mark.
pub proof fn law_every_tool_result_is_sent(
    v: Seq<MessageView>,
    k: int,
    mark: Option<JsonView>,
)
    requires
        0 <= k < v.len(),
        v[k] is ToolResult,
    ensures
        exists|e: int, a: Seq<JsonView>, b: int|
            #![trigger holds(last_user_marked(entries(v, 0), mark)[e], "content"@, JsonView::Arr(a)), a[b]]
            {
                let sent = last_user_marked(entries(v, 0), mark);
                &&& 0 <= e < sent.len()
                &&& holds(sent[e], "role"@, JsonView::Str("user"@))
                &&& holds(sent[e], "content"@, JsonView::Arr(a))
                &&& 0 <= b < a.len()
                &&& shows_result(a[b], v[k]->ToolResult_0)
            },
{
    let t = v[k]->ToolResult_0;
    let i = lemma_run_start(v, k);
    law_a_tool_result_is_sent_as_it_came(v, i, k);
    law_entries_follow_the_transcript(v, i);
    let all = entries(v, 0);
    let e = all.len() - entries(v, i).len();
    assert(all[e] == entries(v, i)[0]);
    let a = choose|a: Seq<JsonView>| #[trigger]
        holds(entries(v, i)[0], "content"@, JsonView::Arr(a)) && k - i < a.len() && shows_result(
            a[k - i],
            t,
        );
    let sent = last_user_marked(all, mark);
    lemma_last_user(all, all.len() as int);
    lemma_keys_differ();
    if mark is Some && last_user(all, all.len() as int) == Some(e) {
        let m = mark->0;
        law_a_mark_adds_only_itself(all[e], m);
        assert(holds(all[e], "content"@, JsonView::Arr(a)));
        lemma_run_shown(v, i, a);
        assert(a.last() is Obj);
        let b = choose|b: JsonView| #[trigger]
            same_but_mark(a.last(), b) && holds(
                marked(all[e], m),
                "content"@,
                JsonView::Arr(a.drop_last().push(b)),
            ) && holds(b, "cache_control"@, m);
        let w = a.drop_last().push(b);
        if k - i == a.len() - 1 {
            lemma_marks_keep_results(a.last(), b, t);
        }
        assert(shows_result(w[k - i], t));
        assert(all[e]->Obj_0.remove("content"@).dom().contains("role"@));
        assert(sent[e]->Obj_0.remove("content"@).dom().contains("role"@));
        assert(sent[e]->Obj_0.remove("content"@)["role"@] == all[e]->Obj_0.remove(
            "content"@,
        )["role"@]);
        assert(holds(sent[e], "role"@, JsonView::Str("user"@)));
        assert(holds(sent[e], "content"@, JsonView::Arr(w)));
    } else {
        assert(sent[e] == all[e]);
        assert(holds(sent[e], "content"@, JsonView::Arr(a)));
        assert(shows_result(a[k - i], t));
    }
}

proof fn lemma_run_start(v: Seq<MessageView>, k: int) -> (i: int)
    requires
        0 <= k < v.len(),
        v[k] is ToolResult,
    ensures
        0 <= i <= k,
        forall|x: int| i <= x <= k ==> #[trigger] v[x] is ToolResult,
        i > 0 ==> !(v[i - 1] is ToolResult),
    decreases k,
{
    if k > 0 && v[k - 1] is ToolResult {
        lemma_run_start(v, k - 1)
    } else {
        k
    }
}

proof fn lemma_run_shown(v: Seq<MessageView>, i: int, a: Seq<JsonView>)
    requires
        0 <= i < v.len(),
        v[i] is ToolResult,
        holds(entries(v, i)[0], "content"@, JsonView::Arr(a)),
    ensures
        a.len() > 0,
        a.last() is Obj,
{
    lemma_keys_differ();
    let end = run_end(v, i + 1);
    lemma_run_end(v, i + 1);
    assert forall|x: int| i <= x < end implies #[trigger] v[x] is ToolResult by {}
    lemma_result_run(v, i, end);
    assert(a == result_run(v, i, end));
    assert(v[end - 1] is ToolResult);
}

/// A request names the model, asks for a stream, carries the transcript, and caps
/// the output: by the option where there is one, else by the model's own cap.
pub proof fn law_a_request_carries_the_transcript(
    m: ModelView,
    prompt: Option<Seq<char>>,
    messages: Seq<MessageView>,
    tools: Seq<ToolSchemaView>,
    o: OptionsView,
)
    ensures
        ({
            let body = request_body(m, prompt, messages, tools, o);
            &&& holds(body, "model"@, JsonView::Str(m.id))
            &&& holds(body, "stream"@, JsonView::Bool(true))
            &&& forall|n: usize|
                #![trigger n as u64]
                o.max_tokens == Some(n) ==> holds(body, "max_tokens"@, JsonView::UInt(n as u64))
            &&& o.max_tokens is None ==> holds(
                body,
                "max_tokens"@,
                JsonView::UInt(m.max_tokens as u64),
            )
            &&& !o.cache_control ==> holds(
                body,
                "messages"@,
                JsonView::Arr(entries(messages, 0)),
            )
            &&& o.cache_control ==> exists|mark: JsonView| #[trigger]
                holds(mark, "type"@, JsonView::Str("ephemeral"@)) && holds(
                    body,
                    "messages"@,
                    JsonView::Arr(last_user_marked(entries(messages, 0), Some(mark))),
                )
        }),
{
    lemma_keys_differ();
    assert(holds(ephemeral(), "type"@, JsonView::Str("ephemeral"@)));
}

/// The system prompt is sent as one text block, marked where caching is on; a
/// blank one is not sent.
pub proof fn law_the_system_prompt_is_sent(
    m: ModelView,
    prompt: Seq<char>,
    messages: Seq<MessageView>,
    tools: Seq<ToolSchemaView>,
    o: OptionsView,
)
    ensures
        lacks(request_body(m, None, messages, tools, o), "system"@),
        ({
            let body = request_body(m, Some(prompt), messages, tools, o);
            if text::trimmed(prompt).len() == 0 {
                lacks(body, "system"@)
            } else {
                exists|b: JsonView|
                    {
                        &&& holds(body, "system"@, JsonView::Arr(seq![b]))
                        &&& #[trigger] shows_text(b, prompt)
                        &&& o.cache_control ==> exists|mark: JsonView|
                            holds(b, "cache_control"@, mark) && #[trigger] holds(
                                mark,
                                "type"@,
                                JsonView::Str("ephemeral"@),
                            )
                        &&& !o.cache_control ==> lacks(b, "cache_control"@)
                    }
            }
        }),
{
    lemma_keys_differ();
    text::lemma_blank_is_trimmed_empty(prompt);
    assert(holds(ephemeral(), "type"@, JsonView::Str("ephemeral"@)));
    if !text::is_blank_text(prompt) {
        let b = if o.cache_control {
            with_field(text_block(prompt), "cache_control"@, ephemeral())
        } else {
            text_block(prompt)
        };
        let body = request_body(m, Some(prompt), messages, tools, o);
        assert(shows_text(b, prompt));
        assert(one(b) =~= seq![b]);
        assert(holds(body, "system"@, JsonView::Arr(seq![b])));
    }
}

/// Every tool is offered, in its order, by its name, its description and its
/// parameters; the last one is marked where caching is on. Without tools none are
/// offered.
pub proof fn law_tools_are_offered(
    m: ModelView,
    prompt: Option<Seq<char>>,
    messages: Seq<MessageView>,
    tools: Seq<ToolSchemaView>,
    o: OptionsView,
)
    ensures
        ({
            let body = request_body(m, prompt, messages, tools, o);
            &&& tools.len() == 0 ==> lacks(body, "tools"@)
            &&& tools.len() > 0 ==> exists|a: Seq<JsonView>|
                {
                    &&& #[trigger] holds(body, "tools"@, JsonView::Arr(a))
                    &&& a.len() == tools.len()
                    &&& forall|i: int| 0 <= i < a.len() ==> offers(a[i], #[trigger] tools[i])
                    &&& forall|i: int|
                        0 <= i < a.len() ==> (lacks(#[trigger] a[i], "cache_control"@) <==> !(
                        o.cache_control && i == a.len() - 1))
                }
        }),
{
    lemma_keys_differ();
    if tools.len() > 0 {
        let mark = cache_mark(o.cache_control);
        let a = tool_entries(tools, mark);
        assert forall|i: int| 0 <= i < a.len() implies offers(a[i], #[trigger] tools[i]) by {
            let plain = tool_entry(tools[i]);
            let s = plain->Obj_0["input_schema"@];
            assert(holds(a[i], "input_schema"@, s));
        }
        assert(holds(request_body(m, prompt, messages, tools, o), "tools"@, JsonView::Arr(a)));
    }
}

/// Offers a tool: under its name, with its description, and with the parameters
/// and the required ones that its schema holds.
pub open spec fn offers(e: JsonView, t: ToolSchemaView) -> bool {
    &&& holds(e, "name"@, JsonView::Str(t.name))
    &&& holds(e, "description"@, JsonView::Str(t.description))
    &&& exists|s: JsonView|
        {
            &&& #[trigger] holds(e, "input_schema"@, s)
            &&& holds(s, "type"@, JsonView::Str("object"@))
            &&& lacks(t.input_schema, "properties"@) ==> holds(
                s,
                "properties"@,
                JsonView::Obj(Map::empty()),
            )
            &&& forall|x: JsonView| #[trigger]
                holds(t.input_schema, "properties"@, x) ==> holds(s, "properties"@, x)
            &&& lacks(t.input_schema, "required"@) ==> holds(
                s,
                "required"@,
                JsonView::Arr(Seq::empty()),
            )
            &&& forall|x: JsonView| #[trigger]
                holds(t.input_schema, "required"@, x) ==> holds(s, "required"@, x)
        }
}

/// A model that reasons is told whether to think: not at all, by effort where it
/// adapts, or within a budget of tokens. One that does not reason is told nothing
/// of it, and may get a temperature.
pub proof fn law_thinking_is_asked_for_by_the_model_and_the_level(
    m: ModelView,
    prompt: Option<Seq<char>>,
    messages: Seq<MessageView>,
    tools: Seq<ToolSchemaView>,
    o: OptionsView,
)
    ensures
        ({
            let body = request_body(m, prompt, messages, tools, o);
            let on = m.reasoning && (o.reasoning matches Some(l) && l != ThinkingLevel::Off);
            &&& m.reasoning && !on ==> exists|t: JsonView| #[trigger]
                holds(body, "thinking"@, t) && holds(t, "type"@, JsonView::Str("disabled"@))
            &&& on && m.force_adaptive_thinking ==> exists|t: JsonView, c: JsonView|
                {
                    &&& #[trigger] holds(body, "thinking"@, t)
                    &&& holds(t, "type"@, JsonView::Str("adaptive"@))
                    &&& #[trigger] holds(body, "output_config"@, c)
                    &&& effort_of(o.reasoning->0) is Some
                    &&& holds(t, "effort"@, JsonView::Str(effort_of(o.reasoning->0)->0))
                    &&& holds(c, "effort"@, JsonView::Str(effort_of(o.reasoning->0)->0))
                }
            &&& on && !m.force_adaptive_thinking ==> exists|t: JsonView, n: u64|
                {
                    &&& #[trigger] holds(body, "thinking"@, t)
                    &&& holds(t, "type"@, JsonView::Str("enabled"@))
                    &&& #[trigger] holds(t, "budget_tokens"@, JsonView::UInt(n))
                    &&& n >= 1024
                    &&& n == 1024 || n < output_cap(m, o)
                    &&& forall|b: usize|
                        o.thinking_budget_tokens == Some(b) && 1024 <= b < output_cap(m, o)
                            ==> n == b as u64
                }
            &&& !m.reasoning ==> lacks(body, "thinking"@)
            &&& !(on && m.force_adaptive_thinking) ==> lacks(body, "output_config"@)
            &&& !m.reasoning && m.supports_temperature && o.temperature is Some ==> holds(
                body,
                "temperature"@,
                o.temperature->0,
            )
            &&& m.reasoning || !m.supports_temperature || o.temperature is None ==> lacks(
                body,
                "temperature"@,
            )
        }),
{
    lemma_keys_differ();
    let body = request_body(m, prompt, messages, tools, o);
    let on = m.reasoning && (o.reasoning matches Some(l) && l != ThinkingLevel::Off);
    if m.reasoning {
        let t = body->Obj_0["thinking"@];
        assert(holds(body, "thinking"@, t));
        if on && m.force_adaptive_thinking {
            let c = body->Obj_0["output_config"@];
            assert(holds(body, "output_config"@, c));
        } else if on {
            let b = match o.thinking_budget_tokens {
                Some(b) => b,
                None => budget_of(o.reasoning->0),
            };
            let n = clamped_budget(b, output_cap(m, o)) as u64;
            assert(holds(t, "budget_tokens"@, JsonView::UInt(n)));
        }
    }
}

/// The efforts and budgets of the levels: more thinking never gets less of
/// either, and none gets nothing.
pub proof fn law_levels_are_ordered()
    ensures
        effort_of(ThinkingLevel::Off) is None,
        effort_of(ThinkingLevel::Minimal) == Some("low"@),
        effort_of(ThinkingLevel::Low) == Some("low"@),
        effort_of(ThinkingLevel::Medium) == Some("medium"@),
        effort_of(ThinkingLevel::High) == Some("high"@),
        effort_of(ThinkingLevel::Xhigh) == Some("xhigh"@),
        budget_of(ThinkingLevel::Off) == 0,
        budget_of(ThinkingLevel::Minimal) == 1024,
        budget_of(ThinkingLevel::Low) == 4 * budget_of(ThinkingLevel::Minimal),
        budget_of(ThinkingLevel::Medium) == 2 * budget_of(ThinkingLevel::Low),
        budget_of(ThinkingLevel::High) == 16000,
        budget_of(ThinkingLevel::Xhigh) == 24000,
{
}

/// A thinking budget is as asked where it lies between its floor and the output
/// cap, and else the nearer of the two.
pub proof fn law_a_thinking_budget_leaves_room_for_output(budget: usize, cap: usize)
    ensures
        clamped_budget(budget, cap) >= 1024,
        cap > 1024 ==> clamped_budget(budget, cap) < cap,
        1024 <= budget < cap ==> clamped_budget(budget, cap) == budget,
        budget < 1024 || cap <= 1024 ==> clamped_budget(budget, cap) == 1024,
        1024 < cap <= budget ==> clamped_budget(budget, cap) == cap - 1,
{
}

/// A request carries one credential at most: a bearer token where there is one,
/// else the key; neither where it cannot stand in a header.
pub proof fn law_a_request_carries_one_credential(o: OptionsView)
    ensures
        ({
            let h = request_headers(o);
            &&& h.contains(("accept"@, "application/json"@))
            &&& h.contains(("anthropic-version"@, "2023-06-01"@))
            &&& h.len() <= 4
            &&& forall|token: Seq<char>|
                #![trigger "Bearer "@ + token]
                o.auth_token == Some(token) && header_valid("Bearer "@ + token) ==> h.len() == 4
                    && h[3] == ("authorization"@, "Bearer "@ + token)
            &&& forall|key: Seq<char>| #[trigger]
                header_valid(key) && o.auth_token is None && o.api_key == Some(key) ==> h.len() == 4
                    && h[3] == ("x-api-key"@, key)
            &&& o.auth_token is None && o.api_key is None ==> h.len() == 3
        }),
{
    let h = request_headers(o);
    assert(h[0] == ("accept"@, "application/json"@));
    assert(h[1] == ("anthropic-version"@, "2023-06-01"@));
}

/// The slashes at the end of a base address, and only those, are dropped.
pub proof fn law_only_trailing_slashes_are_dropped(s: Seq<char>)
    ensures
        without_slashes(s).len() <= s.len(),
        without_slashes(s) == s.take(without_slashes(s).len() as int),
        without_slashes(s).len() > 0 ==> without_slashes(s).last() != '/',
        forall|i: int| without_slashes(s).len() <= i < s.len() ==> s[i] == '/',
    decreases s.len(),
{
    if s.len() > 0 && s.last() == '/' {
        law_only_trailing_slashes_are_dropped(s.drop_last());
        let w = without_slashes(s.drop_last());
        assert(s.drop_last().take(w.len() as int) =~= s.take(w.len() as int));
        assert forall|i: int| w.len() <= i < s.len() implies s[i] == '/' by {
            if i < s.len() - 1 {
                assert(s.drop_last()[i] == '/');
            }
        }
    } else {
        assert(s.take(s.len() as int) =~= s);
    }
}

/// An entry is the user's by its role alone.
pub proof fn law_entries_are_told_by_their_role(e: JsonView)
    ensures
        is_users(e) <==> holds(e, "role"@, JsonView::Str("user"@)),
{
}

/// Without a mark the entries are sent as they are.
pub proof fn law_nothing_is_marked_without_a_mark(v: Seq<JsonView>)
    ensures
        last_user_marked(v, None) == v,
        cache_mark(false) is None,
        cache_mark(true) matches Some(m) && holds(m, "type"@, JsonView::Str("ephemeral"@)),
{
}

/// By default no credential, cap, level or time limit is set, and caching is on.
pub proof fn law_caching_is_on_by_default()
    ensures
        ({
            let o = default_options();
            &&& o.cache_control
            &&& o.api_key is None && o.auth_token is None && o.max_tokens is None
            &&& o.temperature is None && o.reasoning is None && o.thinking_budget_tokens is None
            &&& o.timeout_ms is None
        }),
{
}

/// The output cap is the option's where there is one, else the model's.
pub proof fn law_the_output_cap_may_be_set(m: ModelView, o: OptionsView)
    ensures
        o.max_tokens matches Some(n) ==> output_cap(m, o) == n,
        o.max_tokens is None ==> output_cap(m, o) == m.max_tokens,
{
}

} // verus!
