//! Agent session: the live transcript, its size, its compaction, and its lines
//! in a session file.

use vstd::prelude::*;
use vstd::utf8::encode_utf8;

use crate::agent::context::{tools_of, ToolInfo, ToolInfoView};
use crate::ai;
use crate::ai::anthropic::{OptionsView, SimpleStreamOptions};
use crate::ai::types::{
    assistant_text, blocks_of, copy_opt, law_assistant_text_is_its_texts,
    law_media_text_is_the_texts_a_line_apart, media_text, media_texts, messages_of, models_of,
    result_blocks_of, result_text, usage_sum, user_blocks_of, AssistantMessage, AssistantView,
    BlockView, ContentBlock, MediaView, Message, MessageView, Model, ModelView, ThinkingLevel,
    ToolResultContent, Usage, UserBlock, UserMessage, UserView,
};
use crate::json;
use crate::json::{json_written, Json, JsonView};
use crate::text;
use crate::tools::truncate::{double_unit, double_value, fewer, nearest_even, value_of_double};

verus! {

/// Rough characters-per-token estimate for budgeting/compaction.
pub const CHARS_PER_TOKEN: usize = 4;

/// The system prompt of a summary request.
pub const SUMMARY_SYSTEM_PROMPT: &'static str = "You compact agent conversation transcripts.";

// ---------------------------------------------------------------------------
// Size
// ---------------------------------------------------------------------------

/// The bytes of some texts together.
pub open spec fn bytes_of(v: Seq<Seq<char>>) -> nat
    decreases v.len(),
{
    if v.len() == 0 {
        0
    } else {
        bytes_of(v.drop_last()) + text::byte_len(v.last())
    }
}

/// The text bytes of a message.
pub open spec fn message_bytes(m: MessageView) -> nat {
    match m {
        MessageView::User(u) => text::byte_len(media_text(u.content)),
        MessageView::Assistant(a) => text::byte_len(assistant_text(a.content)),
        MessageView::ToolResult(t) => bytes_of(media_texts(t.content)),
    }
}

pub open spec fn transcript_bytes(v: Seq<MessageView>) -> nat
    decreases v.len(),
{
    if v.len() == 0 {
        0
    } else {
        transcript_bytes(v.drop_last()) + message_bytes(v.last())
    }
}

/// The estimated tokens of a transcript: a token for every four bytes, counted
/// as far as a machine word goes.
pub open spec fn tokens(v: Seq<MessageView>) -> nat {
    fewer(transcript_bytes(v), usize::MAX as nat) / 4
}

fn result_bytes(content: &Vec<ToolResultContent>) -> (r: usize)
    ensures
        r == fewer(bytes_of(media_texts(result_blocks_of(content@))), usize::MAX as nat),
{
    let ghost all = result_blocks_of(content@);
    let mut sum: usize = 0;
    let mut i: usize = 0;
    while i < content.len()
        invariant
            all == result_blocks_of(content@),
            i <= content@.len(),
            sum == fewer(bytes_of(media_texts(all.take(i as int))), usize::MAX as nat),
        decreases content@.len() - i,
    {
        proof {
            assert(all.take(i + 1).drop_last() =~= all.take(i as int));
            assert(all.take(i + 1).last() == content@[i as int]@);
        }
        if let ToolResultContent::Text { text: t } = &content[i] {
            let n: usize = text::byte_length(t.as_str());
            proof {
                let before = media_texts(all.take(i as int));
                assert(before.push(t@).drop_last() =~= before);
            }
            sum = sum.saturating_add(n);
        }
        i += 1;
    }
    assert(all.take(all.len() as int) =~= all);
    sum
}

/// Rough token estimate for a run of messages (about four bytes to a token).
pub fn estimate_tokens(messages: &[Message]) -> (r: usize)
    ensures
        r == tokens(messages_of(messages@)),
{
    let ghost all = messages_of(messages@);
    let mut sum: usize = 0;
    let mut i: usize = 0;
    while i < messages.len()
        invariant
            all == messages_of(messages@),
            i <= messages@.len(),
            sum == fewer(transcript_bytes(all.take(i as int)), usize::MAX as nat),
        decreases messages@.len() - i,
    {
        proof {
            assert(all.take(i + 1).drop_last() =~= all.take(i as int));
            assert(all.take(i + 1).last() == messages@[i as int]@);
        }
        let n: usize = match &messages[i] {
            Message::User(u) => text::byte_length(u.text_content().as_str()),
            Message::Assistant(a) => text::byte_length(a.text_content().as_str()),
            Message::ToolResult(t) => result_bytes(&t.content),
        };
        sum = sum.saturating_add(n);
        i += 1;
    }
    assert(all.take(all.len() as int) =~= all);
    sum / CHARS_PER_TOKEN
}

// ---------------------------------------------------------------------------
// Compaction
// ---------------------------------------------------------------------------

/// The double-precision number nearest to four fifths, in units of 2^-52.
pub const FOUR_FIFTHS: u64 = 3602879701896397;

/// The compaction budget: four fifths of the context window, computed in double
/// precision and rounded down.
pub open spec fn budget(window: nat) -> nat {
    double_value(double_value(window) * (FOUR_FIFTHS as nat)) / 0x10_0000_0000_0000
}

/// The first user message from `i` on.
pub open spec fn next_user(v: Seq<MessageView>, i: int) -> Option<int>
    decreases v.len() - i,
{
    if i < 0 || i >= v.len() {
        None
    } else if v[i] is User {
        Some(i)
    } else {
        next_user(v, i + 1)
    }
}

/// The next user message lies where it was looked for.
pub proof fn lemma_next_user(v: Seq<MessageView>, i: int)
    requires
        0 <= i,
    ensures
        next_user(v, i) matches Some(k) ==> i <= k < v.len() && v[k] is User && forall|j: int|
            i <= j < k ==> !(#[trigger] v[j] is User),
        next_user(v, i) is None ==> forall|j: int| i <= j < v.len() ==> !(#[trigger] v[j] is User),
    decreases v.len() - i,
{
    if i < v.len() && !(v[i] is User) {
        lemma_next_user(v, i + 1);
    }
}

/// Where to cut, when everything before `cut` goes already: at the next user
/// message, until what is left is short or within the budget, or no user
/// message is left to cut at.
pub open spec fn cut_from(v: Seq<MessageView>, cut: int, limit: nat) -> int
    decreases v.len() - cut,
{
    if cut < 0 || v.len() - cut <= 4 || tokens(v.skip(cut)) <= limit {
        cut
    } else {
        match next_user(v, cut + 1) {
            Some(i) => {
                proof {
                    lemma_next_user(v, cut + 1);
                }
                cut_from(v, i, limit)
            },
            None => cut,
        }
    }
}

/// Index of the first message to keep after compaction. The cut is only made at
/// a user message, so that the remaining transcript starts with a user turn and
/// no tool call is severed from its result. Returns 0 when nothing need be
/// dropped.
pub fn compaction_cut(messages: &Vec<Message>, limit: usize) -> (r: usize)
    ensures
        r == cut_from(messages_of(messages@), 0, limit as nat),
        r <= messages@.len(),
{
    let ghost all = messages_of(messages@);
    let total: usize = messages.len();
    let mut cut: usize = 0;
    loop
        invariant
            all == messages_of(messages@),
            total == messages@.len(),
            cut <= total,
            cut_from(all, cut as int, limit as nat) == cut_from(all, 0, limit as nat),
        decreases total - cut,
    {
        if total - cut <= 4 {
            return cut;
        }
        let rest: &[Message] = vstd::slice::slice_subrange(messages.as_slice(), cut, total);
        assert(messages_of(rest@) =~= all.skip(cut as int));
        if estimate_tokens(rest) <= limit {
            return cut;
        }
        let mut i: usize = cut + 1;
        let mut found: bool = false;
        while i < total && !found
            invariant
                all == messages_of(messages@),
                total == messages@.len(),
                cut < i <= total,
                next_user(all, cut + 1) == next_user(all, i as int),
                found ==> i < total && all[i as int] is User,
            decreases total - i + (if found {
                0int
            } else {
                1int
            }),
        {
            assert(all[i as int] == messages@[i as int]@);
            match &messages[i] {
                Message::User(_) => {
                    found = true;
                },
                _ => {
                    i += 1;
                },
            }
        }
        if !found {
            return cut;
        }
        cut = i;
    }
}

/// What stands for the dropped messages: their summary, or a plain note.
pub open spec fn compaction_note(summary: Option<Seq<char>>) -> Seq<char> {
    match summary {
        Some(s) =>
            "[Compaction summary — earlier messages were summarized to save context. Treat this as background; do not re-read these files just to verify it.]\n\n"@
            + s,
        None =>
            "[context compacted: earlier messages were dropped to stay within the token budget]"@,
    }
}

/// The transcript with a note at its start: folded into a first user message,
/// or as one of its own, made at `timestamp`.
pub open spec fn with_note(v: Seq<MessageView>, note: Seq<char>, timestamp: i64) -> Seq<MessageView> {
    if v.len() > 0 && v[0] is User {
        let u = v[0]->User_0;
        v.update(
            0,
            MessageView::User(
                UserView { content: seq![MediaView::Text(note)] + u.content, ..u },
            ),
        )
    } else {
        seq![
            MessageView::User(UserView { content: seq![MediaView::Text(note)], timestamp }),
        ] + v
    }
}

/// A copy of the messages from `cut` on.
fn kept_messages(messages: &Vec<Message>, cut: usize) -> (r: Vec<Message>)
    requires
        cut <= messages@.len(),
    ensures
        messages_of(r@) == messages_of(messages@).skip(cut as int),
{
    let ghost all = messages_of(messages@);
    let mut out: Vec<Message> = Vec::new();
    let mut i: usize = cut;
    assert(messages_of(out@) =~= all.subrange(cut as int, cut as int));
    while i < messages.len()
        invariant
            all == messages_of(messages@),
            cut <= i <= messages@.len(),
            messages_of(out@) == all.subrange(cut as int, i as int),
        decreases messages@.len() - i,
    {
        let m: Message = messages[i].clone();
        proof {
            assert(messages_of(out@.push(m)) =~= messages_of(out@).push(m@));
            assert(all[i as int] == m@);
            assert(all.subrange(cut as int, i + 1) =~= all.subrange(cut as int, i as int).push(m@));
        }
        out.push(m);
        i += 1;
    }
    assert(all.subrange(cut as int, messages@.len() as int) =~= all.skip(cut as int));
    out
}

/// Drop the messages before `cut`, and put the summary (or a fallback note) at
/// the start of the first user message that is kept, so that roles stay valid.
pub fn apply_compaction(messages: &mut Vec<Message>, cut: usize, summary: Option<&str>)
    requires
        cut <= old(messages)@.len(),
    ensures
        exists|timestamp: i64|
            messages_of(final(messages)@) == #[trigger] with_note(
                messages_of(old(messages)@).skip(cut as int),
                compaction_note(text::opt_str(summary)),
                timestamp,
            ),
{
    let note: String = match summary {
        Some(s) => {
            let mut out: String = "[Compaction summary — earlier messages were summarized to save context. Treat this as background; do not re-read these files just to verify it.]\n\n".to_string();
            out.append(s);
            out
        },
        None =>
            "[context compacted: earlier messages were dropped to stay within the token budget]".to_string(),
    };
    assert(note@ == compaction_note(text::opt_str(summary)));
    let ghost rest = messages_of(messages@).skip(cut as int);
    let kept: Vec<Message> = kept_messages(messages, cut);
    let mut out: Vec<Message> = Vec::new();
    let mut from: usize = 0;
    let ghost mut stamp: i64 = 0;
    proof {
        assert(rest.len() == kept@.len());
    }
    let folded: bool = if kept.len() > 0 {
        assert(rest[0] == kept@[0]@);
        match &kept[0] {
            Message::User(u) => {
                let old: UserMessage = u.clone();
                let mut content: Vec<UserBlock> = old.content;
                let ghost before = user_blocks_of(content@);
                let b: UserBlock = UserBlock::text(note.as_str());
                content.insert(0, b);
                assert(user_blocks_of(content@) =~= seq![MediaView::Text(note@)] + before);
                out.push(Message::User(UserMessage { content, timestamp: old.timestamp }));
                true
            },
            _ => false,
        }
    } else {
        false
    };
    if folded {
        from = 1;
    } else {
        let m: UserMessage = UserMessage::text(note.as_str());
        proof {
            stamp = m.timestamp;
        }
        out.push(Message::User(m));
    }
    let ghost want = with_note(rest, note@, stamp);
    let ghost shift = if folded {
        0int
    } else {
        1int
    };
    assert(messages_of(out@) =~= want.take(1));
    let mut i: usize = from;
    while i < kept.len()
        invariant
            rest == messages_of(kept@),
            want == with_note(rest, note@, stamp),
            folded == (rest.len() > 0 && rest[0] is User),
            shift == (if folded {
                0int
            } else {
                1int
            }),
            from == 1 - shift,
            from <= i <= kept@.len(),
            messages_of(out@) == want.take(i + shift),
        decreases kept@.len() - i,
    {
        let m: Message = kept[i].clone();
        proof {
            assert(rest[i as int] == m@);
            assert(messages_of(out@.push(m)) =~= messages_of(out@).push(m@));
            assert(want[i + shift] == m@);
            assert(want.take(i + shift + 1) =~= want.take(i + shift).push(m@));
        }
        out.push(m);
        i += 1;
    }
    assert(want.take(kept@.len() + shift) =~= want);
    *messages = out;
    assert(messages_of(messages@) == with_note(
        rest,
        compaction_note(text::opt_str(summary)),
        stamp,
    ));
}

/// The compaction budget of a context window.
pub fn compaction_budget(context_window: usize) -> (r: usize)
    ensures
        r == budget(context_window as nat),
{
    let d: u128 = value_of_double(context_window as u128);
    assert(d <= 0x1_0000_0000_0000_2000);
    assert(d * (FOUR_FIFTHS as nat) < 0x20_0000_0000_0000_0000_0000_0000_0000) by (nonlinear_arith)
        requires
            d <= 0x1_0000_0000_0000_2000,
            FOUR_FIFTHS == 3602879701896397,
    ;
    let product: u128 = d * (FOUR_FIFTHS as u128);
    assert(product == d * 3602879701896397);
    let p: u128 = value_of_double(product);
    let r: u128 = p / 0x10_0000_0000_0000;
    assert(r <= usize::MAX);
    r as usize
}

// ---------------------------------------------------------------------------
// Summaries
// ---------------------------------------------------------------------------

/// The tool calls of a message, a line each.
pub open spec fn call_lines(v: Seq<BlockView>) -> Seq<char>
    decreases v.len(),
{
    if v.len() == 0 {
        Seq::empty()
    } else {
        call_lines(v.drop_last()) + (match v.last() {
            BlockView::ToolCall(_, name, arguments) => "  [Assistant calls tool "@ + name
                + " with: "@ + json_written(arguments) + "]\n"@,
            _ => Seq::empty(),
        })
    }
}

/// A message as plain text for the summarizer.
pub open spec fn message_text(m: MessageView) -> Seq<char> {
    match m {
        MessageView::User(u) => "User: "@ + media_text(u.content) + "\n"@,
        MessageView::Assistant(a) => (if text::is_blank_text(assistant_text(a.content)) {
            Seq::empty()
        } else {
            "Assistant: "@ + assistant_text(a.content) + "\n"@
        }) + call_lines(a.content),
        MessageView::ToolResult(t) => "  [Tool "@ + (if t.is_error {
            "ERROR result"@
        } else {
            "result"@
        }) + " for "@ + t.tool_name + ": "@ + media_text(t.content) + "]\n"@,
    }
}

/// A transcript as plain text for the summarizer.
pub open spec fn transcript_text(v: Seq<MessageView>) -> Seq<char>
    decreases v.len(),
{
    if v.len() == 0 {
        Seq::empty()
    } else {
        transcript_text(v.drop_last()) + message_text(v.last())
    }
}

fn calls_text(content: &Vec<ContentBlock>) -> (r: String)
    ensures
        r@ == call_lines(blocks_of(content@)),
{
    let ghost all = blocks_of(content@);
    let mut out: String = String::new();
    let mut i: usize = 0;
    while i < content.len()
        invariant
            all == blocks_of(content@),
            i <= content@.len(),
            out@ == call_lines(all.take(i as int)),
        decreases content@.len() - i,
    {
        proof {
            assert(all.take(i + 1).drop_last() =~= all.take(i as int));
            assert(all.take(i + 1).last() == content@[i as int]@);
        }
        let mut line: String = String::new();
        if let ContentBlock::ToolCall { name, arguments, .. } = &content[i] {
            line = "  [Assistant calls tool ".to_string();
            line.append(name.as_str());
            line.append(" with: ");
            line.append(json::write(arguments).as_str());
            line.append("]\n");
        }
        out.append(line.as_str());
        i += 1;
    }
    assert(all.take(all.len() as int) =~= all);
    out
}

fn plain_text(m: &Message) -> (r: String)
    ensures
        r@ == message_text(m@),
{
    match m {
        Message::User(u) => {
            let mut out: String = "User: ".to_string();
            out.append(u.text_content().as_str());
            out.append("\n");
            out
        },
        Message::Assistant(a) => {
            let t: String = a.text_content();
            let mut out: String = String::new();
            if !text::is_blank(t.as_str()) {
                out = "Assistant: ".to_string();
                out.append(t.as_str());
                out.append("\n");
            }
            out.append(calls_text(&a.content).as_str());
            out
        },
        Message::ToolResult(t) => {
            let mut out: String = "  [Tool ".to_string();
            if t.is_error {
                out.append("ERROR result");
            } else {
                out.append("result");
            }
            out.append(" for ");
            out.append(t.tool_name.as_str());
            out.append(": ");
            out.append(result_text(&t.content).as_str());
            out.append("]\n");
            out
        },
    }
}

/// Render a transcript to plain text for the summarizer: user/assistant text
/// plus tool calls and their results.
pub fn transcript_for_summary(messages: &[Message]) -> (r: String)
    ensures
        r@ == transcript_text(messages_of(messages@)),
{
    let ghost all = messages_of(messages@);
    let mut out: String = String::new();
    let mut i: usize = 0;
    while i < messages.len()
        invariant
            all == messages_of(messages@),
            i <= messages@.len(),
            out@ == transcript_text(all.take(i as int)),
        decreases messages@.len() - i,
    {
        proof {
            assert(all.take(i + 1).drop_last() =~= all.take(i as int));
            assert(all.take(i + 1).last() == messages@[i as int]@);
        }
        out.append(plain_text(&messages[i]).as_str());
        i += 1;
    }
    assert(all.take(all.len() as int) =~= all);
    out
}

/// What the summarizer is asked.
pub open spec fn summary_request(transcript: Seq<char>) -> Seq<char> {
    "You are compacting a coding-agent conversation to save context. Summarize everything below, preserving: the user's original goal and constraints; key decisions and their rationale; every file read or modified and what was done to it; important findings, errors, and their resolution; and any open problems or planned next steps. Be concise and factual — this summary replaces the earlier messages, so include anything the agent still needs to continue. No preamble or commentary.\n\n--- BEGIN TRANSCRIPT ---\n"@
        + transcript + "\n--- END TRANSCRIPT ---"@
}

/// The request for a summary of dropped messages, unless there is nothing to
/// summarize.
pub fn summary_prompt(messages: &[Message]) -> (r: Option<String>)
    ensures
        match r {
            Some(p) => !text::is_blank_text(transcript_text(messages_of(messages@))) && p@
                == summary_request(transcript_text(messages_of(messages@))),
            None => text::is_blank_text(transcript_text(messages_of(messages@))),
        },
{
    let transcript: String = transcript_for_summary(messages);
    if text::is_blank(transcript.as_str()) {
        return None;
    }
    let mut out: String = "You are compacting a coding-agent conversation to save context. Summarize everything below, preserving: the user's original goal and constraints; key decisions and their rationale; every file read or modified and what was done to it; important findings, errors, and their resolution; and any open problems or planned next steps. Be concise and factual — this summary replaces the earlier messages, so include anything the agent still needs to continue. No preamble or commentary.\n\n--- BEGIN TRANSCRIPT ---\n".to_string();
    out.append(transcript.as_str());
    out.append("\n--- END TRANSCRIPT ---");
    Some(out)
}

/// The summary that a response gives: its text, unless it failed or is blank.
pub open spec fn summary_in(m: Option<AssistantView>) -> Option<Seq<char>> {
    match m {
        Some(a) => if a.error_message is None && !text::is_blank_text(assistant_text(a.content)) {
            Some(assistant_text(a.content))
        } else {
            None
        },
        None => None,
    }
}

/// The summary that the final message of a response gives.
pub fn summary_of(message: Option<&AssistantMessage>) -> (r: Option<String>)
    ensures
        text::opt_view(r) == summary_in(
            match message {
                Some(m) => Some(m@),
                None => None,
            },
        ),
{
    let m: &AssistantMessage = match message {
        Some(m) => m,
        None => {
            return None;
        },
    };
    if m.error_message.is_some() {
        return None;
    }
    let t: String = m.text_content();
    if text::is_blank(t.as_str()) {
        None
    } else {
        Some(t)
    }
}

/// The first model from `i` on whose id holds `haiku`.
pub open spec fn cheapest(models: Seq<ModelView>, i: int) -> Option<ModelView>
    decreases models.len() - i,
{
    if i < 0 || i >= models.len() {
        None
    } else if text::has_substring(models[i].id, "haiku"@) {
        Some(models[i])
    } else {
        cheapest(models, i + 1)
    }
}

/// The model for summaries: the one that the environment names, then the
/// cheapest tier, then the session's own.
pub open spec fn summary_model(
    models: Seq<ModelView>,
    named: Option<Seq<char>>,
    own: ModelView,
) -> ModelView {
    let asked = match named {
        Some(p) => if text::is_blank_text(p) {
            None
        } else {
            ai::first_picked(models, text::trimmed(p), 0)
        },
        None => None,
    };
    match asked {
        Some(m) => m,
        None => match cheapest(models, 0) {
            Some(m) => m,
            None => own,
        },
    }
}

/// Resolve the model for background compaction summaries. `named` is the value
/// of `PIXIE_PI_COMPACT_MODEL`.
pub fn default_compact_model(registry: &Vec<Model>, named: Option<&str>, own: &Model) -> (r: Model)
    ensures
        r@ == summary_model(models_of(registry@), text::opt_str(named), own@),
{
    let ghost models = models_of(registry@);
    if let Some(p) = named {
        proof {
            text::lemma_blank_is_trimmed_empty(p@);
        }
        if !text::is_blank(p) {
            let pattern: String = text::trim(p);
            if let Some(m) = ai::resolve_model(registry.as_slice(), pattern.as_str()) {
                return m;
            }
        }
    }
    let mut i: usize = 0;
    while i < registry.len()
        invariant
            models == models_of(registry@),
            i <= registry@.len(),
            cheapest(models, 0) == cheapest(models, i as int),
            summary_model(models, text::opt_str(named), own@) == (match cheapest(models, 0) {
                Some(m) => m,
                None => own@,
            }),
        decreases registry@.len() - i,
    {
        assert(models[i as int] == registry@[i as int]@);
        if text::contains(registry[i].id.as_str(), "haiku") {
            return registry[i].clone();
        }
        i += 1;
    }
    own.clone()
}

// ---------------------------------------------------------------------------
// Session files
// ---------------------------------------------------------------------------

/// Records as lines, each ended.
pub open spec fn written(records: Seq<Seq<char>>) -> Seq<char>
    decreases records.len(),
{
    if records.len() == 0 {
        Seq::empty()
    } else {
        written(records.drop_last()) + records.last() + "\n"@
    }
}

/// A line without the carriage return at its end.
pub open spec fn without_return(line: Seq<char>) -> Seq<char> {
    if line.len() > 0 && line.last() == '\r' {
        line.drop_last()
    } else {
        line
    }
}

/// The records among some lines: blank lines are passed over.
pub open spec fn records_in(lines: Seq<Seq<char>>) -> Seq<Seq<char>>
    decreases lines.len(),
{
    if lines.len() == 0 {
        Seq::empty()
    } else {
        let line = without_return(lines.last());
        if text::is_blank_text(line) {
            records_in(lines.drop_last())
        } else {
            records_in(lines.drop_last()).push(line)
        }
    }
}

/// The content of a session file: one record on each line.
pub fn session_content(records: &Vec<String>) -> (r: String)
    ensures
        r@ == written(text::views(records@)),
{
    let ghost all = text::views(records@);
    let mut out: String = String::new();
    let mut i: usize = 0;
    while i < records.len()
        invariant
            all == text::views(records@),
            i <= records@.len(),
            out@ == written(all.take(i as int)),
        decreases records@.len() - i,
    {
        proof {
            assert(all.take(i + 1).drop_last() =~= all.take(i as int));
            assert(all.take(i + 1).last() == records@[i as int]@);
        }
        out.append(records[i].as_str());
        out.append("\n");
        i += 1;
    }
    assert(all.take(all.len() as int) =~= all);
    out
}

/// The records in a session file.
pub fn session_records(content: &str) -> (r: Vec<String>)
    ensures
        text::views(r@) == records_in(text::lines_of(content@)),
{
    let lines: Vec<String> = text::lines(content);
    let ghost all = text::lines_of(content@);
    let mut out: Vec<String> = Vec::new();
    let mut i: usize = 0;
    assert(text::views(out@) =~= Seq::<Seq<char>>::empty());
    while i < lines.len()
        invariant
            all == text::views(lines@),
            i <= lines@.len(),
            text::views(out@) == records_in(all.take(i as int)),
        decreases lines@.len() - i,
    {
        proof {
            assert(all.take(i + 1).drop_last() =~= all.take(i as int));
            assert(all.take(i + 1).last() == lines@[i as int]@);
        }
        let v: Vec<char> = text::chars_of(lines[i].as_str());
        let n: usize = v.len();
        let line: String = if n > 0 && v[n - 1] == '\r' {
            let s: String = text::string_of(&v, 0, n - 1);
            assert(s@ =~= lines@[i as int]@.drop_last());
            s
        } else {
            lines[i].clone()
        };
        if !text::is_blank(line.as_str()) {
            proof {
                text::lemma_views_push(out@, line);
            }
            out.push(line);
        }
        i += 1;
    }
    assert(all.take(all.len() as int) =~= all);
    out
}

/// A text that can stand on a line of its own: not blank, no line end in it.
pub open spec fn is_record(s: Seq<char>) -> bool {
    &&& !text::is_blank_text(s)
    &&& forall|i: int| 0 <= i < s.len() ==> #[trigger] s[i] != '\n'
    &&& s.last() != '\r'
}

proof fn lemma_pieces_appended(s: Seq<char>, t: Seq<char>)
    requires
        forall|i: int| 0 <= i < t.len() ==> #[trigger] t[i] != '\n',
    ensures
        text::pieces(s + t, '\n') == text::pieces(s, '\n').update(
            text::pieces(s, '\n').len() - 1,
            text::pieces(s, '\n').last() + t,
        ),
    decreases t.len(),
{
    text::lemma_pieces_nonempty(s, '\n');
    if t.len() == 0 {
        assert(s + t =~= s);
        assert(text::pieces(s, '\n').last() + t =~= text::pieces(s, '\n').last());
        assert(text::pieces(s, '\n') =~= text::pieces(s, '\n').update(
            text::pieces(s, '\n').len() - 1,
            text::pieces(s, '\n').last() + t,
        ));
    } else {
        let init = t.drop_last();
        assert forall|i: int| 0 <= i < init.len() implies #[trigger] init[i] != '\n' by {
            assert(t[i] != '\n');
        }
        lemma_pieces_appended(s, init);
        assert((s + t).drop_last() =~= s + init);
        assert((s + t).last() == t.last());
        assert(t[t.len() - 1] != '\n');
        assert((text::pieces(s, '\n').last() + init).push(t.last()) =~= text::pieces(
            s,
            '\n',
        ).last() + t);
        assert(text::pieces(s + t, '\n') =~= text::pieces(s, '\n').update(
            text::pieces(s, '\n').len() - 1,
            text::pieces(s, '\n').last() + t,
        ));
    }
}

proof fn lemma_written_pieces(records: Seq<Seq<char>>)
    requires
        forall|i: int| 0 <= i < records.len() ==> is_record(#[trigger] records[i]),
    ensures
        text::pieces(written(records), '\n') == records.push(Seq::empty()),
    decreases records.len(),
{
    reveal_strlit("\n");
    assert("\n"@ =~= seq!['\n']);
    if records.len() == 0 {
        assert(text::pieces(written(records), '\n') =~= records.push(Seq::empty()));
    } else {
        let init = records.drop_last();
        let x = records[records.len() - 1];
        assert forall|i: int| 0 <= i < init.len() implies is_record(#[trigger] init[i]) by {
            assert(is_record(records[i]));
        }
        lemma_written_pieces(init);
        assert(is_record(x));
        let before = written(init);
        lemma_pieces_appended(before, x);
        assert(Seq::<char>::empty() + x =~= x);
        assert(text::pieces(before + x, '\n') =~= init.push(x));
        let all = before + x + "\n"@;
        assert(all.drop_last() =~= before + x);
        assert(all.last() == '\n');
        assert(init.push(x) =~= records);
    }
}

proof fn lemma_records_kept(records: Seq<Seq<char>>)
    requires
        forall|i: int| 0 <= i < records.len() ==> is_record(#[trigger] records[i]),
    ensures
        records_in(records) == records,
    decreases records.len(),
{
    if records.len() > 0 {
        let init = records.drop_last();
        assert(is_record(records[records.len() - 1]));
        assert forall|i: int| 0 <= i < init.len() implies is_record(#[trigger] init[i]) by {
            assert(is_record(records[i]));
        }
        lemma_records_kept(init);
        assert(init.push(records.last()) =~= records);
    }
}

/// A session file gives back what was written to it: the same records, in the
/// same order.
pub proof fn law_a_session_file_gives_back_its_records(records: Seq<Seq<char>>)
    requires
        forall|i: int| 0 <= i < records.len() ==> is_record(#[trigger] records[i]),
    ensures
        records_in(text::lines_of(written(records))) == records,
{
    lemma_written_pieces(records);
    lemma_records_kept(records);
    reveal_strlit("\n");
    assert("\n"@ =~= seq!['\n']);
    let all = written(records);
    if records.len() > 0 {
        assert(all.last() == '\n');
    }
    assert(text::lines_of(all) =~= records);
}

// ---------------------------------------------------------------------------
// The session
// ---------------------------------------------------------------------------

#[derive(Debug)]
pub struct AgentSession {
    pub cwd: String,
    pub messages: Vec<Message>,
    pub system_prompt: String,
    pub model: Model,
    pub thinking: ThinkingLevel,
    pub tools: Vec<ToolInfo>,
    pub api_key: Option<String>,
    pub auth_token: Option<String>,
    pub session_file: Option<String>,
    pub total_usage: Usage,
    /// Override the model's default output-token cap, if set.
    pub max_tokens: Option<usize>,
    /// Attach prompt-caching markers. Default true.
    pub cache_control: bool,
    /// Override the model used for background compaction summaries.
    pub compact_model: Option<Model>,
}

pub ghost struct SessionView {
    pub cwd: Seq<char>,
    pub messages: Seq<MessageView>,
    pub system_prompt: Seq<char>,
    pub model: ModelView,
    pub thinking: ThinkingLevel,
    pub tools: Seq<ToolInfoView>,
    pub api_key: Option<Seq<char>>,
    pub auth_token: Option<Seq<char>>,
    pub session_file: Option<Seq<char>>,
    pub total_usage: Usage,
    pub max_tokens: Option<usize>,
    pub cache_control: bool,
    pub compact_model: Option<ModelView>,
}

impl View for AgentSession {
    type V = SessionView;

    open spec fn view(&self) -> SessionView {
        SessionView {
            cwd: self.cwd@,
            messages: messages_of(self.messages@),
            system_prompt: self.system_prompt@,
            model: self.model@,
            thinking: self.thinking,
            tools: tools_of(self.tools@),
            api_key: text::opt_view(self.api_key),
            auth_token: text::opt_view(self.auth_token),
            session_file: text::opt_view(self.session_file),
            total_usage: self.total_usage,
            max_tokens: self.max_tokens,
            cache_control: self.cache_control,
            compact_model: match self.compact_model {
                Some(m) => Some(m@),
                None => None,
            },
        }
    }
}

/// The streaming options of a session.
pub open spec fn session_options(s: SessionView) -> OptionsView {
    OptionsView {
        api_key: s.api_key,
        auth_token: s.auth_token,
        max_tokens: s.max_tokens,
        temperature: None,
        reasoning: if s.model.reasoning {
            Some(s.thinking)
        } else {
            None
        },
        thinking_budget_tokens: None,
        cache_control: s.cache_control,
        timeout_ms: None,
    }
}

/// The options of a summary request: short, without thinking and caching, and
/// with a time limit.
pub open spec fn summary_options_of(s: SessionView) -> OptionsView {
    OptionsView {
        api_key: s.api_key,
        auth_token: s.auth_token,
        max_tokens: Some(1024),
        temperature: None,
        reasoning: None,
        thinking_budget_tokens: None,
        cache_control: false,
        timeout_ms: Some(60000),
    }
}

pub open spec fn names_of(v: Seq<ToolInfoView>) -> Seq<Seq<char>> {
    v.map_values(|t: ToolInfoView| t.schema.name)
}

impl AgentSession {
    /// A session with defaults for token caps and caching, and an empty
    /// transcript.
    pub fn new(
        cwd: String,
        system_prompt: String,
        model: Model,
        thinking: ThinkingLevel,
        tools: Vec<ToolInfo>,
    ) -> (r: AgentSession)
        ensures
            r@ == (SessionView {
                cwd: cwd@,
                messages: Seq::empty(),
                system_prompt: system_prompt@,
                model: model@,
                thinking,
                tools: tools_of(tools@),
                api_key: None,
                auth_token: None,
                session_file: None,
                total_usage: Usage {
                    input: 0,
                    output: 0,
                    cache_read: 0,
                    cache_write: 0,
                    total_tokens: 0,
                },
                max_tokens: None,
                cache_control: true,
                compact_model: None,
            }),
    {
        let messages: Vec<Message> = Vec::new();
        assert(messages_of(messages@) =~= Seq::<MessageView>::empty());
        AgentSession {
            cwd,
            messages,
            system_prompt,
            model,
            thinking,
            tools,
            api_key: None,
            auth_token: None,
            session_file: None,
            total_usage: Usage {
                input: 0,
                output: 0,
                cache_read: 0,
                cache_write: 0,
                total_tokens: 0,
            },
            max_tokens: None,
            cache_control: true,
            compact_model: None,
        }
    }

    /// Build the streaming options for the current model + thinking level.
    pub fn stream_options(&self) -> (r: SimpleStreamOptions)
        ensures
            r@ == session_options(self@),
    {
        SimpleStreamOptions {
            api_key: copy_opt(&self.api_key),
            auth_token: copy_opt(&self.auth_token),
            max_tokens: self.max_tokens,
            temperature: None,
            reasoning: if self.model.reasoning {
                Some(self.thinking)
            } else {
                None
            },
            thinking_budget_tokens: None,
            cache_control: self.cache_control,
            timeout_ms: None,
        }
    }

    /// The options for a background summary.
    pub fn summary_options(&self) -> (r: SimpleStreamOptions)
        ensures
            r@ == summary_options_of(self@),
    {
        SimpleStreamOptions {
            api_key: copy_opt(&self.api_key),
            auth_token: copy_opt(&self.auth_token),
            max_tokens: Some(1024),
            temperature: None,
            reasoning: None,
            thinking_budget_tokens: None,
            cache_control: false,
            timeout_ms: Some(60000),
        }
    }

    /// The model for a background summary: the session's override, or else the
    /// default one.
    pub fn summary_model(&self, registry: &Vec<Model>, named: Option<&str>) -> (r: Model)
        ensures
            r@ == (match self@.compact_model {
                Some(m) => m,
                None => summary_model(models_of(registry@), text::opt_str(named), self@.model),
            }),
    {
        match &self.compact_model {
            Some(m) => m.clone(),
            None => default_compact_model(registry, named, &self.model),
        }
    }

    /// Estimated token count of the current transcript.
    pub fn estimated_tokens(&self) -> (r: usize)
        ensures
            r == tokens(self@.messages),
    {
        estimate_tokens(self.messages.as_slice())
    }

    /// True when the transcript exceeds the compaction budget.
    pub fn should_compact(&self) -> (r: bool)
        ensures
            r == (tokens(self@.messages) > budget(self@.model.context_window as nat)),
    {
        self.estimated_tokens() > compaction_budget(self.model.context_window)
    }

    /// Index of the first message to keep after compaction.
    pub fn compaction_cut(&self) -> (r: usize)
        ensures
            r == cut_from(self@.messages, 0, budget(self@.model.context_window as nat)),
            r <= self@.messages.len(),
    {
        compaction_cut(&self.messages, compaction_budget(self.model.context_window))
    }

    /// Drop the messages before `cut` and put the summary, or a note, in their
    /// place.
    pub fn apply_compaction(&mut self, cut: usize, summary: Option<&str>)
        requires
            cut <= old(self)@.messages.len(),
        ensures
            exists|timestamp: i64|
                final(self)@.messages == #[trigger] with_note(
                    old(self)@.messages.skip(cut as int),
                    compaction_note(text::opt_str(summary)),
                    timestamp,
                ),
            final(self)@ == (SessionView { messages: final(self)@.messages, ..old(self)@ }),
    {
        apply_compaction(&mut self.messages, cut, summary);
    }

    /// Accumulate usage from a turn into the session total.
    pub fn add_usage(&mut self, usage: &Usage)
        ensures
            final(self)@ == (SessionView {
                total_usage: usage_sum(old(self)@.total_usage, *usage),
                ..old(self)@
            }),
    {
        self.total_usage.add(usage);
    }

    pub fn tool_names(&self) -> (r: Vec<String>)
        ensures
            text::views(r@) == names_of(self@.tools),
    {
        let ghost all = names_of(tools_of(self.tools@));
        let mut out: Vec<String> = Vec::new();
        let mut i: usize = 0;
        assert(text::views(out@) =~= all.take(0));
        while i < self.tools.len()
            invariant
                all == names_of(tools_of(self.tools@)),
                i <= self.tools@.len(),
                text::views(out@) == all.take(i as int),
            decreases self.tools@.len() - i,
        {
            let n: String = self.tools[i].schema.name.clone();
            proof {
                text::lemma_views_push(out@, n);
                assert(tools_of(self.tools@)[i as int] == self.tools@[i as int]@);
                assert(all.take(i + 1) =~= all.take(i as int).push(n@));
            }
            out.push(n);
            i += 1;
        }
        assert(all.take(all.len() as int) =~= all);
        out
    }
}

/// Sentinel used to attach a compacted-note marker.
pub fn compact_marker() -> (r: Json)
    ensures
        r@ == JsonView::Str("compacted"@),
{
    Json::str("compacted")
}

// ---------------------------------------------------------------------------
// Laws
// ---------------------------------------------------------------------------

proof fn lemma_cut_from(v: Seq<MessageView>, cut: int, limit: nat)
    requires
        0 <= cut <= v.len(),
        cut == 0 || v[cut] is User,
        cut < v.len() || cut == 0,
    ensures
        cut <= cut_from(v, cut, limit) <= v.len(),
        cut_from(v, cut, limit) == 0 || (cut_from(v, cut, limit) < v.len() && v[cut_from(
            v,
            cut,
            limit,
        )] is User),
    decreases v.len() - cut,
{
    if v.len() - cut > 4 && tokens(v.skip(cut)) > limit {
        lemma_next_user(v, cut + 1);
        if let Some(i) = next_user(v, cut + 1) {
            lemma_cut_from(v, i, limit);
        }
    }
}

/// Compaction cuts at a user message or not at all, so that no tool call is
/// severed from its result.
pub proof fn law_compaction_cuts_at_user_messages(v: Seq<MessageView>, limit: nat)
    ensures
        0 <= cut_from(v, 0, limit) <= v.len(),
        cut_from(v, 0, limit) != 0 ==> cut_from(v, 0, limit) < v.len() && v[cut_from(
            v,
            0,
            limit,
        )] is User,
{
    lemma_cut_from(v, 0, limit);
}

/// Compaction does not cut a transcript that is within its budget, nor a short
/// one.
pub proof fn law_compaction_leaves_small_transcripts_alone(v: Seq<MessageView>, limit: nat)
    requires
        v.len() <= 4 || tokens(v) <= limit,
    ensures
        cut_from(v, 0, limit) == 0,
{
    assert(v.skip(0) =~= v);
}

/// After compaction the transcript starts with a user message, whose text
/// starts with the note, and everything kept behind it is as it was.
pub proof fn law_a_compacted_transcript_starts_with_the_note(
    v: Seq<MessageView>,
    note: Seq<char>,
    timestamp: i64,
)
    ensures
        ({
            let w = with_note(v, note, timestamp);
            &&& w.len() > 0
            &&& w[0] matches MessageView::User(u) && u.content.len() > 0 && u.content[0]
                == MediaView::Text(note)
            &&& forall|k: int|
                1 <= k <= v.len() && k <= w.len() ==> w[w.len() - k] == #[trigger] v[v.len() - k]
                    || (w.len() - k == 0 && v[0] is User)
        }),
{
    let w = with_note(v, note, timestamp);
    assert forall|k: int| 1 <= k <= v.len() && k <= w.len() implies w[w.len() - k]
        == #[trigger] v[v.len() - k] || (w.len() - k == 0 && v[0] is User) by {}
}

/// Is the block the call `id`?
pub open spec fn is_call(b: BlockView, id: Seq<char>) -> bool {
    b matches BlockView::ToolCall(i, _, _) && i == id
}

/// Does the message make the call `id`?
pub open spec fn makes_call(m: MessageView, id: Seq<char>) -> bool {
    m matches MessageView::Assistant(a) && exists|k: int|
        0 <= k < a.content.len() && #[trigger] is_call(a.content[k], id)
}

/// Is the tool result at `i` the answer to a call before it, in the same turn
/// of the user?
pub open spec fn answers_in_turn(v: Seq<MessageView>, i: int) -> bool {
    v[i] matches MessageView::ToolResult(t) ==> exists|j: int|
        0 <= j < i && #[trigger] makes_call(v[j], t.tool_call_id) && forall|k: int|
            j < k < i ==> !(#[trigger] v[k] is User)
}

/// Every tool result answers a call of its turn.
pub open spec fn results_answer_calls(v: Seq<MessageView>) -> bool {
    forall|i: int| 0 <= i < v.len() ==> #[trigger] answers_in_turn(v, i)
}

/// Compaction severs no tool result from its call: where every result answers a
/// call of its turn, the compacted transcript is of that kind too.
pub proof fn law_compaction_severs_no_tool_result(
    v: Seq<MessageView>,
    limit: nat,
    note: Seq<char>,
    timestamp: i64,
)
    requires
        results_answer_calls(v),
        cut_from(v, 0, limit) > 0,
    ensures
        results_answer_calls(with_note(v.skip(cut_from(v, 0, limit)), note, timestamp)),
{
    let cut = cut_from(v, 0, limit);
    lemma_cut_from(v, 0, limit);
    let w = with_note(v.skip(cut), note, timestamp);
    assert(v.skip(cut)[0] == v[cut]);
    assert(w.len() == v.len() - cut);
    assert forall|i: int| 1 <= i < w.len() implies w[i] == v[cut + i] by {
        assert(w[i] == v.skip(cut)[i]);
    }
    assert forall|i: int| 0 <= i < w.len() implies #[trigger] answers_in_turn(w, i) by {
        if i > 0 && w[i] is ToolResult {
            let t = w[i]->ToolResult_0;
            assert(answers_in_turn(v, cut + i));
            let j = choose|j: int|
                0 <= j < cut + i && #[trigger] makes_call(v[j], t.tool_call_id) && forall|k: int|
                    j < k < cut + i ==> !(#[trigger] v[k] is User);
            if j <= cut {
                assert(v[cut] is User);
                assert(false);
            }
            assert(makes_call(w[j - cut], t.tool_call_id));
            assert forall|k: int| j - cut < k < i implies !(#[trigger] w[k] is User) by {
                assert(!(v[cut + k] is User));
            }
        }
    }
}

/// Compaction makes a transcript shorter, by as many messages as it drops.
pub proof fn law_compaction_shortens_the_transcript(
    v: Seq<MessageView>,
    limit: nat,
    note: Seq<char>,
    timestamp: i64,
)
    requires
        cut_from(v, 0, limit) > 0,
    ensures
        with_note(v.skip(cut_from(v, 0, limit)), note, timestamp).len() == v.len() - cut_from(
            v,
            0,
            limit,
        ),
{
    let cut = cut_from(v, 0, limit);
    lemma_cut_from(v, 0, limit);
    assert(v.skip(cut)[0] == v[cut]);
}

proof fn lemma_cut_from_stops(v: Seq<MessageView>, cut: int, limit: nat)
    requires
        0 <= cut <= v.len(),
        cut == 0 || (cut < v.len() && v[cut] is User),
    ensures
        ({
            let r = cut_from(v, cut, limit);
            &&& v.len() - r <= 4 || tokens(v.skip(r)) <= limit || forall|k: int|
                r < k < v.len() ==> !(#[trigger] v[k] is User)
            &&& forall|k: int|
                #![trigger v[k]]
                cut <= k < r && (k == cut || v[k] is User) ==> v.len() - k > 4 && tokens(v.skip(k))
                    > limit
        }),
    decreases v.len() - cut,
{
    if v.len() - cut > 4 && tokens(v.skip(cut)) > limit {
        lemma_next_user(v, cut + 1);
        if let Some(i) = next_user(v, cut + 1) {
            lemma_cut_from_stops(v, i, limit);
            let r = cut_from(v, cut, limit);
            assert forall|k: int|
                #![trigger v[k]]
                cut <= k < r && (k == cut || v[k] is User) implies v.len() - k > 4 && tokens(
                v.skip(k),
            ) > limit by {
                if cut < k < i {
                    assert(!(v[k] is User));
                }
            }
        }
    }
}

/// Compaction drops enough, and no more: behind the cut the transcript is short
/// or within the budget, unless no user message is left to cut at; and the cut is
/// the first such place, for the whole transcript and every user message before
/// it leave more than a few messages and more than the budget.
pub proof fn law_compaction_drops_just_enough(v: Seq<MessageView>, limit: nat)
    ensures
        ({
            let r = cut_from(v, 0, limit);
            &&& v.len() - r <= 4 || tokens(v.skip(r)) <= limit || forall|k: int|
                r < k < v.len() ==> !(#[trigger] v[k] is User)
            &&& forall|k: int|
                #![trigger v[k]]
                0 <= k < r && (k == 0 || v[k] is User) ==> v.len() - k > 4 && tokens(v.skip(k))
                    > limit
        }),
{
    lemma_cut_from_stops(v, 0, limit);
}

/// The estimate counts a token for every four bytes of text, whoever wrote it:
/// the bytes of a transcript are those of its messages.
pub proof fn law_every_text_byte_is_counted(
    v: Seq<MessageView>,
    m: MessageView,
    t: Seq<char>,
)
    ensures
        tokens(Seq::empty()) == 0,
        transcript_bytes(v.push(m)) == transcript_bytes(v) + message_bytes(m),
        transcript_bytes(v) <= usize::MAX ==> 4 * tokens(v) <= transcript_bytes(v) < 4 * tokens(v)
            + 4,
        m matches MessageView::User(u) && u.content == seq![MediaView::Text(t)] ==> message_bytes(m)
            == encode_utf8(t).len(),
        m matches MessageView::Assistant(a) && a.content == seq![BlockView::Text(t)]
            ==> message_bytes(m) == encode_utf8(t).len(),
        m matches MessageView::ToolResult(r) && r.content == seq![MediaView::Text(t)]
            ==> message_bytes(m) == encode_utf8(t).len(),
{
    assert(v.push(m).drop_last() =~= v);
    match m {
        MessageView::User(u) => {
            if u.content == seq![MediaView::Text(t)] {
                law_media_text_is_the_texts_a_line_apart(Seq::empty(), t, t, t);
            }
        },
        MessageView::Assistant(a) => {
            if a.content == seq![BlockView::Text(t)] {
                let none = Seq::<BlockView>::empty();
                law_assistant_text_is_its_texts(none, BlockView::Text(t));
                assert(a.content =~= none.push(BlockView::Text(t)));
                assert(assistant_text(none) + t =~= t);
            }
        },
        MessageView::ToolResult(r) => {
            if r.content == seq![MediaView::Text(t)] {
                assert(r.content.drop_last() =~= Seq::<MediaView>::empty());
                assert(media_texts(r.content.drop_last()) =~= Seq::<Seq<char>>::empty());
                let one = media_texts(r.content);
                assert(one =~= seq![t]);
                assert(one.drop_last() =~= Seq::<Seq<char>>::empty());
                assert(bytes_of(one.drop_last()) == 0);
            }
        },
    }
}

/// The texts of a tool result are counted one by one.
pub proof fn law_result_bytes_add_up(v: Seq<Seq<char>>, t: Seq<char>)
    ensures
        bytes_of(Seq::empty()) == 0,
        bytes_of(v.push(t)) == bytes_of(v) + encode_utf8(t).len(),
{
    assert(v.push(t).drop_last() =~= v);
}

spec fn power(j: nat) -> nat
    decreases j,
{
    if j == 0 {
        1
    } else {
        2 * power((j - 1) as nat)
    }
}

proof fn lemma_unit_divides(n: nat, j: nat) -> (c: nat)
    requires
        n < 0x20_0000_0000_0000 * power(j),
    ensures
        power(j) == double_unit(n) * c,
        double_unit(n) > 0,
    decreases n,
{
    if n < 0x20_0000_0000_0000 {
        assert(double_unit(n) == 1);
        assert(1 * power(j) == power(j));
        power(j)
    } else {
        if j == 0 {
            assert(power(j) == 1);
        }
        let c = lemma_unit_divides(n / 2, (j - 1) as nat);
        let u = double_unit(n / 2);
        assert(double_unit(n) == 2 * u);
        let w = double_unit(n);
        assert(2 * (u * c) == w * c) by (nonlinear_arith)
            requires
                w == 2 * u,
        ;
        c
    }
}

proof fn lemma_unit_is_small(n: nat)
    requires
        n >= 0x20_0000_0000_0000,
    ensures
        double_unit(n) * 0x10_0000_0000_0000 <= n,
    decreases n,
{
    if n / 2 >= 0x20_0000_0000_0000 {
        lemma_unit_is_small(n / 2);
    } else {
        assert(double_unit(n / 2) == 1);
    }
}

/// Rounding to a double goes to the nearer neighbour: it is off by half their
/// distance at most, and not below a multiple of that distance.
proof fn lemma_double_is_near(n: nat, m: nat)
    requires
        double_unit(n) > 0,
        m * double_unit(n) <= n,
    ensures
        m * double_unit(n) <= double_value(n),
        2 * double_value(n) <= 2 * n + double_unit(n),
{
    let u = double_unit(n);
    let q = n / u;
    let r = n % u;
    assert(n == q * u + r) by (nonlinear_arith)
        requires
            u > 0,
            q == n / u,
            r == n % u,
    ;
    assert(0 <= r < u) by (nonlinear_arith)
        requires
            u > 0,
            r == n % u,
    ;
    assert(m <= q) by (nonlinear_arith)
        requires
            u > 0,
            m * u <= n,
            n == q * u + r,
            r < u,
    ;
    let e = nearest_even(n, u);
    assert(m <= e);
    assert(m * u <= e * u) by (nonlinear_arith)
        requires
            m <= e,
    ;
    assert((q + 1) * u == q * u + u) by (nonlinear_arith);
    assert(e == q || (e == q + 1 && 2 * r >= u));
}

/// The compaction budget is four fifths of the context window, rounded down, for
/// every window of up to 2^50 tokens.
pub proof fn law_the_budget_is_four_fifths_of_the_window(window: nat)
    requires
        window <= 0x4_0000_0000_0000,
    ensures
        budget(window) == (4 * window) / 5,
{
    assert(double_unit(window) == 1);
    assert(nearest_even(window, 1) == window);
    assert(double_value(window) == window);
    let f = FOUR_FIFTHS as nat;
    let one = 0x10_0000_0000_0000nat;
    let n = window * f;
    let k = (4 * window) / 5;
    assert(5 * n == 4 * window * one + window) by (nonlinear_arith)
        requires
            n == window * f,
            5 * f == 4 * one + 1,
    ;
    assert(5 * k <= 4 * window <= 5 * k + 4);
    assert(k * one <= n) by (nonlinear_arith)
        requires
            5 * n == 4 * window * one + window,
            5 * k <= 4 * window,
            window >= 0,
            one > 0,
    ;
    reveal_with_fuel(power, 53);
    assert(power(52) == one);
    let c = lemma_unit_divides(n, 52);
    let u = double_unit(n);
    assert((k * c) * u == k * one) by (nonlinear_arith)
        requires
            one == u * c,
    ;
    lemma_double_is_near(n, k * c);
    let d = double_value(n);
    assert(k * one <= d);
    assert(5 * n <= (5 * k + 4) * one + window) by (nonlinear_arith)
        requires
            5 * n == 4 * window * one + window,
            4 * window <= 5 * k + 4,
            one > 0,
    ;
    if n >= 0x20_0000_0000_0000 {
        lemma_unit_is_small(n);
    } else {
        assert(u == 1);
    }
    assert(d < (k + 1) * one);
    assert(d / one == k) by (nonlinear_arith)
        requires
            k * one <= d,
            d < (k + 1) * one,
            one > 0,
    ;
}

/// What stands for dropped messages says so, and holds the whole summary where
/// there is one.
pub proof fn law_the_note_holds_the_summary(summary: Seq<char>)
    ensures
        text::finishes_with(compaction_note(Some(summary)), summary),
        text::begins_with(compaction_note(Some(summary)), "[Compaction summary "@),
        text::begins_with(compaction_note(None), "[context compacted: "@),
{
    let note = compaction_note(Some(summary));
    reveal_strlit(
        "[Compaction summary — earlier messages were summarized to save context. Treat this as background; do not re-read these files just to verify it.]\n\n",
    );
    reveal_strlit(
        "[context compacted: earlier messages were dropped to stay within the token budget]",
    );
    reveal_strlit("[Compaction summary ");
    reveal_strlit("[context compacted: ");
    assert(note.subrange(note.len() - summary.len(), note.len() as int) =~= summary);
    assert(note.subrange(0, "[Compaction summary "@.len() as int) =~= "[Compaction summary "@);
    assert(compaction_note(None).subrange(0, "[context compacted: "@.len() as int)
        =~= "[context compacted: "@);
}

/// The summarizer is told of every message, in order: what the user said, what
/// the assistant said unless it is blank, every call by its tool and arguments,
/// and every result by its tool, with its text and whether it failed.
pub proof fn law_the_summarizer_is_told_of_every_message(v: Seq<MessageView>, m: MessageView)
    ensures
        transcript_text(Seq::empty()).len() == 0,
        match m {
            MessageView::User(u) => transcript_text(v.push(m)) == transcript_text(v) + "User: "@
                + media_text(u.content) + "\n"@,
            MessageView::Assistant(a) => {
                let t = assistant_text(a.content);
                if text::trimmed(t).len() == 0 {
                    transcript_text(v.push(m)) == transcript_text(v) + call_lines(a.content)
                } else {
                    transcript_text(v.push(m)) == transcript_text(v) + "Assistant: "@ + t + "\n"@
                        + call_lines(a.content)
                }
            },
            MessageView::ToolResult(r) => transcript_text(v.push(m)) == transcript_text(v)
                + "  [Tool "@ + (if r.is_error {
                "ERROR result"@
            } else {
                "result"@
            }) + " for "@ + r.tool_name + ": "@ + media_text(r.content) + "]\n"@,
        },
{
    assert(v.push(m).drop_last() =~= v);
    let told = transcript_text(v.push(m));
    match m {
        MessageView::User(u) => {
            assert(told =~= transcript_text(v) + "User: "@ + media_text(u.content) + "\n"@);
        },
        MessageView::Assistant(a) => {
            let t = assistant_text(a.content);
            text::lemma_blank_is_trimmed_empty(t);
            if text::is_blank_text(t) {
                assert(told =~= transcript_text(v) + call_lines(a.content));
            } else {
                assert(told =~= transcript_text(v) + "Assistant: "@ + t + "\n"@ + call_lines(
                    a.content,
                ));
            }
        },
        MessageView::ToolResult(r) => {
            assert(told =~= transcript_text(v) + "  [Tool "@ + (if r.is_error {
                "ERROR result"@
            } else {
                "result"@
            }) + " for "@ + r.tool_name + ": "@ + media_text(r.content) + "]\n"@);
        },
    }
}

/// Every call is told on a line of its own; other blocks add none.
pub proof fn law_every_call_is_told(v: Seq<BlockView>, b: BlockView)
    ensures
        call_lines(Seq::empty()).len() == 0,
        call_lines(v.push(b)) == (match b {
            BlockView::ToolCall(_, name, arguments) => call_lines(v) + "  [Assistant calls tool "@
                + name + " with: "@ + json_written(arguments) + "]\n"@,
            _ => call_lines(v),
        }),
{
    assert(v.push(b).drop_last() =~= v);
    match b {
        BlockView::ToolCall(_, name, arguments) => {
            assert(call_lines(v.push(b)) =~= call_lines(v) + "  [Assistant calls tool "@ + name
                + " with: "@ + json_written(arguments) + "]\n"@);
        },
        _ => {
            assert(call_lines(v) + Seq::<char>::empty() =~= call_lines(v));
        },
    }
}

/// A summary request holds the whole transcript, between its marks.
pub proof fn law_a_summary_request_holds_the_transcript(transcript: Seq<char>)
    ensures
        exists|lead: Seq<char>|
            summary_request(transcript) == #[trigger] (lead + "--- BEGIN TRANSCRIPT ---\n"@)
                + transcript + "\n--- END TRANSCRIPT ---"@,
{
    let whole =
        "You are compacting a coding-agent conversation to save context. Summarize everything below, preserving: the user's original goal and constraints; key decisions and their rationale; every file read or modified and what was done to it; important findings, errors, and their resolution; and any open problems or planned next steps. Be concise and factual — this summary replaces the earlier messages, so include anything the agent still needs to continue. No preamble or commentary.\n\n--- BEGIN TRANSCRIPT ---\n"@;
    reveal_strlit(
        "You are compacting a coding-agent conversation to save context. Summarize everything below, preserving: the user's original goal and constraints; key decisions and their rationale; every file read or modified and what was done to it; important findings, errors, and their resolution; and any open problems or planned next steps. Be concise and factual — this summary replaces the earlier messages, so include anything the agent still needs to continue. No preamble or commentary.\n\n--- BEGIN TRANSCRIPT ---\n",
    );
    reveal_strlit("--- BEGIN TRANSCRIPT ---\n");
    let mark = "--- BEGIN TRANSCRIPT ---\n"@;
    let lead = whole.take(whole.len() - mark.len());
    assert(whole =~= lead + mark);
    assert(summary_request(transcript) == (lead + mark) + transcript + "\n--- END TRANSCRIPT ---"@);
}

/// A response gives a summary just where it came without an error and says
/// something; the summary is then all its text.
pub proof fn law_only_a_sound_response_gives_a_summary(a: AssistantView)
    ensures
        summary_in(None) is None,
        summary_in(Some(a)) is Some <==> a.error_message is None && text::trimmed(
            assistant_text(a.content),
        ).len() > 0,
        summary_in(Some(a)) matches Some(s) ==> s == assistant_text(a.content),
{
    text::lemma_blank_is_trimmed_empty(assistant_text(a.content));
}

proof fn lemma_cheapest(models: Seq<ModelView>, i: int)
    requires
        0 <= i <= models.len(),
    ensures
        match cheapest(models, i) {
            Some(m) => exists|k: int|
                i <= k < models.len() && #[trigger] models[k] == m && text::has_substring(
                    models[k].id,
                    "haiku"@,
                ) && forall|j: int|
                    i <= j < k ==> !text::has_substring((#[trigger] models[j]).id, "haiku"@),
            None => forall|j: int|
                i <= j < models.len() ==> !text::has_substring(
                    (#[trigger] models[j]).id,
                    "haiku"@,
                ),
        },
    decreases models.len() - i,
{
    if i < models.len() {
        if text::has_substring(models[i].id, "haiku"@) {
            assert(models[i] == cheapest(models, i)->0);
        } else {
            lemma_cheapest(models, i + 1);
        }
    }
}

/// Summaries are made by the model that the environment names, where it names
/// one; else by the first of the cheapest tier; else by the session's own.
pub proof fn law_summaries_are_made_by_a_cheap_model(
    models: Seq<ModelView>,
    named: Option<Seq<char>>,
    own: ModelView,
)
    ensures
        ({
            let m = summary_model(models, named, own);
            let asked = named is Some && text::trimmed(named->0).len() > 0;
            let found = ai::first_picked(models, text::trimmed(named->0), 0);
            &&& asked && found is Some ==> Some(m) == found
            &&& !(asked && found is Some) && (exists|k: int|
                0 <= k < models.len() && text::has_substring(
                    (#[trigger] models[k]).id,
                    "haiku"@,
                )) ==> exists|k: int|
                {
                    &&& 0 <= k < models.len()
                    &&& #[trigger] models[k] == m
                    &&& text::has_substring(m.id, "haiku"@)
                    &&& forall|j: int|
                        0 <= j < k ==> !text::has_substring((#[trigger] models[j]).id, "haiku"@)
                }
            &&& !(asked && found is Some) && (forall|k: int|
                0 <= k < models.len() ==> !text::has_substring(
                    (#[trigger] models[k]).id,
                    "haiku"@,
                )) ==> m == own
        }),
{
    lemma_cheapest(models, 0);
    if let Some(p) = named {
        text::lemma_blank_is_trimmed_empty(p);
    }
}

/// A turn is asked for with the session's credentials, cap and caching, at its
/// level of thinking where the model reasons; a summary with the same credentials,
/// but short, without thinking and caching, and within a time limit.
pub proof fn law_requests_are_made_with_the_sessions_credentials(s: SessionView)
    ensures
        ({
            let o = session_options(s);
            &&& o.api_key == s.api_key
            &&& o.auth_token == s.auth_token
            &&& o.max_tokens == s.max_tokens
            &&& o.cache_control == s.cache_control
            &&& o.reasoning is Some <==> s.model.reasoning
            &&& o.reasoning matches Some(level) ==> level == s.thinking
            &&& o.temperature is None && o.thinking_budget_tokens is None && o.timeout_ms is None
        }),
        ({
            let o = summary_options_of(s);
            &&& o.api_key == s.api_key
            &&& o.auth_token == s.auth_token
            &&& o.max_tokens == Some(1024usize)
            &&& !o.cache_control
            &&& o.reasoning is None
            &&& o.temperature is None && o.thinking_budget_tokens is None
            &&& o.timeout_ms == Some(60000u64)
        }),
{
}

/// What is kept behind the note: a user message keeps all it said, behind the
/// note, and its time; the messages after it stay as they are.
pub proof fn law_the_note_goes_before_what_the_user_said(
    v: Seq<MessageView>,
    note: Seq<char>,
    timestamp: i64,
)
    requires
        v.len() > 0,
        v[0] is User,
    ensures
        ({
            let w = with_note(v, note, timestamp);
            &&& w.len() == v.len()
            &&& w[0] matches MessageView::User(u) && u.timestamp == v[0]->User_0.timestamp
                && u.content.len() == v[0]->User_0.content.len() + 1 && u.content.skip(1)
                == v[0]->User_0.content
            &&& w.skip(1) == v.skip(1)
        }),
{
    let w = with_note(v, note, timestamp);
    assert(w[0]->User_0.content.skip(1) =~= v[0]->User_0.content);
    assert(w.skip(1) =~= v.skip(1));
}

/// Where no user message is left first, the note is a message of its own, and
/// every kept message follows it.
pub proof fn law_the_note_may_stand_alone(v: Seq<MessageView>, note: Seq<char>, timestamp: i64)
    requires
        v.len() > 0 ==> !(v[0] is User),
    ensures
        ({
            let w = with_note(v, note, timestamp);
            &&& w.len() == v.len() + 1
            &&& w[0] == MessageView::User(
                UserView { content: seq![MediaView::Text(note)], timestamp },
            )
            &&& w.skip(1) == v
        }),
{
    assert(with_note(v, note, timestamp).skip(1) =~= v);
}

/// A session file holds a line for each record, and nothing else.
pub proof fn law_a_session_file_has_a_line_for_each_record(records: Seq<Seq<char>>, x: Seq<char>)
    ensures
        written(Seq::empty()).len() == 0,
        written(records.push(x)) == written(records) + x + seq!['\n'],
{
    reveal_strlit("\n");
    assert("\n"@ =~= seq!['\n']);
    assert(records.push(x).drop_last() =~= records);
}

/// Reading a session file passes over blank lines, and takes every other line as
/// a record, less a carriage return at its end.
pub proof fn law_blank_lines_are_no_records(lines: Seq<Seq<char>>, line: Seq<char>)
    ensures
        records_in(Seq::empty()).len() == 0,
        text::trimmed(line).len() == 0 && !line.contains('\r') ==> records_in(lines.push(line))
            == records_in(lines),
        text::trimmed(line).len() > 0 && !line.contains('\r') ==> records_in(lines.push(line))
            == records_in(lines).push(line) && records_in(lines.push(line.push('\r')))
            == records_in(lines).push(line),
{
    text::lemma_blank_is_trimmed_empty(line);
    assert(lines.push(line).drop_last() =~= lines);
    assert(lines.push(line.push('\r')).drop_last() =~= lines);
    assert(line.push('\r').drop_last() =~= line);
    if line.len() > 0 {
        assert(line.contains(line.last()));
    }
}

} // verus!
