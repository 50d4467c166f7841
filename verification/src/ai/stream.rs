//! Streaming primitives: the decoder for server-sent events, the parser for
//! JSON that may still be incomplete, and the assistant event protocol.

use vstd::prelude::*;
use vstd::utf8::{decode_utf8, valid_utf8};

use crate::ai::types::{AssistantMessage, AssistantView, StopReason};
use crate::json;
use crate::json::{json_parsed, opt_json, Json, JsonView};
use crate::text;

verus! {

// ---------------------------------------------------------------------------
// Server-sent events
// ---------------------------------------------------------------------------

/// A raw Server-Sent Event decoded from the HTTP response body.
#[derive(Debug)]
pub struct ServerSentEvent {
    pub event: Option<String>,
    pub data: String,
}

pub ghost struct SseEvent {
    pub event: Option<Seq<char>>,
    pub data: Seq<char>,
}

impl View for ServerSentEvent {
    type V = SseEvent;

    open spec fn view(&self) -> SseEvent {
        SseEvent { event: text::opt_view(self.event), data: self.data@ }
    }
}

pub open spec fn sse_events(v: Seq<ServerSentEvent>) -> Seq<SseEvent> {
    v.map_values(|e: ServerSentEvent| e@)
}

proof fn lemma_sse_push(v: Seq<ServerSentEvent>, e: ServerSentEvent)
    ensures
        sse_events(v.push(e)) == sse_events(v).push(e@),
{
    assert(sse_events(v.push(e)) =~= sse_events(v).push(e@));
}

/// Incremental line-buffered SSE decoder. Feed it raw bytes via `feed` and call
/// `finish` when the stream ends. An SSE event is delimited by a blank line.
#[derive(Debug)]
pub struct SseDecoder {
    event: Option<String>,
    data: Vec<String>,
    buffer: String,
    after_return: bool,
}

/// The decoder's state: the fields of the event under way, the text that no
/// line end has closed yet, and whether the last character was a `\r`, so that a
/// `\n` that comes next belongs to the same line end.
#[verifier::ext_equal]
pub ghost struct SseState {
    pub event: Option<Seq<char>>,
    pub data: Seq<Seq<char>>,
    pub buffer: Seq<char>,
    pub after_return: bool,
}

impl SseState {
    /// Nothing is under way.
    pub open spec fn start() -> SseState {
        SseState { event: None, data: Seq::empty(), buffer: Seq::empty(), after_return: false }
    }

    /// The buffer holds no line end.
    pub open spec fn valid(self) -> bool {
        line_break(self.buffer, 0) is None
    }
}

impl View for SseDecoder {
    type V = SseState;

    closed spec fn view(&self) -> SseState {
        SseState {
            event: text::opt_view(self.event),
            data: text::views(self.data@),
            buffer: self.buffer@,
            after_return: self.after_return,
        }
    }
}

/// The first carriage return or newline from `from` on.
pub open spec fn line_break(s: Seq<char>, from: int) -> Option<int>
    decreases s.len() - from,
{
    if from < 0 || from >= s.len() {
        None
    } else if s[from] == '\r' || s[from] == '\n' {
        Some(from)
    } else {
        line_break(s, from + 1)
    }
}

/// Where the line behind the break at `i` starts: `\r\n` is one line end.
pub open spec fn behind_break(s: Seq<char>, i: int) -> int {
    if s[i] == '\r' && i + 1 < s.len() && s[i + 1] == '\n' {
        i + 2
    } else {
        i + 1
    }
}

/// The first line of `s` and what follows its line end.
pub open spec fn first_line(s: Seq<char>) -> Option<(Seq<char>, Seq<char>)> {
    match line_break(s, 0) {
        Some(i) => Some((s.take(i), s.skip(behind_break(s, i)))),
        None => None,
    }
}

proof fn lemma_line_break(s: Seq<char>, from: int)
    requires
        0 <= from,
    ensures
        match line_break(s, from) {
            Some(i) => from <= i < s.len() && (s[i] == '\r' || s[i] == '\n') && forall|j: int|
                from <= j < i ==> s[j] != '\r' && s[j] != '\n',
            None => forall|j: int| from <= j < s.len() ==> s[j] != '\r' && s[j] != '\n',
        },
    decreases s.len() - from,
{
    if from < s.len() && s[from] != '\r' && s[from] != '\n' {
        lemma_line_break(s, from + 1);
    }
}

/// Does the line carry nothing: is it a comment?
pub open spec fn is_comment(line: Seq<char>) -> bool {
    line.len() > 0 && line[0] == ':'
}

/// The field name and the value of a line: the value stands behind the first
/// colon, without one leading space.
pub open spec fn field_of(line: Seq<char>) -> (Seq<char>, Seq<char>) {
    match text::cut_at_first(line, ':') {
        Some((name, value)) => (
            name,
            if value.len() > 0 && value[0] == ' ' {
                value.skip(1)
            } else {
                value
            },
        ),
        None => (line, Seq::empty()),
    }
}

/// End the event under way.
pub open spec fn flushed(st: SseState) -> (SseState, Option<SseEvent>) {
    if st.event is None && st.data.len() == 0 {
        (st, None)
    } else {
        (
            SseState { event: None, data: Seq::empty(), ..st },
            Some(SseEvent { event: st.event, data: text::joined(st.data, "\n"@) }),
        )
    }
}

/// Take in one line.
pub open spec fn line_taken(st: SseState, line: Seq<char>) -> (SseState, Option<SseEvent>) {
    if line.len() == 0 {
        flushed(st)
    } else if is_comment(line) {
        (st, None)
    } else if field_of(line).0 == "event"@ {
        (SseState { event: Some(field_of(line).1), ..st }, None)
    } else if field_of(line).0 == "data"@ {
        (SseState { data: st.data.push(field_of(line).1), ..st }, None)
    } else {
        (st, None)
    }
}

pub open spec fn as_seq(e: Option<SseEvent>) -> Seq<SseEvent> {
    match e {
        Some(x) => seq![x],
        None => Seq::empty(),
    }
}

/// Take in every complete line of the buffer.
pub open spec fn drained(st: SseState) -> (SseState, Seq<SseEvent>)
    decreases st.buffer.len(),
{
    match line_break(st.buffer, 0) {
        None => (st, Seq::empty()),
        Some(i) => {
            let rest = st.buffer.skip(behind_break(st.buffer, i));
            let (next, ev) = line_taken(SseState { buffer: rest, ..st }, st.buffer.take(i));
            proof {
                lemma_drain_shrinks(st);
            }
            let (last, evs) = drained(next);
            (last, as_seq(ev) + evs)
        },
    }
}

/// Taking in a line shortens the buffer.
pub proof fn lemma_drain_shrinks(st: SseState)
    ensures
        line_break(st.buffer, 0) matches Some(i) ==> line_taken(
            SseState { buffer: st.buffer.skip(behind_break(st.buffer, i)), ..st },
            st.buffer.take(i),
        ).0.buffer.len() < st.buffer.len(),
{
    lemma_line_break(st.buffer, 0);
}

/// What is new in `s`: a `\n` right behind a `\r` is not.
pub open spec fn less_newline(st: SseState, s: Seq<char>) -> Seq<char> {
    if st.after_return && s.len() > 0 && s[0] == '\n' {
        s.skip(1)
    } else {
        s
    }
}

/// What `feed_text` makes of a text.
pub open spec fn fed(st: SseState, s: Seq<char>) -> (SseState, Seq<SseEvent>) {
    let (next, evs) = drained(SseState { buffer: st.buffer + less_newline(st, s), ..st });
    (
        SseState {
            after_return: if s.len() > 0 {
                s.last() == '\r'
            } else {
                st.after_return
            },
            ..next
        },
        evs,
    )
}

/// What `finish` does: a last line without a line end counts, and so does an
/// event without its blank line.
pub open spec fn finished(st: SseState) -> (SseState, Seq<SseEvent>) {
    let (a, first) = if st.buffer.len() > 0 {
        line_taken(SseState { buffer: Seq::empty(), ..st }, st.buffer)
    } else {
        (st, None)
    };
    let (b, second) = flushed(a);
    (SseState { after_return: false, ..b }, as_seq(first) + as_seq(second))
}

/// What `String::from_utf8_lossy` makes of bytes.
pub uninterp spec fn lossy_text(b: Seq<u8>) -> Seq<char>;

/// `String::from_utf8_lossy`: the text that `lossy_text` names. Valid UTF-8
/// decodes to the characters it encodes.
#[verifier::external_body]
fn decode_lossy(b: &[u8]) -> (r: String)
    ensures
        r@ == lossy_text(b@),
        valid_utf8(b@) ==> r@ == decode_utf8(b@),
{
    String::from_utf8_lossy(b).into_owned()
}

impl SseDecoder {
    pub fn new() -> (r: SseDecoder)
        ensures
            r@ == SseState::start(),
    {
        let data: Vec<String> = Vec::new();
        assert(text::views(data@) =~= Seq::<Seq<char>>::empty());
        SseDecoder { event: None, data, buffer: String::new(), after_return: false }
    }

    /// Append bytes and return any complete SSE events. Each chunk of bytes is
    /// decoded by itself; a `\r` at its end ends a line, and a `\n` that comes
    /// next is part of that line end.
    pub fn feed(&mut self, bytes: &[u8]) -> (r: Vec<ServerSentEvent>)
        ensures
            (final(self)@, sse_events(r@)) == fed(old(self)@, lossy_text(bytes@)),
            valid_utf8(bytes@) ==> (final(self)@, sse_events(r@)) == fed(
                old(self)@,
                decode_utf8(bytes@),
            ),
    {
        let s: String = decode_lossy(bytes);
        self.feed_text(s.as_str())
    }

    /// Append text and return any complete SSE events.
    pub fn feed_text(&mut self, s: &str) -> (r: Vec<ServerSentEvent>)
        ensures
            (final(self)@, sse_events(r@)) == fed(old(self)@, s@),
    {
        let ghost fresh = less_newline(self@, s@);
        let ghost all = SseState { buffer: self@.buffer + fresh, ..self@ };
        let v: Vec<char> = text::chars_of(s);
        let total: usize = v.len();
        if self.after_return && total > 0 && v[0] == '\n' {
            let rest: String = text::string_of(&v, 1, total);
            assert(rest@ =~= fresh);
            self.buffer.append(rest.as_str());
        } else {
            self.buffer.append(s);
        }
        assert(self@ =~= all);
        if total > 0 {
            self.after_return = v[total - 1] == '\r';
        }
        let ghost start = self@;
        proof {
            lemma_drained_beside(all, start.after_return);
        }
        let mut out: Vec<ServerSentEvent> = Vec::new();
        let mut open: bool = true;
        assert(sse_events(out@) =~= Seq::<SseEvent>::empty());
        assert(Seq::<SseEvent>::empty() + drained(start).1 =~= drained(start).1);
        while open
            invariant
                open ==> drained(start) == (drained(self@).0, sse_events(out@) + drained(self@).1),
                !open ==> drained(start) == (self@, sse_events(out@)),
            decreases self@.buffer.len() + (if open {
                1int
            } else {
                0int
            }),
        {
            let ghost before = self@;
            let ghost held = sse_events(out@);
            proof {
                lemma_drain_shrinks(before);
            }
            match consume_line(self.buffer.as_str()) {
                Some((line, rest)) => {
                    self.buffer = rest;
                    match self.decode_line(line.as_str()) {
                        Some(ev) => {
                            proof {
                                lemma_sse_push(out@, ev);
                                assert(held.push(ev@) + drained(self@).1 =~= held + (seq![ev@]
                                    + drained(self@).1));
                            }
                            out.push(ev);
                        },
                        None => {
                            assert(held + drained(self@).1 =~= held + (Seq::<SseEvent>::empty()
                                + drained(self@).1));
                        },
                    }
                },
                None => {
                    open = false;
                    assert(held + Seq::<SseEvent>::empty() =~= held);
                },
            }
        }
        out
    }

    /// Flush any trailing buffered data. Call once the body stream ends.
    pub fn finish(&mut self) -> (r: Vec<ServerSentEvent>)
        ensures
            (final(self)@, sse_events(r@)) == finished(old(self)@),
    {
        let mut out: Vec<ServerSentEvent> = Vec::new();
        let ghost start = self@;
        let mut first: Option<ServerSentEvent> = None;
        if self.buffer.as_str().is_empty() {
        } else {
            let line: String = self.buffer.clone();
            self.buffer = String::new();
            first = self.decode_line(line.as_str());
        }
        let second: Option<ServerSentEvent> = self.flush_event();
        self.after_return = false;
        let ghost want = finished(start).1;
        if let Some(ev) = first {
            proof {
                lemma_sse_push(out@, ev);
            }
            out.push(ev);
        }
        if let Some(ev) = second {
            proof {
                lemma_sse_push(out@, ev);
            }
            out.push(ev);
        }
        assert(sse_events(out@) =~= want);
        out
    }

    fn decode_line(&mut self, line: &str) -> (r: Option<ServerSentEvent>)
        ensures
            final(self)@ == line_taken(old(self)@, line@).0,
            match r {
                Some(e) => line_taken(old(self)@, line@).1 == Some(e@),
                None => line_taken(old(self)@, line@).1 is None,
            },
    {
        let v: Vec<char> = text::chars_of(line);
        if v.len() == 0 {
            return self.flush_event();
        }
        if v[0] == ':' {
            return None;
        }
        let (field, value): (String, String) = match text::split_once(line, ':') {
            Some((name, value)) => {
                let w: Vec<char> = text::chars_of(value.as_str());
                if w.len() > 0 && w[0] == ' ' {
                    let tail: String = text::string_of(&w, 1, w.len());
                    assert(tail@ =~= value@.skip(1));
                    (name, tail)
                } else {
                    (name, value)
                }
            },
            None => (line.to_string(), String::new()),
        };
        if text::same(field.as_str(), "event") {
            self.event = Some(value);
        } else if text::same(field.as_str(), "data") {
            proof {
                text::lemma_views_push(self.data@, value);
            }
            self.data.push(value);
        }
        None
    }

    fn flush_event(&mut self) -> (r: Option<ServerSentEvent>)
        ensures
            final(self)@ == flushed(old(self)@).0,
            match r {
                Some(e) => flushed(old(self)@).1 == Some(e@),
                None => flushed(old(self)@).1 is None,
            },
    {
        assert(text::views(self.data@).len() == self.data@.len());
        if self.event.is_none() && self.data.len() == 0 {
            return None;
        }
        let data: String = text::join(&self.data, "\n");
        let event: Option<String> = self.event.take();
        self.data = Vec::new();
        assert(text::views(self.data@) =~= Seq::<Seq<char>>::empty());
        Some(ServerSentEvent { event, data })
    }
}

/// Split off the first line of `s`, handling `\n`, `\r` and `\r\n`.
pub fn consume_line(s: &str) -> (r: Option<(String, String)>)
    ensures
        match r {
            Some((line, rest)) => first_line(s@) == Some((line@, rest@)),
            None => first_line(s@) is None,
        },
{
    let v: Vec<char> = text::chars_of(s);
    let total: usize = v.len();
    let mut i: usize = 0;
    while i < total && v[i] != '\r' && v[i] != '\n'
        invariant
            total == v@.len(),
            v@ == s@,
            i <= total,
            line_break(s@, 0) == line_break(s@, i as int),
        decreases total - i,
    {
        i += 1;
    }
    if i == total {
        return None;
    }
    let next: usize = if v[i] == '\r' && total - i > 1 && v[i + 1] == '\n' {
        i + 2
    } else {
        i + 1
    };
    let line: String = text::string_of(&v, 0, i);
    let rest: String = text::string_of(&v, next, total);
    assert(line@ =~= s@.take(i as int));
    assert(rest@ =~= s@.skip(next as int));
    Some((line, rest))
}

proof fn lemma_line_break_extended(a: Seq<char>, b: Seq<char>, from: int)
    requires
        0 <= from <= a.len(),
        line_break(a, from) is Some,
    ensures
        line_break(a + b, from) == line_break(a, from),
    decreases a.len() - from,
{
    lemma_line_break(a, from);
    assert((a + b)[from] == a[from]);
    if a[from] != '\r' && a[from] != '\n' {
        lemma_line_break_extended(a, b, from + 1);
    }
}

/// Draining passes the mark of a `\r` on as it is.
proof fn lemma_drained_beside(st: SseState, mark: bool)
    ensures
        ({
            let (last, evs) = drained(st);
            drained(SseState { after_return: mark, ..st }) == (
                SseState { after_return: mark, ..last },
                evs,
            )
        }),
    decreases st.buffer.len(),
{
    if let Some(i) = line_break(st.buffer, 0) {
        lemma_drain_shrinks(st);
        let rest = st.buffer.skip(behind_break(st.buffer, i));
        let (next, ev) = line_taken(SseState { buffer: rest, ..st }, st.buffer.take(i));
        let (marked, same) = line_taken(
            SseState { buffer: rest, after_return: mark, ..st },
            st.buffer.take(i),
        );
        assert(marked =~= SseState { after_return: mark, ..next });
        assert(same == ev);
        lemma_drained_beside(next, mark);
    }
}

/// What follows the buffer: a `\n` that completes its last line end is no more.
spec fn behind(s: Seq<char>, b: Seq<char>) -> Seq<char> {
    if s.len() > 0 && s.last() == '\r' && b.len() > 0 && b[0] == '\n' {
        b.skip(1)
    } else {
        b
    }
}

proof fn lemma_drained_in_parts(st: SseState, b: Seq<char>)
    ensures
        ({
            let (mid, first) = drained(st);
            let (end, second) = drained(
                SseState { buffer: mid.buffer + behind(st.buffer, b), ..mid },
            );
            drained(SseState { buffer: st.buffer + b, ..st }) == (end, first + second)
        }),
    decreases st.buffer.len(),
{
    let s = st.buffer;
    let more = behind(s, b);
    lemma_line_break(s, 0);
    match line_break(s, 0) {
        None => {
            if s.len() > 0 {
                assert(s[s.len() - 1] != '\r');
            }
            let (end, second) = drained(SseState { buffer: s + b, ..st });
            assert(Seq::<SseEvent>::empty() + second =~= second);
        },
        Some(i) => {
            lemma_line_break_extended(s, b, 0);
            let rest = s.skip(behind_break(s, i));
            let whole = s + b;
            assert(whole.take(i) =~= s.take(i));
            assert(whole[i] == s[i]);
            if i + 1 < s.len() {
                assert(whole[i + 1] == s[i + 1]);
            } else if b.len() > 0 {
                assert(whole[i + 1] == b[0]);
            }
            if rest.len() > 0 {
                assert(rest.last() == s.last());
            }
            let after = whole.skip(behind_break(whole, i));
            let (next, ev) = line_taken(SseState { buffer: rest, ..st }, s.take(i));
            let (nb, evb) = line_taken(SseState { buffer: after, ..st }, s.take(i));
            assert(nb =~= SseState { buffer: after, ..next });
            assert(evb == ev);
            lemma_drain_shrinks(st);
            let (mid, tail) = drained(next);
            let (end, second) = drained(SseState { buffer: mid.buffer + more, ..mid });
            if rest.len() > 0 {
                assert(after =~= rest + b);
                lemma_drained_in_parts(next, b);
            } else {
                assert(after =~= rest + more) by {
                    assert(s.last() == s[s.len() - 1]);
                    if more.len() < b.len() {
                        assert(i + 1 == s.len());
                    }
                }
                lemma_line_break(rest, 0);
                assert(mid == next);
                assert(SseState { buffer: after, ..next } =~= SseState {
                    buffer: mid.buffer + more,
                    ..mid
                });
                assert(tail + second =~= second);
            }
            assert(as_seq(ev) + (tail + second) =~= (as_seq(ev) + tail) + second);
        },
    }
}

proof fn lemma_drained_valid(st: SseState)
    ensures
        drained(st).0.valid(),
    decreases st.buffer.len(),
{
    if let Some(i) = line_break(st.buffer, 0) {
        lemma_drain_shrinks(st);
        let rest = st.buffer.skip(behind_break(st.buffer, i));
        lemma_drained_valid(line_taken(SseState { buffer: rest, ..st }, st.buffer.take(i)).0);
    }
}

/// Every line end ends its line at once: whatever is fed, the buffer holds none
/// afterwards. A new decoder's buffer holds none either.
pub proof fn law_no_line_end_stays_in_the_buffer(st: SseState, s: Seq<char>)
    ensures
        SseState::start().valid(),
        fed(st, s).0.valid(),
{
    lemma_drained_valid(SseState { buffer: st.buffer + less_newline(st, s), ..st });
}

/// Chunking does not matter: feeding two texts one after the other decodes the
/// same events, and leaves the same state, as feeding them at once, wherever the
/// cut is.
pub proof fn law_feeding_in_parts_is_feeding_at_once(st: SseState, a: Seq<char>, b: Seq<char>)
    requires
        st.valid(),
    ensures
        ({
            let (mid, first) = fed(st, a);
            let (end, second) = fed(mid, b);
            fed(st, a + b) == (end, first + second)
        }),
{
    let (mid, first) = fed(st, a);
    let (end, second) = fed(mid, b);
    lemma_line_break(st.buffer, 0);
    if a.len() == 0 {
        assert(a + b =~= b);
        assert(st.buffer + less_newline(st, a) =~= st.buffer);
        assert(mid =~= st);
        assert(first + second =~= second);
    } else {
        let new = less_newline(st, a);
        let s = st.buffer + new;
        let start = SseState { buffer: s, ..st };
        assert(less_newline(st, a + b) =~= new + b);
        assert(st.buffer + (new + b) =~= s + b);
        lemma_drained_in_parts(start, b);
        if new.len() > 0 {
            assert(s.last() == a.last());
        } else {
            assert(a.last() == '\n');
            if st.buffer.len() > 0 {
                assert(st.buffer[st.buffer.len() - 1] != '\r');
                assert(s.last() == st.buffer[st.buffer.len() - 1]);
            }
        }
        assert(behind(s, b) == less_newline(mid, b));
        let (plain, _) = drained(start);
        lemma_drained_beside(
            SseState { buffer: plain.buffer + behind(s, b), ..plain },
            mid.after_return,
        );
        assert(SseState { buffer: mid.buffer + less_newline(mid, b), ..mid } =~= SseState {
            after_return: mid.after_return,
            ..SseState { buffer: plain.buffer + behind(s, b), ..plain }
        });
        if b.len() > 0 {
            assert((a + b).last() == b.last());
        } else {
            assert(a + b =~= a);
        }
        assert(fed(st, a + b).0 =~= end);
    }
}

// ---------------------------------------------------------------------------
// Incomplete JSON
// ---------------------------------------------------------------------------

/// What a scan of JSON text is inside of: open brackets, innermost last, a
/// string, and an escape in it.
pub ghost struct Nesting {
    pub stack: Seq<char>,
    pub in_string: bool,
    pub escape: bool,
}

pub open spec fn nesting_step(n: Nesting, c: char) -> Nesting {
    if n.in_string {
        if n.escape {
            Nesting { escape: false, ..n }
        } else if c == '\\' {
            Nesting { escape: true, ..n }
        } else if c == '"' {
            Nesting { in_string: false, ..n }
        } else {
            n
        }
    } else if c == '"' {
        Nesting { in_string: true, ..n }
    } else if c == '{' || c == '[' {
        Nesting { stack: n.stack.push(c), ..n }
    } else if (c == '}' && n.stack.len() > 0 && n.stack.last() == '{') || (c == ']' && n.stack.len()
        > 0 && n.stack.last() == '[') {
        Nesting { stack: n.stack.drop_last(), ..n }
    } else {
        n
    }
}

pub open spec fn nesting(s: Seq<char>) -> Nesting
    decreases s.len(),
{
    if s.len() == 0 {
        Nesting { stack: Seq::empty(), in_string: false, escape: false }
    } else {
        nesting_step(nesting(s.drop_last()), s.last())
    }
}

pub open spec fn without_commas(s: Seq<char>) -> Seq<char>
    decreases s.len(),
{
    if s.len() > 0 && s.last() == ',' {
        without_commas(s.drop_last())
    } else {
        s
    }
}

pub open spec fn closer(c: char) -> char {
    if c == '{' {
        '}'
    } else {
        ']'
    }
}

/// The brackets that close `stack`, innermost first.
pub open spec fn closers(stack: Seq<char>) -> Seq<char>
    decreases stack.len(),
{
    if stack.len() == 0 {
        Seq::empty()
    } else {
        seq![closer(stack.last())] + closers(stack.drop_last())
    }
}

/// `s` with an open string closed, dangling commas dropped, and open brackets
/// closed.
pub open spec fn repaired(s: Seq<char>) -> Seq<char> {
    without_commas(
        if nesting(s).in_string {
            s.push('"')
        } else {
            s
        },
    ) + closers(nesting(s).stack)
}

/// What an incomplete JSON text stands for.
pub open spec fn streaming_value(s: Seq<char>) -> JsonView {
    picked_value(
        text::trimmed(s),
        json_parsed(text::trimmed(s)),
        json_parsed(repaired(text::trimmed(s))),
    )
}

/// The value of a trimmed text, given what it and its repaired form parse to:
/// an empty object where nothing else is to be had.
pub open spec fn picked_value(
    s: Seq<char>,
    direct: Option<JsonView>,
    mended: Option<JsonView>,
) -> JsonView {
    if s.len() == 0 {
        JsonView::Obj(Map::empty())
    } else {
        match direct {
            Some(v) => v,
            None => match mended {
                Some(v) => v,
                None => JsonView::Obj(Map::empty()),
            },
        }
    }
}

/// Every open bracket on the stack is one of the two kinds.
proof fn lemma_stack_kinds(s: Seq<char>)
    ensures
        forall|i: int|
            0 <= i < nesting(s).stack.len() ==> #[trigger] nesting(s).stack[i] == '{' || nesting(
                s,
            ).stack[i] == '[',
    decreases s.len(),
{
    if s.len() > 0 {
        let init = s.drop_last();
        lemma_stack_kinds(init);
        let before = nesting(init).stack;
        let stack = nesting(s).stack;
        assert forall|i: int| 0 <= i < stack.len() implies #[trigger] stack[i] == '{' || stack[i]
            == '[' by {
            if i < before.len() {
                assert(before[i] == '{' || before[i] == '[');
                assert(stack[i] == before[i]);
            }
        }
    }
}

/// Close any open string and unmatched brackets and braces, so that truncated
/// JSON can still be parsed.
pub fn repair_text(input: &str) -> (r: String)
    ensures
        r@ == repaired(input@),
{
    let v: Vec<char> = text::chars_of(input);
    let mut stack: Vec<char> = Vec::new();
    let mut in_string: bool = false;
    let mut escape: bool = false;
    let mut i: usize = 0;
    while i < v.len()
        invariant
            v@ == input@,
            i <= v@.len(),
            nesting(input@.take(i as int)) == (Nesting { stack: stack@, in_string, escape }),
        decreases v@.len() - i,
    {
        let c: char = v[i];
        assert(input@.take(i + 1).drop_last() =~= input@.take(i as int));
        assert(input@.take(i + 1).last() == c);
        if in_string {
            if escape {
                escape = false;
            } else if c == '\\' {
                escape = true;
            } else if c == '"' {
                in_string = false;
            }
        } else if c == '"' {
            in_string = true;
        } else if c == '{' || c == '[' {
            stack.push(c);
        } else if stack.len() > 0 && ((c == '}' && stack[stack.len() - 1] == '{') || (c == ']'
            && stack[stack.len() - 1] == '[')) {
            let ghost before = stack@;
            stack.pop();
            assert(stack@ =~= before.drop_last());
        }
        i += 1;
    }
    assert(input@.take(input@.len() as int) =~= input@);
    let mut kept: Vec<char> = v;
    if in_string {
        kept.push('"');
    }
    let ghost open = kept@;
    while kept.len() > 0 && kept[kept.len() - 1] == ','
        invariant
            without_commas(kept@) == without_commas(open),
        decreases kept@.len(),
    {
        let ghost before = kept@;
        kept.pop();
        assert(kept@ =~= before.drop_last());
    }
    let mut out: String = text::string_of(&kept, 0, kept.len());
    assert(out@ =~= kept@);
    let ghost all = stack@;
    while stack.len() > 0
        invariant
            out@ + closers(stack@) == without_commas(open) + closers(all),
        decreases stack@.len(),
    {
        let ghost before = stack@;
        let ghost text_before = out@;
        match stack.pop() {
            Some(c) => {
                assert(stack@ =~= before.drop_last());
                assert(c == before.last());
                if c == '{' {
                    out.push('}');
                } else {
                    out.push(']');
                }
                assert(out@ + closers(stack@) =~= text_before + closers(before));
            },
            None => {},
        }
    }
    assert(out@ + closers(stack@) =~= out@);
    out
}

/// The value of truncated JSON, repaired.
pub fn repair_json(input: &str) -> (r: Option<Json>)
    ensures
        opt_json(r) == json_parsed(repaired(input@)),
{
    let mended: String = repair_text(input);
    json::parse(mended.as_str())
}

/// Pick the value of a trimmed text from what it and its repaired form parse
/// to.
pub fn pick_value(trimmed: &str, direct: Option<Json>, mended: Option<Json>) -> (r: Json)
    ensures
        r@ == picked_value(trimmed@, opt_json(direct), opt_json(mended)),
{
    if trimmed.is_empty() {
        return Json::object();
    }
    match direct {
        Some(v) => v,
        None => match mended {
            Some(v) => v,
            None => Json::object(),
        },
    }
}

/// Parse possibly-truncated streaming JSON (e.g. tool-call argument fragments):
/// the best-effort value, so that the agent always gets usable arguments.
pub fn parse_streaming_json(input: &str) -> (r: Json)
    ensures
        r@ == streaming_value(input@),
{
    let trimmed: String = text::trim(input);
    let direct: Option<Json> = json::parse(trimmed.as_str());
    let mended: Option<Json> = repair_json(trimmed.as_str());
    pick_value(trimmed.as_str(), direct, mended)
}

proof fn lemma_nesting_without_commas(s: Seq<char>)
    requires
        !nesting(s).in_string,
    ensures
        nesting(without_commas(s)) == nesting(s),
    decreases s.len(),
{
    if s.len() > 0 && s.last() == ',' {
        let before = nesting(s.drop_last());
        assert(!before.in_string);
        lemma_nesting_without_commas(s.drop_last());
    }
}

proof fn lemma_nesting_closed(s: Seq<char>, stack: Seq<char>)
    requires
        !nesting(s).in_string,
        nesting(s).stack == stack,
        forall|k: int| 0 <= k < stack.len() ==> #[trigger] stack[k] == '{' || stack[k] == '[',
    ensures
        !nesting(s + closers(stack)).in_string,
        nesting(s + closers(stack)).stack.len() == 0,
    decreases stack.len(),
{
    if stack.len() == 0 {
        assert(s + closers(stack) =~= s);
    } else {
        let c = closer(stack.last());
        assert(s.push(c).drop_last() =~= s);
        assert(stack[stack.len() - 1] == '{' || stack[stack.len() - 1] == '[');
        lemma_nesting_closed(s.push(c), stack.drop_last());
        assert(s + closers(stack) =~= s.push(c) + closers(stack.drop_last()));
    }
}

/// A repaired text is closed: no string and no bracket is left open, unless the
/// input stops right behind a backslash in a string.
pub proof fn law_repaired_json_is_closed(s: Seq<char>)
    requires
        !nesting(s).escape,
    ensures
        !nesting(repaired(s)).in_string,
        nesting(repaired(s)).stack.len() == 0,
{
    let open = if nesting(s).in_string {
        s.push('"')
    } else {
        s
    };
    if nesting(s).in_string {
        assert(open.drop_last() =~= s);
    }
    lemma_nesting_without_commas(open);
    lemma_stack_kinds(s);
    lemma_nesting_closed(without_commas(open), nesting(s).stack);
}

// ---------------------------------------------------------------------------
// Assistant message events
// ---------------------------------------------------------------------------

/// Fine-grained events emitted while streaming a model response. A delta does
/// not carry the message so far; the authoritative message comes with `Done` or
/// `Error`.
#[derive(Debug)]
pub enum AssistantMessageEvent {
    Start,
    TextStart { content_index: usize },
    TextDelta { content_index: usize, delta: String },
    TextEnd { content_index: usize },
    ThinkingStart { content_index: usize },
    ThinkingDelta { content_index: usize, delta: String },
    ThinkingEnd { content_index: usize },
    ToolCallStart { content_index: usize },
    ToolCallDelta { content_index: usize, delta: String },
    ToolCallEnd { content_index: usize },
    Done { reason: StopReason, message: AssistantMessage },
    Error { reason: StopReason, message: AssistantMessage },
}

pub ghost enum StreamEvent {
    Start,
    TextStart(int),
    TextDelta(int, Seq<char>),
    TextEnd(int),
    ThinkingStart(int),
    ThinkingDelta(int, Seq<char>),
    ThinkingEnd(int),
    ToolCallStart(int),
    ToolCallDelta(int, Seq<char>),
    ToolCallEnd(int),
    Done(StopReason, AssistantView),
    Error(StopReason, AssistantView),
}

impl View for AssistantMessageEvent {
    type V = StreamEvent;

    open spec fn view(&self) -> StreamEvent {
        match self {
            AssistantMessageEvent::Start => StreamEvent::Start,
            AssistantMessageEvent::TextStart { content_index } => StreamEvent::TextStart(
                *content_index as int,
            ),
            AssistantMessageEvent::TextDelta { content_index, delta } => StreamEvent::TextDelta(
                *content_index as int,
                delta@,
            ),
            AssistantMessageEvent::TextEnd { content_index } => StreamEvent::TextEnd(
                *content_index as int,
            ),
            AssistantMessageEvent::ThinkingStart { content_index } => StreamEvent::ThinkingStart(
                *content_index as int,
            ),
            AssistantMessageEvent::ThinkingDelta {
                content_index,
                delta,
            } => StreamEvent::ThinkingDelta(*content_index as int, delta@),
            AssistantMessageEvent::ThinkingEnd { content_index } => StreamEvent::ThinkingEnd(
                *content_index as int,
            ),
            AssistantMessageEvent::ToolCallStart { content_index } => StreamEvent::ToolCallStart(
                *content_index as int,
            ),
            AssistantMessageEvent::ToolCallDelta {
                content_index,
                delta,
            } => StreamEvent::ToolCallDelta(*content_index as int, delta@),
            AssistantMessageEvent::ToolCallEnd { content_index } => StreamEvent::ToolCallEnd(
                *content_index as int,
            ),
            AssistantMessageEvent::Done { reason, message } => StreamEvent::Done(
                *reason,
                message@,
            ),
            AssistantMessageEvent::Error { reason, message } => StreamEvent::Error(
                *reason,
                message@,
            ),
        }
    }
}

// ---------------------------------------------------------------------------
// What is decoded
// ---------------------------------------------------------------------------

proof fn lemma_break_behind(line: Seq<char>, end: Seq<char>, from: int)
    requires
        0 <= from <= line.len(),
        !line.contains('\r'),
        !line.contains('\n'),
        end.len() > 0,
        end[0] == '\r' || end[0] == '\n',
    ensures
        line_break(line + end, from) == Some(line.len() as int),
    decreases line.len() - from,
{
    let s = line + end;
    if from < line.len() {
        assert(s[from] == line[from]);
        assert(line.contains(line[from]));
        lemma_break_behind(line, end, from + 1);
    } else {
        assert(s[from] == end[0]);
    }
}

/// A line is taken in as soon as it ends, whether by a newline, a carriage return
/// or both, and nothing of it is left over.
pub proof fn law_a_line_is_taken_when_it_ends(st: SseState, line: Seq<char>, end: Seq<char>)
    requires
        st.buffer.len() == 0,
        !st.after_return,
        !line.contains('\r'),
        !line.contains('\n'),
        end == seq!['\n'] || end == seq!['\r'] || end == seq!['\r', '\n'],
    ensures
        ({
            let (next, ev) = line_taken(st, line);
            let (q, evs) = fed(st, line + end);
            &&& evs == (match ev {
                Some(e) => seq![e],
                None => Seq::empty(),
            })
            &&& q.event == next.event
            &&& q.data == next.data
            &&& q.buffer.len() == 0
            &&& q.after_return == (end == seq!['\r'])
        }),
{
    let s = line + end;
    assert(less_newline(st, s) == s);
    assert(st.buffer + s =~= s);
    let start = SseState { buffer: s, ..st };
    lemma_break_behind(line, end, 0);
    assert(s.take(line.len() as int) =~= line);
    let i = line.len() as int;
    assert(s[i] == end[0]);
    if end.len() == 2 {
        assert(s[i + 1] == end[1]);
    }
    let rest = s.skip(behind_break(s, i));
    assert(rest.len() == 0);
    lemma_drain_shrinks(start);
    assert(SseState { buffer: rest, ..start } =~= SseState { buffer: rest, ..st });
    let (next, ev) = line_taken(SseState { buffer: rest, ..st }, line);
    assert(next.buffer.len() == 0);
    assert(line_break(next.buffer, 0) is None);
    assert(drained(next) == (next, Seq::<SseEvent>::empty()));
    let (q, evs) = fed(st, s);
    assert(evs =~= as_seq(ev));
    assert(s.last() == end.last());
    assert(seq!['\r', '\n'].last() == '\n');
    assert(seq!['\r'].last() == '\r');
    assert(seq!['\r', '\n'].len() != seq!['\r'].len());
}

/// A line names its field before a colon and gives its value behind it, less one
/// space: data is collected, an event gets its name, every other field and every
/// comment is passed over.
pub proof fn law_lines_set_their_field(st: SseState, value: Seq<char>, name: Seq<char>)
    requires
        !name.contains(':'),
        name.len() > 0,
    ensures
        ({
            let given = if value.len() > 0 && value[0] == ' ' {
                value.skip(1)
            } else {
                value
            };
            &&& line_taken(st, "data:"@ + value) == (
                SseState { data: st.data.push(given), ..st },
                None::<SseEvent>,
            )
            &&& line_taken(st, "event:"@ + value) == (
                SseState { event: Some(given), ..st },
                None::<SseEvent>,
            )
            &&& line_taken(st, "data: "@ + value) == (
                SseState { data: st.data.push(value), ..st },
                None::<SseEvent>,
            )
            &&& line_taken(st, "event: "@ + value) == (
                SseState { event: Some(value), ..st },
                None::<SseEvent>,
            )
            &&& line_taken(st, ":"@ + value) == (st, None::<SseEvent>)
            &&& name != "data"@ && name != "event"@ ==> line_taken(st, name.push(':') + value) == (
                st,
                None::<SseEvent>,
            )
        }),
{
    reveal_strlit("data");
    reveal_strlit("event");
    reveal_strlit("data:");
    reveal_strlit("event:");
    reveal_strlit("data: ");
    reveal_strlit("event: ");
    reveal_strlit(":");
    assert("data"@.len() != "event"@.len());
    lemma_field("data"@, value);
    lemma_field("event"@, value);
    assert("data:"@ =~= "data"@.push(':'));
    assert("event:"@ =~= "event"@.push(':'));
    let spaced = seq![' '] + value;
    assert(spaced.skip(1) =~= value);
    lemma_field("data"@, spaced);
    lemma_field("event"@, spaced);
    assert("data: "@ + value =~= "data"@.push(':') + spaced);
    assert("event: "@ + value =~= "event"@.push(':') + spaced);
    assert(("data"@.push(':') + value)[0] == 'd');
    assert(("event"@.push(':') + value)[0] == 'e');
    assert(("data"@.push(':') + spaced)[0] == 'd');
    assert(("event"@.push(':') + spaced)[0] == 'e');
    assert((":"@ + value)[0] == ':');
    lemma_field(name, value);
    assert((name.push(':') + value)[0] == name[0]);
    assert(name.contains(name[0]));
}

proof fn lemma_field(name: Seq<char>, value: Seq<char>)
    requires
        !name.contains(':'),
    ensures
        field_of(name.push(':') + value) == (
            name,
            if value.len() > 0 && value[0] == ' ' {
                value.skip(1)
            } else {
                value
            },
        ),
{
    let s = name.push(':') + value;
    text::law_a_cut_is_made_at_the_first_place(s, ':');
    assert(s[name.len() as int] == ':');
    match text::cut_at_first(s, ':') {
        Some((x, y)) => {
            assert(s[x.len() as int] == ':');
            if x.len() < name.len() {
                assert(name[x.len() as int] == ':');
            }
            if x.len() > name.len() {
                assert(x[name.len() as int] == s[name.len() as int]);
                assert(x.contains(':'));
            }
            assert(x =~= s.take(x.len() as int));
            assert(name =~= s.take(name.len() as int));
            assert(y =~= s.skip((x.len() + 1) as int));
            assert(value =~= s.skip((name.len() + 1) as int));
        },
        None => {},
    }
}

/// A blank line ends the event under way: it is given with its name and all its
/// data, a line apart, and nothing of it stays. Where there is no event under way
/// nothing is given.
pub proof fn law_a_blank_line_ends_the_event(st: SseState)
    ensures
        ({
            let (next, ev) = line_taken(st, Seq::empty());
            &&& next.event is None && next.data.len() == 0 && next.buffer == st.buffer
            &&& ev is None <==> st.event is None && st.data.len() == 0
            &&& ev matches Some(e) ==> e.event == st.event && e.data == text::joined(
                st.data,
                seq!['\n'],
            )
        }),
{
    reveal_strlit("\n");
    assert("\n"@ =~= seq!['\n']);
    let (next, ev) = line_taken(st, Seq::empty());
    if st.event is None && st.data.len() == 0 {
        assert(next.data =~= Seq::<Seq<char>>::empty());
    }
}

/// The end of the stream ends the last line, if one is under way, and then the
/// last event.
pub proof fn law_the_end_of_the_stream_ends_the_event(st: SseState)
    ensures
        st.buffer.len() == 0 && st.event is None && st.data.len() == 0 ==> finished(st).1.len() == 0,
        st.buffer.len() == 0 && (st.event is Some || st.data.len() > 0) ==> finished(st).1 == seq![
            SseEvent { event: st.event, data: text::joined(st.data, seq!['\n']) },
        ],
        st.buffer.len() > 0 ==> ({
            let (next, ev) = line_taken(SseState { buffer: Seq::empty(), ..st }, st.buffer);
            finished(st).1 == (match ev {
                Some(e) => seq![e],
                None => Seq::empty(),
            }) + finished(next).1
        }),
        finished(st).0.event is None,
        finished(st).0.data.len() == 0,
        finished(st).0.buffer.len() == 0,
{
    reveal_strlit("\n");
    assert("\n"@ =~= seq!['\n']);
    let none = Seq::<SseEvent>::empty();
    if st.buffer.len() == 0 {
        assert(finished(st).1 =~= as_seq(flushed(st).1));
    } else {
        let (next, ev) = line_taken(SseState { buffer: Seq::empty(), ..st }, st.buffer);
        assert(next.buffer.len() == 0);
        assert(finished(next).1 =~= as_seq(flushed(next).1));
        assert(finished(st).1 =~= as_seq(ev) + finished(next).1);
    }
}

/// A text that is JSON stands for what it parses to; a blank one for an empty
/// object; any other for what its repaired form parses to, or else for an empty
/// object.
pub proof fn law_streamed_json_stands_for_what_it_parses_to(s: Seq<char>, v: JsonView)
    ensures
        text::trimmed(s).len() == 0 ==> streaming_value(s) == JsonView::Obj(Map::empty()),
        text::trimmed(s).len() > 0 && json_parsed(text::trimmed(s)) == Some(v) ==> streaming_value(
            s,
        ) == v,
        text::trimmed(s).len() > 0 && json_parsed(text::trimmed(s)) is None && json_parsed(
            repaired(text::trimmed(s)),
        ) == Some(v) ==> streaming_value(s) == v,
        text::trimmed(s).len() > 0 && json_parsed(text::trimmed(s)) is None && json_parsed(
            repaired(text::trimmed(s)),
        ) is None ==> streaming_value(s) == JsonView::Obj(Map::empty()),
{
}

proof fn lemma_without_commas(s: Seq<char>)
    ensures
        without_commas(s).len() <= s.len(),
        without_commas(s) == s.take(without_commas(s).len() as int),
        without_commas(s).len() > 0 ==> without_commas(s).last() != ',',
        forall|i: int| without_commas(s).len() <= i < s.len() ==> #[trigger] s[i] == ',',
    decreases s.len(),
{
    if s.len() > 0 && s.last() == ',' {
        let init = s.drop_last();
        lemma_without_commas(init);
        let w = without_commas(init);
        assert(init.take(w.len() as int) =~= s.take(w.len() as int));
        assert forall|i: int| w.len() <= i < s.len() implies #[trigger] s[i] == ',' by {
            if i < init.len() {
                assert(init[i] == ',');
            }
        }
    } else {
        assert(s.take(s.len() as int) =~= s);
    }
}

proof fn lemma_closers(stack: Seq<char>)
    ensures
        closers(stack).len() == stack.len(),
        forall|i: int|
            0 <= i < stack.len() ==> #[trigger] closers(stack)[i] == (if stack[stack.len() - 1 - i]
                == '{' {
                '}'
            } else {
                ']'
            }),
    decreases stack.len(),
{
    if stack.len() > 0 {
        let init = stack.drop_last();
        lemma_closers(init);
        assert forall|i: int| 0 <= i < stack.len() implies #[trigger] closers(stack)[i] == (if stack[
        stack.len() - 1 - i] == '{' {
            '}'
        } else {
            ']'
        }) by {
            if i > 0 {
                assert(closers(stack)[i] == closers(init)[i - 1]);
            }
        }
    }
}

/// A repair keeps all that was received but commas left dangling at the end, and
/// adds only what closes it: a quote where a string is open, and then the bracket
/// for every open one, the innermost first.
pub proof fn law_a_repair_keeps_what_was_received(s: Seq<char>)
    ensures
        ({
            let r = repaired(s);
            let n = nesting(s);
            let shut = if n.in_string {
                s.push('"')
            } else {
                s
            };
            let kept = r.len() - n.stack.len();
            &&& 0 <= kept <= shut.len()
            &&& r.take(kept) == shut.take(kept)
            &&& n.in_string ==> kept == shut.len()
            &&& forall|i: int| kept <= i < shut.len() ==> #[trigger] shut[i] == ','
            &&& kept > 0 ==> shut[kept - 1] != ','
            &&& forall|i: int|
                0 <= i < n.stack.len() ==> #[trigger] r[kept + i] == (if n.stack[n.stack.len() - 1
                    - i] == '{' {
                    '}'
                } else {
                    ']'
                })
        }),
{
    let n = nesting(s);
    let shut = if n.in_string {
        s.push('"')
    } else {
        s
    };
    let w = without_commas(shut);
    lemma_without_commas(shut);
    lemma_closers(n.stack);
    let r = repaired(s);
    let kept = w.len() as int;
    assert(r.take(kept) =~= w);
    if n.in_string {
        assert(shut.last() == '"');
    }
    if kept > 0 {
        assert(shut[kept - 1] == w.last());
    }
    assert forall|i: int| 0 <= i < n.stack.len() implies #[trigger] r[kept + i] == (if n.stack[
    n.stack.len() - 1 - i] == '{' {
        '}'
    } else {
        ']'
    }) by {
        assert(r[kept + i] == closers(n.stack)[i]);
    }
}

/// What a scan is inside of: an open bracket is pushed and its own closing one
/// takes it away; a quote opens a string and the next one that is not escaped
/// closes it; inside a string brackets mean nothing.
pub proof fn law_the_scan_follows_brackets_and_strings(s: Seq<char>, c: char)
    ensures
        ({
            let n = nesting(s);
            let m = nesting(s.push(c));
            &&& nesting(Seq::empty()).stack.len() == 0 && !nesting(Seq::empty()).in_string
                && !nesting(Seq::empty()).escape
            &&& n.in_string ==> m.stack == n.stack
            &&& n.in_string && n.escape ==> m.in_string && !m.escape
            &&& n.in_string && !n.escape ==> (m.in_string <==> c != '"') && (m.escape <==> c
                == '\\')
            &&& !n.in_string ==> (m.in_string <==> c == '"')
            &&& !n.in_string && (c == '{' || c == '[') ==> m.stack == n.stack.push(c)
            &&& !n.in_string && n.stack.len() > 0 && ((c == '}' && n.stack.last() == '{') || (c
                == ']' && n.stack.last() == '[')) ==> m.stack == n.stack.drop_last()
            &&& !n.in_string && c != '{' && c != '[' && c != '}' && c != ']' ==> m.stack == n.stack
        }),
{
    assert(s.push(c).drop_last() =~= s);
}

/// The first line is what stands before the first line end, and the rest is what
/// stands behind it: a carriage return and a newline right behind it are one line
/// end. Without a line end there is no first line.
pub proof fn law_the_first_line_stands_before_the_first_line_end(
    line: Seq<char>,
    rest: Seq<char>,
)
    requires
        !line.contains('\r'),
        !line.contains('\n'),
    ensures
        first_line(line) is None,
        first_line(line + (seq!['\n'] + rest)) == Some((line, rest)),
        first_line(line + (seq!['\r', '\n'] + rest)) == Some((line, rest)),
        rest.len() == 0 || rest[0] != '\n' ==> first_line(line + (seq!['\r'] + rest)) == Some(
            (line, rest),
        ),
{
    lemma_line_break(line, 0);
    if let Some(i) = line_break(line, 0) {
        assert(line.contains(line[i]));
    }
    let n = line.len() as int;
    let a = seq!['\n'] + rest;
    let b = seq!['\r', '\n'] + rest;
    let c = seq!['\r'] + rest;
    lemma_break_behind(line, a, 0);
    lemma_break_behind(line, b, 0);
    lemma_break_behind(line, c, 0);
    assert((line + a).take(n) =~= line && (line + a).skip(n + 1) =~= rest);
    assert((line + b).take(n) =~= line && (line + b).skip(n + 2) =~= rest);
    assert((line + c).take(n) =~= line && (line + c).skip(n + 1) =~= rest);
    assert((line + a)[n] == '\n');
    assert((line + b)[n] == '\r' && (line + b)[n + 1] == '\n');
    assert((line + c)[n] == '\r');
    if rest.len() > 0 {
        assert((line + c)[n + 1] == rest[0]);
    }
}

} // verus!
