//! The `read` tool: which lines of a file to show, and how.

use vstd::prelude::*;

use crate::agent::tool::{ResultView, ToolResult};
use crate::ai::types::{MediaView, ToolSchema,};
use crate::json::JsonView;
use crate::text;
use crate::tools::schema;
use crate::tools::truncate;
use crate::tools::truncate::{TruncationResult, DEFAULT_MAX_BYTES, DEFAULT_MAX_LINES};
use crate::tools::util;
use crate::tools::util::Target;

verus! {

/// The arguments of a read.
#[derive(Debug)]
pub struct ReadInput {
    pub path: Option<String>,
    pub file_path: Option<String>,
    pub offset: Option<usize>,
    pub limit: Option<usize>,
}

/// Why a read was refused.
#[derive(Debug)]
pub enum ReadError {
    MissingPath,
    Aborted,
    NotFound { display: String },
    IsDirectory { display: String },
    BeyondEnd { offset: usize, total: usize },
}

impl ReadError {
    pub open spec fn text(self) -> Seq<char> {
        match self {
            ReadError::MissingPath => "read requires a 'path' parameter"@,
            ReadError::Aborted => "Operation aborted"@,
            ReadError::NotFound { display } => "File not found: "@ + display@,
            ReadError::IsDirectory { display } => "Path is a directory, not a file: "@ + display@,
            ReadError::BeyondEnd { offset, total } => "Offset "@ + text::decimal(offset as nat)
                + " is beyond end of file ("@ + text::decimal(total as nat) + " lines total)"@,
        }
    }

    /// The error as shown to the model.
    pub fn message(&self) -> (r: String)
        ensures
            r@ == self.text(),
    {
        let mut out: String = String::new();
        match self {
            ReadError::MissingPath => {
                out.append("read requires a 'path' parameter");
            },
            ReadError::Aborted => {
                out.append("Operation aborted");
            },
            ReadError::NotFound { display } => {
                out.append("File not found: ");
                out.append(display.as_str());
            },
            ReadError::IsDirectory { display } => {
                out.append("Path is a directory, not a file: ");
                out.append(display.as_str());
            },
            ReadError::BeyondEnd { offset, total } => {
                out.append("Offset ");
                text::push_usize(&mut out, *offset);
                out.append(" is beyond end of file (");
                text::push_usize(&mut out, *total);
                out.append(" lines total)");
            },
        }
        assert(out@ =~= self.text());
        out
    }
}

/// The path to read: `path`, or else `file_path`.
pub open spec fn path_asked(input: ReadInput) -> Option<Seq<char>> {
    match input.path {
        Some(p) => Some(p@),
        None => text::opt_view(input.file_path),
    }
}

/// The `read` tool of a working directory.
#[derive(Debug)]
pub struct ReadTool {
    pub cwd: String,
}

impl ReadTool {
    pub fn schema(&self) -> (r: ToolSchema)
        ensures
            r@ == schema::read_tool(),
    {
        schema::read_schema()
    }

    /// The file to read.
    pub fn target(&self, input: &ReadInput, cancelled: bool, home: Option<&str>) -> (r: Result<
        Target,
        ReadError,
    >)
        ensures
            match r {
                Ok(t) => {
                    &&& !cancelled
                    &&& path_asked(*input) matches Some(p) && t.is_of(
                        p,
                        self.cwd@,
                        text::opt_str(home),
                    )
                },
                Err(ReadError::MissingPath) => path_asked(*input) is None,
                Err(ReadError::Aborted) => path_asked(*input) is Some && cancelled,
                Err(_) => false,
            },
    {
        let raw: &str = match &input.path {
            Some(p) => p.as_str(),
            None => match &input.file_path {
                Some(p) => p.as_str(),
                None => {
                    return Err(ReadError::MissingPath);
                },
            },
        };
        if cancelled {
            return Err(ReadError::Aborted);
        }
        Ok(util::locate(raw, self.cwd.as_str(), home))
    }
}

/// Decide, from what was found at the path, whether it can be read.
pub fn check_target(target: &Target, exists: bool, is_dir: bool) -> (r: Result<(), ReadError>)
    ensures
        match r {
            Ok(_) => exists && !is_dir,
            Err(ReadError::NotFound { display }) => !exists && display@ == target.display@,
            Err(ReadError::IsDirectory { display }) => exists && is_dir && display@
                == target.display@,
            Err(_) => false,
        },
{
    if !exists {
        Err(ReadError::NotFound { display: target.display.clone() })
    } else if is_dir {
        Err(ReadError::IsDirectory { display: target.display.clone() })
    } else {
        Ok(())
    }
}

/// The MIME type that a path's extension stands for, if it is an image's.
pub open spec fn image_mime(path: Seq<char>) -> Option<Seq<char>> {
    let lower = text::lower(path);
    if text::finishes_with(lower, ".jpg"@) || text::finishes_with(lower, ".jpeg"@) {
        Some("image/jpeg"@)
    } else if text::finishes_with(lower, ".png"@) {
        Some("image/png"@)
    } else if text::finishes_with(lower, ".gif"@) {
        Some("image/gif"@)
    } else if text::finishes_with(lower, ".webp"@) {
        Some("image/webp"@)
    } else {
        None
    }
}

pub fn detect_image_mime(path: &str) -> (r: Option<&'static str>)
    ensures
        match r {
            Some(m) => image_mime(path@) == Some(m@),
            None => image_mime(path@) is None,
        },
{
    let lower: String = text::to_ascii_lowercase(path);
    if text::ends_with(lower.as_str(), ".jpg") || text::ends_with(lower.as_str(), ".jpeg") {
        Some("image/jpeg")
    } else if text::ends_with(lower.as_str(), ".png") {
        Some("image/png")
    } else if text::ends_with(lower.as_str(), ".gif") {
        Some("image/gif")
    } else if text::ends_with(lower.as_str(), ".webp") {
        Some("image/webp")
    } else {
        None
    }
}

// ---------------------------------------------------------------------------
// Text
// ---------------------------------------------------------------------------

/// The first line to show, counted from zero.
pub open spec fn start_line(offset: Option<usize>) -> nat {
    match offset {
        Some(o) => if o > 0 {
            (o - 1) as nat
        } else {
            0
        },
        None => 0,
    }
}

/// The line behind the last one to show: as many as `limit` says, at least one.
pub open spec fn end_line(start: nat, limit: Option<usize>, total: nat) -> nat {
    match limit {
        Some(l) => truncate::fewer(
            start + (if l == 0 {
                1nat
            } else {
                l as nat
            }),
            total,
        ),
        None => total,
    }
}

/// The lines `start..end` as one text, without a final newline.
pub open spec fn selected(raw: Seq<char>, start: nat, end: nat) -> Seq<char> {
    text::joined(text::lines_of(raw).subrange(start as int, end as int), "\n"@)
}

/// The notice that continues a truncated read.
pub open spec fn showing(first: nat, shown: nat, total: nat, by_lines: bool) -> Seq<char> {
    "\n\n[Showing lines "@ + text::decimal(first) + "-"@ + text::decimal(
        (first + shown - 1) as nat,
    ) + " of "@ + text::decimal(total) + (if by_lines {
        Seq::empty()
    } else {
        " ("@ + truncate::size_text(DEFAULT_MAX_BYTES as nat) + " limit)"@
    }) + ". Use offset="@ + text::decimal(first + shown) + " to continue.]"@
}

/// What a read shows of the lines `start..end` of `raw`.
pub open spec fn shown_text(
    raw: Seq<char>,
    start: nat,
    end: nat,
    limited: bool,
    display: Seq<char>,
) -> Seq<char> {
    let total = text::lines_of(raw).len();
    let trunc = truncate::head_truncation(
        selected(raw, start, end),
        DEFAULT_MAX_LINES,
        DEFAULT_MAX_BYTES,
    );
    let first = text::decimal(start + 1);
    if trunc.first_line_exceeds_limit {
        "[Line "@ + first + " exceeds "@ + truncate::size_text(DEFAULT_MAX_BYTES as nat)
            + " limit. Use bash: sed -n '"@ + first + "p' "@ + display + " | head -c "@
            + text::decimal(DEFAULT_MAX_BYTES as nat) + "]"@
    } else if trunc.truncated {
        trunc.content + showing(
            start + 1,
            trunc.output_lines,
            total,
            trunc.truncated_by == Some("lines"@),
        )
    } else if limited && end < total {
        trunc.content + "\n\n["@ + text::decimal((total - end) as nat)
            + " more lines in file. Use offset="@ + text::decimal(end + 1) + " to continue.]"@
    } else {
        trunc.content
    }
}

fn showing_notice(first: usize, shown: usize, total: usize, by_lines: bool) -> (r: String)
    requires
        1 <= first,
        1 <= shown,
        first + shown <= usize::MAX,
    ensures
        r@ == showing(first as nat, shown as nat, total as nat, by_lines),
{
    let mut out: String = "\n\n[Showing lines ".to_string();
    text::push_usize(&mut out, first);
    out.append("-");
    text::push_usize(&mut out, first + shown - 1);
    out.append(" of ");
    text::push_usize(&mut out, total);
    let mut limit: String = String::new();
    if !by_lines {
        limit = " (".to_string();
        limit.append(truncate::format_size(DEFAULT_MAX_BYTES).as_str());
        limit.append(" limit)");
    }
    out.append(limit.as_str());
    out.append(". Use offset=");
    text::push_usize(&mut out, first + shown);
    out.append(" to continue.]");
    out
}

/// A head truncation that dropped something still shows a line.
proof fn lemma_truncated_shows_a_line(content: Seq<char>)
    ensures
        ({
            let t = truncate::head_truncation(content, DEFAULT_MAX_LINES, DEFAULT_MAX_BYTES);
            &&& t.output_lines <= text::lines_of(content).len()
            &&& t.truncated ==> 1 <= t.output_lines < text::lines_of(content).len()
        }),
{
    let lines = text::lines_of(content);
    let cap = truncate::fewer(lines.len(), DEFAULT_MAX_LINES as nat);
    if lines.len() > 0 && text::byte_len(lines[0]) <= DEFAULT_MAX_BYTES {
        assert(lines.take(1) =~= seq![lines[0]]);
        assert(text::joined(lines.take(1), "\n"@) == lines[0]);
        lemma_head_count_at_least_one(lines, cap, DEFAULT_MAX_BYTES as nat);
    }
    lemma_head_count_at_most(lines, cap, DEFAULT_MAX_BYTES as nat);
}

proof fn lemma_head_count_at_least_one(lines: Seq<Seq<char>>, cap: nat, max_bytes: nat)
    requires
        1 <= cap <= lines.len(),
        truncate::joined_bytes(lines.take(1)) <= max_bytes,
    ensures
        truncate::head_count(lines, cap, max_bytes) >= 1,
    decreases cap,
{
    if truncate::joined_bytes(lines.take(cap as int)) > max_bytes {
        lemma_head_count_at_least_one(lines, (cap - 1) as nat, max_bytes);
    }
}

proof fn lemma_head_count_at_most(lines: Seq<Seq<char>>, cap: nat, max_bytes: nat)
    ensures
        truncate::head_count(lines, cap, max_bytes) <= cap,
    decreases cap,
{
    if cap > 0 && truncate::joined_bytes(lines.take(cap as int)) > max_bytes {
        lemma_head_count_at_most(lines, (cap - 1) as nat, max_bytes);
    }
}

/// Joined lines split into the same lines again.
proof fn lemma_pieces_joined(parts: Seq<Seq<char>>)
    requires
        parts.len() > 0,
        forall|i: int, j: int|
            0 <= i < parts.len() && 0 <= j < parts[i].len() ==> #[trigger] parts[i][j] != '\n',
    ensures
        text::pieces(text::joined(parts, "\n"@), '\n') == parts,
    decreases parts.len(),
{
    reveal_strlit("\n");
    assert("\n"@ =~= seq!['\n']);
    let init = parts.drop_last();
    let last = parts[parts.len() - 1];
    assert(parts =~= init.push(last));
    text::lemma_joined_push(init, last, "\n"@);
    assert forall|j: int| 0 <= j < last.len() implies last[j] != '\n' by {
        assert(parts[parts.len() - 1][j] != '\n');
    }
    if init.len() == 0 {
        let none = Seq::<char>::empty();
        assert(none + last =~= last);
        lemma_pieces_extended(none, last);
        assert(text::pieces(none, '\n') =~= seq![none]);
        assert(text::pieces(last, '\n') =~= parts);
    } else {
        assert forall|i: int, j: int|
            0 <= i < init.len() && 0 <= j < init[i].len() implies #[trigger] init[i][j] != '\n' by {
            assert(parts[i][j] != '\n');
        }
        lemma_pieces_joined(init);
        let head = text::joined(init, "\n"@);
        let with_end = head + "\n"@;
        assert(with_end.drop_last() =~= head);
        assert(with_end.last() == '\n');
        lemma_pieces_extended(with_end, last);
        assert(Seq::<char>::empty() + last =~= last);
        assert(text::pieces(with_end + last, '\n') =~= parts);
    }
}

proof fn lemma_pieces_extended(s: Seq<char>, t: Seq<char>)
    requires
        forall|j: int| 0 <= j < t.len() ==> t[j] != '\n',
    ensures
        text::pieces(s, '\n').len() > 0,
        text::pieces(s + t, '\n') == text::pieces(s, '\n').update(
            text::pieces(s, '\n').len() - 1,
            text::pieces(s, '\n').last() + t,
        ),
    decreases t.len(),
{
    text::lemma_pieces_nonempty(s, '\n');
    let p = text::pieces(s, '\n');
    if t.len() == 0 {
        assert(s + t =~= s);
        assert(p.last() + t =~= p.last());
        assert(p.update(p.len() - 1, p.last()) =~= p);
    } else {
        assert(t[t.len() - 1] != '\n');
        assert forall|j: int| 0 <= j < t.drop_last().len() implies t.drop_last()[j] != '\n' by {
            assert(t[j] != '\n');
        }
        lemma_pieces_extended(s, t.drop_last());
        assert((s + t).drop_last() =~= s + t.drop_last());
        assert((s + t).last() == t.last());
        assert((p.last() + t.drop_last()).push(t.last()) =~= p.last() + t);
        assert(text::pieces(s + t, '\n') =~= p.update(p.len() - 1, p.last() + t));
    }
}

proof fn lemma_pieces_hold_no_newline(s: Seq<char>)
    ensures
        forall|i: int, j: int|
            0 <= i < text::pieces(s, '\n').len() && 0 <= j < text::pieces(s, '\n')[i].len()
                ==> #[trigger] text::pieces(s, '\n')[i][j] != '\n',
    decreases s.len(),
{
    if s.len() > 0 {
        text::lemma_pieces_nonempty(s.drop_last(), '\n');
        lemma_pieces_hold_no_newline(s.drop_last());
    }
}

/// The lines of a selection are the selected lines, but for an empty last one.
proof fn lemma_selection_lines(raw: Seq<char>, start: nat, end: nat)
    requires
        start <= end <= text::lines_of(raw).len(),
    ensures
        text::lines_of(selected(raw, start, end)).len() <= end - start,
        start < end ==> text::lines_of(selected(raw, start, end)) == (if text::lines_of(raw)[end
            - 1].len() > 0 {
            text::lines_of(raw).subrange(start as int, end as int)
        } else {
            text::lines_of(raw).subrange(start as int, end - 1)
        }),
{
    lemma_pieces_hold_no_newline(raw);
    text::lemma_pieces_nonempty(raw, '\n');
    let parts = text::lines_of(raw).subrange(start as int, end as int);
    let content = selected(raw, start, end);
    if start < end {
        assert forall|i: int, j: int|
            0 <= i < parts.len() && 0 <= j < parts[i].len() implies #[trigger] parts[i][j]
            != '\n' by {
            assert(parts[i] == text::pieces(raw, '\n')[start + i]);
            assert(text::pieces(raw, '\n')[start + i][j] != '\n');
        }
        lemma_pieces_joined(parts);
        let last = parts[parts.len() - 1];
        let init = parts.drop_last();
        assert(parts =~= init.push(last));
        text::lemma_joined_push(init, last, "\n"@);
        reveal_strlit("\n");
        assert(parts.drop_last() =~= text::lines_of(raw).subrange(start as int, end - 1));
        if last.len() > 0 {
            assert(parts[parts.len() - 1][last.len() - 1] != '\n');
            assert(content.last() == last.last());
        } else if init.len() > 0 {
            assert(content.last() == '\n');
        }
    } else {
        assert(content =~= Seq::<char>::empty());
        reveal_with_fuel(text::pieces, 2);
    }
}

/// The text of a read: the lines from `offset` (counted from one) on, at most
/// `limit` of them, bounded by the output limits, with a notice on how to
/// continue where something was left out.
pub fn read_text(raw: &str, offset: Option<usize>, limit: Option<usize>, display: &str) -> (r:
    Result<String, ReadError>)
    ensures
        match r {
            Ok(out) => start_line(offset) < text::lines_of(raw@).len() && out@ == shown_text(
                raw@,
                start_line(offset),
                end_line(start_line(offset), limit, text::lines_of(raw@).len()),
                limit is Some,
                display@,
            ),
            Err(e) => start_line(offset) >= text::lines_of(raw@).len() && e
                == (ReadError::BeyondEnd {
                offset: truncate::or_else(offset, 0),
                total: text::lines_of(raw@).len() as usize,
            }),
        },
{
    let lines: Vec<String> = text::lines(raw);
    let ghost all = text::lines_of(raw@);
    let total: usize = lines.len();
    assert(all.len() == total);
    let start: usize = match offset {
        Some(o) => if o > 0 {
            o - 1
        } else {
            0
        },
        None => 0,
    };
    if start >= total {
        let asked: usize = match offset {
            Some(o) => o,
            None => 0,
        };
        return Err(ReadError::BeyondEnd { offset: asked, total });
    }
    let end: usize = match limit {
        Some(l) => {
            let l: usize = if l == 0 {
                1
            } else {
                l
            };
            if l >= total - start {
                total
            } else {
                start + l
            }
        },
        None => total,
    };
    let mut chosen: Vec<String> = Vec::new();
    let mut i: usize = start;
    assert(text::views(chosen@) =~= all.subrange(start as int, start as int));
    while i < end
        invariant
            all == text::views(lines@),
            start <= i <= end <= lines@.len(),
            text::views(chosen@) == all.subrange(start as int, i as int),
        decreases end - i,
    {
        let line: String = lines[i].clone();
        proof {
            text::lemma_views_push(chosen@, line);
            assert(all.subrange(start as int, i + 1) =~= all.subrange(start as int, i as int).push(
                lines@[i as int]@,
            ));
        }
        chosen.push(line);
        i += 1;
    }
    let selection: String = text::join(&chosen, "\n");
    assert(selection@ == selected(raw@, start as nat, end as nat));
    let trunc: TruncationResult = truncate::truncate_head(selection.as_str(), None, None);
    proof {
        lemma_truncated_shows_a_line(selection@);
        lemma_selection_lines(raw@, start as nat, end as nat);
    }
    let mut out: String;
    if trunc.first_line_exceeds_limit {
        out = "[Line ".to_string();
        text::push_usize(&mut out, start + 1);
        out.append(" exceeds ");
        out.append(truncate::format_size(DEFAULT_MAX_BYTES).as_str());
        out.append(" limit. Use bash: sed -n '");
        text::push_usize(&mut out, start + 1);
        out.append("p' ");
        out.append(display);
        out.append(" | head -c ");
        text::push_usize(&mut out, DEFAULT_MAX_BYTES);
        out.append("]");
    } else if trunc.truncated {
        let by_lines: bool = match &trunc.truncated_by {
            Some(by) => text::same(by.as_str(), "lines"),
            None => false,
        };
        out = trunc.content.clone();
        out.append(showing_notice(start + 1, trunc.output_lines, total, by_lines).as_str());
    } else if limit.is_some() && end < total {
        out = trunc.content.clone();
        out.append("\n\n[");
        text::push_usize(&mut out, total - end);
        out.append(" more lines in file. Use offset=");
        text::push_usize(&mut out, end + 1);
        out.append(" to continue.]");
    } else {
        out = trunc.content.clone();
    }
    assert(out@ == shown_text(raw@, start as nat, end as nat, limit is Some, display@));
    Ok(out)
}

// ---------------------------------------------------------------------------
// Base64
// ---------------------------------------------------------------------------

/// The character for a value below 64.
pub open spec fn base64_char(v: int) -> char {
    if v < 26 {
        (65 + v) as char
    } else if v < 52 {
        (97 + (v - 26)) as char
    } else if v < 62 {
        (48 + (v - 52)) as char
    } else if v == 62 {
        '+'
    } else {
        '/'
    }
}

/// Base64 with padding: three bytes make four characters.
pub open spec fn base64(b: Seq<u8>) -> Seq<char>
    decreases b.len(),
{
    if b.len() == 0 {
        Seq::empty()
    } else if b.len() == 1 {
        seq![base64_char((b[0] / 4) as int), base64_char((b[0] % 4) * 16), '=', '=']
    } else if b.len() == 2 {
        seq![
            base64_char((b[0] / 4) as int),
            base64_char((b[0] % 4) * 16 + b[1] / 16),
            base64_char((b[1] % 16) * 4),
            '=',
        ]
    } else {
        seq![
            base64_char((b[0] / 4) as int),
            base64_char((b[0] % 4) * 16 + b[1] / 16),
            base64_char((b[1] % 16) * 4 + b[2] / 64),
            base64_char((b[2] % 64) as int),
        ] + base64(b.skip(3))
    }
}

fn base64_digit(v: u8) -> (c: char)
    requires
        v < 64,
    ensures
        c == base64_char(v as int),
{
    if v < 26 {
        (65 + v) as char
    } else if v < 52 {
        (97 + (v - 26)) as char
    } else if v < 62 {
        (48 + (v - 52)) as char
    } else if v == 62 {
        '+'
    } else {
        '/'
    }
}

/// Base64 encoding of `input`.
pub fn base64_encode(input: &[u8]) -> (r: String)
    ensures
        r@ == base64(input@),
{
    let mut out: String = String::new();
    let total: usize = input.len();
    let mut i: usize = 0;
    assert(input@.skip(0) =~= input@);
    assert(out@ + base64(input@.skip(0)) =~= base64(input@));
    while total - i >= 3
        invariant
            total == input@.len(),
            i <= total,
            out@ + base64(input@.skip(i as int)) == base64(input@),
        decreases total - i,
    {
        let ghost before = out@;
        let ghost rest = input@.skip(i as int);
        let a: u8 = input[i];
        let b: u8 = input[i + 1];
        let c: u8 = input[i + 2];
        out.push(base64_digit(a / 4));
        out.push(base64_digit((a % 4) * 16 + b / 16));
        out.push(base64_digit((b % 16) * 4 + c / 64));
        out.push(base64_digit(c % 64));
        i += 3;
        proof {
            assert(rest.skip(3) =~= input@.skip(i as int));
            assert(out@ + base64(input@.skip(i as int)) =~= before + base64(rest));
        }
    }
    let ghost before = out@;
    let ghost rest = input@.skip(i as int);
    if total - i == 1 {
        let a: u8 = input[i];
        out.push(base64_digit(a / 4));
        out.push(base64_digit((a % 4) * 16));
        out.push('=');
        out.push('=');
    } else if total - i == 2 {
        let a: u8 = input[i];
        let b: u8 = input[i + 1];
        out.push(base64_digit(a / 4));
        out.push(base64_digit((a % 4) * 16 + b / 16));
        out.push(base64_digit((b % 16) * 4));
        out.push('=');
    }
    assert(out@ =~= before + base64(rest));
    out
}

/// The result of reading an image: a note and the attachment.
pub fn image_result(bytes: &[u8], mime: &str) -> (r: ToolResult)
    ensures
        r@ == (ResultView {
            content: seq![
                MediaView::Text("Read image file ["@ + mime@ + "]"@),
                MediaView::Image(base64(bytes@), mime@),
            ],
            details: JsonView::Null,
            terminate: false,
        }),
{
    let mut note: String = "Read image file [".to_string();
    note.append(mime);
    note.append("]");
    ToolResult::image(note.as_str(), base64_encode(bytes), mime)
}

// ---------------------------------------------------------------------------
// Laws
// ---------------------------------------------------------------------------

/// Every read makes progress: whatever the limit (even zero), at least one line
/// is selected, and where the output limits cut the selection, either a line is
/// shown or the first line is reported as too long. So a notice never points
/// back at the offset that was just read.
pub proof fn law_a_read_makes_progress(raw: Seq<char>, start: nat, limit: Option<usize>)
    requires
        start < text::lines_of(raw).len(),
    ensures
        ({
            let total = text::lines_of(raw).len();
            let end = end_line(start, limit, total);
            let t = truncate::head_truncation(
                selected(raw, start, end),
                DEFAULT_MAX_LINES,
                DEFAULT_MAX_BYTES,
            );
            &&& start < end <= total
            &&& t.truncated && !t.first_line_exceeds_limit ==> t.output_lines >= 1
        }),
{
    let total = text::lines_of(raw).len();
    let part = selected(raw, start, end_line(start, limit, total));
    if text::lines_of(part).len() > 0 {
        truncate::law_head_truncation_shows_the_first_line(
            part,
            DEFAULT_MAX_LINES,
            DEFAULT_MAX_BYTES,
        );
    }
}

/// Neighbouring selections, put together, are the selection of all their lines.
pub proof fn law_neighbouring_pages_join(raw: Seq<char>, a: nat, b: nat, c: nat)
    requires
        a < b < c <= text::lines_of(raw).len(),
    ensures
        selected(raw, a, c) == selected(raw, a, b) + "\n"@ + selected(raw, b, c),
{
    let lines = text::lines_of(raw);
    let left = lines.subrange(a as int, b as int);
    let right = lines.subrange(b as int, c as int);
    assert(lines.subrange(a as int, c as int) =~= left + right);
    text::lemma_joined_concat(left, right, "\n"@);
}

/// All lines together are the file, less its final newline.
pub proof fn law_all_lines_are_the_file(raw: Seq<char>)
    ensures
        selected(raw, 0, text::lines_of(raw).len()) == (if raw.len() > 0 && raw.last() == '\n' {
            raw.drop_last()
        } else {
            raw
        }),
{
    let lines = text::lines_of(raw);
    assert(lines.subrange(0, lines.len() as int) =~= lines);
    truncate::lemma_lines_rejoined(raw);
}

/// What a page shows of the file, its notice left out.
pub open spec fn page_text(raw: Seq<char>, start: nat, limit: Option<usize>) -> Seq<char> {
    page(raw, start, limit).content
}

/// The page that starts at a line.
pub open spec fn page(raw: Seq<char>, start: nat, limit: Option<usize>) -> truncate::Truncation {
    truncate::head_truncation(
        selected(raw, start, end_line(start, limit, text::lines_of(raw).len())),
        DEFAULT_MAX_LINES,
        DEFAULT_MAX_BYTES,
    )
}

/// The line, counted from zero, at which the notice of a page says to read on.
pub open spec fn next_line(raw: Seq<char>, start: nat, limit: Option<usize>) -> Option<nat> {
    let total = text::lines_of(raw).len();
    let end = end_line(start, limit, total);
    let p = page(raw, start, limit);
    if p.first_line_exceeds_limit {
        None
    } else if p.truncated {
        Some(start + p.output_lines)
    } else if limit is Some && end < total {
        Some(end)
    } else {
        None
    }
}

/// A read shows the page and, where there is more to read, ends by saying at
/// which offset (counted from one) to continue.
pub proof fn law_the_notice_says_where_to_read_on(
    raw: Seq<char>,
    start: nat,
    limit: Option<usize>,
    display: Seq<char>,
)
    requires
        start < text::lines_of(raw).len(),
        !page(raw, start, limit).first_line_exceeds_limit,
    ensures
        ({
            let shown = shown_text(
                raw,
                start,
                end_line(start, limit, text::lines_of(raw).len()),
                limit is Some,
                display,
            );
            match next_line(raw, start, limit) {
                None => shown == page_text(raw, start, limit),
                Some(n) => exists|lead: Seq<char>|
                    shown == #[trigger] (page_text(raw, start, limit) + lead) + "Use offset="@
                        + text::decimal(n + 1) + " to continue.]"@,
            }
        }),
{
    let total = text::lines_of(raw).len();
    let end = end_line(start, limit, total);
    let p = page(raw, start, limit);
    let shown = shown_text(raw, start, end, limit is Some, display);
    reveal_strlit("Use offset=");
    reveal_strlit(". Use offset=");
    reveal_strlit(" more lines in file. Use offset=");
    reveal_strlit(". ");
    reveal_strlit(" more lines in file. ");
    assert(". Use offset="@ =~= ". "@ + "Use offset="@);
    assert(" more lines in file. Use offset="@ =~= " more lines in file. "@ + "Use offset="@);
    if p.truncated {
        let first = start + 1;
        let lead = "\n\n[Showing lines "@ + text::decimal(first) + "-"@ + text::decimal(
            (first + p.output_lines - 1) as nat,
        ) + " of "@ + text::decimal(total) + (if p.truncated_by == Some("lines"@) {
            Seq::empty()
        } else {
            " ("@ + truncate::size_text(DEFAULT_MAX_BYTES as nat) + " limit)"@
        }) + ". "@;
        assert(shown =~= (page_text(raw, start, limit) + lead) + "Use offset="@ + text::decimal(
            start + p.output_lines + 1,
        ) + " to continue.]"@);
    } else if limit is Some && end < total {
        let lead = "\n\n["@ + text::decimal((total - end) as nat) + " more lines in file. "@;
        assert(shown =~= (page_text(raw, start, limit) + lead) + "Use offset="@ + text::decimal(
            end + 1,
        ) + " to continue.]"@);
    }
}

/// Reading on goes forward: the offset that a notice gives is behind the one
/// that was read, and within the file.
pub proof fn law_reading_on_goes_forward(raw: Seq<char>, start: nat, limit: Option<usize>)
    requires
        start < text::lines_of(raw).len(),
    ensures
        next_line(raw, start, limit) matches Some(n) ==> start < n < text::lines_of(raw).len(),
{
    let total = text::lines_of(raw).len();
    let end = end_line(start, limit, total);
    lemma_truncated_shows_a_line(selected(raw, start, end));
    lemma_selection_lines(raw, start, end);
}

/// The texts of the pages that a reader sees who follows the notices.
pub open spec fn pages(raw: Seq<char>, start: nat, limit: Option<usize>) -> Seq<Seq<char>>
    decreases text::lines_of(raw).len() - start,
{
    if start >= text::lines_of(raw).len() {
        Seq::empty()
    } else {
        proof {
            law_reading_on_goes_forward(raw, start, limit);
        }
        match next_line(raw, start, limit) {
            Some(n) => seq![page_text(raw, start, limit)] + pages(raw, n, limit),
            None => seq![page_text(raw, start, limit)],
        }
    }
}

/// No page on the way that ends where its selection does ends on an empty line
/// behind others: such a line is lost with the newline before it.
pub open spec fn pages_end_filled(raw: Seq<char>, start: nat, limit: Option<usize>) -> bool
    decreases text::lines_of(raw).len() - start,
{
    let total = text::lines_of(raw).len();
    let end = end_line(start, limit, total);
    if start >= total {
        true
    } else {
        proof {
            law_reading_on_goes_forward(raw, start, limit);
        }
        &&& page(raw, start, limit).truncated || end == start + 1 || text::lines_of(raw)[end
            - 1].len() > 0
        &&& match next_line(raw, start, limit) {
            Some(n) => pages_end_filled(raw, n, limit),
            None => true,
        }
    }
}

proof fn lemma_page_is_a_selection(raw: Seq<char>, start: nat, limit: Option<usize>)
    requires
        start < text::lines_of(raw).len(),
        pages_end_filled(raw, start, limit),
        forall|i: int|
            0 <= i < text::lines_of(raw).len() ==> text::byte_len(#[trigger] text::lines_of(raw)[i])
                <= DEFAULT_MAX_BYTES,
    ensures
        page_text(raw, start, limit) == selected(
            raw,
            start,
            match next_line(raw, start, limit) {
                Some(n) => n,
                None => text::lines_of(raw).len(),
            },
        ),
{
    let all = text::lines_of(raw);
    let end = end_line(start, limit, all.len());
    let content = selected(raw, start, end);
    let lines = text::lines_of(content);
    let p = page(raw, start, limit);
    lemma_selection_lines(raw, start, end);
    lemma_truncated_shows_a_line(content);
    assert(all.subrange(start as int, end as int).len() == end - start);
    if lines.len() > 0 {
        assert(lines[0] == all[start as int]);
        assert(text::byte_len(all[start as int]) <= DEFAULT_MAX_BYTES);
    }
    let k = p.output_lines;
    assert(p.content == text::joined(lines.take(k as int), "\n"@));
    if p.truncated {
        assert(lines.take(k as int) =~= all.subrange(start as int, (start + k) as int));
    } else {
        assert(k == lines.len());
        assert(lines.take(k as int) =~= lines);
        if all[end - 1].len() == 0 {
            assert(lines =~= Seq::<Seq<char>>::empty());
            assert(all.subrange(start as int, end as int) =~= seq![all[start as int]]);
            assert(text::joined(all.subrange(start as int, end as int), "\n"@)
                =~= text::joined(lines, "\n"@)) by {
                reveal_with_fuel(text::joined, 2);
            }
        }
    }
}

/// Reading on gives the whole text: following the notices from any line to the
/// end, the pages, joined by newlines, are the rest of the file. No line may be
/// too long to show, and no page may lose an empty line at its end.
pub proof fn law_reading_on_gives_the_rest(raw: Seq<char>, start: nat, limit: Option<usize>)
    requires
        start < text::lines_of(raw).len(),
        pages_end_filled(raw, start, limit),
        forall|i: int|
            0 <= i < text::lines_of(raw).len() ==> text::byte_len(#[trigger] text::lines_of(raw)[i])
                <= DEFAULT_MAX_BYTES,
    ensures
        pages(raw, start, limit).len() > 0,
        text::joined(pages(raw, start, limit), "\n"@) == selected(
            raw,
            start,
            text::lines_of(raw).len(),
        ),
    decreases text::lines_of(raw).len() - start,
{
    let total = text::lines_of(raw).len();
    let here = page_text(raw, start, limit);
    law_reading_on_goes_forward(raw, start, limit);
    lemma_page_is_a_selection(raw, start, limit);
    match next_line(raw, start, limit) {
        Some(n) => {
            law_reading_on_gives_the_rest(raw, n, limit);
            text::lemma_joined_prepend(here, pages(raw, n, limit), "\n"@);
            law_neighbouring_pages_join(raw, start, n, total);
        },
        None => {
            text::lemma_joined_prepend(here, Seq::empty(), "\n"@);
            assert(seq![here] + Seq::<Seq<char>>::empty() =~= seq![here]);
        },
    }
}

proof fn lemma_filled_lines_end_pages(raw: Seq<char>, start: nat, limit: Option<usize>)
    requires
        forall|i: int|
            0 <= i < text::lines_of(raw).len() ==> (#[trigger] text::lines_of(raw)[i]).len() > 0,
    ensures
        pages_end_filled(raw, start, limit),
    decreases text::lines_of(raw).len() - start,
{
    let total = text::lines_of(raw).len();
    if start < total {
        law_reading_on_goes_forward(raw, start, limit);
        let end = end_line(start, limit, total);
        assert(text::lines_of(raw)[end - 1].len() > 0);
        if let Some(n) = next_line(raw, start, limit) {
            lemma_filled_lines_end_pages(raw, n, limit);
        }
    }
}

/// Reading a file from its first line and following the notices gives back the
/// file, less a final newline, where it has lines, none of them empty and none
/// too long to show.
pub proof fn law_reading_on_gives_the_file(raw: Seq<char>, limit: Option<usize>)
    requires
        raw.len() > 0,
        forall|i: int|
            0 <= i < text::lines_of(raw).len() ==> 0 < (#[trigger] text::lines_of(raw)[i]).len()
                && text::byte_len(text::lines_of(raw)[i]) <= DEFAULT_MAX_BYTES,
    ensures
        text::joined(pages(raw, 0, limit), "\n"@) == (if raw.last() == '\n' {
            raw.drop_last()
        } else {
            raw
        }),
{
    law_all_lines_are_the_file(raw);
    lemma_filled_lines_end_pages(raw, 0, limit);
    text::lemma_pieces_nonempty(raw.drop_last(), '\n');
    assert(text::lines_of(raw).len() > 0);
    law_reading_on_gives_the_rest(raw, 0, limit);
}

/// Base64 loses nothing: different bytes have different encodings.
pub proof fn law_base64_tells_bytes_apart(a: Seq<u8>, b: Seq<u8>)
    requires
        base64(a) == base64(b),
    ensures
        a == b,
    decreases a.len(),
{
    let x = base64(a);
    lemma_base64_len(a);
    lemma_base64_len(b);
    if a.len() == 0 || b.len() == 0 {
        assert(a =~= b);
    } else {
        lemma_first_bytes(a, b);
        if a.len() >= 3 {
            assert(x.skip(4) =~= base64(a.skip(3)));
            assert(base64(b).skip(4) =~= base64(b.skip(3)));
            law_base64_tells_bytes_apart(a.skip(3), b.skip(3));
            assert forall|i: int| 0 <= i < a.len() implies a[i] == b[i] by {
                if i >= 3 {
                    assert(a.skip(3)[i - 3] == b.skip(3)[i - 3]);
                }
            }
        }
        assert(a =~= b);
    }
}

proof fn lemma_base64_len(a: Seq<u8>)
    ensures
        base64(a).len() == (a.len() + 2) / 3 * 4,
    decreases a.len(),
{
    if a.len() >= 3 {
        lemma_base64_len(a.skip(3));
    }
}

proof fn lemma_chars_tell_values_apart(v: int, w: int)
    requires
        0 <= v < 64,
        0 <= w < 64,
        base64_char(v) == base64_char(w),
    ensures
        v == w,
{
    assert(base64_char(v) as int == base64_char(w) as int);
}

/// The four characters of the first bytes.
proof fn lemma_first_chars(a: Seq<u8>)
    requires
        a.len() > 0,
    ensures
        ({
            let x = base64(a);
            &&& x.len() >= 4
            &&& x[0] == base64_char(a[0] as int / 4)
            &&& x[1] == base64_char((a[0] as int % 4) * 16 + (if a.len() >= 2 {
                a[1] as int / 16
            } else {
                0
            }))
            &&& x[2] == (if a.len() >= 2 {
                base64_char((a[1] as int % 16) * 4 + (if a.len() >= 3 {
                    a[2] as int / 64
                } else {
                    0
                }))
            } else {
                '='
            })
            &&& x[3] == (if a.len() >= 3 {
                base64_char(a[2] as int % 64)
            } else {
                '='
            })
        }),
{
}

proof fn lemma_first_bytes(a: Seq<u8>, b: Seq<u8>)
    requires
        a.len() > 0,
        b.len() > 0,
        base64(a) == base64(b),
    ensures
        a.len() >= 3 <==> b.len() >= 3,
        a.len() < 3 ==> a.len() == b.len(),
        a[0] == b[0],
        a.len() >= 2 ==> a[1] == b[1],
        a.len() >= 3 ==> a[2] == b[2],
        a.len() >= 3 ==> a.len() - b.len() == a.skip(3).len() - b.skip(3).len(),
{
    lemma_first_chars(a);
    lemma_first_chars(b);
    assert forall|v: int| 0 <= v < 64 implies #[trigger] base64_char(v) != '=' by {
        assert(base64_char(v) as int != 61);
    }
    lemma_chars_tell_values_apart(a[0] as int / 4, b[0] as int / 4);
    lemma_chars_tell_values_apart(
        (a[0] as int % 4) * 16 + (if a.len() >= 2 {
            a[1] as int / 16
        } else {
            0
        }),
        (b[0] as int % 4) * 16 + (if b.len() >= 2 {
            b[1] as int / 16
        } else {
            0
        }),
    );
    if a.len() >= 2 {
        lemma_chars_tell_values_apart(
            (a[1] as int % 16) * 4 + (if a.len() >= 3 {
                a[2] as int / 64
            } else {
                0
            }),
            (b[1] as int % 16) * 4 + (if b.len() >= 3 {
                b[2] as int / 64
            } else {
                0
            }),
        );
    }
    if a.len() >= 3 {
        lemma_chars_tell_values_apart(a[2] as int % 64, b[2] as int % 64);
    }
}

/// The base64 alphabet.
pub open spec fn base64_alphabet() -> Seq<char> {
    "ABCDEFGHIJKLMNOPQRSTUVWXYZabcdefghijklmnopqrstuvwxyz0123456789+/"@
}

/// The value of a base64 character: its place in the alphabet.
pub open spec fn base64_value(c: char) -> int {
    choose|v: int| 0 <= v < 64 && base64_alphabet()[v] == c
}

/// The bytes that a base64 text stands for: four characters make three bytes,
/// fewer where the last ones are padding.
pub open spec fn base64_decoded(s: Seq<char>) -> Seq<u8>
    decreases s.len(),
{
    if s.len() < 4 {
        Seq::empty()
    } else {
        let a = base64_value(s[0]);
        let b = base64_value(s[1]);
        let first = (a * 4 + b / 16) as u8;
        if s[2] == '=' {
            seq![first]
        } else {
            let c = base64_value(s[2]);
            let second = ((b % 16) * 16 + c / 4) as u8;
            if s[3] == '=' {
                seq![first, second]
            } else {
                let third = ((c % 4) * 64 + base64_value(s[3])) as u8;
                seq![first, second, third] + base64_decoded(s.skip(4))
            }
        }
    }
}

/// The characters are those of the standard alphabet, each at its value.
pub proof fn law_base64_uses_the_standard_alphabet(v: int)
    requires
        0 <= v < 64,
    ensures
        base64_alphabet().len() == 64,
        base64_char(v) == base64_alphabet()[v],
{
    reveal_strlit("ABCDEFGHIJKLMNOPQRSTUVWXYZabcdefghijklmnopqrstuvwxyz0123456789+/");
}

proof fn lemma_base64_value(v: int)
    requires
        0 <= v < 64,
    ensures
        base64_value(base64_char(v)) == v,
        base64_char(v) != '=',
{
    law_base64_uses_the_standard_alphabet(v);
    let c = base64_char(v);
    assert(0 <= v < 64 && base64_alphabet()[v] == c);
    let w = base64_value(c);
    assert(0 <= w < 64 && base64_alphabet()[w] == c);
    law_base64_uses_the_standard_alphabet(w);
    lemma_chars_tell_values_apart(v, w);
    assert(c as int != 61);
}

/// Decoding gives the bytes back.
pub proof fn law_base64_decodes_to_the_bytes(b: Seq<u8>)
    ensures
        base64_decoded(base64(b)) == b,
    decreases b.len(),
{
    if b.len() > 0 {
        let x = base64(b);
        lemma_first_chars(b);
        let b0 = b[0] as int;
        lemma_base64_value(b0 / 4);
        if b.len() == 1 {
            lemma_base64_value((b0 % 4) * 16);
        } else {
            let b1 = b[1] as int;
            lemma_base64_value((b0 % 4) * 16 + b1 / 16);
            if b.len() == 2 {
                lemma_base64_value((b1 % 16) * 4);
            } else {
                let b2 = b[2] as int;
                lemma_base64_value((b1 % 16) * 4 + b2 / 64);
                lemma_base64_value(b2 % 64);
                assert(x.skip(4) =~= base64(b.skip(3)));
                law_base64_decodes_to_the_bytes(b.skip(3));
            }
        }
        assert(base64_decoded(x) =~= b);
    } else {
        assert(base64_decoded(base64(b)) =~= b);
    }
}

/// Reading starts at the line that the offset gives, counted from one, and at the
/// first without an offset; it ends as many lines on as the limit says, one at the
/// least, or at the end of the file.
pub proof fn law_the_offset_and_the_limit_choose_the_lines(
    offset: usize,
    start: nat,
    limit: usize,
    total: nat,
)
    requires
        start < total,
    ensures
        start_line(None) == 0,
        start_line(Some(0usize)) == 0,
        offset >= 1 ==> start_line(Some(offset)) + 1 == offset,
        end_line(start, None, total) == total,
        limit >= 1 && start + limit <= total ==> end_line(start, Some(limit), total) == start + limit,
        limit >= 1 && start + limit > total ==> end_line(start, Some(limit), total) == total,
        end_line(start, Some(0usize), total) == start + 1,
{
}

/// A page that is within the output limits shows just the lines that were asked
/// for, a line apart, where the last of them is not empty.
pub proof fn law_a_page_shows_the_lines_asked_for(
    raw: Seq<char>,
    start: nat,
    limit: Option<usize>,
)
    requires
        start < text::lines_of(raw).len(),
        ({
            let lines = text::lines_of(raw);
            let end = end_line(start, limit, lines.len());
            &&& end - start <= 2000
            &&& lines[end - 1].len() > 0
            &&& text::byte_len(
                text::joined(lines.subrange(start as int, end as int), seq!['\n']),
            ) <= 51200
        }),
    ensures
        page_text(raw, start, limit) == text::joined(
            text::lines_of(raw).subrange(
                start as int,
                end_line(start, limit, text::lines_of(raw).len()) as int,
            ),
            seq!['\n'],
        ),
        !page(raw, start, limit).truncated,
        !page(raw, start, limit).first_line_exceeds_limit,
{
    reveal_strlit("\n");
    assert("\n"@ =~= seq!['\n']);
    let lines = text::lines_of(raw);
    let end = end_line(start, limit, lines.len());
    let content = selected(raw, start, end);
    let chosen = lines.subrange(start as int, end as int);
    lemma_selection_lines(raw, start, end);
    assert(text::lines_of(content) == chosen);
    assert(chosen.take(chosen.len() as int) =~= chosen);
    let cap = truncate::fewer(chosen.len(), DEFAULT_MAX_LINES as nat);
    assert(cap == chosen.len());
    assert(truncate::head_count(chosen, cap, DEFAULT_MAX_BYTES as nat) == cap);
    lemma_first_line_fits(chosen);
}

proof fn lemma_first_line_fits(lines: Seq<Seq<char>>)
    requires
        lines.len() > 0,
    ensures
        text::byte_len(lines[0]) <= text::byte_len(text::joined(lines, "\n"@)),
    decreases lines.len(),
{
    if lines.len() > 1 {
        let init = lines.drop_last();
        lemma_first_line_fits(init);
        let head = text::joined(init, "\n"@);
        text::lemma_byte_len_add(head, "\n"@);
        text::lemma_byte_len_add(head + "\n"@, lines.last());
    }
}

/// Images are told by the end of their name, in whatever case.
pub proof fn law_images_are_told_by_their_extension(path: Seq<char>)
    ensures
        ({
            let low = text::lower(path);
            let jpeg = text::finishes_with(low, ".jpg"@) || text::finishes_with(low, ".jpeg"@);
            let png = text::finishes_with(low, ".png"@);
            let gif = text::finishes_with(low, ".gif"@);
            let webp = text::finishes_with(low, ".webp"@);
            &&& jpeg ==> image_mime(path) == Some("image/jpeg"@)
            &&& png ==> image_mime(path) == Some("image/png"@)
            &&& gif ==> image_mime(path) == Some("image/gif"@)
            &&& webp ==> image_mime(path) == Some("image/webp"@)
            &&& image_mime(path) is Some ==> jpeg || png || gif || webp
        }),
{
    let low = text::lower(path);
    lemma_ends_apart(low, ".jpg"@, ".png"@);
    lemma_ends_apart(low, ".jpg"@, ".gif"@);
    lemma_ends_apart(low, ".jpg"@, ".webp"@);
    lemma_ends_apart(low, ".jpeg"@, ".png"@);
    lemma_ends_apart(low, ".jpeg"@, ".gif"@);
    lemma_ends_apart(low, ".jpeg"@, ".webp"@);
    lemma_ends_apart(low, ".png"@, ".gif"@);
    lemma_ends_apart(low, ".png"@, ".webp"@);
    lemma_ends_apart(low, ".gif"@, ".webp"@);
    reveal_strlit(".jpg");
    reveal_strlit(".jpeg");
    reveal_strlit(".png");
    reveal_strlit(".gif");
    reveal_strlit(".webp");
    assert(".jpg"@.last() == 'g' && ".jpg"@[2] == 'p');
    assert(".jpeg"@.last() == 'g' && ".jpeg"@[3] == 'e');
    assert(".png"@.last() == 'g' && ".png"@[2] == 'n');
    assert(".gif"@.last() == 'f');
    assert(".webp"@.last() == 'p');
}

/// Two endings that differ in one of their last two characters are not both there.
proof fn lemma_ends_apart(s: Seq<char>, a: Seq<char>, b: Seq<char>)
    ensures
        a.len() >= 2 && b.len() >= 2 && (a[a.len() - 1] != b[b.len() - 1] || a[a.len() - 2]
            != b[b.len() - 2]) ==> !(text::finishes_with(s, a) && text::finishes_with(s, b)),
{
    if a.len() >= 2 && b.len() >= 2 && text::finishes_with(s, a) && text::finishes_with(s, b) {
        let x = s.subrange(s.len() - a.len(), s.len() as int);
        let y = s.subrange(s.len() - b.len(), s.len() as int);
        assert(x[a.len() - 1] == s[s.len() - 1] && y[b.len() - 1] == s[s.len() - 1]);
        assert(x[a.len() - 2] == s[s.len() - 2] && y[b.len() - 2] == s[s.len() - 2]);
    }
}

/// What a read says beside the lines: which of how many lines it shows, at which
/// offset to continue, and, where the first line is too long to show, how to get at
/// it.
pub proof fn law_a_read_says_what_it_left_out(
    raw: Seq<char>,
    start: nat,
    end: nat,
    limited: bool,
    display: Seq<char>,
)
    requires
        start < end <= text::lines_of(raw).len(),
    ensures
        ({
            let total = text::lines_of(raw).len();
            let t = truncate::head_truncation(selected(raw, start, end), 2000, 51200);
            let shown = shown_text(raw, start, end, limited, display);
            let n = t.output_lines;
            &&& t.first_line_exceeds_limit ==> shown == "[Line "@ + text::decimal(start + 1)
                + " exceeds "@ + truncate::size_text(51200) + " limit. Use bash: sed -n '"@
                + text::decimal(start + 1) + "p' "@ + display + " | head -c "@ + text::decimal(51200)
                + "]"@
            &&& !t.first_line_exceeds_limit && t.truncated && t.truncated_by == Some("lines"@)
                ==> shown == t.content + ("\n\n[Showing lines "@ + text::decimal(start + 1) + "-"@
                + text::decimal(start + n) + " of "@ + text::decimal(total) + ". Use offset="@
                + text::decimal(start + n + 1) + " to continue.]"@)
            &&& !t.first_line_exceeds_limit && t.truncated && t.truncated_by != Some("lines"@)
                ==> shown == t.content + ("\n\n[Showing lines "@ + text::decimal(start + 1) + "-"@
                + text::decimal(start + n) + " of "@ + text::decimal(total) + (" ("@
                + truncate::size_text(51200) + " limit)"@) + ". Use offset="@ + text::decimal(
                start + n + 1,
            ) + " to continue.]"@)
            &&& !t.first_line_exceeds_limit && !t.truncated && limited && end < total ==> shown
                == t.content + "\n\n["@ + text::decimal((total - end) as nat)
                + " more lines in file. Use offset="@ + text::decimal(end + 1) + " to continue.]"@
            &&& !t.first_line_exceeds_limit && !t.truncated && !(limited && end < total) ==> shown
                == t.content
        }),
{
    let total = text::lines_of(raw).len();
    let t = truncate::head_truncation(selected(raw, start, end), 2000, 51200);
    let n = t.output_lines;
    assert((start + 1) + n == start + n + 1);
    assert(((start + 1) + n - 1) as nat == start + n);
    let none = Seq::<char>::empty();
    let head = "\n\n[Showing lines "@ + text::decimal(start + 1) + "-"@ + text::decimal(start + n)
        + " of "@ + text::decimal(total);
    assert(head + none =~= head);
}

/// The path to read is under `path`, or else under `file_path`.
pub proof fn law_the_path_to_read_may_have_two_names(input: ReadInput)
    ensures
        input.path matches Some(p) ==> path_asked(input) == Some(p@),
        input.path is None ==> (input.file_path matches Some(p) ==> path_asked(input) == Some(p@)),
        input.path is None && input.file_path is None ==> path_asked(input) is None,
{
}

/// The words of the errors of a read.
pub proof fn law_read_errors_have_their_words(e: ReadError)
    ensures
        match e {
            ReadError::MissingPath => e.text() == "read requires a 'path' parameter"@,
            ReadError::Aborted => e.text() == "Operation aborted"@,
            ReadError::NotFound { display } => e.text() == "File not found: "@ + display@,
            ReadError::IsDirectory { display } => e.text() == "Path is a directory, not a file: "@
                + display@,
            ReadError::BeyondEnd { offset, total } => e.text() == "Offset "@ + text::decimal(
                offset as nat,
            ) + " is beyond end of file ("@ + text::decimal(total as nat) + " lines total)"@,
        },
{
}

/// A selection is its lines, a line apart.
pub proof fn law_a_selection_is_its_lines(raw: Seq<char>, start: nat, end: nat)
    requires
        start <= end <= text::lines_of(raw).len(),
    ensures
        selected(raw, start, end) == text::joined(
            text::lines_of(raw).subrange(start as int, end as int),
            seq!['\n'],
        ),
{
    reveal_strlit("\n");
    assert("\n"@ =~= seq!['\n']);
}

} // verus!
