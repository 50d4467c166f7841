//! Bounded tool output: head truncation keeps the first lines, tail truncation
//! the most recent ones, and long single lines are cut.

use vstd::prelude::*;

use crate::text;

verus! {

/// Default line cap for tool output.
pub const DEFAULT_MAX_LINES: usize = 2000;

/// Default byte cap for tool output (50 KiB).
pub const DEFAULT_MAX_BYTES: usize = 51200;

/// Maximum length of a single grep result line.
pub const GREP_MAX_LINE_LENGTH: usize = 500;

#[derive(Debug)]
pub struct TruncationResult {
    pub content: String,
    pub truncated: bool,
    /// "lines" or "bytes"
    pub truncated_by: Option<String>,
    pub output_lines: usize,
    pub total_lines: usize,
    pub max_lines: Option<usize>,
    pub max_bytes: Option<usize>,
    pub first_line_exceeds_limit: bool,
    pub output_bytes: usize,
    pub last_line_partial: bool,
}

/// The model of a `TruncationResult`.
pub ghost struct Truncation {
    pub content: Seq<char>,
    pub truncated: bool,
    pub truncated_by: Option<Seq<char>>,
    pub output_lines: nat,
    pub total_lines: nat,
    pub max_lines: Option<usize>,
    pub max_bytes: Option<usize>,
    pub first_line_exceeds_limit: bool,
    pub output_bytes: nat,
    pub last_line_partial: bool,
}

impl View for TruncationResult {
    type V = Truncation;

    open spec fn view(&self) -> Truncation {
        Truncation {
            content: self.content@,
            truncated: self.truncated,
            truncated_by: text::opt_view(self.truncated_by),
            output_lines: self.output_lines as nat,
            total_lines: self.total_lines as nat,
            max_lines: self.max_lines,
            max_bytes: self.max_bytes,
            first_line_exceeds_limit: self.first_line_exceeds_limit,
            output_bytes: self.output_bytes as nat,
            last_line_partial: self.last_line_partial,
        }
    }
}

pub open spec fn or_else(limit: Option<usize>, default: usize) -> usize {
    match limit {
        Some(n) => n,
        None => default,
    }
}

pub open spec fn fewer(a: nat, b: nat) -> nat {
    if a <= b {
        a
    } else {
        b
    }
}

/// Bytes that `lines` take when joined by newlines.
pub open spec fn joined_bytes(lines: Seq<Seq<char>>) -> nat {
    text::byte_len(text::joined(lines, "\n"@))
}

/// The largest number of leading lines, at most `cap`, that fit in `max_bytes`.
pub open spec fn head_count(lines: Seq<Seq<char>>, cap: nat, max_bytes: nat) -> nat
    decreases cap,
{
    if cap == 0 || joined_bytes(lines.take(cap as int)) <= max_bytes {
        cap
    } else {
        head_count(lines, (cap - 1) as nat, max_bytes)
    }
}

/// The largest number of trailing lines, at most `cap`, that fit in
/// `max_bytes`; the last line always counts as fitting.
pub open spec fn tail_count(lines: Seq<Seq<char>>, cap: nat, max_bytes: nat) -> nat
    decreases cap,
{
    if cap <= 1 || joined_bytes(lines.skip(lines.len() - cap)) <= max_bytes {
        cap
    } else {
        tail_count(lines, (cap - 1) as nat, max_bytes)
    }
}

/// What `truncate_head` returns. A first line that is over the byte limit by
/// itself gives no output, only a flag.
pub open spec fn head_truncation(
    content: Seq<char>,
    max_lines: usize,
    max_bytes: usize,
) -> Truncation {
    let lines = text::lines_of(content);
    let cap = fewer(lines.len(), max_lines as nat);
    let k = head_count(lines, cap, max_bytes as nat);
    let kept = text::joined(lines.take(k as int), "\n"@);
    if lines.len() > 0 && text::byte_len(lines[0]) > max_bytes {
        Truncation {
            content: Seq::empty(),
            truncated: false,
            truncated_by: None,
            output_lines: 0,
            total_lines: lines.len(),
            max_lines: Some(max_lines),
            max_bytes: Some(max_bytes),
            first_line_exceeds_limit: true,
            output_bytes: 0,
            last_line_partial: false,
        }
    } else {
        Truncation {
            content: kept,
            truncated: k < lines.len(),
            truncated_by: if k == lines.len() {
                None
            } else if k == max_lines {
                Some("lines"@)
            } else {
                Some("bytes"@)
            },
            output_lines: k,
            total_lines: lines.len(),
            max_lines: Some(max_lines),
            max_bytes: Some(max_bytes),
            first_line_exceeds_limit: false,
            output_bytes: text::byte_len(kept),
            last_line_partial: false,
        }
    }
}

/// What `truncate_tail` returns. A last line that is over the byte limit by
/// itself is kept, and reported as bounded by bytes.
pub open spec fn tail_truncation(
    content: Seq<char>,
    max_lines: usize,
    max_bytes: usize,
) -> Truncation {
    let lines = text::lines_of(content);
    let cap = fewer(lines.len(), max_lines as nat);
    let k = tail_count(lines, cap, max_bytes as nat);
    let kept = text::joined(lines.skip(lines.len() - k), "\n"@);
    let by_bytes = k < cap || text::byte_len(kept) > max_bytes;
    Truncation {
        content: kept,
        truncated: by_bytes || k < lines.len(),
        truncated_by: if by_bytes {
            Some("bytes"@)
        } else if k < lines.len() {
            Some("lines"@)
        } else {
            None
        },
        output_lines: k,
        total_lines: lines.len(),
        max_lines: Some(max_lines),
        max_bytes: Some(max_bytes),
        first_line_exceeds_limit: false,
        output_bytes: text::byte_len(kept),
        last_line_partial: false,
    }
}

proof fn lemma_newline_is_one_byte()
    ensures
        text::byte_len("\n"@) == 1,
{
    reveal_strlit("\n");
    assert("\n"@ =~= Seq::<char>::empty().push('\n'));
    text::lemma_byte_len_empty();
    text::lemma_byte_len_push(Seq::<char>::empty(), '\n');
}

proof fn lemma_head_bytes(lines: Seq<Seq<char>>, k: int)
    requires
        0 <= k < lines.len(),
    ensures
        joined_bytes(lines.take(k + 1)) == joined_bytes(lines.take(k)) + text::byte_len(lines[k])
            + (if k > 0 {
            1nat
        } else {
            0
        }),
{
    let init = lines.take(k);
    assert(lines.take(k + 1) =~= init.push(lines[k]));
    text::lemma_joined_push(init, lines[k], "\n"@);
    lemma_newline_is_one_byte();
    text::lemma_byte_len_empty();
    text::lemma_byte_len_add(text::joined(init, "\n"@) + "\n"@, lines[k]);
    text::lemma_byte_len_add(text::joined(init, "\n"@), "\n"@);
    if k == 0 {
        assert(text::joined(init, "\n"@) =~= Seq::<char>::empty());
    }
}

proof fn lemma_head_bytes_grow(lines: Seq<Seq<char>>, j: int, k: int)
    requires
        0 <= j <= k <= lines.len(),
    ensures
        joined_bytes(lines.take(j)) <= joined_bytes(lines.take(k)),
    decreases k - j,
{
    if j < k {
        lemma_head_bytes_grow(lines, j, k - 1);
        lemma_head_bytes(lines, k - 1);
    }
}

proof fn lemma_head_count(lines: Seq<Seq<char>>, cap: nat, max_bytes: nat, k: nat)
    requires
        k <= cap <= lines.len(),
        joined_bytes(lines.take(k as int)) <= max_bytes,
        k < cap ==> joined_bytes(lines.take((k + 1) as int)) > max_bytes,
    ensures
        head_count(lines, cap, max_bytes) == k,
    decreases cap,
{
    if k < cap {
        lemma_head_bytes_grow(lines, (k + 1) as int, cap as int);
        lemma_head_count(lines, (cap - 1) as nat, max_bytes, k);
    }
}

proof fn lemma_tail_bytes(lines: Seq<Seq<char>>, k: int)
    requires
        0 <= k < lines.len(),
    ensures
        joined_bytes(lines.skip(lines.len() - (k + 1))) == joined_bytes(lines.skip(lines.len() - k))
            + text::byte_len(lines[lines.len() - (k + 1)]) + (if k > 0 {
            1nat
        } else {
            0
        }),
{
    let rest = lines.skip(lines.len() - k);
    let x = lines[lines.len() - (k + 1)];
    assert(lines.skip(lines.len() - (k + 1)) =~= seq![x] + rest);
    text::lemma_joined_prepend(x, rest, "\n"@);
    lemma_newline_is_one_byte();
    text::lemma_byte_len_empty();
    text::lemma_byte_len_add(x + "\n"@, text::joined(rest, "\n"@));
    text::lemma_byte_len_add(x, "\n"@);
    if k == 0 {
        assert(text::joined(rest, "\n"@) =~= Seq::<char>::empty());
    }
}

proof fn lemma_tail_bytes_grow(lines: Seq<Seq<char>>, j: int, k: int)
    requires
        0 <= j <= k <= lines.len(),
    ensures
        joined_bytes(lines.skip(lines.len() - j)) <= joined_bytes(lines.skip(lines.len() - k)),
    decreases k - j,
{
    if j < k {
        lemma_tail_bytes_grow(lines, j, k - 1);
        lemma_tail_bytes(lines, k - 1);
    }
}

proof fn lemma_tail_count(lines: Seq<Seq<char>>, cap: nat, max_bytes: nat, k: nat)
    requires
        k <= cap <= lines.len(),
        k <= 1 || joined_bytes(lines.skip(lines.len() - k)) <= max_bytes,
        k < cap ==> k >= 1 && joined_bytes(lines.skip(lines.len() - (k + 1))) > max_bytes,
    ensures
        tail_count(lines, cap, max_bytes) == k,
    decreases cap,
{
    if k < cap {
        lemma_tail_bytes_grow(lines, (k + 1) as int, cap as int);
        lemma_tail_count(lines, (cap - 1) as nat, max_bytes, k);
    }
}

/// Number of lines in `content`; a final newline does not start another one.
pub fn logical_line_count(content: &str) -> (n: usize)
    ensures
        n == text::lines_of(content@).len(),
{
    let lines: Vec<String> = text::lines(content);
    assert(text::views(lines@).len() == lines@.len());
    lines.len()
}

/// Truncate from the head (keep the first lines). Stops at whichever limit is
/// hit first: `max_lines` or `max_bytes`.
pub fn truncate_head(
    content: &str,
    max_lines: Option<usize>,
    max_bytes: Option<usize>,
) -> (r: TruncationResult)
    ensures
        r@ == head_truncation(
            content@,
            or_else(max_lines, DEFAULT_MAX_LINES),
            or_else(max_bytes, DEFAULT_MAX_BYTES),
        ),
{
    let max_lines: usize = match max_lines {
        Some(n) => n,
        None => DEFAULT_MAX_LINES,
    };
    let max_bytes: usize = match max_bytes {
        Some(n) => n,
        None => DEFAULT_MAX_BYTES,
    };
    let lines: Vec<String> = text::lines(content);
    let ghost all = text::lines_of(content@);
    let total: usize = lines.len();
    assert(all.len() == total);
    if total > 0 && text::byte_length(lines[0].as_str()) > max_bytes {
        assert(all[0] == lines@[0]@);
        return TruncationResult {
            content: String::new(),
            truncated: false,
            truncated_by: None,
            output_lines: 0,
            total_lines: total,
            max_lines: Some(max_lines),
            max_bytes: Some(max_bytes),
            first_line_exceeds_limit: true,
            output_bytes: 0,
            last_line_partial: false,
        };
    }
    let cap: usize = if total <= max_lines {
        total
    } else {
        max_lines
    };
    let mut out: String = String::new();
    let mut bytes: usize = 0;
    let mut k: usize = 0;
    let mut over: bool = false;
    proof {
        text::lemma_byte_len_empty();
        assert(text::joined(all.take(0), "\n"@) =~= Seq::<char>::empty());
    }
    while k < cap && !over
        invariant
            all == text::views(lines@),
            all.len() == total,
            total == lines@.len(),
            k <= cap <= total,
            out@ == text::joined(all.take(k as int), "\n"@),
            bytes == text::byte_len(out@),
            bytes <= max_bytes,
            over ==> k < cap && joined_bytes(all.take(k + 1)) > max_bytes,
        decreases cap - k + (if over {
            0int
        } else {
            1int
        }),
    {
        let line: &String = &lines[k];
        let gap: u128 = if k > 0 {
            1
        } else {
            0
        };
        let cost: u128 = text::byte_length(line.as_str()) as u128 + gap;
        proof {
            assert(all[k as int] == lines@[k as int]@);
            lemma_head_bytes(all, k as int);
            text::lemma_joined_push(all.take(k as int), all[k as int], "\n"@);
            assert(all.take(k + 1) =~= all.take(k as int).push(all[k as int]));
        }
        if bytes as u128 + cost > max_bytes as u128 {
            over = true;
        } else {
            if k > 0 {
                out.append("\n");
            }
            out.append(line.as_str());
            assert(out@ =~= text::joined(all.take(k + 1), "\n"@));
            bytes = (bytes as u128 + cost) as usize;
            k += 1;
        }
    }
    proof {
        lemma_head_count(all, cap as nat, max_bytes as nat, k as nat);
    }
    let truncated_by: Option<String> = if k == total {
        None
    } else if k == max_lines {
        Some("lines".to_string())
    } else {
        Some("bytes".to_string())
    };
    TruncationResult {
        content: out,
        truncated: k < total,
        truncated_by,
        output_lines: k,
        total_lines: total,
        max_lines: Some(max_lines),
        max_bytes: Some(max_bytes),
        first_line_exceeds_limit: false,
        output_bytes: bytes,
        last_line_partial: false,
    }
}

/// Truncate from the tail (keep the most recent output).
pub fn truncate_tail(
    content: &str,
    max_lines: Option<usize>,
    max_bytes: Option<usize>,
) -> (r: TruncationResult)
    ensures
        r@ == tail_truncation(
            content@,
            or_else(max_lines, DEFAULT_MAX_LINES),
            or_else(max_bytes, DEFAULT_MAX_BYTES),
        ),
{
    let max_lines: usize = match max_lines {
        Some(n) => n,
        None => DEFAULT_MAX_LINES,
    };
    let max_bytes: usize = match max_bytes {
        Some(n) => n,
        None => DEFAULT_MAX_BYTES,
    };
    let lines: Vec<String> = text::lines(content);
    let ghost all = text::lines_of(content@);
    let total: usize = lines.len();
    assert(all.len() == total);
    let cap: usize = if total <= max_lines {
        total
    } else {
        max_lines
    };
    let mut bytes: usize = 0;
    let mut k: usize = 0;
    let mut over: bool = false;
    proof {
        text::lemma_byte_len_empty();
        assert(text::joined(all.skip(total as int), "\n"@) =~= Seq::<char>::empty());
    }
    while k < cap && !over
        invariant
            all == text::views(lines@),
            all.len() == total,
            total == lines@.len(),
            k <= cap <= total,
            bytes == joined_bytes(all.skip(total - k)),
            k <= 1 || bytes <= max_bytes,
            over ==> 1 <= k < cap && joined_bytes(all.skip(total - (k + 1))) > max_bytes,
        decreases cap - k + (if over {
            0int
        } else {
            1int
        }),
    {
        let line: &String = &lines[total - 1 - k];
        let gap: u128 = if k > 0 {
            1
        } else {
            0
        };
        let cost: u128 = text::byte_length(line.as_str()) as u128 + gap;
        proof {
            assert(all[total - 1 - k] == lines@[total - 1 - k]@);
            lemma_tail_bytes(all, k as int);
        }
        if k > 0 && bytes as u128 + cost > max_bytes as u128 {
            over = true;
        } else {
            bytes = (bytes as u128 + cost) as usize;
            k += 1;
        }
    }
    proof {
        lemma_tail_count(all, cap as nat, max_bytes as nat, k as nat);
    }
    let mut kept: Vec<String> = Vec::new();
    let mut i: usize = total - k;
    assert(text::views(kept@) =~= all.subrange(total - k, total - k));
    while i < total
        invariant
            all == text::views(lines@),
            total == lines@.len(),
            total - k <= i <= total,
            k <= total,
            text::views(kept@) == all.subrange(total - k, i as int),
        decreases total - i,
    {
        let line: String = lines[i].clone();
        proof {
            text::lemma_views_push(kept@, line);
            assert(all.subrange(total - k, i + 1) =~= all.subrange(total - k, i as int).push(
                lines@[i as int]@,
            ));
        }
        kept.push(line);
        i += 1;
    }
    assert(all.subrange(total - k, total as int) =~= all.skip(total - k));
    let content: String = text::join(&kept, "\n");
    let by_bytes: bool = k < cap || bytes > max_bytes;
    let truncated_by: Option<String> = if by_bytes {
        Some("bytes".to_string())
    } else if k < total {
        Some("lines".to_string())
    } else {
        None
    };
    TruncationResult {
        content,
        truncated: by_bytes || k < total,
        truncated_by,
        output_lines: k,
        total_lines: total,
        max_lines: Some(max_lines),
        max_bytes: Some(max_bytes),
        first_line_exceeds_limit: false,
        output_bytes: bytes,
        last_line_partial: false,
    }
}

/// A line cut to `max` characters, marked by an ellipsis when something went.
pub open spec fn cut_line(line: Seq<char>, max: int) -> Seq<char> {
    if line.len() <= max {
        line
    } else {
        line.take(max).push('…')
    }
}

/// Truncate a single (possibly very long) line, by characters.
pub fn truncate_line(line: &str, max: Option<usize>) -> (r: (String, bool))
    ensures
        r.0@ == cut_line(line@, or_else(max, GREP_MAX_LINE_LENGTH) as int),
        r.1 == (line@.len() > or_else(max, GREP_MAX_LINE_LENGTH)),
{
    let max: usize = match max {
        Some(n) => n,
        None => GREP_MAX_LINE_LENGTH,
    };
    let chars: Vec<char> = text::chars_of(line);
    if chars.len() <= max {
        return (line.to_string(), false);
    }
    let mut out: String = text::string_of(&chars, 0, max);
    assert(line@.subrange(0, max as int) =~= line@.take(max as int));
    out.push('…');
    (out, true)
}

// ---------------------------------------------------------------------------
// Sizes
// ---------------------------------------------------------------------------

/// `num / den` rounded to the nearest integer, halves to the even neighbour.
pub open spec fn nearest_even(num: nat, den: nat) -> nat {
    let q = num / den;
    let r = num % den;
    if 2 * r < den {
        q
    } else if 2 * r > den {
        q + 1
    } else {
        q + q % 2
    }
}

/// The distance of neighbouring double-precision numbers around `n`.
pub open spec fn double_unit(n: nat) -> nat
    decreases n,
{
    if n < 0x20_0000_0000_0000 {
        1
    } else {
        2 * double_unit(n / 2)
    }
}

/// The double-precision number nearest to `n`.
pub open spec fn double_value(n: nat) -> nat {
    nearest_even(n, double_unit(n)) * double_unit(n)
}

/// A number of tenths with one decimal place.
pub open spec fn tenths_text(tenths: nat) -> Seq<char> {
    text::decimal(tenths / 10) + "."@ + text::decimal(tenths % 10)
}

/// A size: plain bytes below 1 KiB, then KB or MB with one decimal place.
pub open spec fn size_text(bytes: nat) -> Seq<char> {
    if bytes >= 0x10_0000 {
        tenths_text(nearest_even(10 * double_value(bytes), 0x10_0000)) + "MB"@
    } else if bytes >= 0x400 {
        tenths_text(nearest_even(10 * double_value(bytes), 0x400)) + "KB"@
    } else {
        text::decimal(bytes) + "B"@
    }
}

fn divide_nearest_even(num: u128, den: u128) -> (r: u128)
    requires
        0 < den < 0x1_0000_0000_0000_0000_0000,
        num < 0x100_0000_0000_0000_0000_0000_0000_0000,
    ensures
        r == nearest_even(num as nat, den as nat),
        r * den <= num + den,
        r <= num + 1,
{
    let q: u128 = num / den;
    let rest: u128 = num % den;
    assert(q <= num && q * den + rest == num && (q + 1) * den == q * den + den) by (nonlinear_arith)
        requires
            q == num / den,
            rest == num % den,
            0 < den,
    ;
    if 2 * rest < den {
        q
    } else if 2 * rest > den {
        q + 1
    } else {
        q + q % 2
    }
}

fn unit_of_double(n: u128) -> (u: u128)
    requires
        n < 0x20_0000_0000_0000_0000_0000_0000_0000,
    ensures
        u == double_unit(n as nat),
        1 <= u <= 0x2_0000_0000_0000_0000,
        u == 1 || u * 0x10_0000_0000_0000 <= n,
{
    let mut m: u128 = n;
    let mut u: u128 = 1;
    while m >= 0x20_0000_0000_0000
        invariant
            double_unit(n as nat) == u * double_unit(m as nat),
            1 <= u <= 0x2_0000_0000_0000_0000,
            u * m <= n,
            u == 1 || u * 0x10_0000_0000_0000 <= n,
            n < 0x20_0000_0000_0000_0000_0000_0000_0000,
        decreases m,
    {
        proof {
            let d = double_unit(m as nat / 2);
            assert(double_unit(m as nat) == 2 * d);
            assert(u * (2 * d) == (u * 2) * d) by (nonlinear_arith);
            assert((u * 2) * (m / 2) <= u * m) by (nonlinear_arith)
                requires
                    1 <= u,
            ;
            assert(u <= 0x1_0000_0000_0000_0000) by (nonlinear_arith)
                requires
                    u * m <= 0x20_0000_0000_0000_0000_0000_0000_0000,
                    m >= 0x20_0000_0000_0000,
            ;
        }
        assert((u * 2) * 0x10_0000_0000_0000 <= u * m) by (nonlinear_arith)
            requires
                m >= 0x20_0000_0000_0000,
        ;
        m = m / 2;
        u = u * 2;
    }
    assert(u * double_unit(m as nat) == u) by (nonlinear_arith)
        requires
            double_unit(m as nat) == 1,
    ;
    u
}

/// The double-precision number nearest to `n`.
pub fn value_of_double(n: u128) -> (r: u128)
    requires
        n < 0x20_0000_0000_0000_0000_0000_0000_0000,
    ensures
        r == double_value(n as nat),
        r <= n + 1 + n / 0x10_0000_0000_0000,
{
    let u: u128 = unit_of_double(n);
    let q: u128 = divide_nearest_even(n, u);
    q * u
}

fn push_tenths(out: &mut String, tenths: u128)
    ensures
        final(out)@ == old(out)@ + tenths_text(tenths as nat),
{
    text::push_number(out, tenths / 10);
    out.append(".");
    text::push_number(out, tenths % 10);
    assert(out@ =~= old(out)@ + tenths_text(tenths as nat));
}

/// Human-readable byte size, e.g. "12.3KB".
pub fn format_size(bytes: usize) -> (r: String)
    ensures
        r@ == size_text(bytes as nat),
{
    let mut out: String = String::new();
    if bytes >= 0x10_0000 {
        let b: u128 = value_of_double(bytes as u128);
        push_tenths(&mut out, divide_nearest_even(10 * b, 0x10_0000));
        out.append("MB");
    } else if bytes >= 0x400 {
        let b: u128 = value_of_double(bytes as u128);
        push_tenths(&mut out, divide_nearest_even(10 * b, 0x400));
        out.append("KB");
    } else {
        text::push_usize(&mut out, bytes);
        out.append("B");
    }
    assert(out@ =~= size_text(bytes as nat));
    out
}

// ---------------------------------------------------------------------------
// Laws
// ---------------------------------------------------------------------------

/// Head truncation keeps within both limits, and what it gives is a prefix of
/// the lines.
pub proof fn law_head_truncation_stays_within_its_limits(
    content: Seq<char>,
    max_lines: usize,
    max_bytes: usize,
)
    ensures
        head_truncation(content, max_lines, max_bytes).output_lines <= max_lines,
        head_truncation(content, max_lines, max_bytes).output_bytes <= max_bytes,
        text::byte_len(head_truncation(content, max_lines, max_bytes).content) <= max_bytes,
        head_truncation(content, max_lines, max_bytes).content == text::joined(
            text::lines_of(content).take(
                head_truncation(content, max_lines, max_bytes).output_lines as int,
            ),
            "\n"@,
        ),
{
    let lines = text::lines_of(content);
    let cap = fewer(lines.len(), max_lines as nat);
    text::lemma_byte_len_empty();
    assert(text::joined(lines.take(0), "\n"@) =~= Seq::<char>::empty());
    lemma_head_count_fits(lines, cap, max_bytes as nat);
}

proof fn lemma_head_count_fits(lines: Seq<Seq<char>>, cap: nat, max_bytes: nat)
    ensures
        head_count(lines, cap, max_bytes) <= cap,
        head_count(lines, cap, max_bytes) > 0 ==> joined_bytes(
            lines.take(head_count(lines, cap, max_bytes) as int),
        ) <= max_bytes,
    decreases cap,
{
    if cap > 0 && joined_bytes(lines.take(cap as int)) > max_bytes {
        lemma_head_count_fits(lines, (cap - 1) as nat, max_bytes);
    }
}

/// Unless the first line alone is over the byte limit, at least that line is
/// shown where there is one.
pub proof fn law_head_truncation_shows_the_first_line(
    content: Seq<char>,
    max_lines: usize,
    max_bytes: usize,
)
    requires
        max_lines > 0,
        text::lines_of(content).len() > 0,
    ensures
        ({
            let t = head_truncation(content, max_lines, max_bytes);
            t.first_line_exceeds_limit || t.output_lines >= 1
        }),
{
    let lines = text::lines_of(content);
    let cap = fewer(lines.len(), max_lines as nat);
    assert(lines.take(1) =~= seq![lines[0]]);
    if text::byte_len(lines[0]) <= max_bytes {
        lemma_head_count_reaches(lines, cap, max_bytes as nat);
    }
}

proof fn lemma_head_count_reaches(lines: Seq<Seq<char>>, cap: nat, max_bytes: nat)
    requires
        cap > 0,
        joined_bytes(lines.take(1)) <= max_bytes,
    ensures
        head_count(lines, cap, max_bytes) >= 1,
    decreases cap,
{
    if cap > 1 {
        lemma_head_count_reaches(lines, (cap - 1) as nat, max_bytes);
    }
}

/// Tail truncation keeps within the line limit, and within the byte limit
/// unless it keeps the last line alone. What it gives is a suffix of the lines.
pub proof fn law_tail_truncation_stays_within_its_limits(
    content: Seq<char>,
    max_lines: usize,
    max_bytes: usize,
)
    ensures
        tail_truncation(content, max_lines, max_bytes).output_lines <= max_lines,
        tail_truncation(content, max_lines, max_bytes).output_lines != 1 ==> tail_truncation(
            content,
            max_lines,
            max_bytes,
        ).output_bytes <= max_bytes,
        tail_truncation(content, max_lines, max_bytes).content == text::joined(
            text::lines_of(content).skip(
                text::lines_of(content).len() - tail_truncation(
                    content,
                    max_lines,
                    max_bytes,
                ).output_lines,
            ),
            "\n"@,
        ),
{
    let lines = text::lines_of(content);
    let cap = fewer(lines.len(), max_lines as nat);
    text::lemma_byte_len_empty();
    assert(text::joined(lines.skip(lines.len() as int), "\n"@) =~= Seq::<char>::empty());
    lemma_tail_count_fits(lines, cap, max_bytes as nat);
}

proof fn lemma_tail_count_fits(lines: Seq<Seq<char>>, cap: nat, max_bytes: nat)
    ensures
        tail_count(lines, cap, max_bytes) <= cap,
        tail_count(lines, cap, max_bytes) > 1 ==> joined_bytes(
            lines.skip(lines.len() - tail_count(lines, cap, max_bytes)),
        ) <= max_bytes,
    decreases cap,
{
    if cap > 1 && joined_bytes(lines.skip(lines.len() - cap)) > max_bytes {
        lemma_tail_count_fits(lines, (cap - 1) as nat, max_bytes);
    }
}

pub proof fn lemma_lines_rejoined(s: Seq<char>)
    ensures
        text::joined(text::lines_of(s), "\n"@) == (if s.len() > 0 && s.last() == '\n' {
            s.drop_last()
        } else {
            s
        }),
{
    reveal_strlit("\n");
    assert("\n"@ =~= seq!['\n']);
    text::law_joining_the_pieces_restores_the_text(s, '\n');
    let all = text::pieces(s, '\n');
    if s.len() == 0 {
        assert(all.drop_last() =~= Seq::<Seq<char>>::empty());
        assert(s =~= Seq::<char>::empty());
    } else if s.last() == '\n' {
        text::law_joining_the_pieces_restores_the_text(s.drop_last(), '\n');
        assert(all.drop_last() =~= text::pieces(s.drop_last(), '\n'));
    }
}

/// Content that is within both limits comes back whole, less its final newline,
/// from either end, and is not reported as truncated.
pub proof fn law_content_within_the_limits_is_not_truncated(
    content: Seq<char>,
    max_lines: usize,
    max_bytes: usize,
)
    requires
        text::lines_of(content).len() <= max_lines,
        text::byte_len(content) <= max_bytes,
    ensures
        ({
            let whole = if content.len() > 0 && content.last() == '\n' {
                content.drop_last()
            } else {
                content
            };
            let head = head_truncation(content, max_lines, max_bytes);
            let tail = tail_truncation(content, max_lines, max_bytes);
            &&& head.content == whole && !head.truncated && !head.first_line_exceeds_limit
            &&& tail.content == whole && !tail.truncated
        }),
{
    let lines = text::lines_of(content);
    lemma_lines_rejoined(content);
    assert(lines.take(lines.len() as int) =~= lines);
    assert(lines.skip(0) =~= lines);
    if content.len() > 0 && content.last() == '\n' {
        assert(content =~= content.drop_last().push(content.last()));
        text::lemma_byte_len_push(content.drop_last(), content.last());
    }
    if lines.len() > 0 {
        lemma_head_bytes_grow(lines, 1, lines.len() as int);
        assert(lines.take(1) =~= seq![lines[0]]);
        assert(text::joined(lines.take(1), "\n"@) == lines[0]);
    }
}

proof fn lemma_head_count_is_largest(lines: Seq<Seq<char>>, cap: nat, max_bytes: nat)
    ensures
        head_count(lines, cap, max_bytes) <= cap,
        head_count(lines, cap, max_bytes) < cap ==> joined_bytes(
            lines.take((head_count(lines, cap, max_bytes) + 1) as int),
        ) > max_bytes,
    decreases cap,
{
    if cap > 0 && joined_bytes(lines.take(cap as int)) > max_bytes {
        lemma_head_count_is_largest(lines, (cap - 1) as nat, max_bytes);
    }
}

proof fn lemma_tail_count_is_largest(lines: Seq<Seq<char>>, cap: nat, max_bytes: nat)
    ensures
        tail_count(lines, cap, max_bytes) <= cap,
        cap > 0 ==> tail_count(lines, cap, max_bytes) > 0,
        tail_count(lines, cap, max_bytes) < cap ==> joined_bytes(
            lines.skip(lines.len() - (tail_count(lines, cap, max_bytes) + 1)),
        ) > max_bytes,
    decreases cap,
{
    if cap > 1 && joined_bytes(lines.skip(lines.len() - cap)) > max_bytes {
        lemma_tail_count_is_largest(lines, (cap - 1) as nat, max_bytes);
    }
}

/// Head truncation shows as much as its limits allow: what it leaves out starts at
/// the line limit, or with a line that would go over the byte limit. It tells how
/// many lines there are, how many it shows, and which limit it met. Only a first
/// line that is too long by itself is not shown, and that is told too.
pub proof fn law_head_truncation_shows_as_much_as_it_may(
    content: Seq<char>,
    max_lines: usize,
    max_bytes: usize,
)
    ensures
        ({
            let t = head_truncation(content, max_lines, max_bytes);
            let lines = text::lines_of(content);
            let k = t.output_lines;
            &&& t.total_lines == lines.len()
            &&& t.output_bytes == text::byte_len(t.content)
            &&& t.first_line_exceeds_limit <==> lines.len() > 0 && text::byte_len(lines[0])
                > max_bytes
            &&& t.first_line_exceeds_limit ==> t.content.len() == 0 && k == 0 && !t.truncated
            &&& !t.first_line_exceeds_limit ==> {
                &&& k <= lines.len() && k <= max_lines
                &&& t.content == text::joined(lines.take(k as int), seq!['\n'])
                &&& t.truncated <==> k < lines.len()
                &&& k < lines.len() ==> k == max_lines || text::byte_len(
                    text::joined(lines.take((k + 1) as int), seq!['\n']),
                ) > max_bytes
                &&& t.truncated_by == (if k == lines.len() {
                    None
                } else if k == max_lines {
                    Some("lines"@)
                } else {
                    Some("bytes"@)
                })
            }
            &&& t.max_lines == Some(max_lines) && t.max_bytes == Some(max_bytes)
            &&& !t.last_line_partial
        }),
{
    reveal_strlit("\n");
    assert("\n"@ =~= seq!['\n']);
    let lines = text::lines_of(content);
    let cap = fewer(lines.len(), max_lines as nat);
    lemma_head_count_is_largest(lines, cap, max_bytes as nat);
    text::lemma_byte_len_empty();
}

/// Tail truncation shows the last lines, as many as its limits allow and one at
/// the least. It tells how many lines there are, how many it shows, and which
/// limit it met.
pub proof fn law_tail_truncation_shows_as_much_as_it_may(
    content: Seq<char>,
    max_lines: usize,
    max_bytes: usize,
)
    ensures
        ({
            let t = tail_truncation(content, max_lines, max_bytes);
            let lines = text::lines_of(content);
            let k = t.output_lines;
            &&& t.total_lines == lines.len()
            &&& t.output_bytes == text::byte_len(t.content)
            &&& k <= lines.len() && k <= max_lines
            &&& lines.len() > 0 && max_lines > 0 ==> k > 0
            &&& t.content == text::joined(lines.skip(lines.len() - k), seq!['\n'])
            &&& k < lines.len() ==> k == max_lines || text::byte_len(
                text::joined(lines.skip(lines.len() - (k + 1)), seq!['\n']),
            ) > max_bytes
            &&& t.truncated <==> k < lines.len() || t.output_bytes > max_bytes
            &&& t.truncated_by is None <==> !t.truncated
            &&& t.truncated_by == Some("lines"@) <==> t.truncated && t.output_bytes <= max_bytes
                && k == max_lines
            &&& t.truncated_by is Some ==> t.truncated_by == Some("lines"@) || t.truncated_by
                == Some("bytes"@)
            &&& !t.first_line_exceeds_limit && !t.last_line_partial
        }),
{
    reveal_strlit("\n");
    reveal_strlit("lines");
    reveal_strlit("bytes");
    assert("lines"@[0] != "bytes"@[0]);
    assert("\n"@ =~= seq!['\n']);
    let lines = text::lines_of(content);
    let cap = fewer(lines.len(), max_lines as nat);
    lemma_tail_count_is_largest(lines, cap, max_bytes as nat);
}

/// A long line is cut to its first characters and marked; any other stays.
pub proof fn law_a_long_line_is_cut_and_marked(line: Seq<char>, max: int)
    requires
        max >= 0,
    ensures
        line.len() <= max ==> cut_line(line, max) == line,
        line.len() > max ==> cut_line(line, max).len() == max + 1 && cut_line(line, max).take(max)
            == line.take(max) && cut_line(line, max).last() == '…',
{
    if line.len() > max {
        assert(cut_line(line, max).take(max) =~= line.take(max));
    }
}

/// The limits of tool output.
pub proof fn law_the_limits_of_tool_output()
    ensures
        DEFAULT_MAX_LINES == 2000,
        DEFAULT_MAX_BYTES == 50 * 1024,
        GREP_MAX_LINE_LENGTH == 500,
{
}

/// A size is given in the largest unit that it reaches: whole bytes below a
/// kibibyte, else kibibytes or mebibytes to the nearest tenth.
pub proof fn law_sizes_are_rounded_to_the_nearest_tenth(bytes: nat)
    requires
        bytes < 0x20_0000_0000_0000,
    ensures
        bytes < 1024 ==> size_text(bytes) == text::decimal(bytes) + "B"@,
        1024 <= bytes < 1024 * 1024 ==> exists|tenths: nat|
            size_text(bytes) == #[trigger] text::decimal(tenths / 10) + "."@ + text::decimal(
                tenths % 10,
            ) + "KB"@ && 2 * (10 * bytes - 1024 * tenths) <= 1024 && 2 * (1024 * tenths - 10
                * bytes) <= 1024,
        1024 * 1024 <= bytes ==> exists|tenths: nat|
            size_text(bytes) == #[trigger] text::decimal(tenths / 10) + "."@ + text::decimal(
                tenths % 10,
            ) + "MB"@ && 2 * (10 * bytes - 1024 * 1024 * tenths) <= 1024 * 1024 && 2 * (1024 * 1024
                * tenths - 10 * bytes) <= 1024 * 1024,
{
    assert(double_unit(bytes) == 1);
    assert(nearest_even(bytes, 1) == bytes);
    assert(double_value(bytes) == bytes);
    if bytes >= 1024 * 1024 {
        let tenths = nearest_even(10 * bytes, 0x10_0000);
        lemma_nearest(10 * bytes, 0x10_0000);
        assert(size_text(bytes) == text::decimal(tenths / 10) + "."@ + text::decimal(tenths % 10)
            + "MB"@);
    } else if bytes >= 1024 {
        let tenths = nearest_even(10 * bytes, 0x400);
        lemma_nearest(10 * bytes, 0x400);
        assert(size_text(bytes) == text::decimal(tenths / 10) + "."@ + text::decimal(tenths % 10)
            + "KB"@);
    }
}

proof fn lemma_nearest(num: nat, den: nat)
    requires
        den > 0,
    ensures
        2 * (num - den * nearest_even(num, den)) <= den,
        2 * (den * nearest_even(num, den) - num) <= den,
{
    let q = num / den;
    let r = num % den;
    assert(num == den * q + r) by (nonlinear_arith)
        requires
            den > 0,
            q == num / den,
            r == num % den,
    ;
    assert(den * (q + 1) == den * q + den) by (nonlinear_arith);
    assert(0 <= r < den) by (nonlinear_arith)
        requires
            den > 0,
            r == num % den,
    ;
}

/// A limit that is given counts; without one the default does.
pub proof fn law_a_given_limit_counts(n: usize, default: usize)
    ensures
        or_else(Some(n), default) == n,
        or_else(None, default) == default,
        fewer(n as nat, default as nat) <= n,
        fewer(n as nat, default as nat) <= default,
        fewer(n as nat, default as nat) == n || fewer(n as nat, default as nat) == default,
{
}

/// Rounding goes to the nearer neighbour, and to the even one from the middle.
pub proof fn law_halves_are_rounded_to_even(num: nat, den: nat)
    requires
        den > 0,
    ensures
        2 * (num - den * nearest_even(num, den)) <= den,
        2 * (den * nearest_even(num, den) - num) <= den,
        2 * (num % den) == den ==> nearest_even(num, den) % 2 == 0,
{
    lemma_nearest(num, den);
}

} // verus!
