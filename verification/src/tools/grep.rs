//! The `grep` tool: which lines of which files match, and how they are shown.

use vstd::prelude::*;

use crate::ai::types::ToolSchema;
use crate::text;
use crate::tools::diff::at_least_one;
use crate::tools::edit_diff::{law_lf_form_keeps_lf_text, lf_form, normalize_to_lf};
use crate::tools::pattern::{
    asked_for, compile_glob, compile_pattern, effective_pattern, escaped, glob_compiles_to, glob_language,
    glob_wants, holding, law_globs_are_exact_without_backslashes, may_be_asked_for, regex_compiled,
    regex_is_match, regex_language, slashed,
};
use crate::tools::schema;
use crate::tools::truncate;
use crate::tools::truncate::{
    cut_line, TruncationResult, DEFAULT_MAX_BYTES, DEFAULT_MAX_LINES, GREP_MAX_LINE_LENGTH,
};
use crate::tools::util;
use crate::tools::util::Target;

verus! {

/// Matches shown when no limit is given.
pub const DEFAULT_MATCH_LIMIT: usize = 100;

/// The arguments of a search.
#[derive(Debug)]
pub struct GrepInput {
    pub pattern: String,
    pub path: Option<String>,
    pub glob: Option<String>,
    pub ignore_case: Option<bool>,
    pub literal: Option<bool>,
    pub context: Option<usize>,
    pub limit: Option<usize>,
}

/// Why a search was refused.
#[derive(Debug)]
pub enum GrepError {
    InvalidPattern { message: String },
    InvalidGlob { message: String },
    NotFound { display: String },
}

impl GrepError {
    pub open spec fn text(self) -> Seq<char> {
        match self {
            GrepError::InvalidPattern { message } => "Invalid regex pattern: "@ + message@,
            GrepError::InvalidGlob { message } => "Invalid glob: "@ + message@,
            GrepError::NotFound { display } => "Path not found: "@ + display@,
        }
    }

    /// The error as shown to the model.
    pub fn message(&self) -> (r: String)
        ensures
            r@ == self.text(),
    {
        match self {
            GrepError::InvalidPattern { message } => {
                let mut out: String = "Invalid regex pattern: ".to_string();
                out.append(message.as_str());
                out
            },
            GrepError::InvalidGlob { message } => {
                let mut out: String = "Invalid glob: ".to_string();
                out.append(message.as_str());
                out
            },
            GrepError::NotFound { display } => {
                let mut out: String = "Path not found: ".to_string();
                out.append(display.as_str());
                out
            },
        }
    }
}

impl GrepInput {
    /// The compiled pattern.
    pub fn expression(&self) -> (r: Result<regex::Regex, GrepError>)
        ensures
            ({
                let literal = self.literal == Some(true);
                let ignore_case = self.ignore_case == Some(true);
                let compiled = regex_compiled(
                    effective_pattern(self.pattern@, literal),
                    ignore_case,
                );
                &&& match r {
                    Ok(re) => compiled == Ok::<Set<Seq<char>>, Seq<char>>(regex_language(re)),
                    Err(GrepError::InvalidPattern { message }) => compiled == Err::<
                        Set<Seq<char>>,
                        Seq<char>,
                    >(message@),
                    Err(_) => false,
                }
                &&& literal && !ignore_case ==> (r matches Ok(re) ==> regex_language(re)
                    == holding(self.pattern@))
            }),
    {
        let literal: bool = match self.literal {
            Some(b) => b,
            None => false,
        };
        let ignore_case: bool = match self.ignore_case {
            Some(b) => b,
            None => false,
        };
        match compile_pattern(self.pattern.as_str(), literal, ignore_case) {
            Ok(re) => Ok(re),
            Err(message) => Err(GrepError::InvalidPattern { message }),
        }
    }

    /// The compiled file filter, if one is asked for.
    pub fn file_filter(&self) -> (r: Result<Option<globset::GlobSet>, GrepError>)
        ensures
            self.glob is None ==> r == Ok::<Option<globset::GlobSet>, GrepError>(None),
            self.glob matches Some(g) ==> match r {
                Ok(Some(set)) => glob_compiles_to(g@, Ok(glob_language(set))),
                Err(GrepError::InvalidGlob { message }) => glob_compiles_to(g@, Err(message@)),
                _ => false,
            },
    {
        match &self.glob {
            None => Ok(None),
            Some(g) => match compile_glob(g.as_str()) {
                Ok(set) => Ok(Some(set)),
                Err(message) => Err(GrepError::InvalidGlob { message }),
            },
        }
    }
}

// ---------------------------------------------------------------------------
// One file
// ---------------------------------------------------------------------------

/// The lines of a file: every kind of line end counts, and a final one does not
/// begin another line. An empty file has one empty line.
pub open spec fn file_lines(content: Seq<char>) -> Seq<Seq<char>> {
    if content.len() == 0 {
        seq![Seq::<char>::empty()]
    } else {
        text::lines_of(lf_form(content))
    }
}

fn lines_to_search(content: &str) -> (r: Vec<String>)
    ensures
        text::views(r@) == file_lines(content@),
{
    if content.is_empty() {
        let mut out: Vec<String> = Vec::new();
        out.push(String::new());
        assert(text::views(out@) =~= file_lines(content@));
        out
    } else {
        text::lines(normalize_to_lf(content).as_str())
    }
}

/// The places of the matching lines among the first `n`.
pub open spec fn matching(lines: Seq<Seq<char>>, lang: Set<Seq<char>>, n: int) -> Seq<int>
    decreases n,
{
    if n <= 0 {
        Seq::empty()
    } else if lang.contains(lines[n - 1]) {
        matching(lines, lang, n - 1).push(n - 1)
    } else {
        matching(lines, lang, n - 1)
    }
}

/// Is line `c` within `context` lines of a shown match?
pub open spec fn covered(shown: Seq<int>, context: int, c: int) -> bool {
    exists|k: int|
        0 <= k < shown.len() && #[trigger] shown[k] - context <= c <= shown[k] + context
}

/// How a line is shown: with colons where it matches, with dashes where it is
/// context.
pub open spec fn shown_line(
    display: Seq<char>,
    c: int,
    line: Seq<char>,
    is_match: bool,
) -> Seq<char> {
    let number = text::decimal((c + 1) as nat);
    let cut = cut_line(line, GREP_MAX_LINE_LENGTH as int);
    if is_match {
        display + ":"@ + number + ": "@ + cut
    } else {
        display + "-"@ + number + "- "@ + cut
    }
}

/// What is shown of the first `n` lines of a file: each covered line once, and
/// a separator between groups that do not touch, where context was asked for.
pub open spec fn file_output(
    display: Seq<char>,
    lines: Seq<Seq<char>>,
    shown: Seq<int>,
    context: int,
    n: int,
) -> Seq<Seq<char>>
    decreases n,
{
    if n <= 0 {
        Seq::empty()
    } else {
        let c = n - 1;
        let before = file_output(display, lines, shown, context, c);
        if !covered(shown, context, c) {
            before
        } else {
            let apart = context > 0 && before.len() > 0 && !(c > 0 && covered(
                shown,
                context,
                c - 1,
            ));
            (if apart {
                before.push("--"@)
            } else {
                before
            }).push(shown_line(display, c, lines[c], shown.contains(c)))
        }
    }
}

/// Is a shown line longer than a line may be?
pub open spec fn output_cut(
    lines: Seq<Seq<char>>,
    shown: Seq<int>,
    context: int,
    n: int,
) -> bool {
    exists|c: int|
        0 <= c < n && covered(shown, context, c) && (#[trigger] lines[c]).len()
            > GREP_MAX_LINE_LENGTH
}

// ---------------------------------------------------------------------------
// The search
// ---------------------------------------------------------------------------

/// A search under way.
#[derive(Debug)]
pub struct GrepSearch {
    limit: usize,
    context: usize,
    lines: Vec<String>,
    count: usize,
    reached: bool,
    cut: bool,
}

/// The model of a search: what is shown so far, how many matches are shown,
/// whether there were more than the limit, and whether a line was cut.
#[verifier::ext_equal]
pub ghost struct GrepState {
    pub limit: nat,
    pub context: nat,
    pub lines: Seq<Seq<char>>,
    pub count: nat,
    pub reached: bool,
    pub cut: bool,
}

impl View for GrepSearch {
    type V = GrepState;

    closed spec fn view(&self) -> GrepState {
        GrepState {
            limit: self.limit as nat,
            context: self.context as nat,
            lines: text::views(self.lines@),
            count: self.count as nat,
            reached: self.reached,
            cut: self.cut,
        }
    }
}

impl GrepState {
    /// The limit is at least one, no more matches than it are shown, and so many
    /// are shown when there were more.
    pub open spec fn valid(self) -> bool {
        &&& 1 <= self.limit <= usize::MAX
        &&& self.count <= self.limit
        &&& self.reached ==> self.count == self.limit
    }
}

/// The matches of a file that are shown when `room` more may be.
pub open spec fn shown_of(all: Seq<int>, room: int) -> Seq<int> {
    if all.len() <= room {
        all
    } else {
        all.take(room)
    }
}

/// The search after one more file. One match past the limit is looked for, so
/// that "exactly as many" is told from "more"; it is not shown.
pub open spec fn after_file(
    st: GrepState,
    display: Seq<char>,
    content: Seq<char>,
    lang: Set<Seq<char>>,
) -> GrepState {
    if st.reached {
        st
    } else {
        let lines = file_lines(content);
        let n = lines.len() as int;
        let all = matching(lines, lang, n);
        let room = st.limit - st.count;
        let shown = shown_of(all, room);
        let more = all.len() > room;
        GrepState {
            lines: st.lines + file_output(display, lines, shown, st.context as int, n),
            count: if more {
                st.limit
            } else {
                st.count + all.len()
            },
            reached: more,
            cut: st.cut || output_cut(lines, shown, st.context as int, n),
            ..st
        }
    }
}

/// The notices that go with a result.
pub open spec fn notices(st: GrepState, bytes_hit: bool) -> Seq<Seq<char>> {
    let a = if st.reached {
        seq![
            text::decimal(st.limit) + " matches limit reached. Use limit="@ + text::decimal(
                2 * st.limit,
            ) + " for more, or refine pattern"@,
        ]
    } else {
        Seq::empty()
    };
    let b = if bytes_hit {
        a.push(truncate::size_text(DEFAULT_MAX_BYTES as nat) + " limit reached"@)
    } else {
        a
    };
    if st.cut {
        b.push(
            "Some lines truncated to "@ + text::decimal(GREP_MAX_LINE_LENGTH as nat)
                + " chars. Use read tool to see full lines"@,
        )
    } else {
        b
    }
}

/// A text with its notices.
pub open spec fn with_notices(content: Seq<char>, v: Seq<Seq<char>>) -> Seq<char> {
    if v.len() == 0 {
        content
    } else {
        content + "\n\n["@ + text::joined(v, ". "@) + "]"@
    }
}

/// What a search gives.
pub open spec fn search_text(st: GrepState) -> Seq<char> {
    if st.count == 0 {
        "No matches found"@
    } else {
        let t = truncate::head_truncation(
            text::joined(st.lines, "\n"@),
            DEFAULT_MAX_LINES,
            DEFAULT_MAX_BYTES,
        );
        with_notices(t.content, notices(st, t.truncated))
    }
}

spec fn as_ints(v: Seq<usize>) -> Seq<int> {
    v.map_values(|i: usize| i as int)
}

/// Matching places grow, and lie among the lines looked at.
proof fn lemma_matching(lines: Seq<Seq<char>>, lang: Set<Seq<char>>, n: int)
    requires
        0 <= n <= lines.len(),
    ensures
        forall|k: int|
            0 <= k < matching(lines, lang, n).len() ==> 0 <= #[trigger] matching(lines, lang, n)[k]
                < n,
        forall|j: int, k: int|
            0 <= j < k < matching(lines, lang, n).len() ==> matching(lines, lang, n)[j] < matching(
                lines,
                lang,
                n,
            )[k],
    decreases n,
{
    if n > 0 {
        lemma_matching(lines, lang, n - 1);
        let before = matching(lines, lang, n - 1);
        let all = matching(lines, lang, n);
        assert forall|k: int| 0 <= k < all.len() implies 0 <= #[trigger] all[k] < n by {
            if k < before.len() {
                assert(all[k] == before[k]);
            }
        }
        assert forall|j: int, k: int| 0 <= j < k < all.len() implies all[j] < all[k] by {
            assert(all[j] == before[j]);
            if k < before.len() {
                assert(all[k] == before[k]);
            }
        }
    }
}

/// Looking at more lines only adds matches at the end.
proof fn lemma_matching_grows(lines: Seq<Seq<char>>, lang: Set<Seq<char>>, m: int, n: int)
    requires
        0 <= m <= n <= lines.len(),
    ensures
        matching(lines, lang, m).len() <= matching(lines, lang, n).len(),
        matching(lines, lang, m) == matching(lines, lang, n).take(
            matching(lines, lang, m).len() as int,
        ),
    decreases n - m,
{
    if m < n {
        lemma_matching_grows(lines, lang, m, n - 1);
        assert(matching(lines, lang, m) =~= matching(lines, lang, n).take(
            matching(lines, lang, m).len() as int,
        ));
    } else {
        assert(matching(lines, lang, n).take(matching(lines, lang, n).len() as int) =~= matching(
            lines,
            lang,
            n,
        ));
    }
}

/// The first places of matching lines, at most `room` of them, and whether
/// there are more.
fn find_matches(lines: &Vec<String>, re: &regex::Regex, room: usize) -> (r: (Vec<usize>, bool))
    ensures
        ({
            let all = matching(text::views(lines@), regex_language(*re), lines@.len() as int);
            &&& as_ints(r.0@) == shown_of(all, room as int)
            &&& r.1 == (all.len() > room)
        }),
{
    let ghost lv = text::views(lines@);
    let ghost lang = regex_language(*re);
    let total: usize = lines.len();
    let mut out: Vec<usize> = Vec::new();
    let mut more: bool = false;
    let mut i: usize = 0;
    assert(as_ints(out@) =~= Seq::<int>::empty());
    while i < total && !more
        invariant
            lv == text::views(lines@),
            lang == regex_language(*re),
            total == lines@.len(),
            i <= total,
            out@.len() <= room,
            !more ==> as_ints(out@) == matching(lv, lang, i as int),
            more ==> as_ints(out@) == matching(lv, lang, i as int).take(room as int) && matching(
                lv,
                lang,
                i as int,
            ).len() == room + 1,
        decreases total - i,
    {
        assert(lv[i as int] == lines@[i as int]@);
        if regex_is_match(re, lines[i].as_str()) {
            if out.len() < room {
                assert(as_ints(out@.push(i)) =~= as_ints(out@).push(i as int));
                out.push(i);
            } else {
                more = true;
                assert(as_ints(out@) =~= as_ints(out@).push(i as int).take(room as int));
            }
        }
        i += 1;
    }
    proof {
        let all = matching(lv, lang, total as int);
        lemma_matching_grows(lv, lang, i as int, total as int);
        assert(as_ints(out@).len() == out@.len());
        if more {
            assert(as_ints(out@) =~= all.take(room as int));
        }
    }
    (out, more)
}

fn make_line(display: &str, c: usize, line: &str, is_match: bool) -> (r: (String, bool))
    requires
        c < usize::MAX,
    ensures
        r.0@ == shown_line(display@, c as int, line@, is_match),
        r.1 == (line@.len() > GREP_MAX_LINE_LENGTH),
{
    let (cut, was): (String, bool) = truncate::truncate_line(line, None);
    let mut out: String = display.to_string();
    if is_match {
        out.append(":");
        text::push_usize(&mut out, c + 1);
        out.append(": ");
    } else {
        out.append("-");
        text::push_usize(&mut out, c + 1);
        out.append("- ");
    }
    out.append(cut.as_str());
    (out, was)
}

/// Append what is shown of one file; tells whether a line was cut.
#[verifier::rlimit(60)]
fn push_file(
    out: &mut Vec<String>,
    display: &str,
    lines: &Vec<String>,
    shown: &Vec<usize>,
    context: usize,
) -> (cut: bool)
    requires
        forall|k: int| 0 <= k < shown@.len() ==> #[trigger] shown@[k] < lines@.len(),
        forall|j: int, k: int| 0 <= j < k < shown@.len() ==> shown@[j] < shown@[k],
    ensures
        text::views(final(out)@) == text::views(old(out)@) + file_output(
            display@,
            text::views(lines@),
            as_ints(shown@),
            context as int,
            lines@.len() as int,
        ),
        cut == output_cut(
            text::views(lines@),
            as_ints(shown@),
            context as int,
            lines@.len() as int,
        ),
{
    let ghost lv = text::views(lines@);
    let ghost sv = as_ints(shown@);
    let ghost start = text::views(out@);
    let total: usize = lines.len();
    let mut emitted: bool = false;
    let mut previous: bool = false;
    let mut cut: bool = false;
    let mut p: usize = 0;
    let mut q: usize = 0;
    let mut c: usize = 0;
    assert(text::views(out@) =~= start + file_output(display@, lv, sv, context as int, 0));
    while c < total
        invariant
            lv == text::views(lines@),
            sv == as_ints(shown@),
            total == lines@.len(),
            c <= total,
            p <= shown@.len(),
            q <= shown@.len(),
            forall|k: int| 0 <= k < shown@.len() ==> #[trigger] shown@[k] < lines@.len(),
            forall|j: int, k: int| 0 <= j < k < shown@.len() ==> shown@[j] < shown@[k],
            forall|k: int| 0 <= k < p ==> #[trigger] shown@[k] + context < c,
            forall|k: int| 0 <= k < q ==> #[trigger] shown@[k] < c,
            forall|k: int| q <= k < shown@.len() ==> #[trigger] shown@[k] >= c,
            text::views(out@) == start + file_output(display@, lv, sv, context as int, c as int),
            emitted == (file_output(display@, lv, sv, context as int, c as int).len() > 0),
            previous == (c > 0 && covered(sv, context as int, c - 1)),
            cut == output_cut(lv, sv, context as int, c as int),
        decreases total - c,
    {
        while p < shown.len() && (shown[p] as u128) + (context as u128) < c as u128
            invariant
                p <= shown@.len(),
                forall|k: int| 0 <= k < p ==> #[trigger] shown@[k] + context < c,
            decreases shown@.len() - p,
        {
            p += 1;
        }
        let here: bool = p < shown.len() && (shown[p] as u128) <= (c as u128) + (context as u128);
        let is_match: bool = q < shown.len() && shown[q] == c;
        proof {
            assert(lv[c as int] == lines@[c as int]@);
            assert(here == covered(sv, context as int, c as int)) by {
                if here {
                    assert(sv[p as int] == shown@[p as int]);
                    assert(sv[p as int] - context <= c <= sv[p as int] + context);
                } else {
                    assert forall|k: int| 0 <= k < sv.len() implies !(#[trigger] sv[k] - context
                        <= c <= sv[k] + context) by {
                        assert(sv[k] == shown@[k]);
                        if p <= k && p < k {
                            assert(shown@[p as int] < shown@[k]);
                        }
                    }
                }
            }
            assert(is_match == sv.contains(c as int)) by {
                if is_match {
                    assert(sv[q as int] == c);
                } else if sv.contains(c as int) {
                    let k = choose|k: int| 0 <= k < sv.len() && sv[k] == c;
                    assert(shown@[k] == c);
                    if q < k {
                        assert(shown@[q as int] < shown@[k]);
                    }
                }
            }
        }
        if here {
            if context > 0 && emitted && !previous {
                let sep: String = "--".to_string();
                proof {
                    text::lemma_views_push(out@, sep);
                }
                out.push(sep);
            }
            let (line, was): (String, bool) = make_line(display, c, lines[c].as_str(), is_match);
            proof {
                text::lemma_views_push(out@, line);
            }
            out.push(line);
            proof {
                assert(text::views(out@) =~= start + file_output(
                    display@,
                    lv,
                    sv,
                    context as int,
                    c + 1,
                ));
            }
            if was {
                cut = true;
            }
            emitted = true;
        }
        proof {
            assert(cut == output_cut(lv, sv, context as int, c + 1)) by {
                if cut && !(here && lv[c as int].len() > GREP_MAX_LINE_LENGTH) {
                    let w = choose|w: int|
                        0 <= w < c && covered(sv, context as int, w) && (#[trigger] lv[w]).len()
                            > GREP_MAX_LINE_LENGTH;
                    assert(lv[w].len() > GREP_MAX_LINE_LENGTH);
                }
                if output_cut(lv, sv, context as int, c + 1) {
                    let w = choose|w: int|
                        0 <= w < c + 1 && covered(sv, context as int, w) && (#[trigger] lv[w]).len()
                            > GREP_MAX_LINE_LENGTH;
                    if w < c {
                        assert(output_cut(lv, sv, context as int, c as int));
                    }
                }
            }
        }
        previous = here;
        if is_match {
            q += 1;
        }
        c += 1;
    }
    cut
}

impl GrepSearch {
    /// A search that shows at most `limit` matches (at least one), each with
    /// `context` lines around it.
    pub fn new(limit: Option<usize>, context: Option<usize>) -> (r: GrepSearch)
        ensures
            r@ == (GrepState {
                limit: at_least_one(truncate::or_else(limit, DEFAULT_MATCH_LIMIT) as nat),
                context: truncate::or_else(context, 0) as nat,
                lines: Seq::empty(),
                count: 0,
                reached: false,
                cut: false,
            }),
            r@.valid(),
    {
        let asked: usize = match limit {
            Some(n) => n,
            None => DEFAULT_MATCH_LIMIT,
        };
        let limit: usize = if asked == 0 {
            1
        } else {
            asked
        };
        let context: usize = match context {
            Some(n) => n,
            None => 0,
        };
        let lines: Vec<String> = Vec::new();
        assert(text::views(lines@) =~= Seq::<Seq<char>>::empty());
        GrepSearch { limit, context, lines, count: 0, reached: false, cut: false }
    }

    /// Were there more matches than the limit?
    pub fn is_full(&self) -> (r: bool)
        ensures
            r == self@.reached,
    {
        self.reached
    }

    /// Search one more file.
    pub fn search_file(&mut self, re: &regex::Regex, display: &str, content: &str)
        requires
            old(self)@.valid(),
        ensures
            final(self)@ == after_file(old(self)@, display@, content@, regex_language(*re)),
            final(self)@.valid(),
    {
        if self.reached {
            return;
        }
        let lines: Vec<String> = lines_to_search(content);
        let ghost lv = file_lines(content@);
        let ghost lang = regex_language(*re);
        let room: usize = self.limit - self.count;
        let (shown, more): (Vec<usize>, bool) = find_matches(&lines, re, room);
        proof {
            let all = matching(lv, lang, lines@.len() as int);
            lemma_matching(lv, lang, lines@.len() as int);
            assert(as_ints(shown@).len() == shown@.len());
            assert forall|k: int| 0 <= k < shown@.len() implies #[trigger] shown@[k] < lines@.len() by {
                assert(as_ints(shown@)[k] == shown@[k]);
                assert(all[k] < lines@.len());
            }
            assert forall|j: int, k: int| 0 <= j < k < shown@.len() implies shown@[j] < shown@[k] by {
                assert(as_ints(shown@)[j] == shown@[j]);
                assert(as_ints(shown@)[k] == shown@[k]);
                assert(all[j] < all[k]);
            }
            assert(lv.len() == lines@.len());
        }
        let found: usize = shown.len();
        let cut: bool = push_file(&mut self.lines, display, &lines, &shown, self.context);
        if cut {
            self.cut = true;
        }
        if more {
            self.reached = true;
            self.count = self.limit;
        } else {
            self.count = self.count + found;
        }
    }

    fn notice_list(&self, bytes_hit: bool) -> (r: Vec<String>)
        ensures
            text::views(r@) == notices(self@, bytes_hit),
    {
        let mut out: Vec<String> = Vec::new();
        if self.reached {
            let mut n: String = String::new();
            text::push_usize(&mut n, self.limit);
            assert(n@ =~= text::decimal(self.limit as nat));
            n.append(" matches limit reached. Use limit=");
            text::push_number(&mut n, 2 * (self.limit as u128));
            n.append(" for more, or refine pattern");
            out.push(n);
        }
        if bytes_hit {
            let mut n: String = truncate::format_size(DEFAULT_MAX_BYTES);
            n.append(" limit reached");
            out.push(n);
        }
        if self.cut {
            let mut n: String = "Some lines truncated to ".to_string();
            text::push_usize(&mut n, GREP_MAX_LINE_LENGTH);
            n.append(" chars. Use read tool to see full lines");
            out.push(n);
        }
        assert(text::views(out@) =~= notices(self@, bytes_hit));
        out
    }

    /// The result of the search.
    pub fn finish(&self) -> (r: String)
        ensures
            r@ == search_text(self@),
    {
        if self.count == 0 {
            return "No matches found".to_string();
        }
        let raw: String = text::join(&self.lines, "\n");
        let t: TruncationResult = truncate::truncate_head(raw.as_str(), None, None);
        let list: Vec<String> = self.notice_list(t.truncated);
        append_notices(t.content, &list)
    }
}

/// A text with its notices.
pub fn append_notices(content: String, list: &Vec<String>) -> (r: String)
    ensures
        r@ == with_notices(content@, text::views(list@)),
{
    let mut out: String = content;
    assert(text::views(list@).len() == list@.len());
    if list.len() > 0 {
        out.append("\n\n[");
        out.append(text::join(list, ". ").as_str());
        out.append("]");
    }
    out
}

/// How a file is shown: its path below the search root where a directory is
/// searched, otherwise its name.
pub open spec fn display_of(file: Seq<char>, root: Seq<char>, is_dir: bool) -> Seq<char> {
    let name = util::name_or_empty(file);
    if is_dir {
        match util::relative(file, root) {
            Some(rel) => if rel.len() == 0 {
                name
            } else {
                slashed(rel)
            },
            None => name,
        }
    } else {
        name
    }
}

/// `p` with `/` for every `\`.
pub fn forward_slashes(p: &str) -> (r: String)
    ensures
        r@ == slashed(p@),
{
    let v: Vec<char> = text::chars_of(p);
    let mut out: String = String::new();
    let mut i: usize = 0;
    assert(out@ =~= slashed(p@).take(0));
    while i < v.len()
        invariant
            v@ == p@,
            i <= v@.len(),
            out@ == slashed(p@).take(i as int),
        decreases v@.len() - i,
    {
        let c: char = if v[i] == '\\' {
            '/'
        } else {
            v[i]
        };
        assert(slashed(p@).take(i + 1) =~= slashed(p@).take(i as int).push(c));
        out.push(c);
        i += 1;
    }
    assert(slashed(p@).take(v@.len() as int) =~= slashed(p@));
    out
}

/// How a file is shown.
pub fn display_for(file: &str, search_root: &str, is_dir: bool) -> (r: String)
    ensures
        r@ == display_of(file@, search_root@, is_dir),
{
    let name: String = match util::file_name(file) {
        Some(n) => n,
        None => String::new(),
    };
    if is_dir {
        if let Some(rel) = util::strip_prefix(file, search_root) {
            if rel.as_str().is_empty() {
                return name;
            }
            return forward_slashes(rel.as_str());
        }
    }
    name
}

// ---------------------------------------------------------------------------
// The tool
// ---------------------------------------------------------------------------

/// The `grep` tool of a working directory.
#[derive(Debug)]
pub struct GrepTool {
    pub cwd: String,
}

/// The compiled pattern of a search, or the message of its error.
pub open spec fn compiled_of(input: GrepInput) -> Result<Set<Seq<char>>, Seq<char>> {
    regex_compiled(
        effective_pattern(input.pattern@, input.literal == Some(true)),
        input.ignore_case == Some(true),
    )
}

/// A search of which nothing has been seen yet.
pub open spec fn fresh_search(limit: Option<usize>, context: Option<usize>) -> GrepState {
    GrepState {
        limit: at_least_one(truncate::or_else(limit, DEFAULT_MATCH_LIMIT) as nat),
        context: truncate::or_else(context, 0) as nat,
        lines: Seq::empty(),
        count: 0,
        reached: false,
        cut: false,
    }
}

/// The path of a file below the search root, as far as it lies there.
pub open spec fn path_below(file: Seq<char>, root: Seq<char>) -> Seq<char> {
    match util::relative(file, root) {
        Some(rel) => rel,
        None => file,
    }
}

impl GrepTool {
    pub fn schema(&self) -> (r: ToolSchema)
        ensures
            r@ == schema::grep_tool(),
    {
        schema::grep_schema()
    }

    /// The file or directory to search.
    pub fn target(&self, input: &GrepInput, home: Option<&str>) -> (r: Target)
        ensures
            r.is_of(util::or_here(input.path), self.cwd@, text::opt_str(home)),
    {
        util::locate_or_here(&input.path, self.cwd.as_str(), home)
    }

    /// Begin a search, given what was found at its target. A bad pattern is
    /// reported first, then a missing path, then a bad glob.
    pub fn begin(&self, input: &GrepInput, target: &Target, exists: bool, is_dir: bool) -> (r:
        Result<GrepWalk, GrepError>)
        ensures
            match r {
                Ok(w) => {
                    &&& compiled_of(*input) == Ok::<Set<Seq<char>>, Seq<char>>(w@.lang)
                    &&& input.literal == Some(true) && input.ignore_case != Some(true)
                        ==> w@.lang == holding(input.pattern@)
                    &&& exists
                    &&& input.glob is None ==> w@.filter is None
                    &&& input.glob matches Some(g) ==> w@.filter matches Some(l)
                        && glob_compiles_to(g@, Ok(l))
                    &&& w@.root == target.path@
                    &&& w@.is_dir == is_dir
                    &&& w@.state == fresh_search(input.limit, input.context)
                    &&& w@.state.valid()
                },
                Err(GrepError::InvalidPattern { message }) => compiled_of(*input) == Err::<
                    Set<Seq<char>>,
                    Seq<char>,
                >(message@),
                Err(GrepError::NotFound { display }) => compiled_of(*input) is Ok && !exists
                    && display@ == target.display@,
                Err(GrepError::InvalidGlob { message }) => {
                    &&& compiled_of(*input) is Ok
                    &&& exists
                    &&& input.glob matches Some(g) && glob_compiles_to(g@, Err(message@))
                },
            },
    {
        let re: regex::Regex = match input.expression() {
            Ok(re) => re,
            Err(e) => {
                return Err(e);
            },
        };
        if !exists {
            return Err(GrepError::NotFound { display: target.display.clone() });
        }
        let filter: Option<globset::GlobSet> = match input.file_filter() {
            Ok(f) => f,
            Err(e) => {
                return Err(e);
            },
        };
        Ok(
            GrepWalk {
                re,
                filter,
                root: target.path.clone(),
                is_dir,
                search: GrepSearch::new(input.limit, input.context),
            },
        )
    }
}

/// A search on its way through the files.
#[derive(Debug)]
pub struct GrepWalk {
    re: regex::Regex,
    filter: Option<globset::GlobSet>,
    root: String,
    is_dir: bool,
    search: GrepSearch,
}

/// The model of such a search: the lines it looks for, the files it wants,
/// where it started, and what it has found.
pub ghost struct GrepWalkView {
    pub lang: Set<Seq<char>>,
    pub filter: Option<Set<Seq<char>>>,
    pub root: Seq<char>,
    pub is_dir: bool,
    pub state: GrepState,
}

impl View for GrepWalk {
    type V = GrepWalkView;

    closed spec fn view(&self) -> GrepWalkView {
        GrepWalkView {
            lang: regex_language(self.re),
            filter: match self.filter {
                Some(g) => Some(glob_language(g)),
                None => None,
            },
            root: self.root@,
            is_dir: self.is_dir,
            state: self.search@,
        }
    }
}

impl GrepWalk {
    /// Is a file to be searched?
    pub fn wants(&self, file: &str) -> (r: bool)
        ensures
            self@.filter is None ==> r,
            may_be_asked_for(
                self@.filter,
                path_below(file@, self@.root),
                util::name_or_empty(file@),
                r,
            ),
            !path_below(file@, self@.root).contains('\\') && !util::name_or_empty(file@).contains(
                '\\',
            ) ==> r == asked_for(
                self@.filter,
                path_below(file@, self@.root),
                util::name_or_empty(file@),
            ),
    {
        let rel: String = match util::strip_prefix(file, self.root.as_str()) {
            Some(rel) => rel,
            None => file.to_string(),
        };
        let base: String = match util::file_name(file) {
            Some(n) => n,
            None => String::new(),
        };
        let r: bool = match &self.filter {
            Some(g) => glob_wants(Some(g), rel.as_str(), base.as_str()),
            None => glob_wants(None, rel.as_str(), base.as_str()),
        };
        proof {
            if !rel@.contains('\\') && !base@.contains('\\') {
                law_globs_are_exact_without_backslashes(self@.filter, rel@, base@, r);
            }
        }
        r
    }

    /// Search the content of one more file.
    pub fn add(&mut self, file: &str, content: &str)
        requires
            old(self)@.state.valid(),
        ensures
            final(self)@ == (GrepWalkView {
                state: after_file(
                    old(self)@.state,
                    display_of(file@, old(self)@.root, old(self)@.is_dir),
                    content@,
                    old(self)@.lang,
                ),
                ..old(self)@
            }),
            final(self)@.state.valid(),
    {
        let display: String = display_for(file, self.root.as_str(), self.is_dir);
        self.search.search_file(&self.re, display.as_str(), content);
    }

    /// Is there nothing more to look for?
    pub fn is_full(&self) -> (r: bool)
        ensures
            r == self@.state.reached,
    {
        self.search.is_full()
    }

    /// The result of the search.
    pub fn finish(&self) -> (r: String)
        ensures
            r@ == search_text(self@.state),
    {
        self.search.finish()
    }
}

// ---------------------------------------------------------------------------
// Laws
// ---------------------------------------------------------------------------

/// The search after a run of files, each a name and its content.
pub open spec fn after_files(
    st: GrepState,
    files: Seq<(Seq<char>, Seq<char>)>,
    lang: Set<Seq<char>>,
) -> GrepState
    decreases files.len(),
{
    if files.len() == 0 {
        st
    } else {
        after_file(
            after_files(st, files.drop_last(), lang),
            files.last().0,
            files.last().1,
            lang,
        )
    }
}

/// The number of matching lines in all the files.
pub open spec fn total_matches(files: Seq<(Seq<char>, Seq<char>)>, lang: Set<Seq<char>>) -> nat
    decreases files.len(),
{
    if files.len() == 0 {
        0
    } else {
        let lines = file_lines(files.last().1);
        total_matches(files.drop_last(), lang) + matching(lines, lang, lines.len() as int).len()
    }
}

/// The limit is exact over all files: as many matches are shown as there are,
/// up to the limit, and the limit counts as passed only where there are more.
pub proof fn law_the_match_limit_is_exact(
    st: GrepState,
    files: Seq<(Seq<char>, Seq<char>)>,
    lang: Set<Seq<char>>,
)
    requires
        st.valid(),
        st.count == 0,
        !st.reached,
    ensures
        after_files(st, files, lang).valid(),
        after_files(st, files, lang).limit == st.limit,
        after_files(st, files, lang).reached == (total_matches(files, lang) > st.limit),
        after_files(st, files, lang).count == truncate::fewer(
            total_matches(files, lang),
            st.limit,
        ),
    decreases files.len(),
{
    if files.len() > 0 {
        law_the_match_limit_is_exact(st, files.drop_last(), lang);
    }
}

proof fn lemma_covered_shown(
    display: Seq<char>,
    lines: Seq<Seq<char>>,
    shown: Seq<int>,
    context: int,
    n: int,
    c: int,
)
    requires
        0 <= c < n <= lines.len(),
        covered(shown, context, c),
    ensures
        file_output(display, lines, shown, context, n).contains(
            shown_line(display, c, lines[c], shown.contains(c)),
        ),
    decreases n,
{
    let out = file_output(display, lines, shown, context, n);
    let line = shown_line(display, c, lines[c], shown.contains(c));
    if c == n - 1 {
        assert(out.last() == line);
    } else {
        lemma_covered_shown(display, lines, shown, context, n - 1, c);
        let before = file_output(display, lines, shown, context, n - 1);
        let k = choose|k: int| 0 <= k < before.len() && before[k] == line;
        assert(out[k] == line);
    }
}

/// Every shown match comes with its context: a line within reach of a shown
/// match is in the output.
pub proof fn law_context_is_shown(
    display: Seq<char>,
    lines: Seq<Seq<char>>,
    shown: Seq<int>,
    context: int,
    k: int,
    c: int,
)
    requires
        0 <= k < shown.len(),
        0 <= c < lines.len(),
        shown[k] - context <= c <= shown[k] + context,
    ensures
        file_output(display, lines, shown, context, lines.len() as int).contains(
            shown_line(display, c, lines[c], shown.contains(c)),
        ),
{
    lemma_covered_shown(display, lines, shown, context, lines.len() as int, c);
}

/// The lines found are those that match, all of them, in their order.
pub proof fn law_all_matching_lines_are_found(lines: Seq<Seq<char>>, lang: Set<Seq<char>>, n: int)
    requires
        0 <= n <= lines.len(),
    ensures
        forall|i: int| #[trigger]
            matching(lines, lang, n).contains(i) <==> 0 <= i < n && lang.contains(lines[i]),
        forall|j: int, k: int|
            0 <= j < k < matching(lines, lang, n).len() ==> matching(lines, lang, n)[j] < matching(
                lines,
                lang,
                n,
            )[k],
    decreases n,
{
    lemma_matching(lines, lang, n);
    if n > 0 {
        law_all_matching_lines_are_found(lines, lang, n - 1);
        let before = matching(lines, lang, n - 1);
        let all = matching(lines, lang, n);
        assert forall|i: int| #[trigger] all.contains(i) <==> 0 <= i < n && lang.contains(
            lines[i],
        ) by {
            if before.contains(i) {
                let k = choose|k: int| 0 <= k < before.len() && before[k] == i;
                assert(all[k] == i);
            }
            if all.contains(i) {
                let k = choose|k: int| 0 <= k < all.len() && all[k] == i;
                if k < before.len() {
                    assert(before[k] == i);
                }
            }
            if i == n - 1 && lang.contains(lines[i]) {
                assert(all[all.len() - 1] == i);
            }
        }
    }
}

/// A match is shown behind a colon and a line of context behind a dash, with its
/// file, its number counted from one, and its text, cut where it is too long.
pub proof fn law_a_shown_line_has_its_file_and_number(
    display: Seq<char>,
    c: int,
    line: Seq<char>,
)
    requires
        c >= 0,
    ensures
        line.len() <= 500 ==> shown_line(display, c, line, true) == display + ":"@ + text::decimal(
            (c + 1) as nat,
        ) + ": "@ + line,
        line.len() <= 500 ==> shown_line(display, c, line, false) == display + "-"@ + text::decimal(
            (c + 1) as nat,
        ) + "- "@ + line,
        line.len() > 500 ==> shown_line(display, c, line, true) == display + ":"@ + text::decimal(
            (c + 1) as nat,
        ) + ": "@ + line.take(500).push('…'),
        line.len() > 500 ==> shown_line(display, c, line, false) == display + "-"@ + text::decimal(
            (c + 1) as nat,
        ) + "- "@ + line.take(500).push('…'),
{
}

/// Lines are shown in their order, each once: one that is within reach of a shown
/// match, behind a separator where context is asked for and the line before it is
/// not shown, unless it is the first; every other line is left out.
pub proof fn law_lines_are_shown_once_and_in_order(
    display: Seq<char>,
    lines: Seq<Seq<char>>,
    shown: Seq<int>,
    context: int,
    c: int,
)
    requires
        0 <= c < lines.len(),
    ensures
        ({
            let before = file_output(display, lines, shown, context, c);
            let after = file_output(display, lines, shown, context, c + 1);
            let reached = exists|k: int|
                0 <= k < shown.len() && #[trigger] shown[k] - context <= c <= shown[k] + context;
            let reached_before = exists|k: int|
                0 <= k < shown.len() && #[trigger] shown[k] - context <= c - 1 <= shown[k] + context;
            &&& file_output(display, lines, shown, context, 0).len() == 0
            &&& !reached ==> after == before
            &&& reached && (context <= 0 || before.len() == 0 || (c > 0 && reached_before))
                ==> after == before.push(shown_line(display, c, lines[c], shown.contains(c)))
            &&& reached && context > 0 && before.len() > 0 && !(c > 0 && reached_before) ==> after
                == before.push("--"@).push(shown_line(display, c, lines[c], shown.contains(c)))
        }),
{
    assert(covered(shown, context, c) == exists|k: int|
        0 <= k < shown.len() && #[trigger] shown[k] - context <= c <= shown[k] + context);
    assert(covered(shown, context, c - 1) == exists|k: int|
        0 <= k < shown.len() && #[trigger] shown[k] - context <= c - 1 <= shown[k] + context);
}

/// The first places of a growing list that lie before `c`.
proof fn lemma_plain_output(
    display: Seq<char>,
    lines: Seq<Seq<char>>,
    shown: Seq<int>,
    n: int,
) -> (m: int)
    requires
        0 <= n <= lines.len(),
        forall|k: int| 0 <= k < shown.len() ==> 0 <= #[trigger] shown[k] < lines.len(),
        forall|j: int, k: int| 0 <= j < k < shown.len() ==> shown[j] < shown[k],
    ensures
        0 <= m <= shown.len(),
        forall|k: int| 0 <= k < m ==> #[trigger] shown[k] < n,
        forall|k: int| m <= k < shown.len() ==> #[trigger] shown[k] >= n,
        file_output(display, lines, shown, 0, n).len() == m,
        forall|k: int|
            0 <= k < m ==> #[trigger] file_output(display, lines, shown, 0, n)[k] == shown_line(
                display,
                shown[k],
                lines[shown[k]],
                true,
            ),
    decreases n,
{
    if n == 0 {
        0
    } else {
        let m = lemma_plain_output(display, lines, shown, n - 1);
        let c = n - 1;
        let before = file_output(display, lines, shown, 0, c);
        if m < shown.len() && shown[m] == c {
            assert(shown[m] - 0 <= c <= shown[m] + 0);
            assert(covered(shown, 0, c));
            assert(shown.contains(c));
            assert(file_output(display, lines, shown, 0, n) == before.push(
                shown_line(display, c, lines[c], true),
            ));
            assert forall|k: int| m + 1 <= k < shown.len() implies #[trigger] shown[k] >= n by {
                assert(shown[m] < shown[k]);
            }
            m + 1
        } else {
            assert(!covered(shown, 0, c)) by {
                if covered(shown, 0, c) {
                    let k = choose|k: int|
                        0 <= k < shown.len() && #[trigger] shown[k] - 0 <= c <= shown[k] + 0;
                    assert(shown[k] == c);
                    if k > m {
                        assert(shown[m] < shown[k]);
                        assert(shown[m] >= c);
                    }
                }
            }
            assert forall|k: int| m <= k < shown.len() implies #[trigger] shown[k] >= n by {
                if shown[k] == c {
                    assert(shown[k] - 0 <= c <= shown[k] + 0);
                }
            }
            m
        }
    }
}

/// Without context a file adds its matches and nothing else: each matching line, in
/// order, with its number, as far as the limit leaves room.
pub proof fn law_a_file_adds_its_matches(
    st: GrepState,
    display: Seq<char>,
    content: Seq<char>,
    lang: Set<Seq<char>>,
)
    requires
        st.valid(),
        !st.reached,
        st.context == 0,
    ensures
        ({
            let lines = file_lines(content);
            let all = matching(lines, lang, lines.len() as int);
            let room = st.limit - st.count;
            let added = if all.len() <= room {
                all.len() as int
            } else {
                room
            };
            let r = after_file(st, display, content, lang);
            &&& r.lines.len() == st.lines.len() + added
            &&& r.lines.take(st.lines.len() as int) == st.lines
            &&& forall|k: int|
                0 <= k < added ==> r.lines[st.lines.len() + k] == shown_line(
                    display,
                    #[trigger] all[k],
                    lines[all[k]],
                    true,
                )
            &&& r.count == st.count + added
            &&& r.reached == (all.len() > room)
        }),
{
    let lines = file_lines(content);
    let n = lines.len() as int;
    let all = matching(lines, lang, n);
    lemma_matching(lines, lang, n);
    let room = st.limit - st.count;
    let shown = shown_of(all, room);
    assert forall|k: int| 0 <= k < shown.len() implies 0 <= #[trigger] shown[k] < n by {
        assert(shown[k] == all[k]);
    }
    assert forall|j: int, k: int| 0 <= j < k < shown.len() implies shown[j] < shown[k] by {
        assert(all[j] < all[k]);
    }
    let m = lemma_plain_output(display, lines, shown, n);
    assert(m == shown.len()) by {
        if m < shown.len() {
            assert(shown[m] >= n);
        }
    }
    let r = after_file(st, display, content, lang);
    assert(r.lines.take(st.lines.len() as int) =~= st.lines);
    assert forall|k: int| 0 <= k < shown.len() implies r.lines[st.lines.len() + k] == shown_line(
        display,
        #[trigger] all[k],
        lines[all[k]],
        true,
    ) by {
        assert(shown[k] == all[k]);
        assert(r.lines[st.lines.len() + k] == file_output(display, lines, shown, 0, n)[k]);
    }
}

/// A file is searched line by line: an empty one has one empty line, and a final
/// line end begins no other.
pub proof fn law_a_file_is_searched_line_by_line(lines: Seq<Seq<char>>)
    requires
        lines.len() > 0,
        forall|i: int| 0 <= i < lines.len() ==> !(#[trigger] lines[i]).contains('\n'),
        !text::joined(lines, seq!['\n']).contains('\r'),
    ensures
        file_lines(Seq::empty()) == seq![Seq::<char>::empty()],
        file_lines(text::joined(lines, seq!['\n']).push('\n')) == lines,
        lines.last().len() > 0 ==> file_lines(text::joined(lines, seq!['\n'])) == lines,
{
    let s = text::joined(lines, seq!['\n']);
    text::law_a_final_newline_begins_no_line(lines);
    law_lf_form_keeps_lf_text(s);
    assert forall|i: int| 0 <= i < s.push('\n').len() implies s.push('\n')[i] != '\r' by {
        if i < s.len() {
            assert(s.contains(s[i]));
        }
    }
    law_lf_form_keeps_lf_text(s.push('\n'));
    let last = lines[lines.len() - 1];
    if last.len() > 0 {
        let init = lines.drop_last();
        assert(init.push(last) =~= lines);
        text::lemma_joined_push(init, last, seq!['\n']);
    }
}

/// A search without matches says so; one with matches gives its lines, a line
/// apart, and where nothing was left out nothing else.
pub proof fn law_a_search_gives_its_lines(st: GrepState)
    ensures
        st.count == 0 ==> search_text(st) == "No matches found"@,
        ({
            let all = text::joined(st.lines, seq!['\n']);
            let t = truncate::head_truncation(all, 2000, 51200);
            &&& st.count > 0 && !t.truncated && !st.reached && !st.cut ==> search_text(st)
                == t.content
            &&& st.count > 0 && !t.truncated && st.reached && !st.cut ==> search_text(st)
                == t.content + "\n\n["@ + (text::decimal(st.limit)
                + " matches limit reached. Use limit="@ + text::decimal(2 * st.limit)
                + " for more, or refine pattern"@) + "]"@
        }),
{
    reveal_strlit("\n");
    assert("\n"@ =~= seq!['\n']);
    if st.count > 0 {
        let told = text::decimal(st.limit) + " matches limit reached. Use limit="@ + text::decimal(
            2 * st.limit,
        ) + " for more, or refine pattern"@;
        text::law_joining_puts_the_separator_between(Seq::empty(), Seq::empty(), told, ". "@);
    }
}

/// Slashes stand for backslashes, and nothing else changes.
pub proof fn law_backslashes_are_shown_as_slashes(p: Seq<char>, i: int)
    requires
        0 <= i < p.len(),
    ensures
        slashed(p).len() == p.len(),
        p[i] == '\\' ==> slashed(p)[i] == '/',
        p[i] != '\\' ==> slashed(p)[i] == p[i],
{
}

/// The notices of a search: that there were more matches than the limit, that the
/// output was cut at its size, that lines were cut.
pub proof fn law_a_search_notes_what_it_left_out(st: GrepState, bytes_hit: bool)
    ensures
        ({
            let more = text::decimal(st.limit) + " matches limit reached. Use limit="@
                + text::decimal(2 * st.limit) + " for more, or refine pattern"@;
            let size = truncate::size_text(51200) + " limit reached"@;
            let long = "Some lines truncated to "@ + text::decimal(500)
                + " chars. Use read tool to see full lines"@;
            let v = notices(st, bytes_hit);
            &&& v.contains(more) <== st.reached
            &&& v.contains(size) <== bytes_hit
            &&& v.contains(long) <== st.cut
            &&& v.len() == (if st.reached {
                1int
            } else {
                0
            }) + (if bytes_hit {
                1int
            } else {
                0
            }) + (if st.cut {
                1int
            } else {
                0
            })
            &&& v.len() > 0 && st.reached ==> v[0] == more
            &&& v.len() > 0 && st.cut ==> v.last() == long
        }),
        with_notices(Seq::empty(), Seq::empty()).len() == 0,
{
    let v = notices(st, bytes_hit);
    let more = text::decimal(st.limit) + " matches limit reached. Use limit="@ + text::decimal(
        2 * st.limit,
    ) + " for more, or refine pattern"@;
    let size = truncate::size_text(51200) + " limit reached"@;
    if st.reached {
        assert(v[0] == more);
    }
    if bytes_hit {
        assert(v[if st.reached {
            1int
        } else {
            0
        }] == size);
    }
    if st.cut {
        assert(v[v.len() - 1] == v.last());
    }
}

/// Notices go behind the content in brackets, a full stop apart; without any the
/// content stays as it is.
pub proof fn law_notices_go_behind_the_content(content: Seq<char>, v: Seq<Seq<char>>)
    ensures
        with_notices(content, Seq::empty()) == content,
        v.len() > 0 ==> with_notices(content, v) == content + "\n\n["@ + text::joined(v, ". "@)
            + "]"@,
{
}

/// The words of the errors of a search.
pub proof fn law_grep_errors_have_their_words(e: GrepError)
    ensures
        match e {
            GrepError::InvalidPattern { message } => e.text() == "Invalid regex pattern: "@
                + message@,
            GrepError::InvalidGlob { message } => e.text() == "Invalid glob: "@ + message@,
            GrepError::NotFound { display } => e.text() == "Path not found: "@ + display@,
        },
{
}

/// A file is shown by its path below the directory that is searched, or by its
/// name where it is searched itself.
pub proof fn law_files_are_shown_from_the_search_root(
    root: Seq<Seq<char>>,
    rest: Seq<Seq<char>>,
)
    requires
        root.len() > 0,
        rest.len() > 0,
        util::plain_names(root),
        util::plain_names(rest),
    ensures
        display_of(util::rooted_path(root + rest), util::rooted_path(root), true) == slashed(
            text::joined(rest, seq!['/']),
        ),
        display_of(util::rooted_path(root + rest), util::rooted_path(root), false) == rest.last(),
        path_below(util::rooted_path(root + rest), util::rooted_path(root)) == text::joined(
            rest,
            seq!['/'],
        ),
{
    let all = root + rest;
    util::law_a_path_is_relative_to_what_it_is_below(root, rest);
    assert(util::plain_names(all)) by {
        assert forall|i: int| 0 <= i < all.len() implies (#[trigger] all[i]).len() > 0
            && !all[i].contains('/') && all[i] != "."@ && all[i] != ".."@ by {
            if i < root.len() {
                assert(all[i] == root[i]);
            } else {
                assert(all[i] == rest[i - root.len()]);
            }
        }
    }
    util::law_the_name_is_the_last_of_the_path(all);
    assert(all.last() == rest.last());
    let rel = text::joined(rest, seq!['/']);
    assert(rel.len() > 0) by {
        text::lemma_joined_prepend(rest[0], rest.skip(1), seq!['/']);
        assert(rest =~= seq![rest[0]] + rest.skip(1));
        assert(rest[0].len() > 0);
    }
}

/// A file adds what is shown of its first matches, as many as there is room for,
/// with as much context as was asked for; limit and context stay; and a line that
/// was cut is remembered.
pub proof fn law_a_file_adds_its_matches_with_their_context(
    st: GrepState,
    display: Seq<char>,
    content: Seq<char>,
    lang: Set<Seq<char>>,
)
    requires
        st.valid(),
        !st.reached,
    ensures
        ({
            let lines = file_lines(content);
            let all = matching(lines, lang, lines.len() as int);
            let room = st.limit - st.count;
            let shown = if all.len() <= room {
                all
            } else {
                all.take(room)
            };
            let r = after_file(st, display, content, lang);
            &&& r.lines == st.lines + file_output(
                display,
                lines,
                shown,
                st.context as int,
                lines.len() as int,
            )
            &&& r.limit == st.limit && r.context == st.context
            &&& r.cut <==> st.cut || exists|c: int|
                0 <= c < lines.len() && (#[trigger] lines[c]).len() > 500 && covered(
                    shown,
                    st.context as int,
                    c,
                )
        }),
        after_file(GrepState { reached: true, ..st }, display, content, lang) == (GrepState {
            reached: true,
            ..st
        }),
{
    let lines = file_lines(content);
    let n = lines.len() as int;
    let shown = shown_of(matching(lines, lang, n), st.limit - st.count);
    assert(output_cut(lines, shown, st.context as int, n) == exists|c: int|
        0 <= c < lines.len() && (#[trigger] lines[c]).len() > 500 && covered(
            shown,
            st.context as int,
            c,
        ));
}

/// A search starts empty, with the limit that was asked for, a hundred by default
/// and one at the least, and with the context that was asked for, none by default.
pub proof fn law_a_search_starts_empty(limit: usize, context: usize)
    ensures
        ({
            let s = fresh_search(Some(limit), Some(context));
            &&& s.lines.len() == 0 && s.count == 0 && !s.reached && !s.cut
            &&& limit >= 1 ==> s.limit == limit
            &&& limit == 0 ==> s.limit == 1
            &&& s.context == context
        }),
        fresh_search(None, None).limit == 100,
        fresh_search(None, None).context == 0,
{
}

/// The pattern is compiled as the input says: literally or not, with regard to case
/// or not.
pub proof fn law_the_pattern_is_compiled_as_asked(input: GrepInput)
    ensures
        compiled_of(input) == regex_compiled(
            if input.literal == Some(true) {
                escaped(input.pattern@)
            } else {
                input.pattern@
            },
            input.ignore_case == Some(true),
        ),
{
}

} // verus!
