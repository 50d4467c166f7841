//! Exact-replace edit application and unified-diff generation.

use unicode_normalization::UnicodeNormalization;
use vstd::prelude::*;
use vstd::utf8::is_ascii_chars;

use crate::text;

pub use crate::tools::diff::generate_diff;

verus! {

/// One targeted replacement. `old_text` must match a unique, non-overlapping
/// region of the file.
#[derive(Debug, Clone)]
pub struct Edit {
    pub old_text: String,
    pub new_text: String,
}

#[derive(Debug, Clone, Copy, PartialEq, Eq, Structural)]
pub enum LineEnding {
    Lf,
    Crlf,
}

/// Why a set of edits was refused. Every variant names the file.
#[derive(Debug, Clone)]
pub enum EditError {
    EmptyOldText { path: String },
    NotFound { path: String },
    NotUnique { path: String, count: usize },
    Overlapping { path: String },
}

// ---------------------------------------------------------------------------
// Byte-order mark and line endings
// ---------------------------------------------------------------------------

/// The byte-order mark.
pub const BOM: char = '\u{FEFF}';

/// Strip a byte-order mark if present. Returns `(bom, text)`.
pub fn strip_bom(raw: &str) -> (r: (String, String))
    ensures
        raw@.len() > 0 && raw@[0] == BOM ==> r.0@ == seq![BOM] && r.1@ == raw@.drop_first(),
        !(raw@.len() > 0 && raw@[0] == BOM) ==> r.0@ == Seq::<char>::empty() && r.1@ == raw@,
{
    let v: Vec<char> = text::chars_of(raw);
    let mut bom: String = String::new();
    if v.len() > 0 && v[0] == BOM {
        bom.push(BOM);
        assert(bom@ =~= seq![BOM]);
        let rest: String = text::string_of(&v, 1, v.len());
        assert(rest@ =~= raw@.drop_first());
        (bom, rest)
    } else {
        (bom, raw.to_string())
    }
}

/// `Crlf` when the text holds a `\r\n` anywhere.
pub fn detect_line_ending(s: &str) -> (r: LineEnding)
    ensures
        r == (if text::has_substring(s@, seq!['\r', '\n']) {
            LineEnding::Crlf
        } else {
            LineEnding::Lf
        }),
{
    proof {
        reveal_strlit("\r\n");
        assert("\r\n"@ =~= seq!['\r', '\n']);
    }
    if text::contains(s, "\r\n") {
        LineEnding::Crlf
    } else {
        LineEnding::Lf
    }
}

/// `s` with every `\r\n` and every other `\r` turned into `\n`.
pub open spec fn lf_form(s: Seq<char>) -> Seq<char>
    decreases s.len(),
{
    if s.len() == 0 {
        Seq::empty()
    } else if s[0] == '\r' {
        if s.len() > 1 && s[1] == '\n' {
            seq!['\n'] + lf_form(s.skip(2))
        } else {
            seq!['\n'] + lf_form(s.skip(1))
        }
    } else {
        seq![s[0]] + lf_form(s.skip(1))
    }
}

/// `s` with every `\n` turned into `\r\n`.
pub open spec fn crlf_form(s: Seq<char>) -> Seq<char>
    decreases s.len(),
{
    if s.len() == 0 {
        Seq::empty()
    } else if s[0] == '\n' {
        seq!['\r', '\n'] + crlf_form(s.skip(1))
    } else {
        seq![s[0]] + crlf_form(s.skip(1))
    }
}

/// Normalize all line endings to LF.
pub fn normalize_to_lf(s: &str) -> (r: String)
    ensures
        r@ == lf_form(s@),
{
    let v: Vec<char> = text::chars_of(s);
    let mut out: String = String::new();
    let mut i: usize = 0;
    assert(s@.skip(0) =~= s@);
    assert(out@ + lf_form(s@.skip(0)) =~= lf_form(s@));
    while i < v.len()
        invariant
            i <= v@.len(),
            v@ == s@,
            out@ + lf_form(s@.skip(i as int)) == lf_form(s@),
        decreases v@.len() - i,
    {
        let ghost before = out@;
        let ghost at = i as int;
        let ghost rest = s@.skip(i as int);
        assert(rest[0] == s@[at]);
        assert(rest.skip(1) =~= s@.skip(at + 1));
        if v[i] == '\r' {
            out.push('\n');
            if i + 1 < v.len() && v[i + 1] == '\n' {
                assert(rest[1] == '\n');
                assert(rest.skip(2) =~= s@.skip(at + 2));
                i += 1;
            }
            assert(out@ =~= before + seq!['\n']);
        } else {
            out.push(v[i]);
            assert(out@ =~= before + seq![s@[at]]);
        }
        i += 1;
        assert(out@ + lf_form(s@.skip(i as int)) =~= before + lf_form(rest));
    }
    assert(s@.skip(s@.len() as int) =~= Seq::<char>::empty());
    assert(out@ + Seq::<char>::empty() =~= out@);
    out
}

/// Restore a line ending style.
pub fn restore_line_endings(s: &str, ending: LineEnding) -> (r: String)
    ensures
        ending == LineEnding::Lf ==> r@ == s@,
        ending == LineEnding::Crlf ==> r@ == crlf_form(s@),
{
    if ending == LineEnding::Lf {
        return s.to_string();
    }
    let v: Vec<char> = text::chars_of(s);
    let mut out: String = String::new();
    let mut i: usize = 0;
    assert(s@.skip(0) =~= s@);
    assert(out@ + crlf_form(s@.skip(0)) =~= crlf_form(s@));
    while i < v.len()
        invariant
            i <= v@.len(),
            v@ == s@,
            out@ + crlf_form(s@.skip(i as int)) == crlf_form(s@),
        decreases v@.len() - i,
    {
        let ghost before = out@;
        let ghost rest = s@.skip(i as int);
        assert(rest[0] == s@[i as int]);
        assert(rest.skip(1) =~= s@.skip(i + 1));
        if v[i] == '\n' {
            out.push('\r');
            out.push('\n');
            assert(out@ =~= before + seq!['\r', '\n']);
        } else {
            out.push(v[i]);
            assert(out@ =~= before + seq![s@[i as int]]);
        }
        i += 1;
        assert(out@ + crlf_form(s@.skip(i as int)) =~= before + crlf_form(rest));
    }
    assert(s@.skip(s@.len() as int) =~= Seq::<char>::empty());
    assert(out@ + Seq::<char>::empty() =~= out@);
    out
}

/// LF-normalized text holds no carriage return.
pub proof fn law_lf_form_has_no_carriage_return(s: Seq<char>)
    ensures
        !lf_form(s).contains('\r'),
    decreases s.len(),
{
    if s.len() > 0 {
        let n = if s[0] == '\r' && s.len() > 1 && s[1] == '\n' {
            2int
        } else {
            1
        };
        law_lf_form_has_no_carriage_return(s.skip(n));
        let head = if s[0] == '\r' {
            seq!['\n']
        } else {
            seq![s[0]]
        };
        assert forall|i: int| 0 <= i < lf_form(s).len() implies lf_form(s)[i] != '\r' by {
            if i > 0 {
                assert(lf_form(s)[i] == lf_form(s.skip(n))[i - 1]);
            } else {
                assert(lf_form(s)[0] == head[0]);
            }
        }
    }
}

/// Text without carriage returns is its own LF form.
pub proof fn law_lf_form_keeps_lf_text(s: Seq<char>)
    requires
        !s.contains('\r'),
    ensures
        lf_form(s) == s,
    decreases s.len(),
{
    if s.len() > 0 {
        assert(s[0] != '\r');
        assert forall|i: int| 0 <= i < s.skip(1).len() implies s.skip(1)[i] != '\r' by {
            assert(s.skip(1)[i] == s[i + 1]);
        }
        law_lf_form_keeps_lf_text(s.skip(1));
        assert(s =~= seq![s[0]] + s.skip(1));
    }
}

/// Restoring CRLF endings and normalizing again gives the LF text back.
pub proof fn law_crlf_round_trip(s: Seq<char>)
    requires
        !s.contains('\r'),
    ensures
        lf_form(crlf_form(s)) == s,
    decreases s.len(),
{
    if s.len() > 0 {
        assert(s[0] != '\r');
        assert forall|i: int| 0 <= i < s.skip(1).len() implies s.skip(1)[i] != '\r' by {
            assert(s.skip(1)[i] == s[i + 1]);
        }
        law_crlf_round_trip(s.skip(1));
        let c = crlf_form(s);
        if s[0] == '\n' {
            assert(c.skip(2) =~= crlf_form(s.skip(1)));
        } else {
            assert(c.skip(1) =~= crlf_form(s.skip(1)));
        }
        assert(s =~= seq![s[0]] + s.skip(1));
    }
}

/// Restored CRLF text never doubles a carriage return: every one is followed
/// by its newline.
pub proof fn law_crlf_form_pairs_every_carriage_return(s: Seq<char>, i: int)
    requires
        !s.contains('\r'),
        0 <= i < crlf_form(s).len(),
        crlf_form(s)[i] == '\r',
    ensures
        i + 1 < crlf_form(s).len(),
        crlf_form(s)[i + 1] == '\n',
    decreases s.len(),
{
    assert(s[0] != '\r');
    let rest = crlf_form(s.skip(1));
    let n = if s[0] == '\n' {
        2int
    } else {
        1
    };
    if i >= n {
        assert forall|k: int| 0 <= k < s.skip(1).len() implies s.skip(1)[k] != '\r' by {
            assert(s.skip(1)[k] == s[k + 1]);
        }
        assert(crlf_form(s)[i] == rest[i - n]);
        law_crlf_form_pairs_every_carriage_return(s.skip(1), i - n);
        assert(crlf_form(s)[i + 1] == rest[i - n + 1]);
    }
}

// ---------------------------------------------------------------------------
// Fuzzy form
// ---------------------------------------------------------------------------

/// The Unicode Normalization Form KC of a text, as the
/// `unicode-normalization` crate computes it.
pub uninterp spec fn nfkc_form(s: Seq<char>) -> Seq<char>;

/// `UnicodeNormalization::nfkc`, collected: compatibility decomposition
/// followed by canonical composition. What it yields is named `nfkc_form`;
/// besides, 7-bit ASCII text comes back as it is, and newlines are neither added
/// nor lost: no character decomposes to one, and none composes with one.
#[verifier::external_body]
fn nfkc(s: &str) -> (r: String)
    ensures
        r@ == nfkc_form(s@),
        is_ascii_chars(s@) ==> r@ == s@,
        newlines(r@, r@.len() as int) == newlines(s@, s@.len() as int),
{
    s.nfkc().collect()
}

/// Smart quotes, dashes and special spaces as their ASCII look-alikes.
pub open spec fn fold_char(c: char) -> char {
    let n = c as u32;
    if 0x2018 <= n <= 0x201B {
        '\''
    } else if 0x201C <= n <= 0x201F {
        '"'
    } else if 0x2010 <= n <= 0x2015 || n == 0x2212 {
        '-'
    } else if n == 0x00A0 || 0x2002 <= n <= 0x200A || n == 0x202F || n == 0x205F || n == 0x3000 {
        ' '
    } else {
        c
    }
}

fn fold(c: char) -> (r: char)
    ensures
        r == fold_char(c),
{
    let n: u32 = c as u32;
    if 0x2018 <= n && n <= 0x201B {
        '\''
    } else if 0x201C <= n && n <= 0x201F {
        '"'
    } else if (0x2010 <= n && n <= 0x2015) || n == 0x2212 {
        '-'
    } else if n == 0x00A0 || (0x2002 <= n && n <= 0x200A) || n == 0x202F || n == 0x205F || n
        == 0x3000 {
        ' '
    } else {
        c
    }
}

/// Every line of `s` without its trailing whitespace.
pub open spec fn right_trimmed_lines(s: Seq<char>) -> Seq<char> {
    text::joined(
        text::pieces(s, '\n').map_values(|l: Seq<char>| text::trimmed_end(l)),
        seq!['\n'],
    )
}

/// The form in which fuzzy matching compares texts: NFKC, trailing whitespace
/// of each line dropped, look-alikes folded to ASCII.
pub open spec fn fuzzy_form(s: Seq<char>) -> Seq<char> {
    right_trimmed_lines(nfkc_form(s)).map_values(|c: char| fold_char(c))
}

/// What `normalize_for_fuzzy_match` does to the NFKC form of a text.
pub fn strip_and_fold(nfkc_text: &str) -> (r: String)
    ensures
        r@ == right_trimmed_lines(nfkc_text@).map_values(|c: char| fold_char(c)),
{
    let parts: Vec<String> = text::split(nfkc_text, '\n');
    let mut trimmed: Vec<String> = Vec::new();
    let ghost all = text::pieces(nfkc_text@, '\n').map_values(|l: Seq<char>| text::trimmed_end(l));
    let mut i: usize = 0;
    assert(text::views(trimmed@) =~= all.take(0));
    while i < parts.len()
        invariant
            i <= parts@.len(),
            text::views(parts@) == text::pieces(nfkc_text@, '\n'),
            all == text::pieces(nfkc_text@, '\n').map_values(
                |l: Seq<char>| text::trimmed_end(l),
            ),
            text::views(trimmed@) == all.take(i as int),
        decreases parts@.len() - i,
    {
        let line: String = text::trim_end(parts[i].as_str());
        proof {
            assert(text::views(parts@)[i as int] == parts@[i as int]@);
            assert(line@ == all[i as int]);
            text::lemma_views_push(trimmed@, line);
            assert(all.take(i + 1) =~= all.take(i as int).push(line@));
        }
        trimmed.push(line);
        i += 1;
    }
    assert(all.take(parts@.len() as int) =~= all);
    proof {
        reveal_strlit("\n");
        assert("\n"@ =~= seq!['\n']);
    }
    let flat: String = text::join(&trimmed, "\n");
    let v: Vec<char> = text::chars_of(flat.as_str());
    let mut out: String = String::new();
    let mut k: usize = 0;
    assert(out@ =~= v@.take(0).map_values(|c: char| fold_char(c)));
    while k < v.len()
        invariant
            k <= v@.len(),
            out@ == v@.take(k as int).map_values(|c: char| fold_char(c)),
        decreases v@.len() - k,
    {
        out.push(fold(v[k]));
        assert(v@.take(k + 1) =~= v@.take(k as int).push(v@[k as int]));
        assert(out@ =~= v@.take(k + 1).map_values(|c: char| fold_char(c)));
        k += 1;
    }
    assert(v@.take(v@.len() as int) =~= v@);
    out
}

/// Normalize text for fuzzy matching: NFKC-fold, strip per-line trailing
/// whitespace, and fold smart quotes, dashes and special spaces to their ASCII
/// equivalents. Lets an edit land when its search text differs only in cosmetic
/// whitespace or Unicode look-alikes. The number of lines stays.
pub fn normalize_for_fuzzy_match(s: &str) -> (r: String)
    ensures
        r@ == fuzzy_form(s@),
        is_ascii_chars(s@) ==> r@ == right_trimmed_lines(s@).map_values(|c: char| fold_char(c)),
        newlines(r@, r@.len() as int) == newlines(s@, s@.len() as int),
{
    let n: String = nfkc(s);
    proof {
        law_folding_keeps_newlines(n@);
    }
    strip_and_fold(n.as_str())
}

proof fn lemma_newlines_concat(a: Seq<char>, b: Seq<char>)
    ensures
        newlines(a + b, (a + b).len() as int) == newlines(a, a.len() as int) + newlines(
            b,
            b.len() as int,
        ),
    decreases b.len(),
{
    if b.len() == 0 {
        assert(a + b =~= a);
    } else {
        let c = b.drop_last();
        lemma_newlines_concat(a, c);
        lemma_newlines_prefix(a + b, a + c, (a + c).len() as int);
        lemma_newlines_prefix(b, c, c.len() as int);
    }
}

proof fn lemma_newlines_of_pieces(s: Seq<char>)
    ensures
        text::pieces(s, '\n').len() == newlines(s, s.len() as int) + 1,
        forall|i: int|
            0 <= i < text::pieces(s, '\n').len() ==> newlines(
                #[trigger] text::pieces(s, '\n')[i],
                text::pieces(s, '\n')[i].len() as int,
            ) == 0,
    decreases s.len(),
{
    if s.len() > 0 {
        let init = s.drop_last();
        lemma_newlines_of_pieces(init);
        lemma_newlines_prefix(s, init, init.len() as int);
        let rest = text::pieces(init, '\n');
        if s.last() != '\n' {
            let one = rest.last().push(s.last());
            assert(newlines(rest[rest.len() - 1], rest.last().len() as int) == 0);
            lemma_newlines_prefix(one, rest.last(), rest.last().len() as int);
            assert(newlines(one, one.len() as int) == 0);
        }
        assert forall|i: int| 0 <= i < text::pieces(s, '\n').len() implies newlines(
            #[trigger] text::pieces(s, '\n')[i],
            text::pieces(s, '\n')[i].len() as int,
        ) == 0 by {
            if i < rest.len() {
                assert(newlines(rest[i], rest[i].len() as int) == 0);
            }
        }
    }
}

proof fn lemma_newlines_trimmed(s: Seq<char>)
    ensures
        newlines(text::trimmed_end(s), text::trimmed_end(s).len() as int) <= newlines(
            s,
            s.len() as int,
        ),
    decreases s.len(),
{
    if s.len() > 0 && text::is_space(s.last()) {
        lemma_newlines_trimmed(s.drop_last());
        lemma_newlines_prefix(s, s.drop_last(), s.len() - 1);
    }
}

proof fn lemma_newlines_joined(parts: Seq<Seq<char>>)
    requires
        parts.len() > 0,
        forall|i: int|
            0 <= i < parts.len() ==> newlines(#[trigger] parts[i], parts[i].len() as int) == 0,
    ensures
        newlines(
            text::joined(parts, seq!['\n']),
            text::joined(parts, seq!['\n']).len() as int,
        ) == parts.len() - 1,
    decreases parts.len(),
{
    let sep = seq!['\n'];
    let init = parts.drop_last();
    assert(newlines(parts[parts.len() - 1], parts.last().len() as int) == 0);
    text::lemma_joined_push(init, parts.last(), sep);
    assert(init.push(parts.last()) =~= parts);
    if init.len() > 0 {
        assert forall|i: int| 0 <= i < init.len() implies newlines(
            #[trigger] init[i],
            init[i].len() as int,
        ) == 0 by {
            assert(newlines(parts[i], parts[i].len() as int) == 0);
        }
        lemma_newlines_joined(init);
        reveal_with_fuel(newlines, 2);
        assert(newlines(sep, 1) == 1);
        lemma_newlines_concat(text::joined(init, sep), sep);
        lemma_newlines_concat(text::joined(init, sep) + sep, parts.last());
    }
}

proof fn lemma_newlines_folded(s: Seq<char>, n: int)
    requires
        n <= s.len(),
    ensures
        newlines(s.map_values(|c: char| fold_char(c)), n) == newlines(s, n),
    decreases n,
{
    if n > 0 {
        lemma_newlines_folded(s, n - 1);
    }
}

/// Trimming and folding works within lines: it never changes their number.
pub proof fn law_folding_keeps_newlines(s: Seq<char>)
    ensures
        ({
            let r = right_trimmed_lines(s).map_values(|c: char| fold_char(c));
            newlines(r, r.len() as int) == newlines(s, s.len() as int)
        }),
{
    let parts = text::pieces(s, '\n');
    let trimmed = parts.map_values(|l: Seq<char>| text::trimmed_end(l));
    lemma_newlines_of_pieces(s);
    assert forall|i: int| 0 <= i < trimmed.len() implies newlines(
        #[trigger] trimmed[i],
        trimmed[i].len() as int,
    ) == 0 by {
        assert(newlines(parts[i], parts[i].len() as int) == 0);
        lemma_newlines_trimmed(parts[i]);
    }
    lemma_newlines_joined(trimmed);
    lemma_newlines_folded(right_trimmed_lines(s), right_trimmed_lines(s).len() as int);
}

// ---------------------------------------------------------------------------
// Locating edits
// ---------------------------------------------------------------------------

/// The search and replacement texts of `edits`, LF-normalized.
pub open spec fn edit_pairs(edits: Seq<Edit>) -> Seq<(Seq<char>, Seq<char>)> {
    edits.map_values(|e: Edit| (lf_form(e.old_text@), lf_form(e.new_text@)))
}

/// `old` is absent from `content` as it stands, and present once both are in
/// fuzzy form.
pub open spec fn needs_fuzzy(content: Seq<char>, old: Seq<char>) -> bool {
    &&& text::first_match(content, old) is None
    &&& fuzzy_form(old).len() > 0
    &&& text::first_match(fuzzy_form(content), fuzzy_form(old)) is Some
}

/// Where `old` stands in `base`, as `(start, length)`: the first exact
/// occurrence, else the first occurrence in fuzzy form.
pub open spec fn located(base: Seq<char>, old: Seq<char>) -> Option<(int, int)> {
    match text::first_match(base, old) {
        Some(i) => Some((i, old.len() as int)),
        None => {
            let fo = fuzzy_form(old);
            if fo.len() == 0 {
                None
            } else {
                match text::first_match(fuzzy_form(base), fo) {
                    Some(i) => if i + fo.len() <= base.len() {
                        Some((i, fo.len() as int))
                    } else {
                        None
                    },
                    None => None,
                }
            }
        },
    }
}

/// How often `old` occurs in `base`, both in fuzzy form.
pub open spec fn fuzzy_count(base: Seq<char>, old: Seq<char>) -> nat {
    text::occurrences_from(fuzzy_form(base), fuzzy_form(old), 0)
}

/// How often `old` occurs in `base`: in fuzzy form, where it occurs more than
/// once there, else as it stands. A blank `old` has no fuzzy form to count.
pub open spec fn match_count(base: Seq<char>, old: Seq<char>) -> nat {
    if fuzzy_count(base, old) > 1 {
        fuzzy_count(base, old)
    } else {
        text::occurrences_from(base, old, 0)
    }
}

/// True when `old` is absent from `content` exactly but present after
/// fuzzy-normalizing both, so that a fuzzy fallback would rescue the edit.
fn fuzzy_needed(content: &str, old: &str) -> (r: bool)
    ensures
        r == needs_fuzzy(content@, old@),
{
    let c: Vec<char> = text::chars_of(content);
    let o: Vec<char> = text::chars_of(old);
    if text::find(&c, &o).is_some() {
        return false;
    }
    let fo: Vec<char> = text::chars_of(normalize_for_fuzzy_match(old).as_str());
    if fo.len() == 0 {
        return false;
    }
    let fc: Vec<char> = text::chars_of(normalize_for_fuzzy_match(content).as_str());
    text::find(&fc, &fo).is_some()
}

/// Find `old` in `base`: an exact match first, else a match in fuzzy form.
fn find_in_base(base: &str, old: &str) -> (r: Option<(usize, usize)>)
    ensures
        match r {
            Some((start, len)) => located(base@, old@) == Some((start as int, len as int)),
            None => located(base@, old@) is None,
        },
{
    let b: Vec<char> = text::chars_of(base);
    let o: Vec<char> = text::chars_of(old);
    if let Some(i) = text::find(&b, &o) {
        return Some((i, o.len()));
    }
    let fo: Vec<char> = text::chars_of(normalize_for_fuzzy_match(old).as_str());
    if fo.len() == 0 {
        return None;
    }
    let fb: Vec<char> = text::chars_of(normalize_for_fuzzy_match(base).as_str());
    match text::find(&fb, &fo) {
        Some(i) => {
            proof {
                text::lemma_first_from(fb@, fo@, 0);
            }
            if i <= b.len() && fo.len() <= b.len() - i {
                Some((i, fo.len()))
            } else {
                None
            }
        },
        None => None,
    }
}

/// Occurrence count in fuzzy form, so that two regions which differ only in
/// trailing whitespace or Unicode look-alikes count as duplicates. A text that
/// is no duplicate in that form may still be one as it stands.
fn count_occurrences(content: &str, old: &str) -> (r: usize)
    ensures
        r == match_count(content@, old@),
{
    let fo: Vec<char> = text::chars_of(normalize_for_fuzzy_match(old).as_str());
    let fc: Vec<char> = text::chars_of(normalize_for_fuzzy_match(content).as_str());
    let folded: usize = text::count_matches(&fc, &fo);
    if folded > 1 {
        return folded;
    }
    let o: Vec<char> = text::chars_of(old);
    let c: Vec<char> = text::chars_of(content);
    text::count_matches(&c, &o)
}

// ---------------------------------------------------------------------------
// Rewriting
// ---------------------------------------------------------------------------

/// A region of the base and the text that replaces it.
pub ghost struct Span {
    pub start: int,
    pub len: int,
    pub new: Seq<char>,
}

/// The executable counterpart of `Span`.
struct Replacement {
    start: usize,
    len: usize,
    new: String,
}

impl Replacement {
    spec fn span(self) -> Span {
        Span { start: self.start as int, len: self.len as int, new: self.new@ }
    }
}

spec fn spans_of(v: Seq<Replacement>) -> Seq<Span> {
    v.map_values(|r: Replacement| r.span())
}

/// Two regions share a character.
pub open spec fn intersect(a: Span, b: Span) -> bool {
    a.start < b.start + b.len && b.start < a.start + a.len
}

/// Some two regions share a character.
pub open spec fn some_overlap(spans: Seq<Span>) -> bool {
    exists|i: int, j: int|
        #![trigger spans[i], spans[j]]
        0 <= i < j < spans.len() && intersect(spans[i], spans[j])
}

/// Every region is a non-empty part of a text of length `n`.
pub open spec fn all_within(spans: Seq<Span>, n: int) -> bool {
    forall|i: int|
        #![trigger spans[i]]
        0 <= i < spans.len() ==> 0 <= spans[i].start && 0 < spans[i].len && spans[i].start
            + spans[i].len <= n
}

/// What replaces the base at `pos`: the length and text of the region that
/// starts there, if one does.
pub open spec fn replacement_at(spans: Seq<Span>, pos: int) -> Option<(int, Seq<char>)> {
    if exists|i: int| 0 <= i < spans.len() && (#[trigger] spans[i]).start == pos {
        let i = choose|i: int| 0 <= i < spans.len() && (#[trigger] spans[i]).start == pos;
        Some((spans[i].len, spans[i].new))
    } else {
        None
    }
}

/// `base` from `pos` on, where `cut` says at which positions how many
/// characters give way to which text.
pub open spec fn rewritten(
    base: Seq<char>,
    cut: spec_fn(int) -> Option<(int, Seq<char>)>,
    pos: int,
) -> Seq<char>
    decreases base.len() - pos,
{
    if pos < 0 || pos >= base.len() {
        Seq::empty()
    } else {
        match cut(pos) {
            Some((n, new)) => if 0 < n <= base.len() - pos {
                new + rewritten(base, cut, pos + n)
            } else {
                Seq::empty()
            },
            None => seq![base[pos]] + rewritten(base, cut, pos + 1),
        }
    }
}

/// Cut out the regions of `spans`.
pub open spec fn span_cut(spans: Seq<Span>) -> spec_fn(int) -> Option<(int, Seq<char>)> {
    |pos: int| replacement_at(spans, pos)
}

proof fn lemma_rewritten_copies(
    base: Seq<char>,
    cut: spec_fn(int) -> Option<(int, Seq<char>)>,
    lo: int,
    hi: int,
)
    requires
        0 <= lo <= hi <= base.len(),
        forall|p: int| lo <= p < hi ==> #[trigger] cut(p) is None,
    ensures
        rewritten(base, cut, lo) == base.subrange(lo, hi) + rewritten(base, cut, hi),
    decreases hi - lo,
{
    if lo < hi {
        assert(cut(lo) is None);
        lemma_rewritten_copies(base, cut, lo + 1, hi);
        assert(base.subrange(lo, hi) =~= seq![base[lo]] + base.subrange(lo + 1, hi));
        assert(rewritten(base, cut, lo) =~= base.subrange(lo, hi) + rewritten(base, cut, hi));
    } else {
        assert(base.subrange(lo, hi) + rewritten(base, cut, hi) =~= rewritten(base, cut, hi));
    }
}

/// When no two regions overlap, the region at a position is the only one there.
proof fn lemma_replacement_unique(spans: Seq<Span>, k: int, n: int)
    requires
        0 <= k < spans.len(),
        all_within(spans, n),
        !some_overlap(spans),
    ensures
        replacement_at(spans, spans[k].start) == Some((spans[k].len, spans[k].new)),
{
    let pos = spans[k].start;
    let i = choose|i: int| 0 <= i < spans.len() && (#[trigger] spans[i]).start == pos;
    if i < k {
        assert(intersect(spans[i], spans[k]));
    } else if k < i {
        assert(intersect(spans[k], spans[i]));
    }
}

/// Index of the region with the least start at or after `pos`.
fn next_replacement(spans: &Vec<Replacement>, pos: usize) -> (r: Option<usize>)
    ensures
        match r {
            Some(k) => {
                &&& k < spans@.len()
                &&& spans@[k as int].start >= pos
                &&& forall|i: int|
                    #![trigger spans@[i]]
                    0 <= i < spans@.len() && spans@[i].start >= pos ==> spans@[i].start
                        >= spans@[k as int].start
            },
            None => forall|i: int|
                #![trigger spans@[i]]
                0 <= i < spans@.len() ==> spans@[i].start < pos,
        },
{
    let mut best: Option<usize> = None;
    let mut i: usize = 0;
    while i < spans.len()
        invariant
            i <= spans@.len(),
            match best {
                Some(k) => {
                    &&& k < i
                    &&& spans@[k as int].start >= pos
                    &&& forall|j: int|
                        #![trigger spans@[j]]
                        0 <= j < i && spans@[j].start >= pos ==> spans@[j].start
                            >= spans@[k as int].start
                },
                None => forall|j: int| #![trigger spans@[j]] 0 <= j < i ==> spans@[j].start < pos,
            },
        decreases spans@.len() - i,
    {
        if spans[i].start >= pos {
            match best {
                Some(k) => {
                    if spans[i].start < spans[k].start {
                        best = Some(i);
                    }
                },
                None => {
                    best = Some(i);
                },
            }
        }
        i += 1;
    }
    best
}

/// Splice non-overlapping replacements into `base`.
fn splice_replacements(base: &Vec<char>, spans: &Vec<Replacement>) -> (r: String)
    requires
        all_within(spans_of(spans@), base@.len() as int),
        !some_overlap(spans_of(spans@)),
    ensures
        r@ == rewritten(base@, span_cut(spans_of(spans@)), 0),
{
    let ghost regions = spans_of(spans@);
    let ghost cut = span_cut(regions);
    let mut out: String = String::new();
    let mut cursor: usize = 0;
    let total: usize = base.len();
    assert(out@ + rewritten(base@, cut, 0) =~= rewritten(base@, cut, 0));
    loop
        invariant
            regions == spans_of(spans@),
            cut == span_cut(regions),
            all_within(regions, base@.len() as int),
            !some_overlap(regions),
            total == base@.len(),
            cursor <= total,
            out@ + rewritten(base@, cut, cursor as int) == rewritten(base@, cut, 0),
        decreases base@.len() - cursor,
    {
        let ghost before = out@;
        let ghost from = cursor;
        match next_replacement(spans, cursor) {
            Some(k) => {
                let start: usize = spans[k].start;
                let len: usize = spans[k].len;
                proof {
                    assert(regions[k as int] == spans@[k as int].span());
                    lemma_replacement_unique(regions, k as int, base@.len() as int);
                    assert forall|p: int| cursor <= p < start implies #[trigger] cut(p) is None by {
                        assert forall|i: int| 0 <= i < regions.len() implies (
                        #[trigger] regions[i]).start != p by {
                            assert(regions[i] == spans@[i].span());
                        }
                    }
                    lemma_rewritten_copies(base@, cut, cursor as int, start as int);
                }
                text::push_range(&mut out, base, cursor, start);
                out.append(spans[k].new.as_str());
                cursor = start + len;
                proof {
                    assert(cut(start as int) == Some((len as int, spans@[k as int].new@)));
                    assert(out@ + rewritten(base@, cut, cursor as int) =~= before + (base@.subrange(
                        from as int,
                        start as int,
                    ) + rewritten(base@, cut, start as int)));
                }
            },
            None => {
                proof {
                    assert forall|p: int| cursor <= p < base@.len() implies #[trigger] cut(
                        p,
                    ) is None by {
                        assert forall|i: int| 0 <= i < regions.len() implies (
                        #[trigger] regions[i]).start != p by {
                            assert(regions[i] == spans@[i].span());
                        }
                    }
                    lemma_rewritten_copies(base@, cut, cursor as int, base@.len() as int);
                }
                text::push_range(&mut out, base, cursor, total);
                assert(out@ =~= rewritten(base@, cut, 0));
                return out;
            },
        }
    }
}

/// The lines of `s`, each with its newline.
pub open spec fn full_lines(s: Seq<char>) -> Seq<Seq<char>>
    decreases s.len(),
{
    if s.len() == 0 {
        Seq::empty()
    } else {
        let init = s.drop_last();
        let rest = full_lines(init);
        if init.len() == 0 || init.last() == '\n' {
            rest.push(seq![s.last()])
        } else {
            rest.update(rest.len() - 1, rest.last().push(s.last()))
        }
    }
}

/// Number of newlines before `pos`.
pub open spec fn newlines(s: Seq<char>, pos: int) -> nat
    decreases pos,
{
    if pos <= 0 {
        0
    } else {
        newlines(s, pos - 1) + (if s[pos - 1] == '\n' {
            1nat
        } else {
            0
        })
    }
}

/// A line of `s` starts at `pos`.
pub open spec fn is_line_start(s: Seq<char>, pos: int) -> bool {
    pos == 0 || s[pos - 1] == '\n'
}

/// Where the line around `pos` ends, past its newline.
pub open spec fn line_end(s: Seq<char>, pos: int) -> int
    decreases s.len() - pos,
{
    if pos < 0 || pos >= s.len() {
        s.len() as int
    } else if s[pos] == '\n' {
        pos + 1
    } else {
        line_end(s, pos + 1)
    }
}

/// No region reaches into the line that starts at `pos`.
pub open spec fn untouched(base: Seq<char>, spans: Seq<Span>, pos: int) -> bool {
    forall|i: int|
        #![trigger spans[i]]
        0 <= i < spans.len() ==> spans[i].start >= line_end(base, pos) || spans[i].start
            + spans[i].len <= pos
}

/// Line `n` of `s`, counted from zero, with its newline. Behind the last newline
/// there may be nothing.
pub open spec fn line_of(s: Seq<char>, n: nat) -> Seq<char> {
    if n < full_lines(s).len() {
        full_lines(s)[n as int]
    } else {
        Seq::empty()
    }
}

/// Cut out the regions of `spans`, and replace every line that none of them
/// reaches by the line of `original` with the same number.
pub open spec fn overlay_cut(
    original: Seq<char>,
    base: Seq<char>,
    spans: Seq<Span>,
) -> spec_fn(int) -> Option<(int, Seq<char>)> {
    |pos: int|
        match replacement_at(spans, pos) {
            Some(r) => Some(r),
            None => if is_line_start(base, pos) && untouched(base, spans, pos) {
                Some((line_end(base, pos) - pos, line_of(original, newlines(base, pos))))
            } else {
                None
            },
        }
}

/// What of `original` stands for an empty last line of `base`: a blank line
/// loses its spaces in fuzzy form.
pub open spec fn blank_last_line(original: Seq<char>, base: Seq<char>) -> Seq<char> {
    if is_line_start(base, base.len() as int) {
        line_of(original, newlines(base, base.len() as int))
    } else {
        Seq::empty()
    }
}

/// The result of edits that were located in the fuzzy form `base` of
/// `original`: lines that no edit reaches are copied from `original`, a blank
/// last one among them.
pub open spec fn overlaid(original: Seq<char>, base: Seq<char>, spans: Seq<Span>) -> Seq<char> {
    rewritten(base, overlay_cut(original, base, spans), 0) + blank_last_line(original, base)
}

proof fn lemma_newlines_prefix(s: Seq<char>, t: Seq<char>, pos: int)
    requires
        pos <= s.len(),
        pos <= t.len(),
        forall|i: int| 0 <= i < pos ==> s[i] == t[i],
    ensures
        newlines(s, pos) == newlines(t, pos),
    decreases pos,
{
    if pos > 0 {
        lemma_newlines_prefix(s, t, pos - 1);
    }
}

/// There is a line for every newline, and one more for an unfinished last line.
pub proof fn lemma_full_lines_count(s: Seq<char>)
    ensures
        full_lines(s).len() == newlines(s, s.len() as int) + (if s.len() > 0 && s.last() != '\n' {
            1nat
        } else {
            0
        }),
    decreases s.len(),
{
    if s.len() > 0 {
        let init = s.drop_last();
        lemma_full_lines_count(init);
        lemma_newlines_prefix(s, init, init.len() as int);
        if init.len() > 0 && init.last() != '\n' {
            assert(full_lines(init).len() > 0);
        }
    }
}

proof fn lemma_line_end(s: Seq<char>, pos: int)
    requires
        0 <= pos < s.len(),
    ensures
        pos < line_end(s, pos) <= s.len(),
        forall|i: int| pos <= i < line_end(s, pos) - 1 ==> s[i] != '\n',
        line_end(s, pos) < s.len() ==> s[line_end(s, pos) - 1] == '\n',
    decreases s.len() - pos,
{
    reveal_with_fuel(line_end, 2);
    if s[pos] != '\n' && pos + 1 < s.len() {
        lemma_line_end(s, pos + 1);
    }
}

/// Passing over the rest of a line counts its newline, if it has one.
proof fn lemma_newlines_over_line(s: Seq<char>, pos: int, end: int)
    requires
        0 <= pos < end <= s.len(),
        forall|i: int| pos <= i < end - 1 ==> s[i] != '\n',
    ensures
        newlines(s, end) == newlines(s, pos) + (if s[end - 1] == '\n' {
            1nat
        } else {
            0
        }),
    decreases end - pos,
{
    lemma_no_newlines(s, pos, end - 1);
}

proof fn lemma_no_newlines(s: Seq<char>, pos: int, end: int)
    requires
        0 <= pos <= end <= s.len(),
        forall|i: int| pos <= i < end ==> s[i] != '\n',
    ensures
        newlines(s, end) == newlines(s, pos),
    decreases end - pos,
{
    if pos < end {
        lemma_no_newlines(s, pos, end - 1);
    }
}

/// Split into lines, each keeping its trailing newline.
pub fn split_lines_with_endings(content: &str) -> (r: Vec<String>)
    ensures
        text::views(r@) == full_lines(content@),
{
    let v: Vec<char> = text::chars_of(content);
    let mut out: Vec<String> = Vec::new();
    let mut i: usize = 0;
    assert(text::views(out@) =~= full_lines(content@.take(0)));
    while i < v.len()
        invariant
            i <= v@.len(),
            v@ == content@,
            text::views(out@) == full_lines(content@.take(i as int)),
        decreases v@.len() - i,
    {
        let ghost before = full_lines(content@.take(i as int));
        proof {
            assert(content@.take(i + 1).drop_last() =~= content@.take(i as int));
            assert(content@.take(i + 1).last() == v@[i as int]);
            lemma_full_lines_count(content@.take(i as int));
        }
        if i == 0 || v[i - 1] == '\n' {
            let mut line: String = String::new();
            line.push(v[i]);
            proof {
                assert(line@ =~= seq![v@[i as int]]);
                text::lemma_views_push(out@, line);
            }
            out.push(line);
        } else {
            let ghost held = out@;
            match out.pop() {
                Some(last) => {
                    let mut line: String = last;
                    line.push(v[i]);
                    proof {
                        text::lemma_views_push(out@, line);
                        assert(text::views(out@) =~= text::views(held).drop_last());
                        assert(text::views(held)[held.len() - 1] == held.last()@);
                        assert(text::views(out@).push(line@) =~= before.update(
                            before.len() - 1,
                            before.last().push(v@[i as int]),
                        ));
                    }
                    out.push(line);
                },
                None => {
                    assert(text::views(held).len() == 0);
                    assert(false);
                },
            }
        }
        i += 1;
    }
    assert(content@.take(content@.len() as int) =~= content@);
    out
}

/// Append `lines[n]`, if there is one.
fn push_line(out: &mut String, lines: &Vec<String>, n: usize)
    ensures
        final(out)@ == old(out)@ + (if n < lines@.len() {
            text::views(lines@)[n as int]
        } else {
            Seq::empty()
        }),
{
    if n < lines.len() {
        assert(text::views(lines@)[n as int] == lines@[n as int]@);
        out.append(lines[n].as_str());
    } else {
        assert(out@ + Seq::<char>::empty() =~= out@);
    }
}

/// Overlay replacements, located in the fuzzy form `base`, onto `original`:
/// only the lines that a replacement reaches are rewritten from `base`; every
/// other line is copied from `original`.
#[verifier::rlimit(40)]
fn apply_replacements_preserving_unchanged_lines(
    original: &str,
    base: &Vec<char>,
    spans: &Vec<Replacement>,
) -> (r: String)
    requires
        all_within(spans_of(spans@), base@.len() as int),
        !some_overlap(spans_of(spans@)),
    ensures
        r@ == overlaid(original@, base@, spans_of(spans@)),
{
    let original_lines: Vec<String> = split_lines_with_endings(original);
    let ghost regions = spans_of(spans@);
    let ghost cut = overlay_cut(original@, base@, regions);
    let total: usize = base.len();
    let mut out: String = String::new();
    let mut pos: usize = 0;
    let mut line: usize = 0;
    assert(out@ + rewritten(base@, cut, 0) =~= rewritten(base@, cut, 0));
    while pos < total
        invariant
            total == base@.len(),
            regions == spans_of(spans@),
            cut == overlay_cut(original@, base@, regions),
            all_within(regions, total as int),
            !some_overlap(regions),
            text::views(original_lines@) == full_lines(original@),
            pos <= total,
            line == newlines(base@, pos as int),
            line <= pos,
            forall|i: int|
                #![trigger regions[i]]
                0 <= i < regions.len() ==> regions[i].start >= pos || regions[i].start
                    + regions[i].len <= pos,
            out@ + rewritten(base@, cut, pos as int) == rewritten(base@, cut, 0),
        decreases total - pos,
    {
        let ghost before = out@;
        let ghost from = pos as int;
        let mut end: usize = pos;
        proof {
            lemma_line_end(base@, pos as int);
        }
        while end < total && base[end] != '\n'
            invariant
                pos <= end <= total,
                total == base@.len(),
                line_end(base@, end as int) == line_end(base@, pos as int),
                forall|j: int| pos <= j < end ==> base@[j] != '\n',
            decreases total - end,
        {
            end += 1;
        }
        let ends_with_newline: bool = end < total;
        if ends_with_newline {
            end += 1;
        }
        assert(end == line_end(base@, pos as int));
        let next: Option<usize> = next_replacement(spans, pos);
        let start: usize = match next {
            Some(k) => spans[k].start,
            None => total,
        };
        if start >= end {
            // No replacement reaches the rest of this line.
            proof {
                assert forall|i: int| 0 <= i < regions.len() implies (
                #[trigger] regions[i]).start >= end || regions[i].start + regions[i].len <= pos by {
                    assert(regions[i] == spans@[i].span());
                }
            }
            if pos == 0 || base[pos - 1] == '\n' {
                proof {
                    assert(replacement_at(regions, from) is None) by {
                        if exists|i: int|
                            0 <= i < regions.len() && (#[trigger] regions[i]).start == from {
                        }
                    }
                    assert(untouched(base@, regions, from));
                    assert(cut(from) == Some(
                        (end - from, line_of(original@, line as nat)),
                    ));
                }
                push_line(&mut out, &original_lines, line);
                proof {
                    assert(out@ + rewritten(base@, cut, end as int) =~= before + rewritten(
                        base@,
                        cut,
                        from,
                    ));
                }
            } else {
                proof {
                    assert forall|p: int| from <= p < end implies #[trigger] cut(p) is None by {
                        assert(!is_line_start(base@, p));
                        assert(replacement_at(regions, p) is None) by {
                            if exists|i: int|
                                0 <= i < regions.len() && (#[trigger] regions[i]).start == p {
                            }
                        }
                    }
                    lemma_rewritten_copies(base@, cut, from, end as int);
                }
                text::push_range(&mut out, base, pos, end);
                proof {
                    assert(out@ + rewritten(base@, cut, end as int) =~= before + rewritten(
                        base@,
                        cut,
                        from,
                    ));
                }
            }
            proof {
                lemma_newlines_over_line(base@, from, end as int);
            }
            if ends_with_newline {
                line += 1;
            }
            pos = end;
        } else {
            match next {
                Some(k) => {
                    let len: usize = spans[k].len;
                    proof {
                        assert(regions[k as int] == spans@[k as int].span());
                        lemma_replacement_unique(regions, k as int, total as int);
                        assert forall|p: int| from <= p < start implies #[trigger] cut(p) is None by {
                            assert(replacement_at(regions, p) is None) by {
                                assert forall|i: int| 0 <= i < regions.len() implies (
                                #[trigger] regions[i]).start != p by {
                                    assert(regions[i] == spans@[i].span());
                                }
                            }
                            if p > from {
                                assert(!is_line_start(base@, p));
                            } else {
                                assert(!untouched(base@, regions, p));
                            }
                        }
                        lemma_rewritten_copies(base@, cut, from, start as int);
                        assert(cut(start as int) == Some((len as int, spans@[k as int].new@)));
                    }
                    text::push_range(&mut out, base, pos, start);
                    out.append(spans[k].new.as_str());
                    let stop: usize = start + len;
                    let mut p: usize = pos;
                    while p < stop
                        invariant
                            p <= stop <= total,
                            total == base@.len(),
                            line == newlines(base@, p as int),
                            line <= p,
                        decreases stop - p,
                    {
                        if base[p] == '\n' {
                            line += 1;
                        }
                        p += 1;
                    }
                    proof {
                        assert(out@ + rewritten(base@, cut, stop as int) =~= before + (
                        base@.subrange(from, start as int) + rewritten(base@, cut, start as int)));
                        assert forall|i: int| 0 <= i < regions.len() implies (
                        #[trigger] regions[i]).start >= stop || regions[i].start + regions[i].len
                            <= stop by {
                            assert(regions[i] == spans@[i].span());
                            if i < k {
                                assert(!intersect(regions[i], regions[k as int]));
                            } else if i > k {
                                assert(!intersect(regions[k as int], regions[i]));
                            }
                        }
                    }
                    pos = stop;
                },
                None => {
                    assert(false);
                },
            }
        }
    }
    assert(rewritten(base@, cut, pos as int) =~= Seq::<char>::empty());
    assert(out@ =~= rewritten(base@, cut, 0));
    if total == 0 || base[total - 1] == '\n' {
        push_line(&mut out, &original_lines, line);
    }
    assert(out@ =~= overlaid(original@, base@, regions));
    out
}

// ---------------------------------------------------------------------------
// Applying edits
// ---------------------------------------------------------------------------

/// What becomes of a set of edits.
pub ghost enum EditOutcome {
    /// A search text is empty.
    EmptyOldText,
    /// A search text does not occur.
    NotFound,
    /// A search text occurs this many times.
    NotUnique(nat),
    /// Two edits reach for the same characters.
    Overlapping,
    /// The new content.
    Done(Seq<char>),
}

/// Why the first of `pairs[from..]` that cannot be placed cannot be placed.
pub open spec fn placement_failure(
    base: Seq<char>,
    pairs: Seq<(Seq<char>, Seq<char>)>,
    from: int,
) -> Option<EditOutcome>
    decreases pairs.len() - from,
{
    if from < 0 || from >= pairs.len() {
        None
    } else if located(base, pairs[from].0) is None {
        Some(EditOutcome::NotFound)
    } else if match_count(base, pairs[from].0) > 1 {
        Some(EditOutcome::NotUnique(match_count(base, pairs[from].0)))
    } else {
        placement_failure(base, pairs, from + 1)
    }
}

/// The regions that `pairs` replace in `base`.
pub open spec fn edit_spans(base: Seq<char>, pairs: Seq<(Seq<char>, Seq<char>)>) -> Seq<Span> {
    pairs.map_values(
        |p: (Seq<char>, Seq<char>)|
            Span { start: located(base, p.0).unwrap().0, len: located(base, p.0).unwrap().1, new: p.1 },
    )
}

/// Some search text is absent as it stands but present in fuzzy form.
pub open spec fn uses_fuzzy(content: Seq<char>, pairs: Seq<(Seq<char>, Seq<char>)>) -> bool {
    exists|i: int| 0 <= i < pairs.len() && needs_fuzzy(content, (#[trigger] pairs[i]).0)
}

/// What becomes of the edits `pairs` on `content`. Every search text is placed
/// in `content` itself, not in the result of earlier edits. When one of them
/// needs fuzzy matching, all are placed in the fuzzy form of `content`.
pub open spec fn edit_outcome(
    content: Seq<char>,
    pairs: Seq<(Seq<char>, Seq<char>)>,
) -> EditOutcome {
    let fuzzy = uses_fuzzy(content, pairs);
    let base = if fuzzy {
        fuzzy_form(content)
    } else {
        content
    };
    if exists|i: int| 0 <= i < pairs.len() && (#[trigger] pairs[i]).0.len() == 0 {
        EditOutcome::EmptyOldText
    } else if placement_failure(base, pairs, 0) is Some {
        placement_failure(base, pairs, 0)->0
    } else if some_overlap(edit_spans(base, pairs)) {
        EditOutcome::Overlapping
    } else if fuzzy {
        EditOutcome::Done(overlaid(content, base, edit_spans(base, pairs)))
    } else {
        EditOutcome::Done(rewritten(base, span_cut(edit_spans(base, pairs)), 0))
    }
}

/// An error says why the edits were refused, and names the file.
pub open spec fn error_reports(e: EditError, outcome: EditOutcome, file: Seq<char>) -> bool {
    match e {
        EditError::EmptyOldText { path } => outcome is EmptyOldText && path@ == file,
        EditError::NotFound { path } => outcome is NotFound && path@ == file,
        EditError::NotUnique { path, count } => outcome == EditOutcome::NotUnique(count as nat)
            && path@ == file,
        EditError::Overlapping { path } => outcome is Overlapping && path@ == file,
    }
}

proof fn lemma_located_in_range(base: Seq<char>, old: Seq<char>)
    requires
        old.len() > 0,
        located(base, old) is Some,
    ensures
        0 <= located(base, old).unwrap().0,
        0 < located(base, old).unwrap().1,
        located(base, old).unwrap().0 + located(base, old).unwrap().1 <= base.len(),
{
    text::lemma_first_from(base, old, 0);
    text::lemma_first_from(fuzzy_form(base), fuzzy_form(old), 0);
}

/// True when some two replacements overlap.
fn has_overlap(spans: &Vec<Replacement>, total: usize) -> (r: bool)
    requires
        all_within(spans_of(spans@), total as int),
    ensures
        r == some_overlap(spans_of(spans@)),
{
    let ghost regions = spans_of(spans@);
    let mut i: usize = 0;
    while i < spans.len()
        invariant
            i <= spans@.len(),
            regions == spans_of(spans@),
            all_within(regions, total as int),
            forall|a: int, b: int|
                #![trigger regions[a], regions[b]]
                0 <= a < i && a < b < regions.len() ==> !intersect(regions[a], regions[b]),
        decreases spans@.len() - i,
    {
        let mut j: usize = i + 1;
        while j < spans.len()
            invariant
                i < j <= spans@.len(),
                regions == spans_of(spans@),
                all_within(regions, total as int),
                forall|b: int|
                    #![trigger regions[b]]
                    i < b < j ==> !intersect(regions[i as int], regions[b]),
            decreases spans@.len() - j,
        {
            proof {
                assert(regions[i as int] == spans@[i as int].span());
                assert(regions[j as int] == spans@[j as int].span());
            }
            if spans[i].start < spans[j].start + spans[j].len && spans[j].start < spans[i].start
                + spans[i].len {
                assert(intersect(regions[i as int], regions[j as int]));
                return true;
            }
            j += 1;
        }
        i += 1;
    }
    false
}

/// Apply a set of edits to LF-normalized content. Each `old_text` is matched
/// against the content as given (not incrementally); edits must be unique and
/// non-overlapping. As a fallback, when an exact match fails the search retries
/// in fuzzy form. If any edit needs fuzzy matching, all edits are applied in
/// that form and then overlaid onto the content line by line, so that untouched
/// lines keep their characters; the two forms have the same number of lines.
/// Returns `(base, new)` for diffing.
pub fn apply_edits(content: &str, edits: &[Edit], path: &str) -> (r: Result<
    (String, String),
    EditError,
>)
    ensures
        match r {
            Ok((base, new)) => base@ == content@ && edit_outcome(content@, edit_pairs(edits@))
                == EditOutcome::Done(new@),
            Err(e) => error_reports(e, edit_outcome(content@, edit_pairs(edits@)), path@),
        },
        uses_fuzzy(content@, edit_pairs(edits@)) && r is Ok ==> newlines(
            fuzzy_form(content@),
            fuzzy_form(content@).len() as int,
        ) == newlines(content@, content@.len() as int),
{
    let ghost pairs = edit_pairs(edits@);
    let mut olds: Vec<String> = Vec::new();
    let mut news: Vec<String> = Vec::new();
    let mut fuzzy: bool = false;
    let mut empty: bool = false;
    let mut i: usize = 0;
    while i < edits.len()
        invariant
            i <= edits@.len(),
            pairs == edit_pairs(edits@),
            olds@.len() == i,
            news@.len() == i,
            forall|k: int| 0 <= k < i ==> (#[trigger] olds@[k])@ == pairs[k].0,
            forall|k: int| 0 <= k < i ==> (#[trigger] news@[k])@ == pairs[k].1,
            empty == (exists|k: int| 0 <= k < i && (#[trigger] pairs[k]).0.len() == 0),
        decreases edits@.len() - i,
    {
        let old: String = normalize_to_lf(edits[i].old_text.as_str());
        let new: String = normalize_to_lf(edits[i].new_text.as_str());
        assert(pairs[i as int] == (old@, new@));
        if old.as_str().is_empty() {
            empty = true;
        }
        olds.push(old);
        news.push(new);
        i += 1;
    }
    if empty {
        return Err(EditError::EmptyOldText { path: path.to_string() });
    }
    i = 0;
    while i < olds.len()
        invariant
            i <= olds@.len(),
            olds@.len() == pairs.len(),
            forall|k: int| 0 <= k < olds@.len() ==> (#[trigger] olds@[k])@ == pairs[k].0,
            fuzzy == (exists|k: int|
                0 <= k < i && needs_fuzzy(content@, (#[trigger] pairs[k]).0)),
        decreases olds@.len() - i,
    {
        assert(olds@[i as int]@ == pairs[i as int].0);
        if fuzzy_needed(content, olds[i].as_str()) {
            fuzzy = true;
        }
        i += 1;
    }
    let base: String = if fuzzy {
        normalize_for_fuzzy_match(content)
    } else {
        content.to_string()
    };
    let base_chars: Vec<char> = text::chars_of(base.as_str());
    let total: usize = base_chars.len();

    // Locate each edit in the base.
    let mut spans: Vec<Replacement> = Vec::new();
    i = 0;
    while i < olds.len()
        invariant
            i <= olds@.len(),
            olds@.len() == pairs.len(),
            news@.len() == pairs.len(),
            forall|k: int| 0 <= k < olds@.len() ==> (#[trigger] olds@[k])@ == pairs[k].0,
            forall|k: int| 0 <= k < news@.len() ==> (#[trigger] news@[k])@ == pairs[k].1,
            pairs == edit_pairs(edits@),
            !(exists|k: int| 0 <= k < pairs.len() && (#[trigger] pairs[k]).0.len() == 0),
            fuzzy == uses_fuzzy(content@, pairs),
            base@ == (if fuzzy {
                fuzzy_form(content@)
            } else {
                content@
            }),
            total == base@.len(),
            spans@.len() == i,
            spans_of(spans@) == edit_spans(base@, pairs).take(i as int),
            all_within(spans_of(spans@), total as int),
            placement_failure(base@, pairs, i as int) == placement_failure(base@, pairs, 0),
        decreases olds@.len() - i,
    {
        assert(olds@[i as int]@ == pairs[i as int].0);
        assert(news@[i as int]@ == pairs[i as int].1);
        match find_in_base(base.as_str(), olds[i].as_str()) {
            None => {
                return Err(EditError::NotFound { path: path.to_string() });
            },
            Some((start, len)) => {
                let count: usize = count_occurrences(base.as_str(), olds[i].as_str());
                if count > 1 {
                    return Err(EditError::NotUnique { path: path.to_string(), count });
                }
                let rep: Replacement = Replacement { start, len, new: news[i].clone() };
                proof {
                    lemma_located_in_range(base@, pairs[i as int].0);
                    assert(spans_of(spans@.push(rep)) =~= spans_of(spans@).push(rep.span()));
                    let all = edit_spans(base@, pairs);
                    assert(all[i as int] == rep.span());
                    assert(all.take(i + 1) =~= all.take(i as int).push(rep.span()));
                    assert(all_within(spans_of(spans@).push(rep.span()), total as int));
                }
                spans.push(rep);
            },
        }
        i += 1;
    }
    proof {
        let all = edit_spans(base@, pairs);
        assert(all.take(pairs.len() as int) =~= all);
    }
    if has_overlap(&spans, total) {
        return Err(EditError::Overlapping { path: path.to_string() });
    }
    let new: String = if fuzzy {
        apply_replacements_preserving_unchanged_lines(content, &base_chars, &spans)
    } else {
        splice_replacements(&base_chars, &spans)
    };
    Ok((content.to_string(), new))
}

impl EditError {
    /// The text of the error.
    pub open spec fn text(self) -> Seq<char> {
        match self {
            EditError::EmptyOldText { path } => "Could not edit file: "@ + path@
                + ". An edits[].oldText is empty."@,
            EditError::NotFound { path } => "Could not edit file: "@ + path@
                + ". The oldText was not found. Make sure oldText matches the file exactly (including indentation and whitespace)."@,
            EditError::NotUnique { path, count } => "Could not edit file: "@ + path@
                + ". The oldText is not unique (found "@ + text::decimal(count as nat)
                + " matches). Include more surrounding context so oldText matches exactly one location."@,
            EditError::Overlapping { path } => "Could not edit file: "@ + path@
                + ". Overlapping or nested edits are not allowed. Merge nearby changes into a single edit."@,
        }
    }

    /// Render the error.
    pub fn message(&self) -> (r: String)
        ensures
            r@ == self.text(),
    {
        let mut out: String = "Could not edit file: ".to_string();
        match self {
            EditError::EmptyOldText { path } => {
                out.append(path.as_str());
                out.append(". An edits[].oldText is empty.");
            },
            EditError::NotFound { path } => {
                out.append(path.as_str());
                out.append(
                    ". The oldText was not found. Make sure oldText matches the file exactly (including indentation and whitespace).",
                );
            },
            EditError::NotUnique { path, count } => {
                out.append(path.as_str());
                out.append(". The oldText is not unique (found ");
                text::push_usize(&mut out, *count);
                out.append(
                    " matches). Include more surrounding context so oldText matches exactly one location.",
                );
            },
            EditError::Overlapping { path } => {
                out.append(path.as_str());
                out.append(
                    ". Overlapping or nested edits are not allowed. Merge nearby changes into a single edit.",
                );
            },
        }
        out
    }
}

// ---------------------------------------------------------------------------
// What edits leave alone
// ---------------------------------------------------------------------------

/// The rewriting reaches `pos` when no cut before it runs past it.
proof fn lemma_rewritten_reaches(
    base: Seq<char>,
    cut: spec_fn(int) -> Option<(int, Seq<char>)>,
    from: int,
    pos: int,
) -> (before: Seq<char>)
    requires
        0 <= from <= pos <= base.len(),
        forall|x: int|
            from <= x < pos ==> (#[trigger] cut(x) matches Some((n, _)) ==> 0 < n <= pos - x),
    ensures
        rewritten(base, cut, from) == before + rewritten(base, cut, pos),
    decreases pos - from,
{
    if from == pos {
        let before = Seq::<char>::empty();
        assert(before + rewritten(base, cut, pos) =~= rewritten(base, cut, pos));
        before
    } else {
        match cut(from) {
            Some((n, new)) => {
                let rest = lemma_rewritten_reaches(base, cut, from + n, pos);
                assert(new + (rest + rewritten(base, cut, pos)) =~= new + rest + rewritten(
                    base,
                    cut,
                    pos,
                ));
                new + rest
            },
            None => {
                let rest = lemma_rewritten_reaches(base, cut, from + 1, pos);
                let c = seq![base[from]];
                assert(c + (rest + rewritten(base, cut, pos)) =~= c + rest + rewritten(
                    base,
                    cut,
                    pos,
                ));
                c + rest
            },
        }
    }
}

/// A replacement found at a position is one of the regions.
proof fn lemma_replacement_is_a_region(spans: Seq<Span>, pos: int)
    requires
        replacement_at(spans, pos) is Some,
    ensures
        exists|i: int|
            0 <= i < spans.len() && (#[trigger] spans[i]).start == pos && replacement_at(spans, pos)
                == Some((spans[i].len, spans[i].new)),
{
}

/// Edits leave the text between them alone: a stretch that no replaced region
/// reaches stands in the result as it stood in the base.
pub proof fn law_text_between_edits_is_kept(base: Seq<char>, spans: Seq<Span>, lo: int, hi: int)
    requires
        all_within(spans, base.len() as int),
        !some_overlap(spans),
        0 <= lo <= hi <= base.len(),
        forall|i: int|
            #![trigger spans[i]]
            0 <= i < spans.len() ==> spans[i].start >= hi || spans[i].start + spans[i].len <= lo,
    ensures
        exists|before: Seq<char>|
            rewritten(base, span_cut(spans), 0) == #[trigger] (before + base.subrange(lo, hi))
                + rewritten(base, span_cut(spans), hi),
{
    let cut = span_cut(spans);
    assert forall|x: int| 0 <= x < lo implies (#[trigger] cut(x) matches Some((n, _)) ==> 0 < n
        <= lo - x) by {
        if cut(x) is Some {
            lemma_replacement_is_a_region(spans, x);
        }
    }
    let before = lemma_rewritten_reaches(base, cut, 0, lo);
    assert forall|x: int| lo <= x < hi implies #[trigger] cut(x) is None by {
        if cut(x) is Some {
            lemma_replacement_is_a_region(spans, x);
        }
    }
    lemma_rewritten_copies(base, cut, lo, hi);
    assert(rewritten(base, cut, 0) =~= (before + base.subrange(lo, hi)) + rewritten(base, cut, hi));
}

proof fn lemma_line_end_stops(s: Seq<char>, pos: int, at: int)
    requires
        0 <= pos <= at < s.len(),
        s[at] == '\n',
    ensures
        line_end(s, pos) <= at + 1,
    decreases at - pos,
{
    if s[pos] != '\n' {
        lemma_line_end_stops(s, pos + 1, at);
    }
}

/// A line that no fuzzy edit reaches keeps its own characters: it stands in the
/// result as the line of the original with the same number. That holds of a
/// blank last line too, of which the fuzzy form keeps nothing.
pub proof fn law_untouched_lines_keep_their_characters(
    original: Seq<char>,
    base: Seq<char>,
    spans: Seq<Span>,
    pos: int,
)
    requires
        all_within(spans, base.len() as int),
        !some_overlap(spans),
        0 <= pos <= base.len(),
        is_line_start(base, pos),
        untouched(base, spans, pos),
    ensures
        exists|before: Seq<char>|
            overlaid(original, base, spans) == #[trigger] (before + line_of(
                original,
                newlines(base, pos),
            )) + (if pos < base.len() {
                rewritten(base, overlay_cut(original, base, spans), line_end(base, pos))
                    + blank_last_line(original, base)
            } else {
                Seq::empty()
            }),
{
    let cut = overlay_cut(original, base, spans);
    let line = line_of(original, newlines(base, pos));
    if pos == base.len() {
        let before = rewritten(base, cut, 0);
        assert(overlaid(original, base, spans) =~= (before + line) + Seq::<char>::empty());
    } else {
        lemma_line_end(base, pos);
        assert forall|x: int| 0 <= x < pos implies (#[trigger] cut(x) matches Some((n, _)) ==> 0 < n
            <= pos - x) by {
            if replacement_at(spans, x) is Some {
                lemma_replacement_is_a_region(spans, x);
            } else {
                lemma_line_end_stops(base, x, pos - 1);
                lemma_line_end(base, x);
            }
        }
        let before = lemma_rewritten_reaches(base, cut, 0, pos);
        if replacement_at(spans, pos) is Some {
            lemma_replacement_is_a_region(spans, pos);
        }
        assert(cut(pos) == Some((line_end(base, pos) - pos, line)));
        let rest = rewritten(base, cut, line_end(base, pos));
        let last = blank_last_line(original, base);
        assert(rewritten(base, cut, 0) =~= (before + line) + rest);
        assert(rewritten(base, cut, 0) + last =~= (before + line) + (rest + last));
    }
}

/// A single edit whose text stands in the content, and occurs there no more than
/// once, as it stands or in fuzzy form, replaces just that text.
pub proof fn law_a_single_edit_replaces_its_text(
    content: Seq<char>,
    old: Seq<char>,
    new: Seq<char>,
    at: int,
)
    requires
        old.len() > 0,
        text::first_match(content, old) == Some(at),
        match_count(content, old) <= 1,
    ensures
        edit_outcome(content, seq![(old, new)]) == EditOutcome::Done(
            content.take(at) + new + content.skip(at + old.len()),
        ),
{
    let pairs = seq![(old, new)];
    let spans = edit_spans(content, pairs);
    let cut = span_cut(spans);
    let end = at + old.len();
    text::lemma_first_from(content, old, 0);
    lemma_located_in_range(content, old);
    assert(placement_failure(content, pairs, 1) is None);
    assert(placement_failure(content, pairs, 0) is None);
    assert(spans =~= seq![Span { start: at, len: old.len() as int, new }]);
    assert(all_within(spans, content.len() as int));
    assert(!some_overlap(spans));
    lemma_replacement_unique(spans, 0, content.len() as int);
    assert forall|p: int| p != at implies #[trigger] cut(p) is None by {
        if replacement_at(spans, p) is Some {
            lemma_replacement_is_a_region(spans, p);
        }
    }
    lemma_rewritten_copies(content, cut, 0, at);
    lemma_rewritten_copies(content, cut, end, content.len() as int);
    assert(content.subrange(0, at) =~= content.take(at));
    assert(content.subrange(end, content.len() as int) =~= content.skip(end));
    assert(rewritten(content, cut, content.len() as int) =~= Seq::<char>::empty());
    assert(cut(at) == Some((old.len() as int, new)));
    assert(rewritten(content, cut, 0) =~= content.take(at) + new + content.skip(end));
}

proof fn lemma_placement(base: Seq<char>, pairs: Seq<(Seq<char>, Seq<char>)>, from: int)
    requires
        0 <= from <= pairs.len(),
    ensures
        placement_failure(base, pairs, from) is None <==> forall|i: int|
            #![trigger pairs[i]]
            from <= i < pairs.len() ==> located(base, pairs[i].0) is Some && match_count(
                base,
                pairs[i].0,
            ) <= 1,
        !(placement_failure(base, pairs, from) matches Some(EditOutcome::Done(_))),
    decreases pairs.len() - from,
{
    if from < pairs.len() {
        lemma_placement(base, pairs, from + 1);
    }
}

/// Edits are made only where each search text stands, and stands once: neither
/// as it is nor in fuzzy form does it occur a second time.
pub proof fn law_edited_texts_are_unique(
    content: Seq<char>,
    pairs: Seq<(Seq<char>, Seq<char>)>,
    i: int,
)
    requires
        0 <= i < pairs.len(),
        edit_outcome(content, pairs) is Done,
    ensures
        ({
            let base = if uses_fuzzy(content, pairs) {
                fuzzy_form(content)
            } else {
                content
            };
            &&& located(base, pairs[i].0) is Some
            &&& text::occurrences_from(base, pairs[i].0, 0) <= 1
            &&& fuzzy_count(base, pairs[i].0) <= 1
        }),
{
    let base = if uses_fuzzy(content, pairs) {
        fuzzy_form(content)
    } else {
        content
    };
    lemma_placement(base, pairs, 0);
    assert(located(base, pairs[i].0) is Some && match_count(base, pairs[i].0) <= 1);
}

/// Two lists hold the same edits, each as often, in whatever order.
pub open spec fn same_edits(
    a: Seq<(Seq<char>, Seq<char>)>,
    b: Seq<(Seq<char>, Seq<char>)>,
) -> bool {
    a.to_multiset() =~= b.to_multiset()
}

proof fn lemma_same_edits_hold(
    a: Seq<(Seq<char>, Seq<char>)>,
    b: Seq<(Seq<char>, Seq<char>)>,
    i: int,
)
    requires
        same_edits(a, b),
        0 <= i < a.len(),
    ensures
        exists|k: int| 0 <= k < b.len() && #[trigger] b[k] == a[i],
{
    broadcast use vstd::seq_lib::group_to_multiset_ensures;

    assert(a.contains(a[i]));
    assert(a.to_multiset().count(a[i]) > 0);
    assert(b.contains(a[i]));
}

proof fn lemma_placed_spans(base: Seq<char>, pairs: Seq<(Seq<char>, Seq<char>)>)
    requires
        forall|i: int| 0 <= i < pairs.len() ==> (#[trigger] pairs[i]).0.len() > 0,
        placement_failure(base, pairs, 0) is None,
    ensures
        all_within(edit_spans(base, pairs), base.len() as int),
{
    lemma_placement(base, pairs, 0);
    let spans = edit_spans(base, pairs);
    assert forall|i: int| #![trigger spans[i]] 0 <= i < spans.len() implies 0 <= spans[i].start && 0
        < spans[i].len && spans[i].start + spans[i].len <= base.len() by {
        assert(pairs[i].0.len() > 0);
        lemma_located_in_range(base, pairs[i].0);
    }
}

/// Placed edits that do not overlap do not overlap in another order.
proof fn lemma_reordered_apart(
    base: Seq<char>,
    a: Seq<(Seq<char>, Seq<char>)>,
    b: Seq<(Seq<char>, Seq<char>)>,
)
    requires
        same_edits(a, b),
        all_within(edit_spans(base, a), base.len() as int),
        !some_overlap(edit_spans(base, a)),
    ensures
        !some_overlap(edit_spans(base, b)),
{
    let sa = edit_spans(base, a);
    let sb = edit_spans(base, b);
    assert forall|i: int, j: int| 0 <= i < j < a.len() implies a[i] != a[j] by {
        assert(!intersect(sa[i], sa[j]));
    }
    assert(a.no_duplicates());
    a.lemma_multiset_has_no_duplicates();
    b.lemma_multiset_has_no_duplicates_conv();
    assert forall|i: int, j: int| #![trigger sb[i], sb[j]] 0 <= i < j < sb.len() implies !intersect(
        sb[i],
        sb[j],
    ) by {
        lemma_same_edits_hold(b, a, i);
        lemma_same_edits_hold(b, a, j);
        let x = choose|k: int| 0 <= k < a.len() && #[trigger] a[k] == b[i];
        let y = choose|k: int| 0 <= k < a.len() && #[trigger] a[k] == b[j];
        assert(sa[x] == sb[i]);
        assert(sa[y] == sb[j]);
        assert(b[i] != b[j]);
        if x < y {
            assert(!intersect(sa[x], sa[y]));
        } else {
            assert(!intersect(sa[y], sa[x]));
        }
    }
}

/// The region at a position is the same in another order.
proof fn lemma_reordered_replacement(
    base: Seq<char>,
    a: Seq<(Seq<char>, Seq<char>)>,
    b: Seq<(Seq<char>, Seq<char>)>,
    pos: int,
)
    requires
        same_edits(a, b),
        all_within(edit_spans(base, a), base.len() as int),
        !some_overlap(edit_spans(base, a)),
    ensures
        replacement_at(edit_spans(base, a), pos) == replacement_at(edit_spans(base, b), pos),
{
    let sa = edit_spans(base, a);
    let sb = edit_spans(base, b);
    if replacement_at(sb, pos) is Some {
        lemma_replacement_is_a_region(sb, pos);
        let i = choose|i: int|
            0 <= i < sb.len() && (#[trigger] sb[i]).start == pos && replacement_at(sb, pos) == Some(
                (sb[i].len, sb[i].new),
            );
        lemma_same_edits_hold(b, a, i);
        let x = choose|k: int| 0 <= k < a.len() && #[trigger] a[k] == b[i];
        assert(sa[x] == sb[i]);
        lemma_replacement_unique(sa, x, base.len() as int);
    } else if replacement_at(sa, pos) is Some {
        lemma_replacement_is_a_region(sa, pos);
        let i = choose|i: int|
            0 <= i < sa.len() && (#[trigger] sa[i]).start == pos && replacement_at(sa, pos) == Some(
                (sa[i].len, sa[i].new),
            );
        lemma_same_edits_hold(a, b, i);
        let x = choose|k: int| 0 <= k < b.len() && #[trigger] b[k] == a[i];
        assert(sb[x] == sa[i]);
    }
}

/// A line is out of reach in another order too.
proof fn lemma_reordered_untouched(
    base: Seq<char>,
    a: Seq<(Seq<char>, Seq<char>)>,
    b: Seq<(Seq<char>, Seq<char>)>,
    pos: int,
)
    requires
        same_edits(a, b),
        untouched(base, edit_spans(base, a), pos),
    ensures
        untouched(base, edit_spans(base, b), pos),
{
    let sa = edit_spans(base, a);
    let sb = edit_spans(base, b);
    assert forall|i: int| #![trigger sb[i]] 0 <= i < sb.len() implies sb[i].start >= line_end(
        base,
        pos,
    ) || sb[i].start + sb[i].len <= pos by {
        lemma_same_edits_hold(b, a, i);
        let x = choose|k: int| 0 <= k < a.len() && #[trigger] a[k] == b[i];
        assert(sa[x] == sb[i]);
    }
}

proof fn lemma_reordered_fuzzy(
    content: Seq<char>,
    a: Seq<(Seq<char>, Seq<char>)>,
    b: Seq<(Seq<char>, Seq<char>)>,
)
    requires
        same_edits(a, b),
        uses_fuzzy(content, a),
    ensures
        uses_fuzzy(content, b),
{
    let i = choose|i: int| 0 <= i < a.len() && needs_fuzzy(content, (#[trigger] a[i]).0);
    lemma_same_edits_hold(a, b, i);
}

proof fn lemma_reordered_outcome(
    content: Seq<char>,
    a: Seq<(Seq<char>, Seq<char>)>,
    b: Seq<(Seq<char>, Seq<char>)>,
)
    requires
        same_edits(a, b),
        edit_outcome(content, a) is Done,
    ensures
        edit_outcome(content, b) == edit_outcome(content, a),
{
    let fuzzy = uses_fuzzy(content, a);
    if uses_fuzzy(content, b) {
        lemma_reordered_fuzzy(content, b, a);
    }
    if fuzzy {
        lemma_reordered_fuzzy(content, a, b);
    }
    let base = if fuzzy {
        fuzzy_form(content)
    } else {
        content
    };
    lemma_placement(base, a, 0);
    lemma_placement(base, b, 0);
    assert forall|i: int| 0 <= i < b.len() implies (#[trigger] b[i]).0.len() > 0 && located(
        base,
        b[i].0,
    ) is Some && match_count(base, b[i].0) <= 1 by {
        lemma_same_edits_hold(b, a, i);
    }
    lemma_placed_spans(base, a);
    lemma_reordered_apart(base, a, b);
    let sa = edit_spans(base, a);
    let sb = edit_spans(base, b);
    assert forall|pos: int| span_cut(sa)(pos) == #[trigger] span_cut(sb)(pos) by {
        lemma_reordered_replacement(base, a, b, pos);
    }
    assert(span_cut(sa) =~= span_cut(sb));
    let oa = overlay_cut(content, base, sa);
    let ob = overlay_cut(content, base, sb);
    assert forall|pos: int| oa(pos) == #[trigger] ob(pos) by {
        lemma_reordered_replacement(base, a, b, pos);
        if untouched(base, sa, pos) {
            lemma_reordered_untouched(base, a, b, pos);
        }
        if untouched(base, sb, pos) {
            lemma_reordered_untouched(base, b, a, pos);
        }
    }
    assert(oa =~= ob);
}

/// The order of edits does not matter: the same edits in another order are made
/// where these are, and give the same content.
pub proof fn law_the_order_of_edits_does_not_matter(
    content: Seq<char>,
    a: Seq<(Seq<char>, Seq<char>)>,
    b: Seq<(Seq<char>, Seq<char>)>,
    r: Seq<char>,
)
    requires
        same_edits(a, b),
    ensures
        edit_outcome(content, a) == EditOutcome::Done(r) <==> edit_outcome(content, b)
            == EditOutcome::Done(r),
{
    if edit_outcome(content, a) is Done {
        lemma_reordered_outcome(content, a, b);
    } else if edit_outcome(content, b) is Done {
        lemma_reordered_outcome(content, b, a);
    }
}

/// `old` stands in `content` at `at`, and nowhere else.
pub open spec fn stands_only_at(content: Seq<char>, old: Seq<char>, at: int) -> bool {
    &&& 0 <= at <= content.len() - old.len()
    &&& content.subrange(at, at + old.len()) == old
    &&& forall|k: int|
        #![trigger content.subrange(k, k + old.len())]
        0 <= k <= content.len() - old.len() && k != at ==> content.subrange(k, k + old.len()) != old
}

proof fn lemma_counted_once(content: Seq<char>, old: Seq<char>, at: int, from: int)
    requires
        old.len() > 0,
        stands_only_at(content, old, at),
        0 <= from,
    ensures
        text::occurrences_from(content, old, from) == (if from <= at {
            1nat
        } else {
            0
        }),
        from <= at ==> text::first_from(content, old, from) == Some(at),
    decreases content.len() + 1 - from,
{
    if from + old.len() <= content.len() {
        if from == at {
            lemma_counted_once(content, old, at, from + old.len());
        } else {
            assert(content.subrange(from, from + old.len()) != old);
            lemma_counted_once(content, old, at, from + 1);
        }
    }
}

/// One edit replaces its text, character for character: where the search text
/// stands in the content at one place, and its fuzzy form at no more than one,
/// the new content is what stood before it, the replacement as given, and what
/// stood behind it. Neither text of the edit may hold a carriage return.
pub proof fn law_an_edit_puts_its_new_text_in_place_of_its_old_text(
    content: Seq<char>,
    edits: Seq<Edit>,
    at: int,
)
    requires
        edits.len() == 1,
        edits[0].old_text@.len() > 0,
        !edits[0].old_text@.contains('\r'),
        !edits[0].new_text@.contains('\r'),
        stands_only_at(content, edits[0].old_text@, at),
        fuzzy_count(content, edits[0].old_text@) <= 1,
    ensures
        edit_outcome(content, edit_pairs(edits)) == EditOutcome::Done(
            content.take(at) + edits[0].new_text@ + content.skip(at + edits[0].old_text@.len()),
        ),
{
    let old = edits[0].old_text@;
    let new = edits[0].new_text@;
    law_lf_form_keeps_lf_text(old);
    law_lf_form_keeps_lf_text(new);
    assert(edit_pairs(edits) =~= seq![(old, new)]);
    lemma_counted_once(content, old, at, 0);
    law_a_single_edit_replaces_its_text(content, old, new, at);
}

/// The search and replacement texts of an edit are taken as they are given,
/// where they hold no carriage return.
pub proof fn law_edit_texts_are_taken_as_given(edits: Seq<Edit>, i: int)
    requires
        0 <= i < edits.len(),
        !edits[i].old_text@.contains('\r'),
        !edits[i].new_text@.contains('\r'),
    ensures
        edit_pairs(edits).len() == edits.len(),
        edit_pairs(edits)[i] == (edits[i].old_text@, edits[i].new_text@),
{
    law_lf_form_keeps_lf_text(edits[i].old_text@);
    law_lf_form_keeps_lf_text(edits[i].new_text@);
}

/// `parts` with one of `fills` between each two neighbours.
pub open spec fn woven(parts: Seq<Seq<char>>, fills: Seq<Seq<char>>) -> Seq<char>
    decreases fills.len(),
{
    if fills.len() == 0 {
        parts[0]
    } else {
        woven(parts, fills.drop_last()) + fills.last() + parts[fills.len() as int]
    }
}

/// Where fill `i` stands in the woven text.
pub open spec fn woven_at(parts: Seq<Seq<char>>, fills: Seq<Seq<char>>, i: int) -> int {
    woven(parts, fills.take(i)).len() as int
}

/// The search texts of some edits, and what they are replaced by.
pub open spec fn old_texts(edits: Seq<Edit>) -> Seq<Seq<char>> {
    edits.map_values(|e: Edit| e.old_text@)
}

pub open spec fn new_texts(edits: Seq<Edit>) -> Seq<Seq<char>> {
    edits.map_values(|e: Edit| e.new_text@)
}

proof fn lemma_woven_prefix(parts: Seq<Seq<char>>, fills: Seq<Seq<char>>, i: int)
    requires
        0 <= i <= fills.len(),
    ensures
        woven(parts, fills.take(i)).len() <= woven(parts, fills).len(),
        woven(parts, fills).take(woven(parts, fills.take(i)).len() as int) == woven(
            parts,
            fills.take(i),
        ),
    decreases fills.len(),
{
    let whole = woven(parts, fills);
    if i == fills.len() {
        assert(fills.take(i) =~= fills);
        assert(whole.take(whole.len() as int) =~= whole);
    } else {
        let init = fills.drop_last();
        lemma_woven_prefix(parts, init, i);
        assert(init.take(i) =~= fills.take(i));
        let w = woven(parts, fills.take(i));
        assert(whole.take(w.len() as int) =~= woven(parts, init).take(w.len() as int));
    }
}

proof fn lemma_woven_step(parts: Seq<Seq<char>>, fills: Seq<Seq<char>>, i: int)
    requires
        0 <= i < fills.len(),
    ensures
        woven(parts, fills.take(i + 1)) == woven(parts, fills.take(i)) + fills[i] + parts[i + 1],
{
    assert(fills.take(i + 1).drop_last() =~= fills.take(i));
    assert(fills.take(i + 1).last() == fills[i]);
}

/// From the start of fill `i` on, and from behind it on, the rewriting gives the
/// new texts.
proof fn lemma_woven_rewritten(
    parts: Seq<Seq<char>>,
    olds: Seq<Seq<char>>,
    news: Seq<Seq<char>>,
    spans: Seq<Span>,
    i: int,
)
    requires
        olds.len() == news.len() == spans.len(),
        parts.len() == olds.len() + 1,
        0 <= i <= olds.len(),
        all_within(spans, woven(parts, olds).len() as int),
        !some_overlap(spans),
        forall|k: int|
            #![trigger spans[k]]
            0 <= k < olds.len() ==> spans[k] == (Span {
                start: woven_at(parts, olds, k),
                len: olds[k].len() as int,
                new: news[k],
            }),
        forall|k: int| 0 <= k < olds.len() ==> (#[trigger] olds[k]).len() > 0,
    ensures
        ({
            let base = woven(parts, olds);
            let here = woven_at(parts, olds, i);
            woven(parts, news.take(i)) + rewritten(base, span_cut(spans), here) == rewritten(
                base,
                span_cut(spans),
                0,
            )
        }),
    decreases i,
{
    let base = woven(parts, olds);
    let cut = span_cut(spans);
    if i == 0 {
        assert(olds.take(0) =~= Seq::<Seq<char>>::empty());
        assert(news.take(0) =~= Seq::<Seq<char>>::empty());
        let first = parts[0];
        let end = first.len() as int;
        lemma_woven_prefix(parts, olds, 0);
        assert(woven(parts, olds.take(0)) == first);
        assert forall|x: int| 0 <= x < end implies #[trigger] cut(x) is None by {
            lemma_no_span(parts, olds, news, spans, -1, x);
        }
        lemma_rewritten_copies(base, cut, 0, end);
        assert(base.subrange(0, end) =~= base.take(end));
    } else {
        let k = i - 1;
        lemma_woven_rewritten(parts, olds, news, spans, k);
        let start = woven_at(parts, olds, k);
        let stop = start + olds[k].len();
        let next = woven_at(parts, olds, i);
        lemma_woven_step(parts, olds, k);
        lemma_woven_step(parts, news, k);
        lemma_woven_prefix(parts, olds, i);
        assert(next == stop + parts[i].len());
        assert(spans[k].start == start);
        lemma_replacement_unique(spans, k, base.len() as int);
        assert(cut(start) == Some((olds[k].len() as int, news[k])));
        assert forall|x: int| stop <= x < next implies #[trigger] cut(x) is None by {
            lemma_no_span(parts, olds, news, spans, k, x);
        }
        lemma_rewritten_copies(base, cut, stop, next);
        assert(base.subrange(stop, next) =~= parts[i]) by {
            let w = woven(parts, olds.take(i));
            assert(base.take(w.len() as int) == w);
            assert(base.subrange(stop, next) =~= w.subrange(stop, next));
        }
        assert(woven(parts, news.take(i)) + rewritten(base, cut, next) =~= woven(
            parts,
            news.take(k),
        ) + (news[k] + (parts[i] + rewritten(base, cut, next))));
    }
}

/// Between fill `k` and the next one no region starts.
proof fn lemma_no_span(
    parts: Seq<Seq<char>>,
    olds: Seq<Seq<char>>,
    news: Seq<Seq<char>>,
    spans: Seq<Span>,
    k: int,
    x: int,
)
    requires
        olds.len() == news.len() == spans.len(),
        parts.len() == olds.len() + 1,
        -1 <= k < olds.len(),
        forall|j: int|
            #![trigger spans[j]]
            0 <= j < olds.len() ==> spans[j] == (Span {
                start: woven_at(parts, olds, j),
                len: olds[j].len() as int,
                new: news[j],
            }),
        forall|j: int| 0 <= j < olds.len() ==> (#[trigger] olds[j]).len() > 0,
        k >= 0 ==> woven_at(parts, olds, k) + olds[k].len() <= x,
        x < woven_at(parts, olds, k + 1),
    ensures
        replacement_at(spans, x) is None,
{
    if replacement_at(spans, x) is Some {
        lemma_replacement_is_a_region(spans, x);
        let j = choose|j: int|
            0 <= j < spans.len() && (#[trigger] spans[j]).start == x && replacement_at(spans, x)
                == Some((spans[j].len, spans[j].new));
        if j <= k {
            lemma_woven_order(parts, olds, j, k);
            assert(olds[k].len() > 0);
        } else {
            lemma_woven_order(parts, olds, k + 1, j);
        }
    }
}

proof fn lemma_woven_order(parts: Seq<Seq<char>>, fills: Seq<Seq<char>>, i: int, j: int)
    requires
        0 <= i <= j <= fills.len(),
    ensures
        woven_at(parts, fills, i) <= woven_at(parts, fills, j),
        i < j ==> woven_at(parts, fills, i) + fills[i].len() <= woven_at(parts, fills, j),
    decreases j - i,
{
    if i < j {
        lemma_woven_order(parts, fills, i, j - 1);
        lemma_woven_step(parts, fills, j - 1);
    }
}

/// Edits replace their texts, character for character, and nothing else: where the
/// content is some parts with the search texts between them, each of which stands
/// there only, the new content is the same parts with the replacements between
/// them. No text of the edits may hold a carriage return.
pub proof fn law_edits_replace_their_texts_and_nothing_else(
    parts: Seq<Seq<char>>,
    edits: Seq<Edit>,
)
    requires
        edits.len() > 0,
        parts.len() == edits.len() + 1,
        forall|i: int|
            #![trigger edits[i]]
            0 <= i < edits.len() ==> {
                let content = woven(parts, old_texts(edits));
                let old = edits[i].old_text@;
                &&& old.len() > 0
                &&& !old.contains('\r')
                &&& !edits[i].new_text@.contains('\r')
                &&& stands_only_at(content, old, woven_at(parts, old_texts(edits), i))
                &&& fuzzy_count(content, old) <= 1
            },
    ensures
        edit_outcome(woven(parts, old_texts(edits)), edit_pairs(edits)) == EditOutcome::Done(
            woven(parts, new_texts(edits)),
        ),
{
    let olds = old_texts(edits);
    let news = new_texts(edits);
    let content = woven(parts, olds);
    let pairs = edit_pairs(edits);
    let spans = edit_spans(content, pairs);
    assert forall|i: int| #![trigger pairs[i]] 0 <= i < pairs.len() implies pairs[i] == (
        olds[i],
        news[i],
    ) && located(content, pairs[i].0) == Some((woven_at(parts, olds, i), olds[i].len() as int))
        && match_count(content, pairs[i].0) <= 1 && !needs_fuzzy(content, pairs[i].0) by {
        assert(edits[i].old_text@.len() > 0);
        law_edit_texts_are_taken_as_given(edits, i);
        lemma_counted_once(content, olds[i], woven_at(parts, olds, i), 0);
    }
    assert(!uses_fuzzy(content, pairs));
    lemma_placement(content, pairs, 0);
    assert forall|k: int| #![trigger spans[k]] 0 <= k < olds.len() implies spans[k] == (Span {
        start: woven_at(parts, olds, k),
        len: olds[k].len() as int,
        new: news[k],
    }) by {
        assert(pairs[k] == (olds[k], news[k]));
    }
    assert forall|k: int| 0 <= k < olds.len() implies (#[trigger] olds[k]).len() > 0 by {
        assert(edits[k].old_text@.len() > 0);
    }
    assert forall|i: int| 0 <= i < pairs.len() implies (#[trigger] pairs[i]).0.len() > 0 by {
        assert(olds[i].len() > 0);
    }
    lemma_placed_spans(content, pairs);
    assert(!some_overlap(spans)) by {
        assert forall|i: int, j: int|
            #![trigger spans[i], spans[j]]
            0 <= i < j < spans.len() implies !intersect(spans[i], spans[j]) by {
            lemma_woven_order(parts, olds, i, j);
        }
    }
    let n = olds.len() as int;
    lemma_woven_rewritten(parts, olds, news, spans, n);
    assert(olds.take(n) =~= olds);
    assert(news.take(n) =~= news);
    let cut = span_cut(spans);
    assert(rewritten(content, cut, content.len() as int) =~= Seq::<char>::empty());
    assert(rewritten(content, cut, 0) =~= woven(parts, news));
}

/// A set of edits is refused where a search text is empty; else where one is not
/// to be found, or is found more than once; else where two of them overlap. It is
/// made everywhere else.
pub proof fn law_edits_are_refused_only_for_a_reason(
    content: Seq<char>,
    pairs: Seq<(Seq<char>, Seq<char>)>,
)
    ensures
        ({
            let base = if exists|i: int|
                0 <= i < pairs.len() && needs_fuzzy(content, (#[trigger] pairs[i]).0) {
                fuzzy_form(content)
            } else {
                content
            };
            let empty = exists|i: int| 0 <= i < pairs.len() && (#[trigger] pairs[i]).0.len() == 0;
            let misplaced = exists|i: int|
                0 <= i < pairs.len() && (located(base, (#[trigger] pairs[i]).0) is None
                    || fuzzy_count(base, pairs[i].0) > 1 || text::occurrences_from(
                    base,
                    pairs[i].0,
                    0,
                ) > 1);
            let outcome = edit_outcome(content, pairs);
            &&& outcome is EmptyOldText <==> empty
            &&& outcome is NotFound || outcome is NotUnique <==> !empty && misplaced
            &&& outcome is Overlapping <==> !empty && !misplaced && some_overlap(
                edit_spans(base, pairs),
            )
            &&& outcome is Done <==> !empty && !misplaced && !some_overlap(edit_spans(base, pairs))
        }),
{
    let fuzzy = exists|i: int| 0 <= i < pairs.len() && needs_fuzzy(content, (#[trigger] pairs[i]).0);
    assert(fuzzy == uses_fuzzy(content, pairs));
    let base = if fuzzy {
        fuzzy_form(content)
    } else {
        content
    };
    lemma_placement(base, pairs, 0);
    lemma_placement_kind(base, pairs, 0);
    let misplaced = exists|i: int|
        0 <= i < pairs.len() && (located(base, (#[trigger] pairs[i]).0) is None || fuzzy_count(
            base,
            pairs[i].0,
        ) > 1 || text::occurrences_from(base, pairs[i].0, 0) > 1);
    if placement_failure(base, pairs, 0) is None {
        assert forall|i: int| 0 <= i < pairs.len() implies !(located(base, (#[trigger] pairs[i]).0) is
            None || fuzzy_count(base, pairs[i].0) > 1 || text::occurrences_from(
            base,
            pairs[i].0,
            0,
        ) > 1) by {
            assert(match_count(base, pairs[i].0) <= 1);
        }
        assert(!misplaced);
    } else {
        let i = choose|i: int|
            #![trigger pairs[i]]
            0 <= i < pairs.len() && !(located(base, pairs[i].0) is Some && match_count(
                base,
                pairs[i].0,
            ) <= 1);
        assert(located(base, pairs[i].0) is None || fuzzy_count(base, pairs[i].0) > 1
            || text::occurrences_from(base, pairs[i].0, 0) > 1);
        assert(misplaced);
    }
}

proof fn lemma_placement_kind(
    base: Seq<char>,
    pairs: Seq<(Seq<char>, Seq<char>)>,
    from: int,
)
    requires
        0 <= from <= pairs.len(),
    ensures
        placement_failure(base, pairs, from) matches Some(o) ==> o is NotFound || o is NotUnique,
    decreases pairs.len() - from,
{
    if from < pairs.len() {
        lemma_placement_kind(base, pairs, from + 1);
    }
}

/// A search text is placed where it stands first; where it does not stand as it
/// is, where its fuzzy form stands first in the fuzzy form; else nowhere.
pub proof fn law_texts_are_placed_where_they_stand_first(base: Seq<char>, old: Seq<char>)
    ensures
        text::has_substring(base, old) ==> (located(base, old) matches Some((at, n)) && n
            == old.len() && 0 <= at <= base.len() - n && base.subrange(at, at + n) == old
            && forall|k: int| 0 <= k < at ==> #[trigger] base.subrange(k, k + n) != old),
        !text::has_substring(base, old) && fuzzy_form(old).len() == 0 ==> located(base, old) is None,
        !text::has_substring(base, old) && !text::has_substring(fuzzy_form(base), fuzzy_form(old))
            ==> located(base, old) is None,
        !text::has_substring(base, old) && fuzzy_form(base) == base && fuzzy_form(old).len() > 0
            && text::has_substring(base, fuzzy_form(old)) ==> (located(base, old) matches Some(
            (at, n),
        ) && n == fuzzy_form(old).len() && 0 <= at <= base.len() - n && base.subrange(at, at + n)
            == fuzzy_form(old) && forall|k: int|
            0 <= k < at ==> #[trigger] base.subrange(k, k + n) != fuzzy_form(old)),
{
    let fo = fuzzy_form(old);
    text::lemma_has_substring(base, old);
    text::lemma_has_substring(fuzzy_form(base), fo);
    text::lemma_first_from(base, old, 0);
    text::lemma_first_from(fuzzy_form(base), fo, 0);
    if text::has_substring(base, old) {
        let at = text::first_match(base, old)->0;
        assert forall|k: int| 0 <= k < at implies #[trigger] base.subrange(k, k + old.len())
            != old by {
            assert(!text::occurs_at(base, old, k));
        }
    } else if fuzzy_form(base) == base && fo.len() > 0 && text::has_substring(base, fo) {
        let at = text::first_match(base, fo)->0;
        assert forall|k: int| 0 <= k < at implies #[trigger] base.subrange(k, k + fo.len())
            != fo by {
            assert(!text::occurs_at(base, fo, k));
        }
    }
}

/// Every region of the edits is the place of one edit's search text, and gives way
/// to that edit's new text.
pub proof fn law_regions_are_the_edits_own(
    base: Seq<char>,
    pairs: Seq<(Seq<char>, Seq<char>)>,
    i: int,
)
    requires
        0 <= i < pairs.len(),
        located(base, pairs[i].0) is Some,
    ensures
        edit_spans(base, pairs).len() == pairs.len(),
        located(base, pairs[i].0) == Some(
            (edit_spans(base, pairs)[i].start, edit_spans(base, pairs)[i].len),
        ),
        edit_spans(base, pairs)[i].new == pairs[i].1,
{
}

/// The lines `a..b` of a text, each with its newline, as one text.
pub open spec fn lines_between(s: Seq<char>, a: nat, b: nat) -> Seq<char>
    decreases b - a,
{
    if a >= b {
        Seq::empty()
    } else {
        line_of(s, a) + lines_between(s, a + 1, b)
    }
}

proof fn lemma_lines_between_push(s: Seq<char>, a: nat, b: nat)
    requires
        a <= b,
    ensures
        lines_between(s, a, b + 1) == lines_between(s, a, b) + line_of(s, b),
    decreases b - a,
{
    let none = Seq::<char>::empty();
    if a == b {
        assert(lines_between(s, a + 1, b + 1) == none);
        assert(line_of(s, a) + none =~= none + line_of(s, b));
    } else {
        lemma_lines_between_push(s, a + 1, b);
        assert(line_of(s, a) + (lines_between(s, a + 1, b) + line_of(s, b)) =~= (line_of(s, a)
            + lines_between(s, a + 1, b)) + line_of(s, b));
    }
}

proof fn lemma_lines_between_same(s: Seq<char>, t: Seq<char>, a: nat, b: nat)
    requires
        forall|k: nat| a <= k < b ==> #[trigger] line_of(s, k) == line_of(t, k),
    ensures
        lines_between(s, a, b) == lines_between(t, a, b),
    decreases b - a,
{
    if a < b {
        assert(line_of(s, a) == line_of(t, a));
        lemma_lines_between_same(s, t, a + 1, b);
    }
}

/// All the lines of a text, one after the other, are the text.
pub proof fn law_all_lines_make_the_text(s: Seq<char>)
    ensures
        lines_between(s, 0, newlines(s, s.len() as int) + 1) == s,
    decreases s.len(),
{
    let n = newlines(s, s.len() as int);
    if s.len() == 0 {
        assert(n == 0);
        assert(line_of(s, 0) =~= Seq::<char>::empty());
        lemma_lines_between_push(s, 0, 0);
        assert(lines_between(s, 0, 1) =~= s);
    } else {
        let init = s.drop_last();
        let m = newlines(init, init.len() as int);
        law_all_lines_make_the_text(init);
        lemma_newlines_prefix(s, init, init.len() as int);
        lemma_full_lines_count(init);
        lemma_full_lines_count(s);
        lemma_lines_between_push(init, 0, m);
        lemma_lines_between_push(s, 0, m);
        let rest = full_lines(init);
        let all = full_lines(s);
        if init.len() == 0 || init.last() == '\n' {
            assert(all == rest.push(seq![s.last()]));
            assert(rest.len() == m);
        } else {
            assert(all == rest.update(rest.len() - 1, rest.last().push(s.last())));
            assert(rest.len() == m + 1);
        }
        assert forall|k: nat| 0 <= k < m implies #[trigger] line_of(s, k) == line_of(init, k) by {}
        lemma_lines_between_same(s, init, 0, m);
        assert(line_of(s, m) =~= line_of(init, m).push(s.last()));
        assert(s =~= init.push(s.last()));
        assert(lines_between(s, 0, m) + line_of(init, m).push(s.last()) =~= (lines_between(
            init,
            0,
            m,
        ) + line_of(init, m)).push(s.last()));
        assert(lines_between(s, 0, m + 1) == s);
        if s.last() == '\n' {
            assert(n == m + 1);
            lemma_lines_between_push(s, 0, m + 1);
            assert(line_of(s, m + 1) =~= Seq::<char>::empty());
            assert(lines_between(s, 0, m + 2) =~= s);
        }
    }
}

/// Lines that no region reaches are copied, as far as the start of a later line.
proof fn lemma_lines_copied(
    original: Seq<char>,
    base: Seq<char>,
    spans: Seq<Span>,
    pos: int,
    target: int,
)
    requires
        all_within(spans, base.len() as int),
        0 <= pos <= target <= base.len(),
        is_line_start(base, pos),
        is_line_start(base, target),
        forall|i: int|
            #![trigger spans[i]]
            0 <= i < spans.len() ==> spans[i].start >= target || spans[i].start + spans[i].len
                <= pos,
    ensures
        newlines(base, pos) <= newlines(base, target),
        rewritten(base, overlay_cut(original, base, spans), pos) == lines_between(
            original,
            newlines(base, pos),
            newlines(base, target),
        ) + rewritten(base, overlay_cut(original, base, spans), target),
    decreases target - pos,
{
    let cut = overlay_cut(original, base, spans);
    if pos == target {
        assert(Seq::<char>::empty() + rewritten(base, cut, target) =~= rewritten(
            base,
            cut,
            target,
        ));
    } else {
        lemma_line_end(base, pos);
        lemma_line_end_stops(base, pos, target - 1);
        let next = line_end(base, pos);
        assert(base[next - 1] == '\n') by {
            if next == target {
                assert(base[target - 1] == '\n');
            }
        }
        lemma_newlines_over_line(base, pos, next);
        if replacement_at(spans, pos) is Some {
            lemma_replacement_is_a_region(spans, pos);
        }
        assert(untouched(base, spans, pos));
        let line = line_of(original, newlines(base, pos));
        assert(cut(pos) == Some((next - pos, line)));
        lemma_lines_copied(original, base, spans, next, target);
        let rest = lines_between(original, newlines(base, next), newlines(base, target));
        assert(line + (rest + rewritten(base, cut, target)) =~= (line + rest) + rewritten(
            base,
            cut,
            target,
        ));
    }
}

/// From the start of a line on which, and behind which, no region reaches, all
/// lines are copied, a blank last one included.
proof fn lemma_rest_copied(original: Seq<char>, base: Seq<char>, spans: Seq<Span>, pos: int)
    requires
        all_within(spans, base.len() as int),
        0 <= pos <= base.len(),
        is_line_start(base, pos),
        forall|i: int|
            #![trigger spans[i]]
            0 <= i < spans.len() ==> spans[i].start + spans[i].len <= pos,
    ensures
        rewritten(base, overlay_cut(original, base, spans), pos) + blank_last_line(original, base)
            == lines_between(
            original,
            newlines(base, pos),
            newlines(base, base.len() as int) + 1,
        ),
    decreases base.len() - pos,
{
    let cut = overlay_cut(original, base, spans);
    let total = newlines(base, base.len() as int);
    let last = blank_last_line(original, base);
    if pos == base.len() {
        assert(rewritten(base, cut, pos) + last =~= last);
        lemma_lines_between_push(original, total, total);
        assert(lines_between(original, total, total) == Seq::<char>::empty());
        assert(lines_between(original, total, total + 1) =~= last);
    } else {
        lemma_line_end(base, pos);
        let next = line_end(base, pos);
        lemma_newlines_over_line(base, pos, next);
        if replacement_at(spans, pos) is Some {
            lemma_replacement_is_a_region(spans, pos);
        }
        assert(untouched(base, spans, pos));
        let here = newlines(base, pos);
        let line = line_of(original, here);
        assert(cut(pos) == Some((next - pos, line)));
        if base[next - 1] == '\n' {
            lemma_rest_copied(original, base, spans, next);
            lemma_newlines_grow(base, next, base.len() as int);
            lemma_lines_split(original, here, total + 1);
            assert((line + rewritten(base, cut, next)) + last =~= line + (rewritten(
                base,
                cut,
                next,
            ) + last));
        } else {
            assert(next == base.len());
            assert(here == total);
            lemma_lines_between_push(original, total, total);
            assert(lines_between(original, total, total) == Seq::<char>::empty());
            assert(rewritten(base, cut, next) =~= Seq::<char>::empty());
            assert(last =~= Seq::<char>::empty());
            assert(rewritten(base, cut, pos) + last =~= lines_between(original, total, total + 1));
        }
    }
}

proof fn lemma_lines_split(s: Seq<char>, a: nat, b: nat)
    requires
        a < b,
    ensures
        lines_between(s, a, b) == line_of(s, a) + lines_between(s, a + 1, b),
{
}

proof fn lemma_newlines_grow(s: Seq<char>, a: int, b: int)
    requires
        0 <= a <= b,
    ensures
        newlines(s, a) <= newlines(s, b),
    decreases b - a,
{
    if a < b {
        lemma_newlines_grow(s, a, b - 1);
    }
}

/// A fuzzy edit rewrites the lines that it reaches, and no others. The lines
/// before them are the original's; of the first line what stands before the place
/// is kept in fuzzy form, then comes the new text, then what stands behind the
/// place on the last line in fuzzy form; and the lines behind them are the
/// original's again.
pub proof fn law_a_fuzzy_edit_rewrites_only_its_lines(
    original: Seq<char>,
    base: Seq<char>,
    span: Span,
    lo: int,
    hi: int,
)
    requires
        0 <= lo <= span.start,
        span.len > 0,
        span.start + span.len <= base.len(),
        is_line_start(base, lo),
        forall|k: int| lo <= k < span.start ==> base[k] != '\n',
        hi == line_end(base, span.start + span.len - 1),
    ensures
        overlaid(original, base, seq![span]) == lines_between(original, 0, newlines(base, lo))
            + base.subrange(lo, span.start) + span.new + base.subrange(span.start + span.len, hi) + (
        if base[hi - 1] == '\n' {
            lines_between(original, newlines(base, hi), newlines(base, base.len() as int) + 1)
        } else {
            Seq::empty()
        }),
{
    let spans = seq![span];
    let cut = overlay_cut(original, base, spans);
    let start = span.start;
    let stop = start + span.len;
    assert(spans[0] == span);
    assert(all_within(spans, base.len() as int));
    assert(!some_overlap(spans));
    lemma_lines_copied(original, base, spans, 0, lo);
    assert(newlines(base, 0) == 0);
    lemma_line_end(base, lo);
    assert(line_end(base, lo) > start) by {
        if line_end(base, lo) <= start {
            assert(base[line_end(base, lo) - 1] == '\n');
        }
    }
    assert forall|x: int| lo <= x < start implies #[trigger] cut(x) is None by {
        if replacement_at(spans, x) is Some {
            lemma_replacement_is_a_region(spans, x);
        }
        if x > lo {
            assert(base[x - 1] != '\n');
        } else {
            assert(!untouched(base, spans, x)) by {
                assert(spans[0].start < line_end(base, x) && spans[0].start + spans[0].len > x);
            }
        }
    }
    lemma_rewritten_copies(base, cut, lo, start);
    lemma_replacement_unique(spans, 0, base.len() as int);
    assert(cut(start) == Some((span.len, span.new)));
    lemma_line_end(base, stop - 1);
    assert forall|x: int| stop <= x < hi implies #[trigger] cut(x) is None by {
        if replacement_at(spans, x) is Some {
            lemma_replacement_is_a_region(spans, x);
        }
        assert(base[x - 1] != '\n');
    }
    lemma_rewritten_copies(base, cut, stop, hi);
    let last = blank_last_line(original, base);
    let head = lines_between(original, 0, newlines(base, lo));
    if base[hi - 1] == '\n' {
        lemma_rest_copied(original, base, spans, hi);
    } else {
        assert(hi == base.len());
        assert(rewritten(base, cut, hi) =~= Seq::<char>::empty());
        assert(last =~= Seq::<char>::empty());
        assert(rewritten(base, cut, hi) + last =~= Seq::<char>::empty());
    }
    assert(overlaid(original, base, spans) =~= head + base.subrange(lo, start) + span.new
        + base.subrange(stop, hi) + (rewritten(base, cut, hi) + last));
}

/// Where a search text is found in fuzzy form only, the edit is made in that form
/// and overlaid on the content.
pub proof fn law_a_fuzzy_edit_is_overlaid(
    content: Seq<char>,
    old: Seq<char>,
    new: Seq<char>,
    at: int,
    n: int,
)
    requires
        old.len() > 0,
        !text::has_substring(content, old),
        fuzzy_form(old).len() > 0,
        text::has_substring(fuzzy_form(content), fuzzy_form(old)),
        located(fuzzy_form(content), old) == Some((at, n)),
        fuzzy_count(fuzzy_form(content), old) <= 1,
        text::occurrences_from(fuzzy_form(content), old, 0) <= 1,
    ensures
        edit_outcome(content, seq![(old, new)]) == EditOutcome::Done(
            overlaid(content, fuzzy_form(content), seq![Span { start: at, len: n, new }]),
        ),
{
    let pairs = seq![(old, new)];
    let base = fuzzy_form(content);
    text::lemma_has_substring(content, old);
    text::lemma_has_substring(base, fuzzy_form(old));
    assert(needs_fuzzy(content, pairs[0].0));
    assert(placement_failure(base, pairs, 1) is None);
    assert(placement_failure(base, pairs, 0) is None);
    assert(edit_spans(base, pairs) =~= seq![Span { start: at, len: n, new }]);
    assert(!some_overlap(edit_spans(base, pairs)));
}

/// Look-alikes fold to ASCII: curly single and double quotes, dashes and the
/// minus sign, and special spaces; every other character stays.
pub proof fn law_look_alikes_fold_to_ascii(c: char)
    ensures
        '\u{2018}' <= c && c <= '\u{201b}' ==> fold_char(c) == '\'',
        '\u{201c}' <= c && c <= '\u{201f}' ==> fold_char(c) == '"',
        ('\u{2010}' <= c && c <= '\u{2015}') || c == '\u{2212}' ==> fold_char(c) == '-',
        c == '\u{a0}' || ('\u{2002}' <= c && c <= '\u{200a}') || c == '\u{202f}' || c == '\u{205f}'
            || c == '\u{3000}' ==> fold_char(c) == ' ',
        c <= '\u{7f}' ==> fold_char(c) == c,
        fold_char(c) != c ==> fold_char(c) == '\'' || fold_char(c) == '"' || fold_char(c) == '-'
            || fold_char(c) == ' ',
        fold_char(fold_char(c)) == fold_char(c),
{
}

/// Every line loses the white space at its end, and nothing else.
pub proof fn law_lines_are_trimmed_at_their_end(lines: Seq<Seq<char>>)
    requires
        lines.len() > 0,
        forall|i: int| 0 <= i < lines.len() ==> !(#[trigger] lines[i]).contains('\n'),
    ensures
        right_trimmed_lines(text::joined(lines, seq!['\n'])) == text::joined(
            lines.map_values(|l: Seq<char>| text::trimmed_end(l)),
            seq!['\n'],
        ),
{
    text::law_joined_parts_split_again(lines, '\n');
}

/// Normalizing line ends turns each of the three kinds into a newline, and leaves
/// the rest.
pub proof fn law_every_line_end_becomes_a_newline(a: Seq<char>, b: Seq<char>)
    requires
        !a.contains('\r'),
    ensures
        lf_form(Seq::empty()).len() == 0,
        lf_form(a + seq!['\r', '\n'] + b) == a + seq!['\n'] + lf_form(b),
        (b.len() == 0 || b[0] != '\n') ==> lf_form(a + seq!['\r'] + b) == a + seq!['\n'] + lf_form(
            b,
        ),
        lf_form(a + b) == a + lf_form(b),
    decreases a.len(),
{
    if a.len() == 0 {
        let x = a + seq!['\r', '\n'] + b;
        assert(x.skip(2) =~= b);
        assert(lf_form(x) =~= a + seq!['\n'] + lf_form(b));
        let y = a + seq!['\r'] + b;
        assert(y.skip(1) =~= b);
        if b.len() == 0 || b[0] != '\n' {
            if b.len() > 0 {
                assert(y[1] == b[0]);
            }
            assert(lf_form(y) =~= a + seq!['\n'] + lf_form(b));
        }
        assert(a + b =~= b);
        assert(a + lf_form(b) =~= lf_form(b));
    } else {
        let c = a.skip(1);
        assert(a[0] != '\r');
        assert forall|i: int| 0 <= i < c.len() implies c[i] != '\r' by {
            assert(c[i] == a[i + 1]);
        }
        law_every_line_end_becomes_a_newline(c, b);
        let x = a + seq!['\r', '\n'] + b;
        assert(x.skip(1) =~= c + seq!['\r', '\n'] + b);
        assert(lf_form(x) =~= a + seq!['\n'] + lf_form(b));
        let y = a + seq!['\r'] + b;
        assert(y.skip(1) =~= c + seq!['\r'] + b);
        if b.len() == 0 || b[0] != '\n' {
            assert(lf_form(y) =~= a + seq!['\n'] + lf_form(b));
        }
        assert((a + b).skip(1) =~= c + b);
        assert(lf_form(a + b) =~= a + lf_form(b));
    }
}

/// Restoring line ends puts a carriage return before every newline, and leaves
/// the rest.
pub proof fn law_every_newline_gets_its_carriage_return(a: Seq<char>, b: Seq<char>)
    requires
        !a.contains('\n'),
    ensures
        crlf_form(Seq::empty()).len() == 0,
        crlf_form(a + seq!['\n'] + b) == a + seq!['\r', '\n'] + crlf_form(b),
        crlf_form(a) == a,
    decreases a.len(),
{
    let x = a + seq!['\n'] + b;
    if a.len() == 0 {
        assert(x.skip(1) =~= b);
        assert(crlf_form(x) =~= a + seq!['\r', '\n'] + crlf_form(b));
        assert(crlf_form(a) =~= a);
    } else {
        let c = a.skip(1);
        assert(a[0] != '\n');
        assert forall|i: int| 0 <= i < c.len() implies c[i] != '\n' by {
            assert(c[i] == a[i + 1]);
        }
        law_every_newline_gets_its_carriage_return(c, b);
        assert(x.skip(1) =~= c + seq!['\n'] + b);
        assert(crlf_form(x) =~= a + seq!['\r', '\n'] + crlf_form(b));
        assert(crlf_form(a) =~= a);
    }
}

/// An error is the one that the outcome calls for, with its number where the text
/// is not unique, and names the file.
pub proof fn law_errors_report_the_outcome(e: EditError, outcome: EditOutcome, file: Seq<char>)
    requires
        error_reports(e, outcome, file),
    ensures
        !(outcome is Done),
        e is EmptyOldText <==> outcome is EmptyOldText,
        e is NotFound <==> outcome is NotFound,
        e is NotUnique <==> outcome is NotUnique,
        e is Overlapping <==> outcome is Overlapping,
        outcome matches EditOutcome::NotUnique(n) ==> (e matches EditError::NotUnique { count, .. }
            && count == n),
        text::begins_with(e.text(), "Could not edit file: "@ + file + ". "@),
{
    let lead = "Could not edit file: "@ + file + ". "@;
    reveal_strlit(". ");
    reveal_strlit(". An edits[].oldText is empty.");
    reveal_strlit(
        ". The oldText was not found. Make sure oldText matches the file exactly (including indentation and whitespace).",
    );
    reveal_strlit(". The oldText is not unique (found ");
    reveal_strlit(
        ". Overlapping or nested edits are not allowed. Merge nearby changes into a single edit.",
    );
    assert(e.text().subrange(0, lead.len() as int) =~= lead);
}

/// How often a text is said to stand: as often as its fuzzy form where that is more
/// than once, else as often as it stands itself.
pub proof fn law_matches_are_counted_in_either_form(base: Seq<char>, old: Seq<char>)
    ensures
        match_count(base, old) > 1 <==> fuzzy_count(base, old) > 1 || text::occurrences_from(
            base,
            old,
            0,
        ) > 1,
        fuzzy_count(base, old) > 1 ==> match_count(base, old) == text::occurrences_from(
            fuzzy_form(base),
            fuzzy_form(old),
            0,
        ),
        fuzzy_count(base, old) <= 1 ==> match_count(base, old) == text::occurrences_from(
            base,
            old,
            0,
        ),
{
}

/// The texts of an edit are taken with their line ends normalized, one pair for each
/// edit, in order.
pub proof fn law_edit_texts_are_normalized(edits: Seq<Edit>, i: int)
    requires
        0 <= i < edits.len(),
    ensures
        edit_pairs(edits).len() == edits.len(),
        edit_pairs(edits)[i].0 == lf_form(edits[i].old_text@),
        edit_pairs(edits)[i].1 == lf_form(edits[i].new_text@),
{
}

/// A text needs the fuzzy form where it does not stand as it is, and its fuzzy form
/// stands in the content's.
pub proof fn law_fuzzy_matching_is_a_fallback(content: Seq<char>, old: Seq<char>)
    ensures
        needs_fuzzy(content, old) <==> !text::has_substring(content, old) && fuzzy_form(old).len()
            > 0 && text::has_substring(fuzzy_form(content), fuzzy_form(old)),
        fuzzy_form(old) == right_trimmed_lines(nfkc_form(old)).map_values(|c: char| fold_char(c)),
{
    text::lemma_has_substring(content, old);
    text::lemma_has_substring(fuzzy_form(content), fuzzy_form(old));
}

/// Two regions intersect where they share a place.
pub proof fn law_regions_intersect_where_they_share_a_place(a: Span, b: Span)
    requires
        a.len > 0,
        b.len > 0,
    ensures
        intersect(a, b) <==> exists|x: int|
            #![trigger at_place(a, x)]
            at_place(a, x) && at_place(b, x),
{
    if intersect(a, b) {
        let x = if a.start >= b.start {
            a.start
        } else {
            b.start
        };
        assert(at_place(a, x) && at_place(b, x));
    }
}

/// The region covers the place.
pub open spec fn at_place(s: Span, x: int) -> bool {
    s.start <= x < s.start + s.len
}

} // verus!
