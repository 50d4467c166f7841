//! Text as sequences of characters: the vocabulary that the contracts of this
//! crate are written in, and the executable operations that meet it.

use vstd::prelude::*;
use vstd::utf8::{encode_scalar, encode_utf8, encode_utf8_decode_utf8};

verus! {

// ---------------------------------------------------------------------------
// Strings
// ---------------------------------------------------------------------------

/// `String::push` appends one character.
pub assume_specification[ String::push ](s: &mut String, c: char)
    ensures
        final(s)@ == old(s)@.push(c),
;

/// The texts held by a sequence of strings.
pub open spec fn views(v: Seq<String>) -> Seq<Seq<char>> {
    v.map_values(|s: String| s@)
}

pub broadcast proof fn lemma_views_push(v: Seq<String>, s: String)
    ensures
        #[trigger] views(v.push(s)) == views(v).push(s@),
{
    assert(views(v.push(s)) =~= views(v).push(s@));
}

/// The text of an optional string.
pub open spec fn opt_view(o: Option<String>) -> Option<Seq<char>> {
    match o {
        Some(s) => Some(s@),
        None => None,
    }
}

/// The text of an optional string slice.
pub open spec fn opt_str(o: Option<&str>) -> Option<Seq<char>> {
    match o {
        Some(s) => Some(s@),
        None => None,
    }
}

/// Length of a text in UTF-8 bytes.
pub open spec fn byte_len(s: Seq<char>) -> nat {
    encode_utf8(s).len()
}

pub proof fn lemma_encode_add(a: Seq<char>, b: Seq<char>)
    ensures
        encode_utf8(a + b) == encode_utf8(a) + encode_utf8(b),
    decreases a.len(),
{
    if a.len() == 0 {
        assert(a + b =~= b);
        assert(encode_utf8(a) + encode_utf8(b) =~= encode_utf8(b));
    } else {
        assert((a + b).drop_first() =~= a.drop_first() + b);
        lemma_encode_add(a.drop_first(), b);
        assert(encode_utf8(a + b) =~= encode_utf8(a) + encode_utf8(b));
    }
}

pub proof fn lemma_byte_len_add(a: Seq<char>, b: Seq<char>)
    ensures
        byte_len(a + b) == byte_len(a) + byte_len(b),
{
    lemma_encode_add(a, b);
}

/// Number of bytes that one character takes in UTF-8.
pub open spec fn char_width(c: char) -> nat {
    encode_scalar(c as u32).len()
}

pub proof fn lemma_byte_len_push(s: Seq<char>, c: char)
    ensures
        byte_len(s.push(c)) == byte_len(s) + char_width(c),
        1 <= char_width(c) <= 4,
        c as u32 <= 0x7f ==> char_width(c) == 1,
{
    let one = seq![c];
    assert(s.push(c) =~= s + one);
    lemma_byte_len_add(s, one);
    assert(one.drop_first() =~= Seq::<char>::empty());
    reveal_with_fuel(encode_utf8, 2);
    assert(encode_utf8(one) =~= encode_scalar(c as u32));
}

pub proof fn lemma_byte_len_empty()
    ensures
        byte_len(Seq::<char>::empty()) == 0,
{
}

/// A text has at least as many bytes as characters.
pub proof fn lemma_byte_len_at_least(s: Seq<char>)
    ensures
        s.len() <= byte_len(s),
    decreases s.len(),
{
    if s.len() > 0 {
        lemma_byte_len_at_least(s.drop_last());
        lemma_byte_len_push(s.drop_last(), s.last());
        assert(s.drop_last().push(s.last()) =~= s);
    }
}

/// The characters of `s`.
pub fn chars_of(s: &str) -> (v: Vec<char>)
    ensures
        v@ == s@,
{
    let mut out: Vec<char> = Vec::new();
    for c in it: s.chars()
        invariant
            out@ == s@.take(it.index()),
            it.seq() == s@,
    {
        assert(s@.take(it.index() + 1) == s@.take(it.index()).push(c));
        out.push(c);
    }
    assert(s@.take(s@.len() as int) == s@);
    out
}

/// Append `v[lo..hi]` to `out`.
pub fn push_range(out: &mut String, v: &Vec<char>, lo: usize, hi: usize)
    requires
        lo <= hi <= v@.len(),
    ensures
        final(out)@ == old(out)@ + v@.subrange(lo as int, hi as int),
{
    let ghost start = out@;
    let mut i: usize = lo;
    assert(start + v@.subrange(lo as int, lo as int) =~= start);
    while i < hi
        invariant
            lo <= i <= hi <= v@.len(),
            out@ == start + v@.subrange(lo as int, i as int),
        decreases hi - i,
    {
        assert(v@.subrange(lo as int, i + 1) =~= v@.subrange(lo as int, i as int).push(v@[i as int]));
        out.push(v[i]);
        i += 1;
        assert(out@ =~= start + v@.subrange(lo as int, i as int));
    }
}

/// The string `v[lo..hi]`.
pub fn string_of(v: &Vec<char>, lo: usize, hi: usize) -> (r: String)
    requires
        lo <= hi <= v@.len(),
    ensures
        r@ == v@.subrange(lo as int, hi as int),
{
    let mut out: String = String::new();
    push_range(&mut out, v, lo, hi);
    assert(out@ =~= v@.subrange(lo as int, hi as int));
    out
}

/// Text equality.
pub fn same(a: &str, b: &str) -> (r: bool)
    ensures
        r == (a@ == b@),
{
    let x: &[u8] = a.as_bytes();
    let y: &[u8] = b.as_bytes();
    proof {
        encode_utf8_decode_utf8(a@);
        encode_utf8_decode_utf8(b@);
    }
    if x.len() != y.len() {
        return false;
    }
    let mut i: usize = 0;
    while i < x.len()
        invariant
            i <= x@.len(),
            x@.len() == y@.len(),
            x@ == encode_utf8(a@),
            y@ == encode_utf8(b@),
            forall|k: int| 0 <= k < i ==> x@[k] == y@[k],
        decreases x@.len() - i,
    {
        if x[i] != y[i] {
            return false;
        }
        i += 1;
    }
    assert(x@ =~= y@);
    true
}

/// Length of `s` in bytes.
pub fn byte_length(s: &str) -> (r: usize)
    ensures
        r == byte_len(s@),
{
    s.as_bytes().len()
}

/// True when some element of `v` is the text `s`.
pub fn has_text(v: &Vec<String>, s: &str) -> (r: bool)
    ensures
        r == views(v@).contains(s@),
{
    let mut i: usize = 0;
    while i < v.len()
        invariant
            i <= v@.len(),
            forall|k: int| 0 <= k < i ==> v@[k]@ != s@,
        decreases v@.len() - i,
    {
        if same(v[i].as_str(), s) {
            assert(views(v@)[i as int] == s@);
            return true;
        }
        i += 1;
    }
    assert forall|k: int| 0 <= k < views(v@).len() implies views(v@)[k] != s@ by {
        assert(views(v@)[k] == v@[k]@);
    }
    false
}

// ---------------------------------------------------------------------------
// Whitespace and case
// ---------------------------------------------------------------------------

/// The Unicode `White_Space` property.
pub open spec fn is_space(c: char) -> bool {
    let n = c as u32;
    ||| 0x09 <= n <= 0x0d
    ||| n == 0x20
    ||| n == 0x85
    ||| n == 0xa0
    ||| n == 0x1680
    ||| 0x2000 <= n <= 0x200a
    ||| n == 0x2028
    ||| n == 0x2029
    ||| n == 0x202f
    ||| n == 0x205f
    ||| n == 0x3000
}

pub fn is_whitespace(c: char) -> (r: bool)
    ensures
        r == is_space(c),
{
    let n: u32 = c as u32;
    (0x09 <= n && n <= 0x0d) || n == 0x20 || n == 0x85 || n == 0xa0 || n == 0x1680 || (0x2000 <= n
        && n <= 0x200a) || n == 0x2028 || n == 0x2029 || n == 0x202f || n == 0x205f || n == 0x3000
}

/// `s` without its leading whitespace.
pub open spec fn trimmed_start(s: Seq<char>) -> Seq<char>
    decreases s.len(),
{
    if s.len() > 0 && is_space(s[0]) {
        trimmed_start(s.drop_first())
    } else {
        s
    }
}

/// `s` without its trailing whitespace.
pub open spec fn trimmed_end(s: Seq<char>) -> Seq<char>
    decreases s.len(),
{
    if s.len() > 0 && is_space(s.last()) {
        trimmed_end(s.drop_last())
    } else {
        s
    }
}

/// `s` without its leading and trailing whitespace.
pub open spec fn trimmed(s: Seq<char>) -> Seq<char> {
    trimmed_end(trimmed_start(s))
}

/// True when `s` holds nothing but whitespace.
pub open spec fn is_blank_text(s: Seq<char>) -> bool {
    forall|i: int| 0 <= i < s.len() ==> is_space(#[trigger] s[i])
}

/// A text is blank exactly when trimming leaves nothing of it.
pub proof fn lemma_blank_is_trimmed_empty(s: Seq<char>)
    ensures
        is_blank_text(s) <==> trimmed(s).len() == 0,
    decreases s.len(),
{
    if s.len() > 0 && is_space(s[0]) {
        lemma_blank_is_trimmed_empty(s.drop_first());
        if is_blank_text(s.drop_first()) {
            assert forall|i: int| 0 <= i < s.len() implies is_space(#[trigger] s[i]) by {
                if i > 0 {
                    assert(s.drop_first()[i - 1] == s[i]);
                }
            }
        }
        if is_blank_text(s) {
            assert forall|i: int| 0 <= i < s.drop_first().len() implies is_space(
                #[trigger] s.drop_first()[i],
            ) by {
                assert(s[i + 1] == s.drop_first()[i]);
            }
        }
    } else if s.len() > 0 {
        lemma_trimmed_end_keeps_head(s);
        assert(!is_space(s[0]));
    }
}

proof fn lemma_trimmed_end_keeps_head(s: Seq<char>)
    requires
        s.len() > 0,
        !is_space(s[0]),
    ensures
        trimmed_end(s).len() > 0,
    decreases s.len(),
{
    if is_space(s.last()) {
        lemma_trimmed_end_keeps_head(s.drop_last());
    }
}

/// Index of the end of `v[lo..]` once its trailing whitespace is dropped.
fn end_of_trimmed(v: &Vec<char>, lo: usize) -> (hi: usize)
    requires
        lo <= v@.len(),
    ensures
        lo <= hi <= v@.len(),
        v@.subrange(lo as int, hi as int) == trimmed_end(v@.subrange(lo as int, v@.len() as int)),
{
    let mut hi: usize = v.len();
    while hi > lo && is_whitespace(v[hi - 1])
        invariant
            lo <= hi <= v@.len(),
            trimmed_end(v@.subrange(lo as int, hi as int)) == trimmed_end(
                v@.subrange(lo as int, v@.len() as int),
            ),
        decreases hi,
    {
        assert(v@.subrange(lo as int, hi as int).drop_last() =~= v@.subrange(
            lo as int,
            hi - 1,
        ));
        hi -= 1;
    }
    hi
}

/// `s` without its leading and trailing whitespace.
pub fn trim(s: &str) -> (r: String)
    ensures
        r@ == trimmed(s@),
{
    let v: Vec<char> = chars_of(s);
    let mut lo: usize = 0;
    assert(v@.subrange(0, v@.len() as int) =~= v@);
    while lo < v.len() && is_whitespace(v[lo])
        invariant
            lo <= v@.len(),
            trimmed_start(v@.subrange(lo as int, v@.len() as int)) == trimmed_start(v@),
        decreases v@.len() - lo,
    {
        assert(v@.subrange(lo as int, v@.len() as int).drop_first() =~= v@.subrange(
            lo + 1,
            v@.len() as int,
        ));
        lo += 1;
    }
    let hi: usize = end_of_trimmed(&v, lo);
    string_of(&v, lo, hi)
}

/// `s` without its trailing whitespace.
pub fn trim_end(s: &str) -> (r: String)
    ensures
        r@ == trimmed_end(s@),
{
    let v: Vec<char> = chars_of(s);
    let hi: usize = end_of_trimmed(&v, 0);
    assert(v@.subrange(0, v@.len() as int) =~= v@);
    string_of(&v, 0, hi)
}

/// True when `s` is empty or whitespace only.
pub fn is_blank(s: &str) -> (r: bool)
    ensures
        r == is_blank_text(s@),
        r == (trimmed(s@).len() == 0),
{
    proof {
        lemma_blank_is_trimmed_empty(s@);
    }
    let v: Vec<char> = chars_of(s);
    let mut i: usize = 0;
    while i < v.len()
        invariant
            i <= v@.len(),
            v@ == s@,
            is_blank_text(s@) <==> trimmed(s@).len() == 0,
            forall|k: int| 0 <= k < i ==> is_space(#[trigger] v@[k]),
        decreases v@.len() - i,
    {
        if !is_whitespace(v[i]) {
            assert(!is_space(s@[i as int]));
            return false;
        }
        i += 1;
    }
    true
}

/// The ASCII lower-case form of a character; other characters are kept.
pub open spec fn lower_char(c: char) -> char {
    if 'A' <= c <= 'Z' {
        ((c as u32) + 32) as char
    } else {
        c
    }
}

/// The ASCII lower-case form of a text.
pub open spec fn lower(s: Seq<char>) -> Seq<char> {
    s.map_values(|c: char| lower_char(c))
}

pub fn to_ascii_lowercase(s: &str) -> (r: String)
    ensures
        r@ == lower(s@),
{
    let v: Vec<char> = chars_of(s);
    let mut out: String = String::new();
    let mut i: usize = 0;
    while i < v.len()
        invariant
            i <= v@.len(),
            v@ == s@,
            out@ == lower(s@.take(i as int)),
        decreases v@.len() - i,
    {
        let c: char = v[i];
        let l: char = if 'A' <= c && c <= 'Z' {
            ((c as u8) + 32u8) as char
        } else {
            c
        };
        assert(l == lower_char(c));
        out.push(l);
        assert(lower(s@.take(i + 1)) =~= lower(s@.take(i as int)).push(l));
        i += 1;
    }
    assert(s@.take(s@.len() as int) =~= s@);
    out
}

// ---------------------------------------------------------------------------
// Searching
// ---------------------------------------------------------------------------

/// `pat` occurs in `s` at index `i`.
pub open spec fn occurs_at(s: Seq<char>, pat: Seq<char>, i: int) -> bool {
    0 <= i && i + pat.len() <= s.len() && s.subrange(i, i + pat.len()) == pat
}

/// `pat` occurs somewhere in `s`.
pub open spec fn has_substring(s: Seq<char>, pat: Seq<char>) -> bool {
    exists|i: int| occurs_at(s, pat, i)
}

/// Index of the first occurrence of `pat` in `s` at or after `from`.
pub open spec fn first_from(s: Seq<char>, pat: Seq<char>, from: int) -> Option<int>
    decreases s.len() + 1 - from,
{
    if from < 0 || from + pat.len() > s.len() {
        None
    } else if occurs_at(s, pat, from) {
        Some(from)
    } else {
        first_from(s, pat, from + 1)
    }
}

/// Index of the first occurrence of `pat` in `s`.
pub open spec fn first_match(s: Seq<char>, pat: Seq<char>) -> Option<int> {
    first_from(s, pat, 0)
}

/// What `first_from` means: the least index at which `pat` occurs.
pub proof fn lemma_first_from(s: Seq<char>, pat: Seq<char>, from: int)
    requires
        0 <= from,
    ensures
        match first_from(s, pat, from) {
            Some(i) => from <= i && occurs_at(s, pat, i) && (forall|j: int|
                from <= j < i ==> !#[trigger] occurs_at(s, pat, j)),
            None => forall|j: int| from <= j ==> !#[trigger] occurs_at(s, pat, j),
        },
    decreases s.len() + 1 - from,
{
    if from + pat.len() > s.len() {
    } else if occurs_at(s, pat, from) {
    } else {
        lemma_first_from(s, pat, from + 1);
    }
}

/// A text contains `pat` exactly when there is a first occurrence.
pub proof fn lemma_has_substring(s: Seq<char>, pat: Seq<char>)
    ensures
        has_substring(s, pat) <==> first_match(s, pat) is Some,
{
    lemma_first_from(s, pat, 0);
}

/// Number of non-overlapping occurrences of `pat`, counted from `from`.
pub open spec fn occurrences_from(s: Seq<char>, pat: Seq<char>, from: int) -> nat
    decreases s.len() - from,
{
    if pat.len() == 0 || from < 0 || from + pat.len() > s.len() {
        0
    } else if occurs_at(s, pat, from) {
        1 + occurrences_from(s, pat, from + pat.len())
    } else {
        occurrences_from(s, pat, from + 1)
    }
}

/// `s` begins with `pat`.
pub open spec fn begins_with(s: Seq<char>, pat: Seq<char>) -> bool {
    occurs_at(s, pat, 0)
}

/// `s` ends with `pat`.
pub open spec fn finishes_with(s: Seq<char>, pat: Seq<char>) -> bool {
    occurs_at(s, pat, s.len() - pat.len())
}

/// True when `pat` occurs in `s` at index `at`.
pub fn occurs(s: &Vec<char>, pat: &Vec<char>, at: usize) -> (r: bool)
    ensures
        r == occurs_at(s@, pat@, at as int),
{
    if at > s.len() || pat.len() > s.len() - at {
        return false;
    }
    let mut k: usize = 0;
    while k < pat.len()
        invariant
            k <= pat@.len(),
            at + pat@.len() <= s@.len() <= usize::MAX,
            forall|j: int| 0 <= j < k ==> s@[at + j] == pat@[j],
        decreases pat@.len() - k,
    {
        if s[at + k] != pat[k] {
            assert(s@.subrange(at as int, at + pat@.len())[k as int] != pat@[k as int]);
            return false;
        }
        k += 1;
    }
    assert(s@.subrange(at as int, at + pat@.len()) =~= pat@);
    true
}

/// Index of the first occurrence of `pat` in `s` at or after `from`.
pub fn find_from(s: &Vec<char>, pat: &Vec<char>, from: usize) -> (r: Option<usize>)
    ensures
        match r {
            Some(i) => first_from(s@, pat@, from as int) == Some(i as int),
            None => first_from(s@, pat@, from as int) is None,
        },
{
    let mut i: usize = from;
    while i <= s.len() && pat.len() <= s.len() - i
        invariant
            from <= i <= s@.len() + 1 || i == from,
            first_from(s@, pat@, i as int) == first_from(s@, pat@, from as int),
        decreases s@.len() + 1 - i,
    {
        if occurs(s, pat, i) {
            return Some(i);
        }
        assert(pat@.len() > 0) by {
            if pat@.len() == 0 {
                assert(s@.subrange(i as int, i as int) =~= pat@);
            }
        }
        i += 1;
    }
    None
}

/// Index of the first occurrence of `pat` in `s`.
pub fn find(s: &Vec<char>, pat: &Vec<char>) -> (r: Option<usize>)
    ensures
        match r {
            Some(i) => first_match(s@, pat@) == Some(i as int),
            None => first_match(s@, pat@) is None,
        },
{
    find_from(s, pat, 0)
}

/// Number of non-overlapping occurrences of `pat` in `s`.
pub fn count_matches(s: &Vec<char>, pat: &Vec<char>) -> (r: usize)
    ensures
        r == occurrences_from(s@, pat@, 0),
{
    if pat.len() == 0 {
        return 0;
    }
    let mut i: usize = 0;
    let mut n: usize = 0;
    while pat.len() <= s.len() - i
        invariant
            0 < pat@.len(),
            i <= s@.len(),
            n <= i,
            n + occurrences_from(s@, pat@, i as int) == occurrences_from(s@, pat@, 0),
        decreases s@.len() - i,
    {
        if occurs(s, pat, i) {
            i += pat.len();
            n += 1;
        } else {
            i += 1;
        }
    }
    n
}

/// True when `pat` occurs in `s`.
pub fn contains(s: &str, pat: &str) -> (r: bool)
    ensures
        r == has_substring(s@, pat@),
{
    let v: Vec<char> = chars_of(s);
    let p: Vec<char> = chars_of(pat);
    proof {
        lemma_has_substring(s@, pat@);
    }
    find(&v, &p).is_some()
}

/// True when `s` begins with `pat`.
pub fn starts_with(s: &str, pat: &str) -> (r: bool)
    ensures
        r == begins_with(s@, pat@),
{
    let v: Vec<char> = chars_of(s);
    let p: Vec<char> = chars_of(pat);
    occurs(&v, &p, 0)
}

/// True when `s` ends with `pat`.
pub fn ends_with(s: &str, pat: &str) -> (r: bool)
    ensures
        r == finishes_with(s@, pat@),
{
    let v: Vec<char> = chars_of(s);
    let p: Vec<char> = chars_of(pat);
    if p.len() > v.len() {
        return false;
    }
    occurs(&v, &p, v.len() - p.len())
}

// ---------------------------------------------------------------------------
// Splitting and joining
// ---------------------------------------------------------------------------

/// The pieces of `s` between occurrences of the character `sep`; there is
/// always at least one piece.
pub open spec fn pieces(s: Seq<char>, sep: char) -> Seq<Seq<char>>
    decreases s.len(),
{
    if s.len() == 0 {
        seq![Seq::<char>::empty()]
    } else {
        let rest = pieces(s.drop_last(), sep);
        if s.last() == sep {
            rest.push(Seq::<char>::empty())
        } else {
            rest.update(rest.len() - 1, rest.last().push(s.last()))
        }
    }
}

pub proof fn lemma_pieces_nonempty(s: Seq<char>, sep: char)
    ensures
        pieces(s, sep).len() > 0,
    decreases s.len(),
{
    if s.len() > 0 {
        lemma_pieces_nonempty(s.drop_last(), sep);
    }
}

/// `parts` with `sep` between neighbours.
pub open spec fn joined(parts: Seq<Seq<char>>, sep: Seq<char>) -> Seq<char>
    decreases parts.len(),
{
    if parts.len() == 0 {
        Seq::empty()
    } else if parts.len() == 1 {
        parts[0]
    } else {
        joined(parts.drop_last(), sep) + sep + parts.last()
    }
}

pub proof fn lemma_joined_push(parts: Seq<Seq<char>>, x: Seq<char>, sep: Seq<char>)
    ensures
        parts.len() == 0 ==> joined(parts.push(x), sep) == x,
        parts.len() > 0 ==> joined(parts.push(x), sep) == joined(parts, sep) + sep + x,
{
    assert(parts.push(x).drop_last() =~= parts);
}

pub proof fn lemma_joined_prepend(x: Seq<char>, parts: Seq<Seq<char>>, sep: Seq<char>)
    ensures
        parts.len() == 0 ==> joined(seq![x] + parts, sep) == x,
        parts.len() > 0 ==> joined(seq![x] + parts, sep) == x + sep + joined(parts, sep),
    decreases parts.len(),
{
    let all = seq![x] + parts;
    if parts.len() > 0 {
        assert(all.drop_last() =~= seq![x] + parts.drop_last());
        lemma_joined_prepend(x, parts.drop_last(), sep);
        assert(joined(all, sep) =~= x + sep + joined(parts, sep));
    }
}

/// Joining two runs of parts is joining all of them.
pub proof fn lemma_joined_concat(a: Seq<Seq<char>>, b: Seq<Seq<char>>, sep: Seq<char>)
    requires
        a.len() > 0,
        b.len() > 0,
    ensures
        joined(a + b, sep) == joined(a, sep) + sep + joined(b, sep),
    decreases b.len(),
{
    assert((a + b).drop_last() =~= a + b.drop_last());
    if b.len() == 1 {
        assert(a + b.drop_last() =~= a);
    } else {
        lemma_joined_concat(a, b.drop_last(), sep);
        assert(joined(a + b, sep) =~= joined(a, sep) + sep + joined(b, sep));
    }
}

/// Splitting at a character and joining with it gives the text back.
pub proof fn law_joining_the_pieces_restores_the_text(s: Seq<char>, sep: char)
    ensures
        joined(pieces(s, sep), seq![sep]) == s,
    decreases s.len(),
{
    lemma_pieces_nonempty(s, sep);
    if s.len() > 0 {
        let rest = pieces(s.drop_last(), sep);
        lemma_pieces_nonempty(s.drop_last(), sep);
        law_joining_the_pieces_restores_the_text(s.drop_last(), sep);
        if s.last() == sep {
            lemma_joined_push(rest, Seq::<char>::empty(), seq![sep]);
            assert(s =~= s.drop_last() + seq![sep] + Seq::<char>::empty());
        } else {
            let new = rest.update(rest.len() - 1, rest.last().push(s.last()));
            assert(new.drop_last() =~= rest.drop_last());
            assert(s =~= s.drop_last().push(s.last()));
            if rest.len() == 1 {
                assert(joined(new, seq![sep]) =~= s);
            } else {
                assert(joined(new, seq![sep]) =~= joined(rest, seq![sep]).push(s.last()));
            }
        }
    }
}

/// The lines of `s`: pieces at `\n`, where a final newline ends the last line
/// and does not begin another one.
pub open spec fn lines_of(s: Seq<char>) -> Seq<Seq<char>> {
    if s.len() == 0 || s.last() == '\n' {
        pieces(s, '\n').drop_last()
    } else {
        pieces(s, '\n')
    }
}

/// The pieces of `s` between occurrences of `sep`.
pub fn split(s: &str, sep: char) -> (r: Vec<String>)
    ensures
        views(r@) == pieces(s@, sep),
{
    let v: Vec<char> = chars_of(s);
    let mut out: Vec<String> = Vec::new();
    let mut cur: String = String::new();
    let mut i: usize = 0;
    assert(views(out@).push(cur@) =~= pieces(s@.take(0), sep));
    while i < v.len()
        invariant
            i <= v@.len(),
            v@ == s@,
            views(out@).push(cur@) == pieces(s@.take(i as int), sep),
        decreases v@.len() - i,
    {
        let c: char = v[i];
        let ghost before = views(out@).push(cur@);
        assert(s@.take(i + 1).drop_last() =~= s@.take(i as int));
        assert(s@.take(i + 1).last() == c);
        if c == sep {
            proof {
                lemma_views_push(out@, cur);
            }
            out.push(cur);
            cur = String::new();
            assert(views(out@).push(cur@) =~= before.push(Seq::<char>::empty()));
        } else {
            let ghost head = cur@;
            cur.push(c);
            assert(views(out@).push(cur@) =~= before.update(before.len() - 1, head.push(c)));
        }
        i += 1;
    }
    proof {
        assert(s@.take(s@.len() as int) =~= s@);
        lemma_views_push(out@, cur);
    }
    out.push(cur);
    out
}

/// The lines of `s`.
pub fn lines(s: &str) -> (r: Vec<String>)
    ensures
        views(r@) == lines_of(s@),
{
    let mut parts: Vec<String> = split(s, '\n');
    let v: Vec<char> = chars_of(s);
    if v.len() == 0 || v[v.len() - 1] == '\n' {
        let ghost all = parts@;
        proof {
            lemma_pieces_nonempty(s@, '\n');
        }
        parts.pop();
        assert(views(parts@) =~= views(all).drop_last());
    }
    parts
}

/// `parts` with `sep` between neighbours.
pub fn join(parts: &Vec<String>, sep: &str) -> (r: String)
    ensures
        r@ == joined(views(parts@), sep@),
{
    let mut out: String = String::new();
    let mut i: usize = 0;
    while i < parts.len()
        invariant
            i <= parts@.len(),
            out@ == joined(views(parts@).take(i as int), sep@),
        decreases parts@.len() - i,
    {
        proof {
            lemma_joined_push(views(parts@).take(i as int), parts@[i as int]@, sep@);
            assert(views(parts@).take(i + 1) =~= views(parts@).take(i as int).push(
                parts@[i as int]@,
            ));
        }
        if i > 0 {
            out.append(sep);
        }
        out.append(parts[i].as_str());
        i += 1;
        assert(out@ =~= joined(views(parts@).take(i as int), sep@));
    }
    assert(views(parts@).take(parts@.len() as int) =~= views(parts@));
    out
}

/// The maximal runs of non-whitespace characters of `s`, given the words that
/// are complete and the run that is still open.
pub open spec fn words_step(s: Seq<char>) -> (Seq<Seq<char>>, Seq<char>)
    decreases s.len(),
{
    if s.len() == 0 {
        (Seq::empty(), Seq::empty())
    } else {
        let (done, open) = words_step(s.drop_last());
        if !is_space(s.last()) {
            (done, open.push(s.last()))
        } else if open.len() == 0 {
            (done, open)
        } else {
            (done.push(open), Seq::empty())
        }
    }
}

/// The whitespace-separated words of `s`.
pub open spec fn words_of(s: Seq<char>) -> Seq<Seq<char>> {
    let (done, open) = words_step(s);
    if open.len() == 0 {
        done
    } else {
        done.push(open)
    }
}

/// The whitespace-separated words of `s`.
pub fn split_whitespace(s: &str) -> (r: Vec<String>)
    ensures
        views(r@) == words_of(s@),
{
    let v: Vec<char> = chars_of(s);
    let mut out: Vec<String> = Vec::new();
    let mut cur: String = String::new();
    let mut cur_len: usize = 0;
    let mut i: usize = 0;
    assert(views(out@) =~= Seq::<Seq<char>>::empty());
    while i < v.len()
        invariant
            i <= v@.len(),
            v@ == s@,
            cur_len == cur@.len(),
            cur_len <= i,
            (views(out@), cur@) == words_step(s@.take(i as int)),
        decreases v@.len() - i,
    {
        let c: char = v[i];
        assert(s@.take(i + 1).drop_last() =~= s@.take(i as int));
        assert(s@.take(i + 1).last() == c);
        if !is_whitespace(c) {
            cur.push(c);
            cur_len += 1;
        } else if cur_len > 0 {
            proof {
                lemma_views_push(out@, cur);
            }
            out.push(cur);
            cur = String::new();
            cur_len = 0;
        }
        i += 1;
    }
    assert(s@.take(s@.len() as int) =~= s@);
    if cur_len > 0 {
        proof {
            lemma_views_push(out@, cur);
        }
        out.push(cur);
    }
    out
}

/// The first place of the character `c` in `s`, from `from` on.
pub open spec fn place_of(s: Seq<char>, c: char, from: int) -> Option<int>
    decreases s.len() - from,
{
    if from < 0 || from >= s.len() {
        None
    } else if s[from] == c {
        Some(from)
    } else {
        place_of(s, c, from + 1)
    }
}

pub proof fn lemma_place_of(s: Seq<char>, c: char, from: int)
    requires
        0 <= from,
    ensures
        match place_of(s, c, from) {
            Some(i) => from <= i < s.len() && s[i] == c && forall|j: int|
                from <= j < i ==> s[j] != c,
            None => forall|j: int| from <= j < s.len() ==> s[j] != c,
        },
    decreases s.len() - from,
{
    if from < s.len() && s[from] != c {
        lemma_place_of(s, c, from + 1);
    }
}

/// What stands before and behind the first `c`.
pub open spec fn cut_at_first(s: Seq<char>, c: char) -> Option<(Seq<char>, Seq<char>)> {
    match place_of(s, c, 0) {
        Some(i) => Some((s.take(i), s.skip(i + 1))),
        None => None,
    }
}

/// The first place of `c` in `v`, from `from` on.
pub fn find_char(v: &Vec<char>, c: char, from: usize) -> (r: Option<usize>)
    ensures
        match r {
            Some(i) => place_of(v@, c, from as int) == Some(i as int) && i < v@.len(),
            None => place_of(v@, c, from as int) is None,
        },
{
    let mut i: usize = from;
    while i < v.len()
        invariant
            from <= i,
            place_of(v@, c, i as int) == place_of(v@, c, from as int),
        decreases v@.len() - i,
    {
        if v[i] == c {
            return Some(i);
        }
        i += 1;
    }
    None
}

/// What stands before and behind the first `c`.
pub fn split_once(s: &str, c: char) -> (r: Option<(String, String)>)
    ensures
        match r {
            Some((a, b)) => cut_at_first(s@, c) == Some((a@, b@)),
            None => cut_at_first(s@, c) is None,
        },
{
    let v: Vec<char> = chars_of(s);
    let total: usize = v.len();
    match find_char(&v, c, 0) {
        Some(i) => {
            let a: String = string_of(&v, 0, i);
            let b: String = string_of(&v, i + 1, total);
            assert(a@ =~= s@.take(i as int));
            assert(b@ =~= s@.skip(i + 1));
            Some((a, b))
        },
        None => None,
    }
}

// ---------------------------------------------------------------------------
// Numbers
// ---------------------------------------------------------------------------

pub open spec fn digit(d: int) -> char {
    (48 + d) as char
}

/// The decimal digits of `n`.
pub open spec fn decimal(n: nat) -> Seq<char>
    decreases n,
{
    if n < 10 {
        seq![digit(n as int)]
    } else {
        decimal(n / 10).push(digit((n % 10) as int))
    }
}

/// Append the decimal digits of `n` to `out`.
pub fn push_number(out: &mut String, n: u128)
    ensures
        final(out)@ == old(out)@ + decimal(n as nat),
    decreases n,
{
    let d: u8 = (n % 10) as u8;
    if n >= 10 {
        push_number(out, n / 10);
    }
    out.push((48u8 + d) as char);
    assert(out@ =~= old(out)@ + decimal(n as nat));
}

/// Append the decimal digits of `n` to `out`.
pub fn push_usize(out: &mut String, n: usize)
    ensures
        final(out)@ == old(out)@ + decimal(n as nat),
{
    push_number(out, n as u128);
}

// ---------------------------------------------------------------------------
// Laws
// ---------------------------------------------------------------------------

/// What counts as white space: the six characters of ASCII, and those of Unicode
/// beyond it.
pub proof fn law_white_space_is_unicodes(c: char)
    ensures
        is_space(c) <==> c == '\t' || c == '\n' || c == '\u{b}' || c == '\u{c}' || c == '\r' || c
            == ' ' || c == '\u{85}' || c == '\u{a0}' || c == '\u{1680}' || ('\u{2000}' <= c && c
            <= '\u{200a}') || c == '\u{2028}' || c == '\u{2029}' || c == '\u{202f}' || c
            == '\u{205f}' || c == '\u{3000}',
{
}

/// Trimming the end drops white space there, all of it, and nothing else.
pub proof fn law_trimming_the_end_drops_only_white_space(s: Seq<char>)
    ensures
        ({
            let t = trimmed_end(s);
            &&& t.len() <= s.len()
            &&& t == s.take(t.len() as int)
            &&& t.len() > 0 ==> !is_space(t.last())
            &&& forall|i: int| t.len() <= i < s.len() ==> is_space(#[trigger] s[i])
        }),
    decreases s.len(),
{
    if s.len() > 0 && is_space(s.last()) {
        let init = s.drop_last();
        law_trimming_the_end_drops_only_white_space(init);
        let t = trimmed_end(init);
        assert(init.take(t.len() as int) =~= s.take(t.len() as int));
        assert forall|i: int| t.len() <= i < s.len() implies is_space(#[trigger] s[i]) by {
            if i < init.len() {
                assert(is_space(init[i]));
            }
        }
    } else {
        assert(s.take(s.len() as int) =~= s);
    }
}

proof fn lemma_trimmed_start(s: Seq<char>) -> (k: int)
    ensures
        0 <= k <= s.len(),
        trimmed_start(s) == s.skip(k),
        k < s.len() ==> !is_space(s[k]),
        forall|i: int| 0 <= i < k ==> is_space(#[trigger] s[i]),
    decreases s.len(),
{
    if s.len() > 0 && is_space(s[0]) {
        let rest = s.drop_first();
        let k = lemma_trimmed_start(rest);
        assert(rest.skip(k) =~= s.skip(k + 1));
        assert forall|i: int| 0 <= i < k + 1 implies is_space(#[trigger] s[i]) by {
            if i > 0 {
                assert(is_space(rest[i - 1]));
            }
        }
        k + 1
    } else {
        assert(s.skip(0) =~= s);
        0
    }
}

/// Trimming drops the white space at both ends, all of it, and nothing else.
pub proof fn law_trimming_drops_only_white_space(s: Seq<char>)
    ensures
        exists|lo: int, hi: int|
            {
                &&& 0 <= lo <= hi <= s.len()
                &&& trimmed(s) == #[trigger] s.subrange(lo, hi)
                &&& lo < hi ==> !is_space(s[lo]) && !is_space(s[hi - 1])
                &&& forall|i: int| 0 <= i < lo ==> is_space(#[trigger] s[i])
                &&& forall|i: int| hi <= i < s.len() ==> is_space(#[trigger] s[i])
            },
{
    let lo = lemma_trimmed_start(s);
    let rest = s.skip(lo);
    law_trimming_the_end_drops_only_white_space(rest);
    let t = trimmed_end(rest);
    let hi = lo + t.len();
    assert(t =~= s.subrange(lo, hi));
    assert forall|i: int| hi <= i < s.len() implies is_space(#[trigger] s[i]) by {
        assert(is_space(rest[i - lo]));
    }
    if lo < hi {
        assert(t.last() == s[hi - 1]);
    }
}

/// Lowering turns each capital of ASCII into its small letter, and leaves every
/// other character.
pub proof fn law_lowering_changes_ascii_capitals_only(s: Seq<char>, i: int)
    requires
        0 <= i < s.len(),
    ensures
        lower(s).len() == s.len(),
        forall|k: int|
            0 <= k < 26 && s[i] == #[trigger] "ABCDEFGHIJKLMNOPQRSTUVWXYZ"@[k] ==> lower(s)[i]
                == "abcdefghijklmnopqrstuvwxyz"@[k],
        !"ABCDEFGHIJKLMNOPQRSTUVWXYZ"@.contains(s[i]) ==> lower(s)[i] == s[i],
{
    reveal_strlit("ABCDEFGHIJKLMNOPQRSTUVWXYZ");
    reveal_strlit("abcdefghijklmnopqrstuvwxyz");
    let c = s[i];
    if 'A' <= c && c <= 'Z' {
        assert("ABCDEFGHIJKLMNOPQRSTUVWXYZ"@[c as int - 65] == c);
    }
}

/// A text is found where it stands, first where it stands first, and not at all
/// where it does not stand.
pub proof fn law_texts_are_found_where_they_stand(
    before: Seq<char>,
    pat: Seq<char>,
    behind: Seq<char>,
)
    ensures
        has_substring(before + pat + behind, pat),
        first_match(before + pat + behind, pat) matches Some(i) && 0 <= i <= before.len() && (before
            + pat + behind).subrange(i, i + pat.len()) == pat && forall|k: int|
            0 <= k < i ==> #[trigger] (before + pat + behind).subrange(k, k + pat.len()) != pat,
        begins_with(pat + behind, pat),
        finishes_with(before + pat, pat),
{
    let s = before + pat + behind;
    assert(s.subrange(before.len() as int, (before.len() + pat.len()) as int) =~= pat);
    assert(occurs_at(s, pat, before.len() as int));
    lemma_first_from(s, pat, 0);
    let i = first_match(s, pat)->0;
    assert forall|k: int| 0 <= k < i implies #[trigger] s.subrange(k, k + pat.len()) != pat by {
        assert(!occurs_at(s, pat, k));
    }
    assert((pat + behind).subrange(0, pat.len() as int) =~= pat);
    assert((before + pat).subrange(before.len() as int, (before.len() + pat.len()) as int) =~= pat);
}

/// What is found stands there.
pub proof fn law_found_texts_stand_there(s: Seq<char>, pat: Seq<char>)
    ensures
        has_substring(s, pat) <==> exists|a: Seq<char>, b: Seq<char>|
            s == #[trigger] (a + pat + b),
        begins_with(s, pat) <==> exists|b: Seq<char>| s == #[trigger] (pat + b),
        finishes_with(s, pat) <==> exists|a: Seq<char>| s == #[trigger] (a + pat),
        first_match(s, pat) is Some <==> has_substring(s, pat),
{
    lemma_has_substring(s, pat);
    if has_substring(s, pat) {
        let i = choose|i: int| occurs_at(s, pat, i);
        assert(s =~= s.take(i) + pat + s.skip(i + pat.len())) by {
            assert(s.subrange(i, i + pat.len()) == pat);
            assert(s =~= s.take(i) + s.subrange(i, i + pat.len()) + s.skip(i + pat.len()));
        }
    }
    if exists|a: Seq<char>, b: Seq<char>| s == #[trigger] (a + pat + b) {
        let (a, b) = choose|a: Seq<char>, b: Seq<char>| s == #[trigger] (a + pat + b);
        law_texts_are_found_where_they_stand(a, pat, b);
    }
    if begins_with(s, pat) {
        assert(s =~= s.subrange(0, pat.len() as int) + s.skip(pat.len() as int));
    }
    if exists|b: Seq<char>| s == #[trigger] (pat + b) {
        let b = choose|b: Seq<char>| s == #[trigger] (pat + b);
        law_texts_are_found_where_they_stand(Seq::empty(), pat, b);
    }
    if finishes_with(s, pat) {
        let k = s.len() - pat.len();
        assert(s =~= s.take(k) + s.subrange(k, s.len() as int));
    }
    if exists|a: Seq<char>| s == #[trigger] (a + pat) {
        let a = choose|a: Seq<char>| s == #[trigger] (a + pat);
        law_texts_are_found_where_they_stand(a, pat, Seq::empty());
    }
}

proof fn lemma_occurrences(s: Seq<char>, pat: Seq<char>, from: int)
    requires
        pat.len() > 0,
        0 <= from,
    ensures
        occurrences_from(s, pat, from) == 0 <==> forall|k: int|
            from <= k ==> !#[trigger] occurs_at(s, pat, k),
        occurrences_from(s, pat, from) >= 2 <==> exists|a: int, b: int|
            from <= a && a + pat.len() <= b && #[trigger] occurs_at(s, pat, a)
                && #[trigger] occurs_at(s, pat, b),
    decreases s.len() - from,
{
    if from + pat.len() > s.len() {
    } else if occurs_at(s, pat, from) {
        lemma_occurrences(s, pat, from + pat.len());
        if occurrences_from(s, pat, from) >= 2 {
            let k = choose|k: int| from + pat.len() <= k && #[trigger] occurs_at(s, pat, k);
            assert(occurs_at(s, pat, from) && occurs_at(s, pat, k));
        }
    } else {
        lemma_occurrences(s, pat, from + 1);
        assert forall|k: int| from <= k && #[trigger] occurs_at(s, pat, k) implies from + 1 <= k by {
            if k == from {
            }
        }
    }
}

/// The count of a text is zero where it does not stand, and above one just where
/// it stands at two places that do not overlap.
pub proof fn law_counts_tell_none_one_and_more(s: Seq<char>, pat: Seq<char>)
    requires
        pat.len() > 0,
    ensures
        occurrences_from(s, pat, 0) == 0 <==> !has_substring(s, pat),
        occurrences_from(s, pat, 0) >= 2 <==> exists|a: int, b: int|
            0 <= a && a + pat.len() <= b <= s.len() - pat.len() && #[trigger] s.subrange(
                a,
                a + pat.len(),
            ) == pat && #[trigger] s.subrange(b, b + pat.len()) == pat,
{
    lemma_occurrences(s, pat, 0);
    if occurrences_from(s, pat, 0) >= 2 {
        let (a, b) = choose|a: int, b: int|
            0 <= a && a + pat.len() <= b && #[trigger] occurs_at(s, pat, a) && #[trigger] occurs_at(
                s,
                pat,
                b,
            );
        assert(s.subrange(a, a + pat.len()) == pat && s.subrange(b, b + pat.len()) == pat);
    }
    if exists|a: int, b: int|
        0 <= a && a + pat.len() <= b <= s.len() - pat.len() && #[trigger] s.subrange(
            a,
            a + pat.len(),
        ) == pat && #[trigger] s.subrange(b, b + pat.len()) == pat {
        let (a, b) = choose|a: int, b: int|
            0 <= a && a + pat.len() <= b <= s.len() - pat.len() && #[trigger] s.subrange(
                a,
                a + pat.len(),
            ) == pat && #[trigger] s.subrange(b, b + pat.len()) == pat;
        assert(occurs_at(s, pat, a) && occurs_at(s, pat, b));
    }
}

/// Joining puts the separator between neighbours, and nowhere else.
pub proof fn law_joining_puts_the_separator_between(
    a: Seq<Seq<char>>,
    b: Seq<Seq<char>>,
    x: Seq<char>,
    sep: Seq<char>,
)
    ensures
        joined(Seq::empty(), sep).len() == 0,
        joined(seq![x], sep) == x,
        a.len() > 0 && b.len() > 0 ==> joined(a + b, sep) == joined(a, sep) + sep + joined(b, sep),
        joined(a, Seq::empty()) == a.flatten_alt(),
    decreases a.len(),
{
    if a.len() > 0 && b.len() > 0 {
        lemma_joined_concat(a, b, sep);
    }
    if a.len() > 0 {
        law_joining_puts_the_separator_between(a.drop_last(), b, x, sep);
        if a.len() == 1 {
            assert(a.drop_last() =~= Seq::<Seq<char>>::empty());
            reveal_with_fuel(Seq::flatten_alt, 2);
            assert(a.flatten_alt() =~= a[0]);
        } else {
            assert(joined(a, Seq::empty()) =~= a.flatten_alt());
        }
    }
}

proof fn lemma_pieces_grow(s: Seq<char>, t: Seq<char>, sep: char)
    requires
        !t.contains(sep),
    ensures
        pieces(s, sep).len() > 0,
        pieces(s + t, sep) == pieces(s, sep).update(
            pieces(s, sep).len() - 1,
            pieces(s, sep).last() + t,
        ),
    decreases t.len(),
{
    lemma_pieces_nonempty(s, sep);
    let p = pieces(s, sep);
    if t.len() == 0 {
        assert(s + t =~= s);
        assert(p.last() + t =~= p.last());
        assert(p.update(p.len() - 1, p.last()) =~= p);
    } else {
        let init = t.drop_last();
        assert(t[t.len() - 1] != sep);
        assert forall|j: int| 0 <= j < init.len() implies init[j] != sep by {
            assert(t[j] != sep);
        }
        lemma_pieces_grow(s, init, sep);
        assert((s + t).drop_last() =~= s + init);
        assert((p.last() + init).push(t.last()) =~= p.last() + t);
        assert(pieces(s + t, sep) =~= p.update(p.len() - 1, p.last() + t));
    }
}

/// Parts that do not hold the separator are the pieces of their joined text.
pub proof fn law_joined_parts_split_again(parts: Seq<Seq<char>>, sep: char)
    requires
        parts.len() > 0,
        forall|i: int| 0 <= i < parts.len() ==> !(#[trigger] parts[i]).contains(sep),
    ensures
        pieces(joined(parts, seq![sep]), sep) == parts,
    decreases parts.len(),
{
    let init = parts.drop_last();
    let last = parts[parts.len() - 1];
    let none = Seq::<char>::empty();
    assert(none + last =~= last);
    if init.len() == 0 {
        lemma_pieces_grow(none, last, sep);
        assert(pieces(none, sep) =~= seq![none]);
        assert(pieces(last, sep) =~= parts);
    } else {
        assert forall|i: int| 0 <= i < init.len() implies !(#[trigger] init[i]).contains(sep) by {
            assert(init[i] == parts[i]);
        }
        law_joined_parts_split_again(init, sep);
        let head = joined(init, seq![sep]);
        let ended = head + seq![sep];
        assert(ended.drop_last() =~= head);
        lemma_pieces_grow(ended, last, sep);
        assert(pieces(ended + last, sep) =~= parts);
    }
}

/// No piece holds the separator.
pub proof fn law_pieces_do_not_hold_the_separator(s: Seq<char>, sep: char, i: int)
    requires
        0 <= i < pieces(s, sep).len(),
    ensures
        !pieces(s, sep)[i].contains(sep),
    decreases s.len(),
{
    if s.len() > 0 {
        let rest = pieces(s.drop_last(), sep);
        lemma_pieces_nonempty(s.drop_last(), sep);
        if i < rest.len() {
            law_pieces_do_not_hold_the_separator(s.drop_last(), sep, i);
            let p = pieces(s, sep)[i];
            assert forall|j: int| 0 <= j < p.len() implies p[j] != sep by {
                if j < rest[i].len() {
                    assert(rest[i][j] != sep);
                }
            }
        }
    }
}

/// The lines of a text are its pieces at newlines; a newline at the end ends the
/// last line and begins no other, and an empty text has none.
pub proof fn law_a_final_newline_begins_no_line(parts: Seq<Seq<char>>)
    requires
        parts.len() > 0,
        forall|i: int| 0 <= i < parts.len() ==> !(#[trigger] parts[i]).contains('\n'),
    ensures
        lines_of(joined(parts, seq!['\n']).push('\n')) == parts,
        parts.last().len() > 0 ==> lines_of(joined(parts, seq!['\n'])) == parts,
        lines_of(Seq::empty()).len() == 0,
{
    let s = joined(parts, seq!['\n']);
    law_joined_parts_split_again(parts, '\n');
    assert(s.push('\n').drop_last() =~= s);
    assert(lines_of(s.push('\n')) =~= parts);
    let last = parts[parts.len() - 1];
    if last.len() > 0 {
        let init = parts.drop_last();
        assert(init.push(last) =~= parts);
        lemma_joined_push(init, last, seq!['\n']);
        assert(s.last() == last.last());
        assert(last[last.len() - 1] != '\n');
    }
    reveal_with_fuel(pieces, 1);
}

proof fn lemma_words_step(a: Seq<char>, w: Seq<char>)
    requires
        forall|i: int| 0 <= i < w.len() ==> !is_space(#[trigger] w[i]),
    ensures
        words_step(a + w) == (words_step(a).0, words_step(a).1 + w),
    decreases w.len(),
{
    if w.len() == 0 {
        assert(a + w =~= a);
        assert(words_step(a).1 + w =~= words_step(a).1);
    } else {
        let init = w.drop_last();
        assert forall|i: int| 0 <= i < init.len() implies !is_space(#[trigger] init[i]) by {
            assert(!is_space(w[i]));
        }
        lemma_words_step(a, init);
        assert(!is_space(w[w.len() - 1]));
        assert((a + w).drop_last() =~= a + init);
        assert((words_step(a).1 + init).push(w.last()) =~= words_step(a).1 + w);
    }
}

/// Words are what stands between white space: a text without any is one word, an
/// empty one has none, and a space parts the words before it from those behind.
pub proof fn law_words_stand_between_white_space(a: Seq<char>, c: char, b: Seq<char>)
    requires
        is_space(c),
    ensures
        words_of(Seq::empty()).len() == 0,
        b.len() > 0 && (forall|i: int| 0 <= i < b.len() ==> !is_space(#[trigger] b[i])) ==> words_of(
            b,
        ) == seq![b],
        words_of(a.push(c) + b) == words_of(a) + words_of(b),
    decreases b.len(),
{
    let none = Seq::<char>::empty();
    let head = a.push(c);
    assert(head.drop_last() =~= a);
    assert(words_step(head) == (words_of(a), none));
    if b.len() == 0 {
        assert(head + b =~= head);
        assert(words_of(head) =~= words_of(a) + words_of(b));
    } else {
        if forall|i: int| 0 <= i < b.len() ==> !is_space(#[trigger] b[i]) {
            lemma_words_step(none, b);
            assert(none + b =~= b);
            assert(words_of(b) =~= seq![b]);
        }
        lemma_words_after(a, c, b);
        let (done, open) = words_step(b);
        assert(words_of(head + b) =~= words_of(a) + words_of(b));
    }
}

proof fn lemma_words_after(a: Seq<char>, c: char, b: Seq<char>)
    requires
        is_space(c),
    ensures
        words_step(a.push(c) + b) == (words_of(a) + words_step(b).0, words_step(b).1),
    decreases b.len(),
{
    let head = a.push(c);
    assert(head.drop_last() =~= a);
    if b.len() == 0 {
        assert(head + b =~= head);
        assert(words_of(a) + words_step(b).0 =~= words_of(a));
    } else {
        lemma_words_after(a, c, b.drop_last());
        assert((head + b).drop_last() =~= head + b.drop_last());
        assert((head + b).last() == b.last());
        let (done, open) = words_step(b.drop_last());
        assert(words_of(a) + done.push(open) =~= (words_of(a) + done).push(open));
    }
}

/// Cutting at a character gives what stands before its first place and what
/// stands behind it; where it does not stand there is no cut.
pub proof fn law_a_cut_is_made_at_the_first_place(s: Seq<char>, c: char)
    ensures
        match cut_at_first(s, c) {
            Some((a, b)) => s == a.push(c) + b && !a.contains(c),
            None => !s.contains(c),
        },
{
    lemma_place_of(s, c, 0);
    match cut_at_first(s, c) {
        Some((a, b)) => {
            let i = place_of(s, c, 0)->0;
            assert(s =~= a.push(c) + b);
            assert forall|k: int| 0 <= k < a.len() implies a[k] != c by {
                assert(s[k] != c);
            }
        },
        None => {},
    }
}

/// The number that decimal digits stand for.
pub open spec fn number_of(s: Seq<char>) -> int
    decreases s.len(),
{
    if s.len() == 0 {
        0
    } else {
        10 * number_of(s.drop_last()) + (s.last() as int - '0' as int)
    }
}

/// A number is written in decimal digits that stand for it, without a leading
/// zero.
pub proof fn law_decimals_stand_for_their_number(n: nat)
    ensures
        number_of(decimal(n)) == n,
        decimal(n).len() > 0,
        forall|i: int| 0 <= i < decimal(n).len() ==> '0' <= #[trigger] decimal(n)[i] <= '9',
        n > 0 ==> decimal(n)[0] != '0',
    decreases n,
{
    reveal_with_fuel(number_of, 2);
    if n >= 10 {
        law_decimals_stand_for_their_number(n / 10);
        assert(decimal(n).drop_last() =~= decimal(n / 10));
    } else {
        assert(decimal(n).drop_last() =~= Seq::<char>::empty());
    }
}

} // verus!
