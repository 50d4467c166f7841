//! Patterns for searching: regular expressions over lines and globs over paths.

use vstd::prelude::*;

use crate::text;

verus! {

// ---------------------------------------------------------------------------
// Regular expressions
// ---------------------------------------------------------------------------

/// `regex::Regex`, a compiled expression.
#[verifier::external_type_specification]
#[verifier::external_body]
pub struct ExRegex(regex::Regex);

/// The texts in which a compiled expression finds a match.
pub uninterp spec fn regex_language(re: regex::Regex) -> Set<Seq<char>>;

/// What `regex::RegexBuilder` makes of a pattern and a case flag: the texts in
/// which it finds a match, or the message of its error.
pub uninterp spec fn regex_compiled(pattern: Seq<char>, ignore_case: bool) -> Result<
    Set<Seq<char>>,
    Seq<char>,
>;

/// A character that means something in a regular expression.
pub open spec fn is_meta(c: char) -> bool {
    c == '\\' || c == '.' || c == '+' || c == '*' || c == '?' || c == '(' || c == ')' || c == '|'
        || c == '[' || c == ']' || c == '{' || c == '}' || c == '^' || c == '$' || c == '#' || c
        == '&' || c == '-' || c == '~'
}

/// A text as a pattern for itself: a backslash before every character that
/// would mean something.
pub open spec fn escaped(s: Seq<char>) -> Seq<char>
    decreases s.len(),
{
    if s.len() == 0 {
        Seq::empty()
    } else if is_meta(s.last()) {
        escaped(s.drop_last()).push('\\').push(s.last())
    } else {
        escaped(s.drop_last()).push(s.last())
    }
}

/// The texts that hold `s`.
pub open spec fn holding(s: Seq<char>) -> Set<Seq<char>> {
    Set::new(|t: Seq<char>| text::has_substring(t, s))
}

/// `regex::escape`: a backslash goes before every meta character.
#[verifier::external_body]
fn escape(s: &str) -> (r: String)
    ensures
        r@ == escaped(s@),
{
    regex::escape(s)
}

/// `regex::RegexBuilder`: build an expression, with or without regard to case.
/// What it matches is named by `regex_compiled`. An escaped text, where it
/// builds, matches the texts that hold it.
#[verifier::external_body]
fn build_regex(pattern: &str, ignore_case: bool) -> (r: Result<regex::Regex, String>)
    ensures
        match r {
            Ok(re) => regex_compiled(pattern@, ignore_case) == Ok::<Set<Seq<char>>, Seq<char>>(
                regex_language(re),
            ),
            Err(e) => regex_compiled(pattern@, ignore_case) == Err::<Set<Seq<char>>, Seq<char>>(
                e@,
            ),
        },
        forall|s: Seq<char>|
            pattern@ == #[trigger] escaped(s) && !ignore_case ==> (r matches Ok(re) ==> regex_language(
                re,
            ) == holding(s)),
{
    regex::RegexBuilder::new(pattern).case_insensitive(ignore_case).build().map_err(|e| e.to_string())
}

/// `regex::Regex::is_match`: is there a match in the text?
#[verifier::external_body]
pub(crate) fn regex_is_match(re: &regex::Regex, s: &str) -> (r: bool)
    ensures
        r == regex_language(*re).contains(s@),
{
    re.is_match(s)
}

/// The pattern that is compiled: a literal one is escaped.
pub open spec fn effective_pattern(pattern: Seq<char>, literal: bool) -> Seq<char> {
    if literal {
        escaped(pattern)
    } else {
        pattern
    }
}

/// Compile a search pattern. A literal pattern, with regard to case, matches
/// the texts that hold it.
pub fn compile_pattern(pattern: &str, literal: bool, ignore_case: bool) -> (r: Result<
    regex::Regex,
    String,
>)
    ensures
        match r {
            Ok(re) => regex_compiled(effective_pattern(pattern@, literal), ignore_case) == Ok::<
                Set<Seq<char>>,
                Seq<char>,
            >(regex_language(re)),
            Err(e) => regex_compiled(effective_pattern(pattern@, literal), ignore_case) == Err::<
                Set<Seq<char>>,
                Seq<char>,
            >(e@),
        },
        literal && !ignore_case ==> (r matches Ok(re) ==> regex_language(re) == holding(pattern@)),
{
    if literal {
        let e: String = escape(pattern);
        assert(e@ == escaped(pattern@));
        build_regex(e.as_str(), ignore_case)
    } else {
        build_regex(pattern, ignore_case)
    }
}

// ---------------------------------------------------------------------------
// Globs
// ---------------------------------------------------------------------------

/// `globset::GlobSet`, here a set of one glob.
#[verifier::external_type_specification]
#[verifier::external_body]
pub struct ExGlobSet(globset::GlobSet);

/// The paths that a compiled glob matches.
pub uninterp spec fn glob_language(g: globset::GlobSet) -> Set<Seq<char>>;

/// What `globset` makes of a pattern: the paths that it matches, or the message
/// of its error. A backslash in the pattern is an escape where `escapes` says so,
/// else a separator.
pub uninterp spec fn glob_compiled(pattern: Seq<char>, escapes: bool) -> Result<
    Set<Seq<char>>,
    Seq<char>,
>;

/// What came of compiling a glob, in the terms of `glob_compiled`.
pub open spec fn glob_outcome(r: Result<globset::GlobSet, String>) -> Result<
    Set<Seq<char>>,
    Seq<char>,
> {
    match r {
        Ok(g) => Ok(glob_language(g)),
        Err(e) => Err(e@),
    }
}

/// May a pattern compile to `c`? Where it holds a backslash, that is an escape on
/// some systems and a separator on others.
pub open spec fn glob_compiles_to(
    pattern: Seq<char>,
    c: Result<Set<Seq<char>>, Seq<char>>,
) -> bool {
    ||| c == glob_compiled(pattern, true)
    ||| pattern.contains('\\') && c == glob_compiled(pattern, false)
}

/// `globset::Glob::new` and `globset::GlobSetBuilder::build`: what the pattern
/// matches is named by `glob_compiled`. Which of the two readings of a backslash
/// it is depends on the system.
#[verifier::external_body]
fn build_glob(pattern: &str) -> (r: Result<globset::GlobSet, String>)
    ensures
        glob_outcome(r) == glob_compiled(pattern@, true) || (pattern@.contains('\\')
            && glob_outcome(r) == glob_compiled(pattern@, false)),
{
    globset::Glob::new(pattern)
        .and_then(|g| globset::GlobSetBuilder::new().add(g).build())
        .map_err(|e| e.to_string())
}

/// Compile a glob.
pub fn compile_glob(pattern: &str) -> (r: Result<globset::GlobSet, String>)
    ensures
        glob_compiles_to(pattern@, glob_outcome(r)),
{
    build_glob(pattern)
}

/// A path with `/` for every `\`.
pub open spec fn slashed(p: Seq<char>) -> Seq<char> {
    p.map_values(
        |c: char|
            if c == '\\' {
                '/'
            } else {
                c
            },
    )
}

/// A path as a glob sees it: where a backslash separates, a slash stands for it.
pub open spec fn seen(p: Seq<char>, separates: bool) -> Seq<char> {
    if separates {
        slashed(p)
    } else {
        p
    }
}

/// `globset::GlobSet::is_match`: does the glob match the path, seen as it stands
/// or, on systems where a backslash separates, with slashes for backslashes?
#[verifier::external_body]
fn glob_is_match(g: &globset::GlobSet, path: &str) -> (r: bool)
    ensures
        exists|separates: bool| r == glob_language(*g).contains(#[trigger] seen(path@, separates)),
{
    g.is_match(path)
}

proof fn lemma_seen_without_backslash(p: Seq<char>)
    requires
        !p.contains('\\'),
    ensures
        forall|separates: bool| #[trigger] seen(p, separates) == p,
{
    assert(slashed(p) =~= p) by {
        assert forall|i: int| 0 <= i < p.len() implies slashed(p)[i] == p[i] by {
            assert(p.contains(p[i]));
        }
    }
}

/// Is a file asked for? Where there is a glob, it must match the path below the
/// search root or the file's name.
pub open spec fn asked_for(g: Option<Set<Seq<char>>>, rel: Seq<char>, base: Seq<char>) -> bool {
    g matches Some(l) ==> l.contains(rel) || l.contains(base)
}

/// May the answer to that be `r`, whatever a backslash is to the system?
pub open spec fn may_be_asked_for(
    g: Option<Set<Seq<char>>>,
    rel: Seq<char>,
    base: Seq<char>,
    r: bool,
) -> bool {
    exists|v: bool, w: bool| r == asked_for(g, #[trigger] seen(rel, v), #[trigger] seen(base, w))
}

/// Where neither the path nor the name holds a backslash, there is one answer.
pub proof fn law_globs_are_exact_without_backslashes(
    g: Option<Set<Seq<char>>>,
    rel: Seq<char>,
    base: Seq<char>,
    r: bool,
)
    requires
        !rel.contains('\\'),
        !base.contains('\\'),
    ensures
        may_be_asked_for(g, rel, base, r) <==> r == asked_for(g, rel, base),
{
    lemma_seen_without_backslash(rel);
    lemma_seen_without_backslash(base);
    assert(seen(rel, false) == rel && seen(base, false) == base);
}

pub open spec fn glob_view(g: Option<&globset::GlobSet>) -> Option<Set<Seq<char>>> {
    match g {
        Some(g) => Some(glob_language(*g)),
        None => None,
    }
}

/// Is a file asked for, by its path below the search root or by its name?
pub fn glob_wants(g: Option<&globset::GlobSet>, rel: &str, base: &str) -> (r: bool)
    ensures
        may_be_asked_for(glob_view(g), rel@, base@, r),
{
    match g {
        Some(set) => {
            let by_path: bool = glob_is_match(set, rel);
            let by_name: bool = glob_is_match(set, base);
            let r: bool = by_path || by_name;
            proof {
                let l = glob_language(*set);
                let v = choose|v: bool| by_path == l.contains(#[trigger] seen(rel@, v));
                let w = choose|w: bool| by_name == l.contains(#[trigger] seen(base@, w));
                assert(r == asked_for(Some(l), seen(rel@, v), seen(base@, w)));
            }
            r
        },
        None => {
            assert(asked_for(None, seen(rel@, false), seen(base@, false)));
            true
        },
    }
}

/// A file is asked for where there is no glob, or where it matches the path or the
/// name.
pub proof fn law_a_glob_matches_the_path_or_the_name(
    l: Set<Seq<char>>,
    rel: Seq<char>,
    base: Seq<char>,
)
    ensures
        asked_for(None, rel, base),
        asked_for(Some(l), rel, base) <==> l.contains(rel) || l.contains(base),
{
}

/// A pattern without a backslash compiles to one thing.
pub proof fn law_globs_compile_alike_without_backslashes(
    pattern: Seq<char>,
    c: Result<Set<Seq<char>>, Seq<char>>,
)
    requires
        glob_compiles_to(pattern, c),
    ensures
        !pattern.contains('\\') ==> c == glob_compiled(pattern, true),
        c == glob_compiled(pattern, true) || c == glob_compiled(pattern, false),
{
}

/// A literal pattern is compiled with its special characters escaped, any other as
/// it stands.
pub proof fn law_literal_patterns_are_escaped(pattern: Seq<char>)
    ensures
        effective_pattern(pattern, false) == pattern,
        effective_pattern(pattern, true) == escaped(pattern),
{
}

/// A text is held by just the texts in which it stands.
pub proof fn law_a_literal_is_held_where_it_stands(s: Seq<char>, t: Seq<char>)
    ensures
        holding(s).contains(t) <==> exists|a: Seq<char>, b: Seq<char>| t == #[trigger] (a + s + b),
{
    text::law_found_texts_stand_there(t, s);
}

} // verus!
