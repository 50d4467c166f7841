//! Shared tool helpers: path resolution and display. A path is a text with `/`
//! between its parts, and absolute where it starts with `/`. Nothing is said of
//! drive letters and other separators.

use vstd::prelude::*;

use crate::text;

verus! {

/// A path that starts at the root.
pub open spec fn is_rooted(p: Seq<char>) -> bool {
    p.len() > 0 && p[0] == '/'
}

/// `rest` seen from `base`; a rooted `rest` stands for itself.
pub open spec fn joined_path(base: Seq<char>, rest: Seq<char>) -> Seq<char> {
    if is_rooted(rest) || base.len() == 0 {
        rest
    } else if base.last() == '/' {
        base + rest
    } else {
        base.push('/') + rest
    }
}

/// A leading `~` replaced by the home directory, where there is one.
pub open spec fn expanded(path: Seq<char>, home: Option<Seq<char>>) -> Seq<char> {
    match home {
        Some(h) => if text::begins_with(path, "~/"@) {
            joined_path(h, path.skip(2))
        } else if path == "~"@ {
            h
        } else {
            path
        },
        None => path,
    }
}

/// A tool-provided path seen from the working directory.
pub open spec fn resolved(path: Seq<char>, cwd: Seq<char>, home: Option<Seq<char>>) -> Seq<char> {
    let e = expanded(path, home);
    if is_rooted(e) {
        e
    } else {
        joined_path(cwd, e)
    }
}

/// Is the part at `i` a component? Empty parts are not, nor is `.` but at the
/// start.
pub open spec fn is_component(parts: Seq<Seq<char>>, i: int) -> bool {
    parts[i].len() > 0 && (i == 0 || parts[i] != "."@)
}

/// The places of the components among the parts before `n`.
pub open spec fn places(parts: Seq<Seq<char>>, n: int) -> Seq<int>
    decreases n,
{
    if n <= 0 {
        Seq::empty()
    } else if is_component(parts, n - 1) {
        places(parts, n - 1).push(n - 1)
    } else {
        places(parts, n - 1)
    }
}

pub open spec fn parts_of(p: Seq<char>) -> Seq<Seq<char>> {
    text::pieces(p, '/')
}

pub open spec fn places_of(p: Seq<char>) -> Seq<int> {
    places(parts_of(p), parts_of(p).len() as int)
}

/// Does `path` start with the components of `base`?
pub open spec fn starts_within(path: Seq<char>, base: Seq<char>) -> bool {
    &&& places_of(base).len() <= places_of(path).len()
    &&& forall|k: int|
        0 <= k < places_of(base).len() ==> parts_of(base)[#[trigger] places_of(base)[k]]
            == parts_of(path)[places_of(path)[k]]
}

/// What is left of `path` behind its first `k` components, without separators
/// around it.
pub open spec fn behind(path: Seq<char>, k: int) -> Seq<char> {
    let at = places_of(path);
    if k >= at.len() {
        Seq::empty()
    } else {
        text::joined(parts_of(path).subrange(at[k], at.last() + 1), "/"@)
    }
}

/// `path` without what trails its last component.
pub open spec fn without_trail(path: Seq<char>) -> Seq<char> {
    let at = places_of(path);
    if at.len() == 0 {
        if is_rooted(path) {
            "/"@
        } else {
            Seq::empty()
        }
    } else {
        text::joined(parts_of(path).subrange(0, at.last() + 1), "/"@)
    }
}

/// `path` relative to `base`, if it lies within.
pub open spec fn relative(path: Seq<char>, base: Seq<char>) -> Option<Seq<char>> {
    if base.len() == 0 {
        Some(without_trail(path))
    } else if is_rooted(path) == is_rooted(base) && starts_within(path, base) {
        Some(behind(path, places_of(base).len() as int))
    } else {
        None
    }
}

/// The last component, unless it only points elsewhere.
pub open spec fn last_name(path: Seq<char>) -> Option<Seq<char>> {
    let at = places_of(path);
    if at.len() == 0 {
        None
    } else {
        let name = parts_of(path)[at.last()];
        if name == "."@ || name == ".."@ {
            None
        } else {
            Some(name)
        }
    }
}

/// The last component, or nothing where there is none.
pub open spec fn name_or_empty(path: Seq<char>) -> Seq<char> {
    match last_name(path) {
        Some(n) => n,
        None => Seq::empty(),
    }
}

/// A path as it is shown: relative to the working directory when inside it,
/// otherwise `~`-abbreviated when inside the home directory.
pub open spec fn shortened(path: Seq<char>, cwd: Seq<char>, home: Option<Seq<char>>) -> Seq<char> {
    match relative(path, cwd) {
        Some(rel) => if rel.len() == 0 {
            "."@
        } else {
            rel
        },
        None => match home {
            Some(h) => match relative(path, h) {
                Some(rel) => "~/"@ + rel,
                None => path,
            },
            None => path,
        },
    }
}

fn rooted(p: &str) -> (r: bool)
    ensures
        r == is_rooted(p@),
{
    let v: Vec<char> = text::chars_of(p);
    v.len() > 0 && v[0] == '/'
}

/// `rest` seen from `base`.
pub fn join_path(base: &str, rest: &str) -> (r: String)
    ensures
        r@ == joined_path(base@, rest@),
{
    let v: Vec<char> = text::chars_of(base);
    if rooted(rest) || v.len() == 0 {
        return rest.to_string();
    }
    let mut out: String = base.to_string();
    if v[v.len() - 1] != '/' {
        out.push('/');
    }
    out.append(rest);
    out
}

/// Expand a leading `~` to the user's home directory.
pub fn expand_tilde(path: &str, home: Option<&str>) -> (r: String)
    ensures
        r@ == expanded(path@, text::opt_str(home)),
{
    match home {
        Some(h) => {
            if text::starts_with(path, "~/") {
                let v: Vec<char> = text::chars_of(path);
                proof {
                    reveal_strlit("~/");
                }
                let rest: String = text::string_of(&v, 2, v.len());
                assert(rest@ =~= path@.skip(2));
                join_path(h, rest.as_str())
            } else if text::same(path, "~") {
                h.to_string()
            } else {
                path.to_string()
            }
        },
        None => path.to_string(),
    }
}

/// Resolve a tool-provided path against the working directory. Absolute paths
/// (and `~`-expanded paths) are used as-is; relative paths are joined to `cwd`.
pub fn resolve_to_cwd(path: &str, cwd: &str, home: Option<&str>) -> (r: String)
    ensures
        r@ == resolved(path@, cwd@, text::opt_str(home)),
{
    let e: String = expand_tilde(path, home);
    if rooted(e.as_str()) {
        e
    } else {
        join_path(cwd, e.as_str())
    }
}

/// Resolution of a path to read: the same.
pub fn resolve_read_path(path: &str, cwd: &str, home: Option<&str>) -> (r: String)
    ensures
        r@ == resolved(path@, cwd@, text::opt_str(home)),
{
    resolve_to_cwd(path, cwd, home)
}

spec fn as_ints(v: Seq<usize>) -> Seq<int> {
    v.map_values(|i: usize| i as int)
}

/// The places of the components of a path, and its parts.
fn split_path(path: &str) -> (r: (Vec<String>, Vec<usize>))
    ensures
        text::views(r.0@) == parts_of(path@),
        as_ints(r.1@) == places_of(path@),
        forall|k: int| 0 <= k < r.1@.len() ==> #[trigger] r.1@[k] < r.0@.len(),
        forall|j: int, k: int| 0 <= j <= k < r.1@.len() ==> r.1@[j] <= r.1@[k],
{
    let parts: Vec<String> = text::split(path, '/');
    let ghost all = parts_of(path@);
    let mut at: Vec<usize> = Vec::new();
    let mut i: usize = 0;
    assert(as_ints(at@) =~= places(all, 0));
    while i < parts.len()
        invariant
            all == text::views(parts@),
            i <= parts@.len(),
            as_ints(at@) == places(all, i as int),
            forall|k: int| 0 <= k < at@.len() ==> #[trigger] at@[k] < i,
            forall|j: int, k: int| 0 <= j <= k < at@.len() ==> at@[j] <= at@[k],
        decreases parts@.len() - i,
    {
        assert(all[i as int] == parts@[i as int]@);
        let part: &str = parts[i].as_str();
        if !part.is_empty() && (i == 0 || !text::same(part, ".")) {
            assert(as_ints(at@.push(i)) =~= as_ints(at@).push(i as int));
            at.push(i);
        }
        i += 1;
    }
    (parts, at)
}

/// The parts `lo..hi` of a path, joined again.
fn join_parts(parts: &Vec<String>, lo: usize, hi: usize) -> (r: String)
    requires
        lo <= hi <= parts@.len(),
    ensures
        r@ == text::joined(text::views(parts@).subrange(lo as int, hi as int), "/"@),
{
    let ghost all = text::views(parts@);
    let mut kept: Vec<String> = Vec::new();
    let mut i: usize = lo;
    assert(text::views(kept@) =~= all.subrange(lo as int, lo as int));
    while i < hi
        invariant
            all == text::views(parts@),
            lo <= i <= hi <= parts@.len(),
            text::views(kept@) == all.subrange(lo as int, i as int),
        decreases hi - i,
    {
        let p: String = parts[i].clone();
        proof {
            text::lemma_views_push(kept@, p);
            assert(all.subrange(lo as int, i + 1) =~= all.subrange(lo as int, i as int).push(p@));
        }
        kept.push(p);
        i += 1;
    }
    text::join(&kept, "/")
}

/// `path` relative to `base`, if it lies within.
pub fn strip_prefix(path: &str, base: &str) -> (r: Option<String>)
    ensures
        match r {
            Some(rel) => relative(path@, base@) == Some(rel@),
            None => relative(path@, base@) is None,
        },
{
    let (parts, at): (Vec<String>, Vec<usize>) = split_path(path);
    let ghost all = parts_of(path@);
    let ghost pl = places_of(path@);
    assert(pl.len() == at@.len());
    if base.is_empty() {
        if at.len() == 0 {
            if rooted(path) {
                return Some("/".to_string());
            }
            return Some(String::new());
        }
        let last: usize = at[at.len() - 1];
        assert(pl.last() == last);
        assert(last < parts.len());
        return Some(join_parts(&parts, 0, last + 1));
    }
    let (base_parts, base_at): (Vec<String>, Vec<usize>) = split_path(base);
    let ghost bl = places_of(base@);
    assert(bl.len() == base_at@.len());
    if rooted(path) != rooted(base) || base_at.len() > at.len() {
        return None;
    }
    let mut k: usize = 0;
    while k < base_at.len()
        invariant
            k <= base_at@.len() <= at@.len(),
            text::views(parts@) == all,
            text::views(base_parts@) == parts_of(base@),
            all == parts_of(path@),
            pl == places_of(path@),
            bl == places_of(base@),
            as_ints(at@) == pl,
            as_ints(base_at@) == bl,
            base@.len() > 0,
            forall|j: int| 0 <= j < at@.len() ==> #[trigger] at@[j] < parts@.len(),
            forall|j: int| 0 <= j < base_at@.len() ==> #[trigger] base_at@[j] < base_parts@.len(),
            forall|j: int|
                0 <= j < k ==> parts_of(base@)[#[trigger] bl[j]] == all[pl[j]],
        decreases base_at@.len() - k,
    {
        let b: usize = base_at[k];
        let p: usize = at[k];
        proof {
            assert(bl[k as int] == b);
            assert(pl[k as int] == p);
            assert(parts_of(base@)[b as int] == base_parts@[b as int]@);
            assert(all[p as int] == parts@[p as int]@);
        }
        if !text::same(base_parts[b].as_str(), parts[p].as_str()) {
            return None;
        }
        k += 1;
    }
    assert(starts_within(path@, base@));
    if k >= at.len() {
        return Some(String::new());
    }
    let first: usize = at[k];
    let last: usize = at[at.len() - 1];
    assert(pl[k as int] == first);
    assert(pl.last() == last);
    assert(last < parts.len());
    Some(join_parts(&parts, first, last + 1))
}

/// The last component, unless it only points elsewhere.
pub fn file_name(path: &str) -> (r: Option<String>)
    ensures
        match r {
            Some(n) => last_name(path@) == Some(n@),
            None => last_name(path@) is None,
        },
{
    let (parts, at): (Vec<String>, Vec<usize>) = split_path(path);
    assert(places_of(path@).len() == at@.len());
    if at.len() == 0 {
        return None;
    }
    let last: usize = at[at.len() - 1];
    assert(places_of(path@).last() == last);
    assert(parts_of(path@)[last as int] == parts@[last as int]@);
    let name: String = parts[last].clone();
    if text::same(name.as_str(), ".") || text::same(name.as_str(), "..") {
        None
    } else {
        Some(name)
    }
}

/// Render a path compactly: relative to `cwd` when inside it, otherwise `~`-
/// abbreviated when inside the home dir.
pub fn shorten_path(path: &str, cwd: &str, home: Option<&str>) -> (r: String)
    ensures
        r@ == shortened(path@, cwd@, text::opt_str(home)),
{
    if let Some(rel) = strip_prefix(path, cwd) {
        if rel.as_str().is_empty() {
            return ".".to_string();
        }
        return rel;
    }
    if let Some(h) = home {
        if let Some(rel) = strip_prefix(path, h) {
            let mut out: String = "~/".to_string();
            out.append(rel.as_str());
            return out;
        }
    }
    path.to_string()
}

/// Stringify a path for display given the raw (possibly relative) input.
pub fn display_path(raw: &str, cwd: &str, home: Option<&str>) -> (r: String)
    ensures
        r@ == shortened(resolved(raw@, cwd@, text::opt_str(home)), cwd@, text::opt_str(home)),
{
    let path: String = resolve_to_cwd(raw, cwd, home);
    shorten_path(path.as_str(), cwd, home)
}

/// Where a tool works: the path as it was given, resolved, and as it is shown.
#[derive(Debug)]
pub struct Target {
    pub raw: String,
    pub path: String,
    pub display: String,
}

impl Target {
    /// Is this the place of `raw`?
    pub open spec fn is_of(self, raw: Seq<char>, cwd: Seq<char>, home: Option<Seq<char>>) -> bool {
        &&& self.raw@ == raw
        &&& self.path@ == resolved(raw, cwd, home)
        &&& self.display@ == shortened(resolved(raw, cwd, home), cwd, home)
    }
}

/// Find the place of a path given to a tool.
pub fn locate(raw: &str, cwd: &str, home: Option<&str>) -> (r: Target)
    ensures
        r.is_of(raw@, cwd@, text::opt_str(home)),
{
    Target {
        raw: raw.to_string(),
        path: resolve_to_cwd(raw, cwd, home),
        display: display_path(raw, cwd, home),
    }
}

/// The path that is searched: the current directory where none is given.
pub open spec fn or_here(path: Option<String>) -> Seq<char> {
    match path {
        Some(p) => p@,
        None => "."@,
    }
}

/// Find the place of an optional path given to a tool.
pub fn locate_or_here(path: &Option<String>, cwd: &str, home: Option<&str>) -> (r: Target)
    ensures
        r.is_of(or_here(*path), cwd@, text::opt_str(home)),
{
    match path {
        Some(p) => locate(p.as_str(), cwd, home),
        None => locate(".", cwd, home),
    }
}

/// A rooted path is used as it is, whatever the working directory.
pub proof fn law_rooted_paths_resolve_to_themselves(
    path: Seq<char>,
    cwd: Seq<char>,
    home: Option<Seq<char>>,
)
    requires
        is_rooted(path),
    ensures
        resolved(path, cwd, home) == path,
{
    reveal_strlit("~/");
    reveal_strlit("~");
    if text::begins_with(path, "~/"@) {
        assert(path.take(2)[0] == "~/"@[0]);
    }
}

/// Seen from a rooted working directory, every path resolves to a rooted one.
pub proof fn law_resolved_paths_are_rooted(
    path: Seq<char>,
    cwd: Seq<char>,
    home: Option<Seq<char>>,
)
    requires
        is_rooted(cwd),
    ensures
        is_rooted(resolved(path, cwd, home)),
{
}

/// A path seen from a directory is put behind it, with one slash between; an
/// absolute one stands for itself.
pub proof fn law_paths_are_joined_by_one_slash(base: Seq<char>, rest: Seq<char>)
    ensures
        rest.len() > 0 && rest[0] == '/' ==> joined_path(base, rest) == rest,
        base.len() > 0 && base.last() != '/' && (rest.len() == 0 || rest[0] != '/') ==> joined_path(
            base,
            rest,
        ) == base + seq!['/'] + rest,
        base.len() > 0 && base.last() == '/' && (rest.len() == 0 || rest[0] != '/') ==> joined_path(
            base,
            rest,
        ) == base + rest,
        base.len() == 0 ==> joined_path(base, rest) == rest,
{
    assert(base.push('/') + rest =~= base + seq!['/'] + rest);
}

/// A tilde at the start of a path stands for the home directory, alone or before a
/// slash; any other path, and any path without a home, stays.
pub proof fn law_a_tilde_stands_for_home(path: Seq<char>, home: Seq<char>)
    requires
        home.len() > 0,
        home.last() != '/',
    ensures
        expanded(path, None) == path,
        expanded(seq!['~'], Some(home)) == home,
        path.len() == 0 || path[0] != '/' ==> expanded(seq!['~', '/'] + path, Some(home)) == home
            + seq!['/'] + path,
        path.len() == 0 || path[0] != '~' ==> expanded(path, Some(home)) == path,
        path.len() >= 2 && path[1] != '/' ==> expanded(path, Some(home)) == path,
{
    reveal_strlit("~/");
    reveal_strlit("~");
    assert("~/"@ =~= seq!['~', '/']);
    assert("~"@ =~= seq!['~']);
    let tilde = seq!['~', '/'] + path;
    assert(tilde.subrange(0, 2) =~= "~/"@);
    assert(tilde.skip(2) =~= path);
    assert(home.push('/') + path =~= home + seq!['/'] + path);
    if text::begins_with(path, "~/"@) {
        assert(path.subrange(0, 2)[0] == '~');
        assert(path.subrange(0, 2)[1] == '/');
    }
}

/// A relative path is taken from the working directory.
pub proof fn law_relative_paths_start_at_the_working_directory(
    path: Seq<char>,
    cwd: Seq<char>,
    home: Option<Seq<char>>,
)
    requires
        cwd.len() > 0,
        cwd.last() != '/',
        path.len() > 0,
        path[0] != '/',
        path[0] != '~',
    ensures
        resolved(path, cwd, home) == cwd + seq!['/'] + path,
{
    reveal_strlit("~/");
    reveal_strlit("~");
    if text::begins_with(path, "~/"@) {
        assert(path.subrange(0, 2)[0] == '~');
    }
    assert(cwd.push('/') + path =~= cwd + seq!['/'] + path);
}

/// Names that are no special parts of a path.
pub open spec fn plain_names(v: Seq<Seq<char>>) -> bool {
    forall|i: int|
        0 <= i < v.len() ==> (#[trigger] v[i]).len() > 0 && !v[i].contains('/') && v[i] != "."@
            && v[i] != ".."@
}

/// The absolute path of some names.
pub open spec fn rooted_path(v: Seq<Seq<char>>) -> Seq<char> {
    text::joined(seq![Seq::<char>::empty()] + v, seq!['/'])
}

proof fn lemma_rooted_path(v: Seq<Seq<char>>)
    requires
        plain_names(v),
        v.len() > 0,
    ensures
        parts_of(rooted_path(v)) == seq![Seq::<char>::empty()] + v,
        places_of(rooted_path(v)) == Seq::new(v.len(), |i: int| i + 1),
        is_rooted(rooted_path(v)),
{
    let none = Seq::<char>::empty();
    let parts = seq![none] + v;
    assert forall|i: int| 0 <= i < parts.len() implies !(#[trigger] parts[i]).contains('/') by {
        if i > 0 {
            assert(parts[i] == v[i - 1]);
        }
    }
    text::law_joined_parts_split_again(parts, '/');
    lemma_places_of_names(v, parts.len() as int);
    assert(Seq::new((parts.len() - 1) as nat, |i: int| i + 1) =~= Seq::new(v.len(), |i: int| i + 1));
    text::lemma_joined_prepend(none, v, seq!['/']);
    assert(none + seq!['/'] + text::joined(v, seq!['/']) == rooted_path(v));
    assert(rooted_path(v)[0] == '/');
}

proof fn lemma_places_of_names(v: Seq<Seq<char>>, n: int)
    requires
        plain_names(v),
        1 <= n <= v.len() + 1,
    ensures
        places(seq![Seq::<char>::empty()] + v, n) == Seq::new((n - 1) as nat, |i: int| i + 1),
    decreases n,
{
    let parts = seq![Seq::<char>::empty()] + v;
    if n == 1 {
        assert(places(parts, 0) =~= Seq::<int>::empty());
        assert(!is_component(parts, 0));
        assert(places(parts, 1) =~= Seq::new(0, |i: int| i + 1));
    } else {
        lemma_places_of_names(v, n - 1);
        assert(parts[n - 1] == v[n - 2]);
        assert(is_component(parts, n - 1));
        assert(places(parts, n) =~= Seq::new((n - 1) as nat, |i: int| i + 1));
    }
}

/// A path below a directory is shown from there: without the directory's own
/// names, and as nothing where it is the directory itself.
pub proof fn law_a_path_is_relative_to_what_it_is_below(
    base: Seq<Seq<char>>,
    rest: Seq<Seq<char>>,
)
    requires
        base.len() > 0,
        plain_names(base),
        plain_names(rest),
    ensures
        relative(rooted_path(base + rest), rooted_path(base)) == Some(
            text::joined(rest, seq!['/']),
        ),
{
    reveal_strlit("/");
    assert("/"@ =~= seq!['/']);
    let all = base + rest;
    assert(plain_names(all)) by {
        assert forall|i: int| 0 <= i < all.len() implies (#[trigger] all[i]).len() > 0
            && !all[i].contains('/') && all[i] != "."@ && all[i] != ".."@ by {
            if i < base.len() {
                assert(all[i] == base[i]);
            } else {
                assert(all[i] == rest[i - base.len()]);
            }
        }
    }
    lemma_rooted_path(all);
    lemma_rooted_path(base);
    let path = rooted_path(all);
    let at = places_of(path);
    let n = base.len() as int;
    assert(starts_within(path, rooted_path(base))) by {
        assert forall|k: int| 0 <= k < places_of(rooted_path(base)).len() implies parts_of(
            rooted_path(base),
        )[#[trigger] places_of(rooted_path(base))[k]] == parts_of(path)[places_of(path)[k]] by {
            assert(parts_of(path)[k + 1] == all[k]);
        }
    }
    if rest.len() > 0 {
        assert(at[n] == n + 1);
        assert(at.last() == all.len());
        assert(parts_of(path).subrange(n + 1, (all.len() + 1) as int) =~= rest);
    } else {
        assert(text::joined(rest, seq!['/']) =~= Seq::<char>::empty());
    }
}

/// A path that is not below a directory is not shown from there.
pub proof fn law_a_path_elsewhere_is_not_relative(
    base: Seq<Seq<char>>,
    names: Seq<Seq<char>>,
    k: int,
)
    requires
        base.len() > 0,
        names.len() > 0,
        plain_names(base),
        plain_names(names),
        0 <= k < base.len(),
        k >= names.len() || names[k] != base[k],
    ensures
        relative(rooted_path(names), rooted_path(base)) is None,
{
    lemma_rooted_path(names);
    lemma_rooted_path(base);
    let path = rooted_path(names);
    let root = rooted_path(base);
    if starts_within(path, root) {
        assert(places_of(root).len() <= places_of(path).len());
        assert(places_of(root)[k] == k + 1);
        assert(parts_of(root)[places_of(root)[k]] == parts_of(path)[places_of(path)[k]]);
        assert(parts_of(root)[k + 1] == base[k]);
        assert(parts_of(path)[k + 1] == names[k]);
    }
}

/// The name of a file is the last name of its path.
pub proof fn law_the_name_is_the_last_of_the_path(names: Seq<Seq<char>>)
    requires
        names.len() > 0,
        plain_names(names),
    ensures
        last_name(rooted_path(names)) == Some(names.last()),
{
    lemma_rooted_path(names);
    let at = places_of(rooted_path(names));
    assert(at.last() == names.len());
    assert(parts_of(rooted_path(names))[names.len() as int] == names[names.len() - 1]);
}

/// A path is shown from the working directory where it is below it, as a dot where
/// it is that directory; else behind a tilde where it is below home; else whole.
pub proof fn law_paths_are_shown_short(
    path: Seq<char>,
    cwd: Seq<char>,
    home: Seq<char>,
    rel: Seq<char>,
)
    ensures
        relative(path, cwd) == Some(rel) && rel.len() > 0 ==> shortened(path, cwd, Some(home))
            == rel && shortened(path, cwd, None) == rel,
        relative(path, cwd) == Some(rel) && rel.len() == 0 ==> shortened(path, cwd, Some(home))
            == seq!['.'],
        relative(path, cwd) is None && relative(path, home) == Some(rel) ==> shortened(
            path,
            cwd,
            Some(home),
        ) == seq!['~', '/'] + rel,
        relative(path, cwd) is None && relative(path, home) is None ==> shortened(
            path,
            cwd,
            Some(home),
        ) == path,
        relative(path, cwd) is None ==> shortened(path, cwd, None) == path,
{
    reveal_strlit(".");
    reveal_strlit("~/");
    assert("."@ =~= seq!['.']);
    assert("~/"@ =~= seq!['~', '/']);
}

/// A target has the path as given, the path resolved, and the path as shown.
pub proof fn law_a_target_is_resolved_and_shown(
    t: Target,
    raw: Seq<char>,
    cwd: Seq<char>,
    home: Option<Seq<char>>,
)
    requires
        t.is_of(raw, cwd, home),
    ensures
        t.raw@ == raw,
        t.path@ == resolved(raw, cwd, home),
        t.display@ == shortened(t.path@, cwd, home),
{
}

/// Without a path the working directory is meant.
pub proof fn law_no_path_means_here(path: Option<String>)
    ensures
        path matches Some(p) ==> or_here(path) == p@,
        path is None ==> or_here(path) == seq!['.'],
{
    reveal_strlit(".");
    assert("."@ =~= seq!['.']);
}

/// The components of a path are its parts that are not empty and, but for the first,
/// not a dot, in their order.
pub proof fn law_components_leave_out_empty_parts_and_dots(parts: Seq<Seq<char>>, n: int)
    requires
        0 <= n <= parts.len(),
    ensures
        forall|i: int| #[trigger]
            places(parts, n).contains(i) <==> 0 <= i < n && parts[i].len() > 0 && (i == 0
                || parts[i] != seq!['.']),
        forall|j: int, k: int|
            0 <= j < k < places(parts, n).len() ==> places(parts, n)[j] < places(parts, n)[k],
    decreases n,
{
    reveal_strlit(".");
    assert("."@ =~= seq!['.']);
    if n > 0 {
        law_components_leave_out_empty_parts_and_dots(parts, n - 1);
        let before = places(parts, n - 1);
        let all = places(parts, n);
        assert forall|i: int| #[trigger] all.contains(i) <==> 0 <= i < n && parts[i].len() > 0 && (i
            == 0 || parts[i] != seq!['.']) by {
            if before.contains(i) {
                let k = choose|k: int| 0 <= k < before.len() && before[k] == i;
                assert(all[k] == i);
            }
            if all.contains(i) {
                let k = choose|k: int| 0 <= k < all.len() && all[k] == i;
                if k < before.len() {
                    assert(before[k] == i);
                }
            }
            if i == n - 1 && is_component(parts, i) {
                assert(all[all.len() - 1] == i);
            }
        }
        assert forall|j: int, k: int| 0 <= j < k < all.len() implies all[j] < all[k] by {
            assert(before.contains(before[j]));
            assert(all[j] == before[j]);
            if k < before.len() {
                assert(all[k] == before[k]);
            }
        }
    }
}

/// A path is relative to a directory just where both are absolute or both are not,
/// and the directory's components are the first of the path's.
pub proof fn law_relative_paths_share_their_first_components(path: Seq<char>, base: Seq<char>)
    requires
        base.len() > 0,
    ensures
        relative(path, base) is Some <==> {
            &&& (path.len() > 0 && path[0] == '/') == (base[0] == '/')
            &&& places_of(base).len() <= places_of(path).len()
            &&& forall|k: int|
                0 <= k < places_of(base).len() ==> parts_of(base)[#[trigger] places_of(base)[k]]
                    == parts_of(path)[places_of(path)[k]]
        },
{
}

} // verus!
