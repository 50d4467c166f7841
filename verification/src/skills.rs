//! Skill parsing and the skill registry.
//!
//! A skill is a directory with a `SKILL.md`, which begins with a small
//! frontmatter (`name`, `description`) followed by the markdown body. Only name
//! and description are surfaced up front; the body is loaded when the skill is
//! invoked. Other frontmatter keys are ignored.

use vstd::prelude::*;
use vstd::seq_lib::to_multiset_insert;

use crate::text;
use crate::tools::edit_diff::BOM;
use crate::tools::order;
use crate::tools::util;

verus! {

/// Where a skill was discovered.
#[derive(Debug, Clone, Copy, PartialEq, Eq, Structural)]
pub enum SkillSource {
    /// The project's skills take precedence over the user's.
    Project,
    User,
}

/// One discovered skill.
#[derive(Debug)]
pub struct Skill {
    pub name: String,
    pub description: String,
    /// The markdown body (after the frontmatter).
    pub body: String,
    /// The skill's directory: supporting files live here.
    pub dir: String,
    pub source: SkillSource,
}

pub ghost struct SkillView {
    pub name: Seq<char>,
    pub description: Seq<char>,
    pub body: Seq<char>,
    pub dir: Seq<char>,
    pub source: SkillSource,
}

impl View for Skill {
    type V = SkillView;

    open spec fn view(&self) -> SkillView {
        SkillView {
            name: self.name@,
            description: self.description@,
            body: self.body@,
            dir: self.dir@,
            source: self.source,
        }
    }
}

pub open spec fn skill_views(v: Seq<Skill>) -> Seq<SkillView> {
    v.map_values(|s: Skill| s@)
}

impl Clone for Skill {
    fn clone(&self) -> (r: Skill)
        ensures
            r@ == self@,
    {
        Skill {
            name: self.name.clone(),
            description: self.description.clone(),
            body: self.body.clone(),
            dir: self.dir.clone(),
            source: self.source,
        }
    }
}

/// The set of discovered skills.
#[derive(Debug)]
pub struct Skills {
    pub skills: Vec<Skill>,
}

// ---------------------------------------------------------------------------
// Frontmatter
// ---------------------------------------------------------------------------

pub open spec fn is_fence(line: Seq<char>) -> bool {
    text::trimmed(line) == "---"@
}

/// A line that ends the frontmatter.
pub open spec fn is_closing(line: Seq<char>) -> bool {
    text::trimmed(line) == "---"@ || text::trimmed(line) == "..."@
}

/// The first closing line from `i` on.
pub open spec fn closing_line(lines: Seq<Seq<char>>, i: int) -> Option<int>
    decreases lines.len() - i,
{
    if i < 0 || i >= lines.len() {
        None
    } else if is_closing(lines[i]) {
        Some(i)
    } else {
        closing_line(lines, i + 1)
    }
}

pub open spec fn without_bom(s: Seq<char>) -> Seq<char> {
    if s.len() > 0 && s[0] == BOM {
        s.skip(1)
    } else {
        s
    }
}

/// The frontmatter, if there is one, and the body.
pub open spec fn split_of(raw: Seq<char>) -> (Option<Seq<char>>, Seq<char>) {
    let s = without_bom(raw);
    let lines = text::pieces(s, '\n');
    match closing_line(lines, 1) {
        Some(close) => if is_fence(lines[0]) {
            (
                Some(text::joined(lines.subrange(1, close), "\n"@)),
                text::joined(lines.skip(close + 1), "\n"@),
            )
        } else {
            (None, s)
        },
        None => (None, s),
    }
}

fn closing_at(lines: &Vec<String>) -> (r: Option<usize>)
    ensures
        match r {
            Some(i) => closing_line(text::views(lines@), 1) == Some(i as int) && 1 <= i
                < lines@.len(),
            None => closing_line(text::views(lines@), 1) is None,
        },
{
    let ghost all = text::views(lines@);
    let mut i: usize = 1;
    while i < lines.len()
        invariant
            all == text::views(lines@),
            1 <= i,
            closing_line(all, 1) == closing_line(all, i as int),
        decreases lines@.len() - i,
    {
        assert(all[i as int] == lines@[i as int]@);
        let t: String = text::trim(lines[i].as_str());
        if text::same(t.as_str(), "---") || text::same(t.as_str(), "...") {
            return Some(i);
        }
        i += 1;
    }
    None
}

fn join_lines(lines: &Vec<String>, lo: usize, hi: usize) -> (r: String)
    requires
        lo <= hi <= lines@.len(),
    ensures
        r@ == text::joined(text::views(lines@).subrange(lo as int, hi as int), "\n"@),
{
    let ghost all = text::views(lines@);
    let mut kept: Vec<String> = Vec::new();
    let mut i: usize = lo;
    assert(text::views(kept@) =~= all.subrange(lo as int, lo as int));
    while i < hi
        invariant
            all == text::views(lines@),
            lo <= i <= hi <= lines@.len(),
            text::views(kept@) == all.subrange(lo as int, i as int),
        decreases hi - i,
    {
        let s: String = lines[i].clone();
        proof {
            text::lemma_views_push(kept@, s);
            assert(all.subrange(lo as int, i + 1) =~= all.subrange(lo as int, i as int).push(s@));
        }
        kept.push(s);
        i += 1;
    }
    text::join(&kept, "\n")
}

/// Split a `SKILL.md` into `(frontmatter, body)`. Frontmatter is delimited by a
/// leading `---` line and a closing `---` (or `...`) line. Returns
/// `(None, whole_file)` when there is no frontmatter.
pub fn split_frontmatter(raw: &str) -> (r: (Option<String>, String))
    ensures
        (text::opt_view(r.0), r.1@) == split_of(raw@),
{
    let v: Vec<char> = text::chars_of(raw);
    let body: String = if v.len() > 0 && v[0] == BOM {
        let s: String = text::string_of(&v, 1, v.len());
        assert(s@ =~= raw@.skip(1));
        s
    } else {
        raw.to_string()
    };
    let lines: Vec<String> = text::split(body.as_str(), '\n');
    let ghost all = text::pieces(body@, '\n');
    proof {
        text::lemma_pieces_nonempty(body@, '\n');
        assert(all.len() == lines@.len());
        assert(all[0] == lines@[0]@);
    }
    let total: usize = lines.len();
    let first: String = text::trim(lines[0].as_str());
    if text::same(first.as_str(), "---") {
        if let Some(close) = closing_at(&lines) {
            let fm: String = join_lines(&lines, 1, close);
            let rest: String = join_lines(&lines, close + 1, total);
            assert(all.subrange(close + 1, total as int) =~= all.skip(close + 1));
            return (Some(fm), rest);
        }
    }
    (None, body)
}

#[derive(Debug)]
pub struct ParsedFrontmatter {
    pub name: String,
    pub description: String,
}

/// A text without the quotes around it.
pub open spec fn unquoted(s: Seq<char>) -> Seq<char> {
    let t = text::trimmed(s);
    if t.len() >= 2 && ((t[0] == '"' && t.last() == '"') || (t[0] == '\'' && t.last() == '\'')) {
        t.subrange(1, t.len() - 1)
    } else {
        t
    }
}

/// A line that is no top-level key.
pub open spec fn is_indented(line: Seq<char>) -> bool {
    line.len() > 0 && (line[0] == ' ' || line[0] == '\t')
}

/// The value that a line gives to `key`, if it does.
pub open spec fn line_value(line: Seq<char>, key: Seq<char>) -> Option<Seq<char>> {
    if is_indented(line) {
        None
    } else {
        match text::cut_at_first(line, ':') {
            Some((k, v)) => if text::trimmed(k) == key {
                Some(unquoted(v))
            } else {
                None
            },
            None => None,
        }
    }
}

/// The value that `lines` give to `key`: the last one counts, and none is the
/// empty text.
pub open spec fn value_of(lines: Seq<Seq<char>>, key: Seq<char>) -> Seq<char>
    decreases lines.len(),
{
    if lines.len() == 0 {
        Seq::empty()
    } else {
        match line_value(lines.last(), key) {
            Some(v) => v,
            None => value_of(lines.drop_last(), key),
        }
    }
}

pub fn unquote(s: &str) -> (r: String)
    ensures
        r@ == unquoted(s@),
{
    let t: String = text::trim(s);
    let v: Vec<char> = text::chars_of(t.as_str());
    let n: usize = v.len();
    if n >= 2 && ((v[0] == '"' && v[n - 1] == '"') || (v[0] == '\'' && v[n - 1] == '\'')) {
        text::string_of(&v, 1, n - 1)
    } else {
        t
    }
}

/// The two keys differ.
proof fn lemma_names_differ()
    ensures
        "name"@ != "description"@,
{
    reveal_strlit("name");
    reveal_strlit("description");
    assert("name"@.len() != "description"@.len());
}

/// Parse the small subset of frontmatter that skills use: scalar `name` and
/// `description`. Every other key (and all indented lines) is ignored.
pub fn parse_frontmatter(fm: &str) -> (r: ParsedFrontmatter)
    ensures
        r.name@ == value_of(text::lines_of(fm@), "name"@),
        r.description@ == value_of(text::lines_of(fm@), "description"@),
{
    let lines: Vec<String> = text::lines(fm);
    let ghost all = text::lines_of(fm@);
    let mut name: String = String::new();
    let mut description: String = String::new();
    let mut i: usize = 0;
    proof {
        lemma_names_differ();
    }
    while i < lines.len()
        invariant
            all == text::views(lines@),
            i <= lines@.len(),
            "name"@ != "description"@,
            name@ == value_of(all.take(i as int), "name"@),
            description@ == value_of(all.take(i as int), "description"@),
        decreases lines@.len() - i,
    {
        proof {
            assert(all.take(i + 1).drop_last() =~= all.take(i as int));
            assert(all.take(i + 1).last() == lines@[i as int]@);
        }
        let line: &String = &lines[i];
        let v: Vec<char> = text::chars_of(line.as_str());
        if v.len() > 0 && (v[0] == ' ' || v[0] == '\t') {
        } else if let Some((k, value)) = text::split_once(line.as_str(), ':') {
            let key: String = text::trim(k.as_str());
            if text::same(key.as_str(), "name") {
                name = unquote(value.as_str());
            } else if text::same(key.as_str(), "description") {
                description = unquote(value.as_str());
            }
        }
        i += 1;
    }
    assert(all.take(all.len() as int) =~= all);
    ParsedFrontmatter { name, description }
}

// ---------------------------------------------------------------------------
// Skills
// ---------------------------------------------------------------------------

/// The skill that a `SKILL.md` in `dir` defines: without a name of its own it
/// goes by the directory's.
pub open spec fn skill_of(raw: Seq<char>, dir: Seq<char>, source: SkillSource) -> Option<SkillView> {
    let (fm, body) = split_of(raw);
    let lines = match fm {
        Some(f) => text::lines_of(f),
        None => Seq::empty(),
    };
    let named = value_of(lines, "name"@);
    match util::last_name(dir) {
        None => None,
        Some(dir_name) => Some(
            SkillView {
                name: if named.len() > 0 {
                    named
                } else {
                    dir_name
                },
                description: value_of(lines, "description"@),
                body,
                dir,
                source,
            },
        ),
    }
}

pub open spec fn opt_skill(o: Option<Skill>) -> Option<SkillView> {
    match o {
        Some(s) => Some(s@),
        None => None,
    }
}

/// Parse the content of a `SKILL.md`. Falls back to the directory name and an
/// empty description when frontmatter is absent.
pub fn parse_skill_file(raw: &str, dir: &str, source: SkillSource) -> (r: Option<Skill>)
    ensures
        opt_skill(r) == skill_of(raw@, dir@, source),
{
    let (fm, body): (Option<String>, String) = split_frontmatter(raw);
    let parsed: ParsedFrontmatter = match fm {
        Some(f) => parse_frontmatter(f.as_str()),
        None => ParsedFrontmatter { name: String::new(), description: String::new() },
    };
    let dir_name: String = match util::file_name(dir) {
        Some(n) => n,
        None => {
            return None;
        },
    };
    let name: String = if parsed.name.as_str().is_empty() {
        dir_name
    } else {
        parsed.name
    };
    Some(Skill { name, description: parsed.description, body, dir: dir.to_string(), source })
}

/// What stands in a directory of skills: a directory or not, and the content of
/// the `SKILL.md` in it, if it has one that can be read.
#[derive(Debug)]
pub struct RootEntry {
    pub path: String,
    pub is_dir: bool,
    pub skill_md: Option<String>,
}

pub ghost struct RootEntryView {
    pub path: Seq<char>,
    pub is_dir: bool,
    pub skill_md: Option<Seq<char>>,
}

impl View for RootEntry {
    type V = RootEntryView;

    open spec fn view(&self) -> RootEntryView {
        RootEntryView {
            path: self.path@,
            is_dir: self.is_dir,
            skill_md: match self.skill_md {
                Some(raw) => Some(raw@),
                None => None,
            },
        }
    }
}

/// A directory of skills and what stands in it, in any order; nothing is known
/// of a directory that is missing.
#[derive(Debug)]
pub struct SkillRoot {
    pub source: SkillSource,
    pub entries: Option<Vec<RootEntry>>,
}

pub ghost struct SkillRootView {
    pub source: SkillSource,
    pub entries: Option<Seq<RootEntryView>>,
}

pub open spec fn entry_views(v: Seq<RootEntry>) -> Seq<RootEntryView> {
    v.map_values(|e: RootEntry| e@)
}

impl View for SkillRoot {
    type V = SkillRootView;

    open spec fn view(&self) -> SkillRootView {
        SkillRootView {
            source: self.source,
            entries: match self.entries {
                Some(v) => Some(entry_views(v@)),
                None => None,
            },
        }
    }
}

pub open spec fn root_views(v: Seq<SkillRoot>) -> Seq<SkillRootView> {
    v.map_values(|r: SkillRoot| r@)
}

/// Where a path belongs among the first `n` entries: behind the last that does
/// not stand after it.
pub open spec fn place_of(v: Seq<RootEntryView>, path: Seq<char>, n: int) -> int
    decreases n,
{
    if n <= 0 {
        0
    } else if order::text_le(v[n - 1].path, path) {
        n
    } else {
        place_of(v, path, n - 1)
    }
}

/// The entries in the order of their paths.
pub open spec fn in_path_order(v: Seq<RootEntryView>) -> Seq<RootEntryView>
    decreases v.len(),
{
    if v.len() == 0 {
        v
    } else {
        let before = in_path_order(v.drop_last());
        before.insert(place_of(before, v.last().path, before.len() as int), v.last())
    }
}

/// A `SKILL.md` that was found: the directory it is in, and its content.
pub ghost struct SkillFileView {
    pub dir: Seq<char>,
    pub raw: Seq<char>,
    pub source: SkillSource,
}

/// The skill file of an entry: plain files, and directories without a
/// `SKILL.md`, have none.
pub open spec fn file_of(e: RootEntryView, source: SkillSource) -> Option<SkillFileView> {
    match e.skill_md {
        Some(raw) => if e.is_dir {
            Some(SkillFileView { dir: e.path, raw, source })
        } else {
            None
        },
        None => None,
    }
}

pub open spec fn files_of(v: Seq<RootEntryView>, source: SkillSource) -> Seq<SkillFileView>
    decreases v.len(),
{
    if v.len() == 0 {
        Seq::empty()
    } else {
        let before = files_of(v.drop_last(), source);
        match file_of(v.last(), source) {
            Some(f) => before.push(f),
            None => before,
        }
    }
}

/// The skill files below a root, in the order of their paths.
pub open spec fn root_files(r: SkillRootView) -> Seq<SkillFileView> {
    match r.entries {
        Some(v) => files_of(in_path_order(v), r.source),
        None => Seq::empty(),
    }
}

/// The skill files below all roots, one root after the other.
pub open spec fn found_files(roots: Seq<SkillRootView>) -> Seq<SkillFileView>
    decreases roots.len(),
{
    if roots.len() == 0 {
        Seq::empty()
    } else {
        found_files(roots.drop_last()) + root_files(roots.last())
    }
}

pub open spec fn has_skill(v: Seq<SkillView>, name: Seq<char>) -> bool {
    exists|i: int| 0 <= i < v.len() && (#[trigger] v[i]).name == name
}

/// The skills that files define: of those with the same name, the first.
pub open spec fn discovered(files: Seq<SkillFileView>) -> Seq<SkillView>
    decreases files.len(),
{
    if files.len() == 0 {
        Seq::empty()
    } else {
        let before = discovered(files.drop_last());
        let f = files.last();
        match skill_of(f.raw, f.dir, f.source) {
            Some(s) => if has_skill(before, s.name) {
                before
            } else {
                before.push(s)
            },
            None => before,
        }
    }
}

/// The first skill of that name, from `i` on.
pub open spec fn skill_named(v: Seq<SkillView>, name: Seq<char>, i: int) -> Option<SkillView>
    decreases v.len() - i,
{
    if i < 0 || i >= v.len() {
        None
    } else if v[i].name == name {
        Some(v[i])
    } else {
        skill_named(v, name, i + 1)
    }
}

pub open spec fn skill_names(v: Seq<SkillView>) -> Seq<Seq<char>> {
    v.map_values(|s: SkillView| s.name)
}

/// Where skills are looked for: below the project's directory, then below the
/// home directory, each in `skills` of the hidden directory `hidden`.
pub fn skill_roots(cwd: &str, home: Option<&str>, hidden: &str) -> (r: Vec<(String, SkillSource)>)
    ensures
        r@.len() == (if home is Some {
            2int
        } else {
            1
        }),
        r@[0].0@ == util::joined_path(util::joined_path(cwd@, hidden@), "skills"@),
        r@[0].1 == SkillSource::Project,
        home matches Some(h) ==> r@[1].0@ == util::joined_path(
            util::joined_path(h@, hidden@),
            "skills"@,
        ) && r@[1].1 == SkillSource::User,
{
    let mut out: Vec<(String, SkillSource)> = Vec::new();
    let below: String = util::join_path(cwd, hidden);
    out.push((util::join_path(below.as_str(), "skills"), SkillSource::Project));
    if let Some(h) = home {
        let below: String = util::join_path(h, hidden);
        out.push((util::join_path(below.as_str(), "skills"), SkillSource::User));
    }
    out
}

/// The entries that stand at `places`, one after the other.
spec fn placed(entries: Seq<RootEntry>, places: Seq<usize>) -> Seq<RootEntryView> {
    places.map_values(|k: usize| entries[k as int]@)
}

spec fn all_places(entries: Seq<RootEntry>, places: Seq<usize>) -> bool {
    forall|k: int| 0 <= k < places.len() ==> #[trigger] places[k] < entries.len()
}

/// Where the entries stand, in the order of their paths.
fn path_order(entries: &Vec<RootEntry>) -> (r: Vec<usize>)
    ensures
        all_places(entries@, r@),
        placed(entries@, r@) == in_path_order(entry_views(entries@)),
{
    let ghost all = entry_views(entries@);
    let mut out: Vec<usize> = Vec::new();
    let mut i: usize = 0;
    assert(placed(entries@, out@) =~= all.take(0));
    while i < entries.len()
        invariant
            all == entry_views(entries@),
            i <= entries@.len(),
            all_places(entries@, out@),
            placed(entries@, out@) == in_path_order(all.take(i as int)),
        decreases entries@.len() - i,
    {
        let ghost before = placed(entries@, out@);
        let ghost path = entries@[i as int].path@;
        proof {
            assert(all.take(i + 1).drop_last() =~= all.take(i as int));
            assert(all.take(i + 1).last() == entries@[i as int]@);
        }
        let mut n: usize = out.len();
        while n > 0 && !order::text_not_after(
            entries[out[n - 1]].path.as_str(),
            entries[i].path.as_str(),
        )
            invariant
                i < entries@.len(),
                path == entries@[i as int].path@,
                all_places(entries@, out@),
                before == placed(entries@, out@),
                n <= out@.len(),
                place_of(before, path, n as int) == place_of(before, path, before.len() as int),
            decreases n,
        {
            assert(before[n - 1] == entries@[out@[n - 1] as int]@);
            n -= 1;
        }
        proof {
            if n > 0 {
                assert(before[n - 1] == entries@[out@[n - 1] as int]@);
            }
        }
        let ghost held = out@;
        out.insert(n, i);
        proof {
            assert(placed(entries@, out@) =~= before.insert(n as int, entries@[i as int]@));
            assert forall|k: int| 0 <= k < out@.len() implies #[trigger] out@[k]
                < entries@.len() by {
                if k < n {
                    assert(out@[k] == held[k]);
                } else if k > n {
                    assert(out@[k] == held[k - 1]);
                }
            }
        }
        i += 1;
    }
    assert(all.take(all.len() as int) =~= all);
    out
}

impl Skills {
    pub fn empty() -> (r: Skills)
        ensures
            skill_views(r.skills@) == Seq::<SkillView>::empty(),
    {
        let skills: Vec<Skill> = Vec::new();
        assert(skill_views(skills@) =~= Seq::<SkillView>::empty());
        Skills { skills }
    }

    /// Discover skills below `roots`: an entry that is a directory with a
    /// `SKILL.md` is one. Earlier roots shadow later ones, and below one root
    /// the entry with the least path shadows the others.
    pub fn discover_from_roots(roots: &Vec<SkillRoot>) -> (r: Skills)
        ensures
            skill_views(r.skills@) == discovered(found_files(root_views(roots@))),
    {
        let ghost all = root_views(roots@);
        let mut out: Skills = Skills::empty();
        let mut i: usize = 0;
        while i < roots.len()
            invariant
                all == root_views(roots@),
                i <= roots@.len(),
                skill_views(out.skills@) == discovered(found_files(all.take(i as int))),
            decreases roots@.len() - i,
        {
            proof {
                assert(all.take(i + 1).drop_last() =~= all.take(i as int));
                assert(all.take(i + 1).last() == roots@[i as int]@);
            }
            let ghost found = found_files(all.take(i as int));
            match &roots[i].entries {
                Some(entries) => {
                    out.take_entries(entries, roots[i].source, Ghost(found));
                },
                None => {
                    assert(found + Seq::<SkillFileView>::empty() =~= found);
                },
            }
            i += 1;
        }
        assert(all.take(all.len() as int) =~= all);
        out
    }

    /// Add the skills of one root to those found before.
    fn take_entries(
        &mut self,
        entries: &Vec<RootEntry>,
        source: SkillSource,
        Ghost(found): Ghost<Seq<SkillFileView>>,
    )
        requires
            skill_views(old(self).skills@) == discovered(found),
        ensures
            skill_views(final(self).skills@) == discovered(
                found + files_of(in_path_order(entry_views(entries@)), source),
            ),
    {
        let places: Vec<usize> = path_order(entries);
        let ghost all = in_path_order(entry_views(entries@));
        let mut i: usize = 0;
        assert(found + files_of(all.take(0), source) =~= found);
        while i < places.len()
            invariant
                all == in_path_order(entry_views(entries@)),
                all == placed(entries@, places@),
                all_places(entries@, places@),
                i <= places@.len(),
                skill_views(self.skills@) == discovered(
                    found + files_of(all.take(i as int), source),
                ),
            decreases places@.len() - i,
        {
            let e: &RootEntry = &entries[places[i]];
            let ghost before = found + files_of(all.take(i as int), source);
            let ghost after = found + files_of(all.take(i + 1), source);
            proof {
                assert(all.take(i + 1).drop_last() =~= all.take(i as int));
                assert(all.take(i + 1).last() == e@);
                match file_of(e@, source) {
                    Some(f) => {
                        assert(after =~= before.push(f));
                        assert(after.drop_last() =~= before);
                    },
                    None => {},
                }
            }
            if e.is_dir {
                if let Some(raw) = &e.skill_md {
                    if let Some(s) = parse_skill_file(raw.as_str(), e.path.as_str(), source) {
                        if !self.has(s.name.as_str()) {
                            assert(skill_views(self.skills@.push(s)) =~= skill_views(
                                self.skills@,
                            ).push(s@));
                            self.skills.push(s);
                        }
                    }
                }
            }
            i += 1;
        }
        assert(all.take(all.len() as int) =~= all);
    }

    fn has(&self, name: &str) -> (r: bool)
        ensures
            r == has_skill(skill_views(self.skills@), name@),
    {
        let ghost all = skill_views(self.skills@);
        let mut i: usize = 0;
        while i < self.skills.len()
            invariant
                all == skill_views(self.skills@),
                i <= self.skills@.len(),
                forall|k: int| 0 <= k < i ==> (#[trigger] all[k]).name != name@,
            decreases self.skills@.len() - i,
        {
            assert(all[i as int] == self.skills@[i as int]@);
            if text::same(self.skills[i].name.as_str(), name) {
                return true;
            }
            i += 1;
        }
        false
    }

    pub fn find(&self, name: &str) -> (r: Option<&Skill>)
        ensures
            match r {
                Some(s) => skill_named(skill_views(self.skills@), name@, 0) == Some(s@),
                None => skill_named(skill_views(self.skills@), name@, 0) is None,
            },
    {
        let ghost all = skill_views(self.skills@);
        let mut i: usize = 0;
        while i < self.skills.len()
            invariant
                all == skill_views(self.skills@),
                i <= self.skills@.len(),
                skill_named(all, name@, 0) == skill_named(all, name@, i as int),
            decreases self.skills@.len() - i,
        {
            assert(all[i as int] == self.skills@[i as int]@);
            if text::same(self.skills[i].name.as_str(), name) {
                return Some(&self.skills[i]);
            }
            i += 1;
        }
        None
    }

    pub fn names(&self) -> (r: Vec<String>)
        ensures
            text::views(r@) == skill_names(skill_views(self.skills@)),
    {
        let ghost all = skill_names(skill_views(self.skills@));
        let mut out: Vec<String> = Vec::new();
        let mut i: usize = 0;
        assert(text::views(out@) =~= all.take(0));
        while i < self.skills.len()
            invariant
                all == skill_names(skill_views(self.skills@)),
                i <= self.skills@.len(),
                text::views(out@) == all.take(i as int),
            decreases self.skills@.len() - i,
        {
            let n: String = self.skills[i].name.clone();
            proof {
                text::lemma_views_push(out@, n);
                assert(skill_views(self.skills@)[i as int] == self.skills@[i as int]@);
                assert(all.take(i + 1) =~= all.take(i as int).push(n@));
            }
            out.push(n);
            i += 1;
        }
        assert(all.take(all.len() as int) =~= all);
        out
    }
}

// ---------------------------------------------------------------------------
// Laws
// ---------------------------------------------------------------------------

/// No two discovered skills have the same name.
pub proof fn law_skill_names_are_unique(files: Seq<SkillFileView>)
    ensures
        forall|i: int, j: int|
            0 <= i < j < discovered(files).len() ==> (#[trigger] discovered(files)[i]).name != (
            #[trigger] discovered(files)[j]).name,
    decreases files.len(),
{
    if files.len() > 0 {
        law_skill_names_are_unique(files.drop_last());
        let before = discovered(files.drop_last());
        let all = discovered(files);
        assert forall|i: int, j: int| 0 <= i < j < all.len() implies (#[trigger] all[i]).name != (
        #[trigger] all[j]).name by {
            if j < before.len() {
                assert(before[i].name != before[j].name);
            } else {
                assert(all[i] == before[i]);
                assert(before[i].name != all[j].name);
            }
        }
    }
}

/// The skill of the first file that defines one of that name.
pub open spec fn first_defining(files: Seq<SkillFileView>, name: Seq<char>) -> Option<SkillView>
    decreases files.len(),
{
    if files.len() == 0 {
        None
    } else {
        match first_defining(files.drop_last(), name) {
            Some(s) => Some(s),
            None => if defines(files.last(), name) {
                skill_of(files.last().raw, files.last().dir, files.last().source)
            } else {
                None
            },
        }
    }
}

pub open spec fn defines(f: SkillFileView, name: Seq<char>) -> bool {
    match skill_of(f.raw, f.dir, f.source) {
        Some(s) => s.name == name,
        None => false,
    }
}

proof fn lemma_named_push(v: Seq<SkillView>, x: SkillView, name: Seq<char>, i: int)
    requires
        0 <= i <= v.len(),
    ensures
        skill_named(v.push(x), name, i) == match skill_named(v, name, i) {
            Some(s) => Some(s),
            None => if x.name == name {
                Some(x)
            } else {
                None
            },
        },
    decreases v.len() - i,
{
    reveal_with_fuel(skill_named, 2);
    if i < v.len() && v[i].name != name {
        lemma_named_push(v, x, name, i + 1);
    }
}

proof fn lemma_named_if_there(v: Seq<SkillView>, name: Seq<char>, i: int)
    requires
        0 <= i <= v.len(),
    ensures
        skill_named(v, name, i) is Some <==> exists|k: int|
            i <= k < v.len() && (#[trigger] v[k]).name == name,
    decreases v.len() - i,
{
    if i < v.len() && v[i].name != name {
        lemma_named_if_there(v, name, i + 1);
    }
}

/// Under a name stands the skill of the first file that defines one of that
/// name.
pub proof fn law_the_first_file_of_a_name_wins(files: Seq<SkillFileView>, name: Seq<char>)
    ensures
        skill_named(discovered(files), name, 0) == first_defining(files, name),
    decreases files.len(),
{
    if files.len() > 0 {
        law_the_first_file_of_a_name_wins(files.drop_last(), name);
        let before = discovered(files.drop_last());
        let f = files.last();
        if let Some(s) = skill_of(f.raw, f.dir, f.source) {
            lemma_named_push(before, s, name, 0);
            lemma_named_if_there(before, s.name, 0);
        }
    }
}

proof fn lemma_first_defining_split(
    a: Seq<SkillFileView>,
    b: Seq<SkillFileView>,
    name: Seq<char>,
)
    ensures
        first_defining(a + b, name) == match first_defining(a, name) {
            Some(s) => Some(s),
            None => first_defining(b, name),
        },
    decreases b.len(),
{
    if b.len() == 0 {
        assert(a + b =~= a);
    } else {
        lemma_first_defining_split(a, b.drop_last(), name);
        assert((a + b).drop_last() =~= a + b.drop_last());
    }
}

/// Earlier roots shadow later ones: what is found under a name stays, whatever
/// root comes after; a name that is not taken is the later root's.
pub proof fn law_earlier_roots_shadow_later_ones(
    roots: Seq<SkillRootView>,
    later: SkillRootView,
    name: Seq<char>,
)
    ensures
        skill_named(discovered(found_files(roots.push(later))), name, 0) == match skill_named(
            discovered(found_files(roots)),
            name,
            0,
        ) {
            Some(s) => Some(s),
            None => skill_named(discovered(root_files(later)), name, 0),
        },
{
    assert(roots.push(later).drop_last() =~= roots);
    law_the_first_file_of_a_name_wins(found_files(roots.push(later)), name);
    law_the_first_file_of_a_name_wins(found_files(roots), name);
    law_the_first_file_of_a_name_wins(root_files(later), name);
    lemma_first_defining_split(found_files(roots), root_files(later), name);
}

proof fn lemma_place_of(v: Seq<RootEntryView>, path: Seq<char>, n: int)
    requires
        0 <= n <= v.len(),
        forall|i: int, j: int|
            #![trigger v[i], v[j]]
            0 <= i <= j < v.len() ==> order::text_le(v[i].path, v[j].path),
    ensures
        0 <= place_of(v, path, n) <= n,
        forall|k: int|
            0 <= k < place_of(v, path, n) ==> order::text_le((#[trigger] v[k]).path, path),
        forall|k: int|
            place_of(v, path, n) <= k < n ==> order::text_le(path, (#[trigger] v[k]).path),
    decreases n,
{
    let le = order::text_order();
    order::lemma_text_order();
    if n > 0 {
        if order::text_le(v[n - 1].path, path) {
            assert forall|k: int| 0 <= k < n implies order::text_le((#[trigger] v[k]).path, path) by {
                assert(order::text_le(v[k].path, v[n - 1].path));
                assert(le(v[k].path, v[n - 1].path) && le(v[n - 1].path, path));
            }
        } else {
            lemma_place_of(v, path, n - 1);
            assert(le(v[n - 1].path, path) || le(path, v[n - 1].path));
        }
    }
}

/// The entries of a root are taken in the order of their paths, every one of
/// them as often as it was listed.
pub proof fn law_entries_are_taken_in_path_order(v: Seq<RootEntryView>)
    ensures
        in_path_order(v).to_multiset() == v.to_multiset(),
        in_path_order(v).len() == v.len(),
        forall|i: int, j: int|
            #![trigger in_path_order(v)[i], in_path_order(v)[j]]
            0 <= i <= j < v.len() ==> order::text_le(
                in_path_order(v)[i].path,
                in_path_order(v)[j].path,
            ),
    decreases v.len(),
{
    if v.len() > 0 {
        let init = v.drop_last();
        let x = v.last();
        let before = in_path_order(init);
        law_entries_are_taken_in_path_order(init);
        lemma_place_of(before, x.path, before.len() as int);
        let at = place_of(before, x.path, before.len() as int);
        let w = before.insert(at, x);
        to_multiset_insert(before, at, x);
        to_multiset_insert(init, init.len() as int, x);
        assert(init.insert(init.len() as int, x) =~= v);
        let le = order::text_order();
        order::lemma_text_order();
        assert forall|i: int, j: int|
            #![trigger w[i], w[j]]
            0 <= i <= j < w.len() implies order::text_le(w[i].path, w[j].path) by {
            assert(le(w[i].path, w[i].path));
            if i < at {
                assert(w[i] == before[i]);
            } else if i > at {
                assert(w[i] == before[i - 1]);
            }
            if j < at {
                assert(w[j] == before[j]);
            } else if j > at {
                assert(w[j] == before[j - 1]);
            }
        }
    }
}

proof fn lemma_files_of(v: Seq<RootEntryView>, source: SkillSource)
    requires
        forall|i: int, j: int|
            #![trigger v[i], v[j]]
            0 <= i <= j < v.len() ==> order::text_le(v[i].path, v[j].path),
    ensures
        forall|i: int, j: int|
            #![trigger files_of(v, source)[i], files_of(v, source)[j]]
            0 <= i <= j < files_of(v, source).len() ==> order::text_le(
                files_of(v, source)[i].dir,
                files_of(v, source)[j].dir,
            ),
        forall|i: int|
            #![trigger files_of(v, source)[i]]
            0 <= i < files_of(v, source).len() ==> exists|k: int|
                0 <= k < v.len() && file_of(#[trigger] v[k], source) == Some(
                    files_of(v, source)[i],
                ),
        forall|k: int|
            0 <= k < v.len() ==> (file_of(#[trigger] v[k], source) matches Some(f)
                ==> files_of(v, source).contains(f)),
    decreases v.len(),
{
    if v.len() > 0 {
        let init = v.drop_last();
        assert forall|i: int, j: int|
            #![trigger init[i], init[j]]
            0 <= i <= j < init.len() implies order::text_le(init[i].path, init[j].path) by {
            assert(order::text_le(v[i].path, v[j].path));
        }
        lemma_files_of(init, source);
        let before = files_of(init, source);
        let all = files_of(v, source);
        assert forall|i: int| #![trigger all[i]] 0 <= i < all.len() implies exists|k: int|
            0 <= k < v.len() && file_of(#[trigger] v[k], source) == Some(all[i]) by {
            if i < before.len() {
                assert(all[i] == before[i]);
                let k = choose|k: int|
                    0 <= k < init.len() && file_of(#[trigger] init[k], source) == Some(before[i]);
                assert(v[k] == init[k]);
            } else {
                assert(file_of(v[v.len() - 1], source) == Some(all[i]));
            }
        }
        assert forall|i: int, j: int|
            #![trigger all[i], all[j]]
            0 <= i <= j < all.len() implies order::text_le(all[i].dir, all[j].dir) by {
            if j < before.len() {
                assert(all[i] == before[i]);
                assert(all[j] == before[j]);
            } else {
                let k = choose|k: int|
                    0 <= k < v.len() && file_of(#[trigger] v[k], source) == Some(all[i]);
                assert(order::text_le(v[k].path, v[v.len() - 1].path));
            }
        }
        assert forall|k: int| 0 <= k < v.len() implies (file_of(
            #[trigger] v[k],
            source,
        ) matches Some(f) ==> all.contains(f)) by {
            if let Some(f) = file_of(v[k], source) {
                if k < init.len() {
                    assert(v[k] == init[k]);
                    assert(before.contains(f));
                    let m = choose|m: int| 0 <= m < before.len() && before[m] == f;
                    assert(all[m] == f);
                } else {
                    assert(all[all.len() - 1] == f);
                }
            }
        }
    }
}

proof fn lemma_first_defining(files: Seq<SkillFileView>, name: Seq<char>)
    ensures
        match first_defining(files, name) {
            Some(s) => exists|i: int|
                0 <= i < files.len() && defines(#[trigger] files[i], name) && skill_of(
                    files[i].raw,
                    files[i].dir,
                    files[i].source,
                ) == Some(s) && forall|k: int| 0 <= k < i ==> !defines(#[trigger] files[k], name),
            None => forall|k: int| 0 <= k < files.len() ==> !defines(#[trigger] files[k], name),
        },
    decreases files.len(),
{
    if files.len() > 0 {
        let init = files.drop_last();
        lemma_first_defining(init, name);
        if let Some(s) = first_defining(init, name) {
            let i = choose|i: int|
                0 <= i < init.len() && defines(#[trigger] init[i], name) && skill_of(
                    init[i].raw,
                    init[i].dir,
                    init[i].source,
                ) == Some(s) && forall|k: int| 0 <= k < i ==> !defines(#[trigger] init[k], name);
            assert(files[i] == init[i]);
            assert forall|k: int| 0 <= k < i implies !defines(#[trigger] files[k], name) by {
                assert(files[k] == init[k]);
            }
        } else {
            assert forall|k: int| 0 <= k < files.len() - 1 implies !defines(
                #[trigger] files[k],
                name,
            ) by {
                assert(files[k] == init[k]);
            }
            if defines(files.last(), name) {
                assert(defines(files[files.len() - 1], name));
            }
        }
    }
}

/// Below one root the least path wins: where an entry defines a skill of a name,
/// the skill found under that name is one of the root's, and stands in no later
/// directory than the entry.
pub proof fn law_the_least_path_wins(
    v: Seq<RootEntryView>,
    source: SkillSource,
    name: Seq<char>,
    k: int,
)
    requires
        0 <= k < v.len(),
        file_of(v[k], source) is Some,
        defines(file_of(v[k], source)->0, name),
    ensures
        ({
            let found = skill_named(
                discovered(root_files(SkillRootView { source, entries: Some(v) })),
                name,
                0,
            );
            found is Some && order::text_le(found->0.dir, v[k].path) && found->0.source == source
        }),
{
    let sorted = in_path_order(v);
    let files = files_of(sorted, source);
    let f = file_of(v[k], source)->0;
    law_entries_are_taken_in_path_order(v);
    lemma_files_of(sorted, source);
    assert(files.contains(f)) by {
        broadcast use vstd::seq_lib::group_to_multiset_ensures;

        assert(v.contains(v[k]));
        assert(v.to_multiset().count(v[k]) > 0);
        assert(sorted.contains(v[k]));
        let m = choose|m: int| 0 <= m < sorted.len() && sorted[m] == v[k];
        assert(file_of(sorted[m], source) == Some(f));
    }
    let m = choose|m: int| 0 <= m < files.len() && files[m] == f;
    law_the_first_file_of_a_name_wins(files, name);
    lemma_first_defining(files, name);
    assert(defines(files[m], name));
    let s = first_defining(files, name)->0;
    let i = choose|i: int|
        0 <= i < files.len() && defines(#[trigger] files[i], name) && skill_of(
            files[i].raw,
            files[i].dir,
            files[i].source,
        ) == Some(s) && forall|k: int| 0 <= k < i ==> !defines(#[trigger] files[k], name);
    assert(i <= m);
    assert(order::text_le(files[i].dir, files[m].dir));
    let e = choose|e: int|
        0 <= e < sorted.len() && file_of(#[trigger] sorted[e], source) == Some(files[i]);
    assert(files[i].source == source);
}

proof fn lemma_closing_line(lines: Seq<Seq<char>>, from: int, at: int)
    requires
        0 <= from <= at < lines.len(),
        is_closing(lines[at]),
        forall|k: int| from <= k < at ==> !is_closing(#[trigger] lines[k]),
    ensures
        closing_line(lines, from) == Some(at),
    decreases at - from,
{
    if from < at {
        assert(!is_closing(lines[from]));
        lemma_closing_line(lines, from + 1, at);
    }
}

/// A file that starts with a fence has its frontmatter up to the next fence, or a
/// line of three dots, and its body behind that, line for line.
pub proof fn law_frontmatter_stands_between_fences(
    open: Seq<char>,
    front: Seq<Seq<char>>,
    close: Seq<char>,
    body: Seq<Seq<char>>,
)
    requires
        text::trimmed(open) == "---"@,
        text::trimmed(close) == "---"@ || text::trimmed(close) == "..."@,
        open.len() > 0 ==> open[0] != '\u{feff}',
        !open.contains('\n'),
        !close.contains('\n'),
        forall|i: int|
            0 <= i < front.len() ==> !(#[trigger] front[i]).contains('\n') && text::trimmed(
                front[i],
            ) != "---"@ && text::trimmed(front[i]) != "..."@,
        forall|i: int| 0 <= i < body.len() ==> !(#[trigger] body[i]).contains('\n'),
    ensures
        ({
            let raw = text::joined(seq![open] + front + seq![close] + body, seq!['\n']);
            &&& split_of(raw) == (
                Some(text::joined(front, seq!['\n'])),
                text::joined(body, seq!['\n']),
            )
            &&& split_of(seq!['\u{feff}'] + raw) == split_of(raw)
        }),
{
    reveal_strlit("\n");
    assert("\n"@ =~= seq!['\n']);
    reveal_strlit("---");
    let lines = seq![open] + front + seq![close] + body;
    let raw = text::joined(lines, seq!['\n']);
    assert forall|i: int| 0 <= i < lines.len() implies !(#[trigger] lines[i]).contains('\n') by {
        let n = front.len() as int;
        if 1 <= i <= n {
            assert(lines[i] == front[i - 1]);
        } else if i > n + 1 {
            assert(lines[i] == body[i - n - 2]);
        }
    }
    text::law_joined_parts_split_again(lines, '\n');
    let at = front.len() + 1;
    assert(lines[at as int] == close);
    assert forall|k: int| 1 <= k < at implies !is_closing(#[trigger] lines[k]) by {
        assert(lines[k] == front[k - 1]);
    }
    lemma_closing_line(lines, 1, at as int);
    assert(lines[0] == open);
    assert(lines.subrange(1, at as int) =~= front);
    assert(lines.skip((at + 1) as int) =~= body);
    assert(open.len() > 0) by {
        if open.len() == 0 {
            assert(text::trimmed(open) =~= Seq::<char>::empty());
            assert("---"@.len() == 3);
        }
    }
    let rest = lines.skip(1);
    assert(lines =~= seq![open] + rest);
    text::lemma_joined_prepend(open, rest, seq!['\n']);
    assert(raw[0] == open[0]);
    let marked = seq!['\u{feff}'] + raw;
    assert(marked.skip(1) =~= raw);
    assert(without_bom(raw) == raw);
    assert(without_bom(marked) == raw);
}

/// A file that does not start with a fence is all body.
pub proof fn law_a_file_without_a_fence_is_all_body(lines: Seq<Seq<char>>)
    requires
        lines.len() > 0,
        forall|i: int| 0 <= i < lines.len() ==> !(#[trigger] lines[i]).contains('\n'),
        text::trimmed(lines[0]) != "---"@ || forall|k: int|
            1 <= k < lines.len() ==> text::trimmed(#[trigger] lines[k]) != "---"@ && text::trimmed(
                lines[k],
            ) != "..."@,
        text::joined(lines, seq!['\n']).len() > 0 ==> text::joined(lines, seq!['\n'])[0]
            != '\u{feff}',
    ensures
        split_of(text::joined(lines, seq!['\n'])) == (
            None::<Seq<char>>,
            text::joined(lines, seq!['\n']),
        ),
{
    text::law_joined_parts_split_again(lines, '\n');
    lemma_closing_found(lines, 1);
}

proof fn lemma_closing_found(lines: Seq<Seq<char>>, from: int)
    requires
        0 <= from,
    ensures
        closing_line(lines, from) matches Some(i) ==> from <= i < lines.len() && is_closing(
            lines[i],
        ),
    decreases lines.len() - from,
{
    if from < lines.len() && !is_closing(lines[from]) {
        lemma_closing_found(lines, from + 1);
    }
}

/// A value is what stands behind the colon, trimmed, and less a pair of quotes
/// around it.
pub proof fn law_values_lose_their_quotes(t: Seq<char>)
    requires
        text::trimmed(t) == t,
    ensures
        t.len() == 0 || (t[0] != '"' && t[0] != '\'') ==> unquoted(t) == t,
        unquoted(seq!['"'] + t + seq!['"']) == t,
        unquoted(seq!['\''] + t + seq!['\'']) == t,
{
    text::law_trimming_drops_only_white_space(t);
    lemma_quoted(t, '"');
    lemma_quoted(t, '\'');
}

proof fn lemma_quoted(t: Seq<char>, q: char)
    requires
        q == '"' || q == '\'',
    ensures
        unquoted(seq![q] + t + seq![q]) == t,
{
    let s = seq![q] + t + seq![q];
    text::law_trimming_drops_only_white_space(s);
    let (lo, hi) = choose|lo: int, hi: int|
        {
            &&& 0 <= lo <= hi <= s.len()
            &&& text::trimmed(s) == #[trigger] s.subrange(lo, hi)
            &&& lo < hi ==> !text::is_space(s[lo]) && !text::is_space(s[hi - 1])
            &&& forall|i: int| 0 <= i < lo ==> text::is_space(#[trigger] s[i])
            &&& forall|i: int| hi <= i < s.len() ==> text::is_space(#[trigger] s[i])
        };
    assert(!text::is_space(q));
    assert(s[0] == q && s[s.len() - 1] == q);
    assert(lo == 0) by {
        if lo > 0 {
            assert(text::is_space(s[0]));
        }
    }
    assert(hi == s.len()) by {
        if hi < s.len() {
            assert(text::is_space(s[s.len() - 1]));
        }
    }
    assert(text::trimmed(s) =~= s);
    assert(s.subrange(1, s.len() - 1) =~= t);
}

/// A key has the value of its line; the last one counts where there are more, and
/// lines of other keys, and lines that are indented, count for nothing.
pub proof fn law_the_last_value_of_a_key_counts(
    lines: Seq<Seq<char>>,
    key: Seq<char>,
    name: Seq<char>,
    value: Seq<char>,
    pad: Seq<char>,
)
    requires
        !name.contains(':'),
        name.len() > 0 ==> name[0] != ' ' && name[0] != '\t',
        !pad.contains(':'),
    ensures
        value_of(Seq::empty(), key).len() == 0,
        text::trimmed(name) == key ==> value_of(lines.push(name.push(':') + value), key) == unquoted(
            value,
        ),
        text::trimmed(name) != key ==> value_of(lines.push(name.push(':') + value), key)
            == value_of(lines, key),
        value_of(lines.push(seq![' '] + value), key) == value_of(lines, key),
        value_of(lines.push(seq!['\t'] + value), key) == value_of(lines, key),
        value_of(lines.push(pad), key) == value_of(lines, key),
{
    let line = name.push(':') + value;
    assert(lines.push(line).drop_last() =~= lines);
    text::law_a_cut_is_made_at_the_first_place(line, ':');
    assert(line[name.len() as int] == ':');
    match text::cut_at_first(line, ':') {
        Some((x, y)) => {
            assert(line[x.len() as int] == ':');
            if x.len() < name.len() {
                assert(name[x.len() as int] == ':');
            }
            if x.len() > name.len() {
                assert(x[name.len() as int] == line[name.len() as int]);
                assert(x.contains(':'));
            }
            assert(x =~= line.take(x.len() as int));
            assert(name =~= line.take(name.len() as int));
            assert(y =~= line.skip((x.len() + 1) as int));
            assert(value =~= line.skip((name.len() + 1) as int));
        },
        None => {},
    }
    assert(!is_indented(line)) by {
        if name.len() > 0 {
            assert(line[0] == name[0]);
        } else {
            assert(line[0] == ':');
        }
    }
    let a = seq![' '] + value;
    let b = seq!['\t'] + value;
    assert(a[0] == ' ' && b[0] == '\t');
    assert(lines.push(a).drop_last() =~= lines);
    assert(lines.push(b).drop_last() =~= lines);
    assert(lines.push(pad).drop_last() =~= lines);
    text::law_a_cut_is_made_at_the_first_place(pad, ':');
    if let Some((x, y)) = text::cut_at_first(pad, ':') {
        assert(pad[x.len() as int] == ':');
    }
}

/// A skill has the name that its frontmatter gives, or else its directory's; the
/// description of its frontmatter; the body behind that; and the place where it was
/// found.
pub proof fn law_a_skill_is_what_its_file_says(
    raw: Seq<char>,
    dir: Seq<char>,
    source: SkillSource,
    front: Seq<char>,
    body: Seq<char>,
)
    requires
        util::last_name(dir) is Some,
    ensures
        split_of(raw) == (Some(front), body) ==> (skill_of(raw, dir, source) matches Some(s) && {
            &&& s.name == (if value_of(text::lines_of(front), "name"@).len() > 0 {
                value_of(text::lines_of(front), "name"@)
            } else {
                util::last_name(dir)->0
            })
            &&& s.description == value_of(text::lines_of(front), "description"@)
            &&& s.body == body
            &&& s.dir == dir
            &&& s.source == source
        }),
        split_of(raw) == (None::<Seq<char>>, body) ==> (skill_of(raw, dir, source) matches Some(s)
            && {
            &&& s.name == util::last_name(dir)->0
            &&& s.description.len() == 0
            &&& s.body == body
            &&& s.dir == dir
            &&& s.source == source
        }),
{
}

/// The files of a root are those of its entries that are directories with a skill
/// file, in the order of the entries.
pub proof fn law_only_directories_with_a_skill_file_count(
    v: Seq<RootEntryView>,
    e: RootEntryView,
    source: SkillSource,
)
    ensures
        files_of(Seq::empty(), source).len() == 0,
        e.is_dir && e.skill_md is Some ==> files_of(v.push(e), source) == files_of(v, source).push(
            SkillFileView { dir: e.path, raw: e.skill_md->0, source },
        ),
        !e.is_dir || e.skill_md is None ==> files_of(v.push(e), source) == files_of(v, source),
{
    assert(v.push(e).drop_last() =~= v);
}

/// The files of the roots follow each other in the order of the roots; a root that
/// is missing adds none.
pub proof fn law_roots_follow_each_other(roots: Seq<SkillRootView>, r: SkillRootView)
    ensures
        found_files(Seq::empty()).len() == 0,
        r.entries is None ==> found_files(roots.push(r)) == found_files(roots),
        r.entries matches Some(v) ==> found_files(roots.push(r)) == found_files(roots) + files_of(
            in_path_order(v),
            r.source,
        ),
{
    assert(roots.push(r).drop_last() =~= roots);
    assert(found_files(roots) + Seq::<SkillFileView>::empty() =~= found_files(roots));
}

/// A skill is found by its name, and the first of that name where there are more.
pub proof fn law_a_skill_is_found_by_its_name(v: Seq<SkillView>, name: Seq<char>, from: int)
    requires
        0 <= from <= v.len(),
    ensures
        match skill_named(v, name, from) {
            Some(s) => exists|i: int|
                from <= i < v.len() && #[trigger] v[i] == s && s.name == name && forall|k: int|
                    from <= k < i ==> (#[trigger] v[k]).name != name,
            None => forall|k: int| from <= k < v.len() ==> (#[trigger] v[k]).name != name,
        },
    decreases v.len() - from,
{
    if from < v.len() {
        if v[from].name == name {
            assert(v[from] == skill_named(v, name, from)->0);
        } else {
            law_a_skill_is_found_by_its_name(v, name, from + 1);
        }
    }
}

/// Skills are listed in the order in which they are found, each name once: a file
/// adds its skill at the end, unless one of that name is there.
pub proof fn law_skills_are_listed_as_they_are_found(
    files: Seq<SkillFileView>,
    f: SkillFileView,
    s: SkillView,
)
    requires
        skill_of(f.raw, f.dir, f.source) == Some(s),
    ensures
        discovered(Seq::empty()).len() == 0,
        (forall|i: int| 0 <= i < discovered(files).len() ==> (#[trigger] discovered(files)[i]).name
            != s.name) ==> discovered(files.push(f)) == discovered(files).push(s),
        (exists|i: int| 0 <= i < discovered(files).len() && (#[trigger] discovered(files)[i]).name
            == s.name) ==> discovered(files.push(f)) == discovered(files),
        skill_names(discovered(files)).len() == discovered(files).len(),
        forall|i: int|
            0 <= i < discovered(files).len() ==> #[trigger] skill_names(discovered(files))[i]
                == discovered(files)[i].name,
{
    assert(files.push(f).drop_last() =~= files);
}

/// White space around a value does not matter.
pub proof fn law_values_are_trimmed(s: Seq<char>)
    ensures
        text::trimmed(text::trimmed(s)) == text::trimmed(s),
        unquoted(s) == unquoted(text::trimmed(s)),
{
    text::law_trimming_drops_only_white_space(s);
    let t = text::trimmed(s);
    text::law_trimming_drops_only_white_space(t);
    let (lo, hi) = choose|lo: int, hi: int|
        {
            &&& 0 <= lo <= hi <= t.len()
            &&& text::trimmed(t) == #[trigger] t.subrange(lo, hi)
            &&& lo < hi ==> !text::is_space(t[lo]) && !text::is_space(t[hi - 1])
            &&& forall|i: int| 0 <= i < lo ==> text::is_space(#[trigger] t[i])
            &&& forall|i: int| hi <= i < t.len() ==> text::is_space(#[trigger] t[i])
        };
    if t.len() > 0 {
        assert(!text::is_space(t[0]) && !text::is_space(t[t.len() - 1]));
        assert(lo == 0) by {
            if lo > 0 {
                assert(text::is_space(t[0]));
            }
        }
        assert(hi == t.len()) by {
            if hi < t.len() {
                assert(text::is_space(t[t.len() - 1]));
            }
        }
    }
    assert(text::trimmed(t) =~= t);
}

} // verus!
