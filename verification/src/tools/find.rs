//! The `find` tool: which files match a glob, and how they are listed.

use vstd::prelude::*;

use crate::ai::types::ToolSchema;
use crate::text;
use crate::tools::diff::at_least_one;
use crate::tools::grep::{append_notices, forward_slashes, with_notices};
use crate::tools::order::{sort_texts, sorted_texts};
use crate::tools::pattern::{
    asked_for, compile_glob, glob_compiles_to, glob_language, glob_wants,
    law_globs_are_exact_without_backslashes, may_be_asked_for, slashed,
};
use crate::tools::schema;
use crate::tools::truncate;
use crate::tools::truncate::{TruncationResult, DEFAULT_MAX_BYTES, DEFAULT_MAX_LINES};
use crate::tools::util;
use crate::tools::util::{name_or_empty, Target};

verus! {

/// Results shown when no limit is given.
pub const DEFAULT_RESULT_LIMIT: usize = 1000;

/// The arguments of a search for files.
#[derive(Debug)]
pub struct FindInput {
    pub pattern: String,
    pub path: Option<String>,
    pub limit: Option<usize>,
}

/// Why a search was refused.
#[derive(Debug)]
pub enum FindError {
    NotFound { display: String },
    InvalidGlob { message: String },
}

impl FindError {
    pub open spec fn text(self) -> Seq<char> {
        match self {
            FindError::NotFound { display } => "Path not found: "@ + display@,
            FindError::InvalidGlob { message } => "Invalid glob pattern: "@ + message@,
        }
    }

    /// The error as shown to the model.
    pub fn message(&self) -> (r: String)
        ensures
            r@ == self.text(),
    {
        match self {
            FindError::NotFound { display } => {
                let mut out: String = "Path not found: ".to_string();
                out.append(display.as_str());
                out
            },
            FindError::InvalidGlob { message } => {
                let mut out: String = "Invalid glob pattern: ".to_string();
                out.append(message.as_str());
                out
            },
        }
    }
}

impl FindInput {
    /// The compiled pattern.
    pub fn matcher(&self) -> (r: Result<globset::GlobSet, FindError>)
        ensures
            match r {
                Ok(g) => glob_compiles_to(self.pattern@, Ok(glob_language(g))),
                Err(FindError::InvalidGlob { message }) => glob_compiles_to(
                    self.pattern@,
                    Err(message@),
                ),
                Err(_) => false,
            },
    {
        match compile_glob(self.pattern.as_str()) {
            Ok(g) => Ok(g),
            Err(message) => Err(FindError::InvalidGlob { message }),
        }
    }
}

/// How a file is listed: its path below the search root, or its name where it
/// is the root.
pub open spec fn listed_as(file: Seq<char>, root: Seq<char>) -> Seq<char> {
    match util::relative(file, root) {
        Some(rel) => if rel.len() == 0 {
            slashed(name_or_empty(file))
        } else {
            slashed(rel)
        },
        None => if file.len() == 0 {
            slashed(name_or_empty(file))
        } else {
            slashed(file)
        },
    }
}

/// A search for files under way.
#[derive(Debug)]
pub struct FindSearch {
    limit: usize,
    matches: Vec<String>,
    reached: bool,
}

/// The model of a search: what was found, in the order it was found, and
/// whether there was more than the limit.
#[verifier::ext_equal]
pub ghost struct FindState {
    pub limit: nat,
    pub matches: Seq<Seq<char>>,
    pub reached: bool,
}

impl View for FindSearch {
    type V = FindState;

    closed spec fn view(&self) -> FindState {
        FindState {
            limit: self.limit as nat,
            matches: text::views(self.matches@),
            reached: self.reached,
        }
    }
}

impl FindState {
    /// The limit is at least one, no more than it is kept, and so much is kept
    /// when there was more.
    pub open spec fn valid(self) -> bool {
        &&& 1 <= self.limit
        &&& self.matches.len() <= self.limit
        &&& self.reached ==> self.matches.len() == self.limit
    }
}

/// The search after one more file: one match past the limit is noticed, and not
/// kept.
pub open spec fn after_candidate(st: FindState, rel: Seq<char>, wanted: bool) -> FindState {
    if st.reached || !wanted {
        st
    } else if st.matches.len() < st.limit {
        FindState { matches: st.matches.push(rel), ..st }
    } else {
        FindState { reached: true, ..st }
    }
}

/// The notices that go with a result.
pub open spec fn find_notices(st: FindState, bytes_hit: bool) -> Seq<Seq<char>> {
    let a = if st.reached {
        seq![
            text::decimal(st.limit) + " results limit reached. Use limit="@ + text::decimal(
                2 * st.limit,
            ) + " for more, or refine pattern"@,
        ]
    } else {
        Seq::empty()
    };
    if bytes_hit {
        a.push(truncate::size_text(DEFAULT_MAX_BYTES as nat) + " limit reached"@)
    } else {
        a
    }
}

/// What a search gives: the files in dictionary order.
pub open spec fn found_text(st: FindState) -> Seq<char> {
    if st.matches.len() == 0 {
        "No files found matching pattern"@
    } else {
        let t = truncate::head_truncation(
            text::joined(sorted_texts(st.matches), "\n"@),
            DEFAULT_MAX_LINES,
            DEFAULT_MAX_BYTES,
        );
        with_notices(t.content, find_notices(st, t.truncated))
    }
}

impl FindSearch {
    /// A search that keeps at most `limit` files, at least one.
    pub fn new(limit: Option<usize>) -> (r: FindSearch)
        ensures
            r@ == (FindState {
                limit: at_least_one(truncate::or_else(limit, DEFAULT_RESULT_LIMIT) as nat),
                matches: Seq::empty(),
                reached: false,
            }),
            r@.valid(),
    {
        let asked: usize = match limit {
            Some(n) => n,
            None => DEFAULT_RESULT_LIMIT,
        };
        let matches: Vec<String> = Vec::new();
        assert(text::views(matches@) =~= Seq::<Seq<char>>::empty());
        FindSearch {
            limit: if asked == 0 {
                1
            } else {
                asked
            },
            matches,
            reached: false,
        }
    }

    /// Was there more than the limit?
    pub fn is_full(&self) -> (r: bool)
        ensures
            r == self@.reached,
    {
        self.reached
    }

    /// Take in one more file, given whether it is wanted.
    pub fn consider(&mut self, rel: String, wanted: bool)
        requires
            old(self)@.valid(),
        ensures
            final(self)@ == after_candidate(old(self)@, rel@, wanted),
            final(self)@.valid(),
    {
        assert(text::views(self.matches@).len() == self.matches@.len());
        if self.reached || !wanted {
            return;
        }
        if self.matches.len() < self.limit {
            proof {
                text::lemma_views_push(self.matches@, rel);
            }
            self.matches.push(rel);
        } else {
            self.reached = true;
        }
    }

    /// Take in one more file: it is wanted where the glob matches its path
    /// below the root, or its name.
    pub fn push_match(&mut self, file: &str, search_path: &str, matcher: &globset::GlobSet)
        requires
            old(self)@.valid(),
        ensures
            exists|wanted: bool|
                {
                    &&& final(self)@ == #[trigger] after_candidate(
                        old(self)@,
                        listed_as(file@, search_path@),
                        wanted,
                    )
                    &&& may_be_asked_for(
                        Some(glob_language(*matcher)),
                        listed_as(file@, search_path@),
                        name_or_empty(file@),
                        wanted,
                    )
                },
            !name_or_empty(file@).contains('\\') ==> final(self)@ == after_candidate(
                old(self)@,
                listed_as(file@, search_path@),
                asked_for(
                    Some(glob_language(*matcher)),
                    listed_as(file@, search_path@),
                    name_or_empty(file@),
                ),
            ),
            final(self)@.valid(),
    {
        let base: String = match util::file_name(file) {
            Some(n) => n,
            None => String::new(),
        };
        let rel_path: String = match util::strip_prefix(file, search_path) {
            Some(rel) => rel,
            None => file.to_string(),
        };
        let rel: String = if rel_path.as_str().is_empty() {
            forward_slashes(base.as_str())
        } else {
            forward_slashes(rel_path.as_str())
        };
        proof {
            assert(!rel@.contains('\\')) by {
                if rel@.contains('\\') {
                    let k = choose|k: int| 0 <= k < rel@.len() && rel@[k] == '\\';
                    assert(rel@[k] != '\\');
                }
            }
        }
        let wanted: bool = glob_wants(Some(matcher), rel.as_str(), base.as_str());
        proof {
            if !base@.contains('\\') {
                law_globs_are_exact_without_backslashes(
                    Some(glob_language(*matcher)),
                    rel@,
                    base@,
                    wanted,
                );
            }
        }
        let ghost listed = listed_as(file@, search_path@);
        assert(rel@ == listed);
        self.consider(rel, wanted);
        assert(self@ == after_candidate(old(self)@, listed, wanted));
    }

    /// The result of the search.
    pub fn finish(self) -> (r: String)
        ensures
            r@ == found_text(self@),
    {
        assert(text::views(self.matches@).len() == self.matches@.len());
        if self.matches.len() == 0 {
            return "No files found matching pattern".to_string();
        }
        let ghost st = self@;
        let limit: usize = self.limit;
        let reached: bool = self.reached;
        let sorted: Vec<String> = sort_texts(self.matches);
        let raw: String = text::join(&sorted, "\n");
        let t: TruncationResult = truncate::truncate_head(raw.as_str(), None, None);
        let ghost tv = t@;
        let mut list: Vec<String> = Vec::new();
        if reached {
            let mut n: String = String::new();
            text::push_usize(&mut n, limit);
            assert(n@ =~= text::decimal(limit as nat));
            n.append(" results limit reached. Use limit=");
            text::push_number(&mut n, 2 * (limit as u128));
            n.append(" for more, or refine pattern");
            list.push(n);
        }
        if t.truncated {
            let mut n: String = truncate::format_size(DEFAULT_MAX_BYTES);
            n.append(" limit reached");
            list.push(n);
        }
        assert(text::views(list@) =~= find_notices(st, tv.truncated));
        append_notices(t.content, &list)
    }
}

/// The `find` tool of a working directory.
#[derive(Debug)]
pub struct FindTool {
    pub cwd: String,
}

/// A search of which nothing has been seen yet.
pub open spec fn fresh_find(limit: Option<usize>) -> FindState {
    FindState {
        limit: at_least_one(truncate::or_else(limit, DEFAULT_RESULT_LIMIT) as nat),
        matches: Seq::empty(),
        reached: false,
    }
}

impl FindTool {
    pub fn schema(&self) -> (r: ToolSchema)
        ensures
            r@ == schema::find_tool(),
    {
        schema::find_schema()
    }

    /// The file or directory to search.
    pub fn target(&self, input: &FindInput, home: Option<&str>) -> (r: Target)
        ensures
            r.is_of(util::or_here(input.path), self.cwd@, text::opt_str(home)),
    {
        util::locate_or_here(&input.path, self.cwd.as_str(), home)
    }

    /// Begin a search, given whether its target exists. A missing path is
    /// reported before a bad glob.
    pub fn begin(&self, input: &FindInput, target: &Target, exists: bool) -> (r: Result<
        FindWalk,
        FindError,
    >)
        ensures
            match r {
                Ok(w) => {
                    &&& exists
                    &&& glob_compiles_to(input.pattern@, Ok(w@.lang))
                    &&& w@.root == target.path@
                    &&& w@.state == fresh_find(input.limit)
                    &&& w@.state.valid()
                },
                Err(FindError::NotFound { display }) => !exists && display@ == target.display@,
                Err(FindError::InvalidGlob { message }) => exists && glob_compiles_to(
                    input.pattern@,
                    Err(message@),
                ),
            },
    {
        if !exists {
            return Err(FindError::NotFound { display: target.display.clone() });
        }
        match input.matcher() {
            Ok(matcher) => Ok(
                FindWalk {
                    matcher,
                    root: target.path.clone(),
                    search: FindSearch::new(input.limit),
                },
            ),
            Err(e) => Err(e),
        }
    }
}

/// A search for files on its way.
#[derive(Debug)]
pub struct FindWalk {
    matcher: globset::GlobSet,
    root: String,
    search: FindSearch,
}

/// The model of such a search: the paths it looks for, where it started, and
/// what it has found.
pub ghost struct FindWalkView {
    pub lang: Set<Seq<char>>,
    pub root: Seq<char>,
    pub state: FindState,
}

impl View for FindWalk {
    type V = FindWalkView;

    closed spec fn view(&self) -> FindWalkView {
        FindWalkView {
            lang: glob_language(self.matcher),
            root: self.root@,
            state: self.search@,
        }
    }
}

impl FindWalk {
    /// Take in one more file.
    pub fn add(&mut self, file: &str)
        requires
            old(self)@.state.valid(),
        ensures
            final(self)@.lang == old(self)@.lang,
            final(self)@.root == old(self)@.root,
            exists|wanted: bool|
                {
                    &&& final(self)@.state == #[trigger] after_candidate(
                        old(self)@.state,
                        listed_as(file@, old(self)@.root),
                        wanted,
                    )
                    &&& may_be_asked_for(
                        Some(old(self)@.lang),
                        listed_as(file@, old(self)@.root),
                        name_or_empty(file@),
                        wanted,
                    )
                },
            !name_or_empty(file@).contains('\\') ==> final(self)@.state == after_candidate(
                old(self)@.state,
                listed_as(file@, old(self)@.root),
                asked_for(
                    Some(old(self)@.lang),
                    listed_as(file@, old(self)@.root),
                    name_or_empty(file@),
                ),
            ),
            final(self)@.state.valid(),
    {
        self.search.push_match(file, self.root.as_str(), &self.matcher);
    }

    /// Is there nothing more to look for?
    pub fn is_full(&self) -> (r: bool)
        ensures
            r == self@.state.reached,
    {
        self.search.is_full()
    }

    /// The result of the search.
    pub fn finish(self) -> (r: String)
        ensures
            r@ == found_text(self@.state),
    {
        self.search.finish()
    }
}

/// The search after a run of wanted files.
pub open spec fn after_wanted(st: FindState, files: Seq<Seq<char>>) -> FindState
    decreases files.len(),
{
    if files.len() == 0 {
        st
    } else {
        after_candidate(after_wanted(st, files.drop_last()), files.last(), true)
    }
}

/// The limit is exact: the first files are kept, up to the limit, and the limit
/// counts as passed only where there are more.
pub proof fn law_the_result_limit_is_exact(st: FindState, files: Seq<Seq<char>>)
    requires
        st.valid(),
        st.matches.len() == 0,
        !st.reached,
    ensures
        after_wanted(st, files).limit == st.limit,
        after_wanted(st, files).reached == (files.len() > st.limit),
        after_wanted(st, files).matches == files.take(
            truncate::fewer(files.len(), st.limit) as int,
        ),
    decreases files.len(),
{
    if files.len() == 0 {
        assert(files.take(0) =~= st.matches);
    } else {
        let init = files.drop_last();
        law_the_result_limit_is_exact(st, init);
        assert(after_wanted(st, files).matches =~= files.take(
            truncate::fewer(files.len(), st.limit) as int,
        ));
    }
}

/// A search that found nothing says so; one that found files lists them in
/// dictionary order, a line apart, and says where there were more.
pub proof fn law_found_files_are_listed_in_order(st: FindState)
    ensures
        st.matches.len() == 0 ==> found_text(st) == "No files found matching pattern"@,
        ({
            let all = text::joined(sorted_texts(st.matches), seq!['\n']);
            let t = truncate::head_truncation(all, 2000, 51200);
            &&& st.matches.len() > 0 && !t.truncated && !st.reached ==> found_text(st) == t.content
            &&& st.matches.len() > 0 && !t.truncated && st.reached ==> found_text(st) == t.content
                + "\n\n["@ + (text::decimal(st.limit) + " results limit reached. Use limit="@
                + text::decimal(2 * st.limit) + " for more, or refine pattern"@) + "]"@
        }),
{
    reveal_strlit("\n");
    assert("\n"@ =~= seq!['\n']);
    if st.matches.len() > 0 {
        let told = text::decimal(st.limit) + " results limit reached. Use limit="@ + text::decimal(
            2 * st.limit,
        ) + " for more, or refine pattern"@;
        text::law_joining_puts_the_separator_between(Seq::empty(), Seq::empty(), told, ". "@);
    }
}

/// A file that is not wanted changes nothing; one that is wanted is kept while
/// there is room, and else is noticed only.
pub proof fn law_wanted_files_are_kept_while_there_is_room(st: FindState, rel: Seq<char>)
    requires
        !st.reached,
    ensures
        after_candidate(st, rel, false) == st,
        st.matches.len() < st.limit ==> after_candidate(st, rel, true).matches == st.matches.push(
            rel,
        ) && !after_candidate(st, rel, true).reached,
        st.matches.len() >= st.limit ==> after_candidate(st, rel, true).matches == st.matches
            && after_candidate(st, rel, true).reached,
{
}

/// A file is listed by its path below the search root, or by its name where it is
/// the root.
pub proof fn law_files_are_listed_from_the_search_root(
    root: Seq<Seq<char>>,
    rest: Seq<Seq<char>>,
)
    requires
        root.len() > 0,
        util::plain_names(root),
        util::plain_names(rest),
    ensures
        rest.len() > 0 ==> listed_as(util::rooted_path(root + rest), util::rooted_path(root))
            == slashed(text::joined(rest, seq!['/'])),
        listed_as(util::rooted_path(root), util::rooted_path(root)) == slashed(root.last()),
{
    util::law_a_path_is_relative_to_what_it_is_below(root, rest);
    util::law_a_path_is_relative_to_what_it_is_below(root, Seq::empty());
    assert(root + Seq::<Seq<char>>::empty() =~= root);
    util::law_the_name_is_the_last_of_the_path(root);
    assert(text::joined(Seq::<Seq<char>>::empty(), seq!['/']).len() == 0);
    if rest.len() > 0 {
        text::lemma_joined_prepend(rest[0], rest.skip(1), seq!['/']);
        assert(rest =~= seq![rest[0]] + rest.skip(1));
        assert(rest[0].len() > 0);
    }
}

/// The words of the errors of a search for files.
pub proof fn law_find_errors_have_their_words(e: FindError)
    ensures
        match e {
            FindError::NotFound { display } => e.text() == "Path not found: "@ + display@,
            FindError::InvalidGlob { message } => e.text() == "Invalid glob pattern: "@ + message@,
        },
{
}

/// A search starts empty, with the limit that was asked for, a thousand by default
/// and one at the least.
pub proof fn law_a_search_for_files_starts_empty(limit: usize)
    ensures
        fresh_find(Some(limit)).matches.len() == 0,
        !fresh_find(Some(limit)).reached,
        limit >= 1 ==> fresh_find(Some(limit)).limit == limit,
        limit == 0 ==> fresh_find(Some(limit)).limit == 1,
        fresh_find(None).limit == 1000,
{
}

/// The notices of a search for files: that there were more than the limit, and that
/// the output was cut at its size.
pub proof fn law_a_search_for_files_notes_what_it_left_out(st: FindState, bytes_hit: bool)
    ensures
        ({
            let more = text::decimal(st.limit) + " results limit reached. Use limit="@
                + text::decimal(2 * st.limit) + " for more, or refine pattern"@;
            let size = truncate::size_text(51200) + " limit reached"@;
            let v = find_notices(st, bytes_hit);
            &&& st.reached && bytes_hit ==> v == seq![more, size]
            &&& st.reached && !bytes_hit ==> v == seq![more]
            &&& !st.reached && bytes_hit ==> v == seq![size]
            &&& !st.reached && !bytes_hit ==> v.len() == 0
        }),
{
    let more = text::decimal(st.limit) + " results limit reached. Use limit="@ + text::decimal(
        2 * st.limit,
    ) + " for more, or refine pattern"@;
    let size = truncate::size_text(51200) + " limit reached"@;
    assert(seq![more].push(size) =~= seq![more, size]);
    assert(Seq::<Seq<char>>::empty().push(size) =~= seq![size]);
}

} // verus!
