//! The `ls` tool: the entries of a directory in order.

use vstd::prelude::*;
use vstd::relations::{sorted_by, total_ordering};

use crate::ai::types::ToolSchema;
use crate::text;
use crate::tools::diff::at_least_one;
use crate::tools::grep::{append_notices, with_notices};
use crate::tools::order::{
    lemma_inserted, lemma_sorted_form, lemma_text_order, text_le, text_not_after, text_order,
};
use crate::tools::schema;
use crate::tools::truncate;
use crate::tools::truncate::{TruncationResult, DEFAULT_MAX_BYTES};
use crate::tools::util;
use crate::tools::util::Target;

verus! {

/// Entries shown when no limit is given.
pub const DEFAULT_ENTRY_LIMIT: usize = 500;

/// The arguments of a listing.
#[derive(Debug)]
pub struct LsInput {
    pub path: Option<String>,
    pub limit: Option<usize>,
}

/// Why a listing was refused.
#[derive(Debug)]
pub enum LsError {
    NotFound { display: String },
    NotADirectory { display: String },
    Unreadable { message: String },
}

impl LsError {
    pub open spec fn text(self) -> Seq<char> {
        match self {
            LsError::NotFound { display } => "Path not found: "@ + display@,
            LsError::NotADirectory { display } => "Not a directory: "@ + display@,
            LsError::Unreadable { message } => "Cannot read directory: "@ + message@,
        }
    }

    /// The error as shown to the model.
    pub fn message(&self) -> (r: String)
        ensures
            r@ == self.text(),
    {
        match self {
            LsError::NotFound { display } => {
                let mut out: String = "Path not found: ".to_string();
                out.append(display.as_str());
                out
            },
            LsError::NotADirectory { display } => {
                let mut out: String = "Not a directory: ".to_string();
                out.append(display.as_str());
                out
            },
            LsError::Unreadable { message } => {
                let mut out: String = "Cannot read directory: ".to_string();
                out.append(message.as_str());
                out
            },
        }
    }
}

/// An entry of a directory.
#[derive(Debug)]
pub struct DirEntryRow {
    sort_key: String,
    name: String,
    is_dir: bool,
}

pub ghost struct Row {
    pub name: Seq<char>,
    pub is_dir: bool,
}

impl View for DirEntryRow {
    type V = Row;

    closed spec fn view(&self) -> Row {
        Row { name: self.name@, is_dir: self.is_dir }
    }
}

impl DirEntryRow {
    pub closed spec fn valid(&self) -> bool {
        self.sort_key@ == text::lower(self.name@)
    }
}

/// The order of entries: by name in lower case, then by name, then files before
/// directories.
pub open spec fn row_le(a: Row, b: Row) -> bool {
    let x = text::lower(a.name);
    let y = text::lower(b.name);
    if x != y {
        text_le(x, y)
    } else if a.name != b.name {
        text_le(a.name, b.name)
    } else {
        !a.is_dir || b.is_dir
    }
}

pub open spec fn row_order() -> spec_fn(Row, Row) -> bool {
    |a: Row, b: Row| row_le(a, b)
}

/// The order of entries is a total order.
pub proof fn lemma_row_order()
    ensures
        total_ordering(row_order()),
{
    lemma_text_order();
    let t = text_order();
    let le = row_order();
    assert forall|a: Row| #[trigger] le(a, a) by {}
    assert forall|a: Row, b: Row| #[trigger] le(a, b) && #[trigger] le(b, a) implies a == b by {
        let x = text::lower(a.name);
        let y = text::lower(b.name);
        if x != y {
            assert(t(x, y) && t(y, x));
        } else if a.name != b.name {
            assert(t(a.name, b.name) && t(b.name, a.name));
        }
    }
    assert forall|a: Row, b: Row, c: Row| #[trigger] le(a, b) && #[trigger] le(b, c) implies le(
        a,
        c,
    ) by {
        let x = text::lower(a.name);
        let y = text::lower(b.name);
        let z = text::lower(c.name);
        if x != y && y != z {
            assert(t(x, y) && t(y, z));
            assert(t(x, z));
            if x == z {
                assert(t(y, x));
            }
        } else if x == y && y == z {
            if a.name != b.name && b.name != c.name {
                assert(t(a.name, b.name) && t(b.name, c.name));
                assert(t(a.name, c.name));
                if a.name == c.name {
                    assert(t(b.name, a.name));
                }
            }
        }
    }
    assert forall|a: Row, b: Row| #[trigger] le(a, b) || #[trigger] le(b, a) by {
        let x = text::lower(a.name);
        let y = text::lower(b.name);
        assert(t(x, y) || t(y, x));
        assert(t(a.name, b.name) || t(b.name, a.name));
    }
}

/// How an entry is shown: a directory with a slash.
pub open spec fn row_text(r: Row) -> Seq<char> {
    if r.is_dir {
        r.name + "/"@
    } else {
        r.name
    }
}

impl DirEntryRow {
    pub fn new(name: String, is_dir: bool) -> (r: DirEntryRow)
        ensures
            r@ == (Row { name: name@, is_dir }),
            r.valid(),
    {
        let sort_key: String = text::to_ascii_lowercase(name.as_str());
        DirEntryRow { sort_key, name, is_dir }
    }

    pub fn display(self) -> (r: String)
        ensures
            r@ == row_text(self@),
    {
        let mut out: String = self.name;
        if self.is_dir {
            out.append("/");
        }
        out
    }

    /// Does this entry stand before `other`, or is it the same?
    pub fn not_after(&self, other: &DirEntryRow) -> (r: bool)
        requires
            self.valid(),
            other.valid(),
        ensures
            r == row_le(self@, other@),
    {
        if !text::same(self.sort_key.as_str(), other.sort_key.as_str()) {
            text_not_after(self.sort_key.as_str(), other.sort_key.as_str())
        } else if !text::same(self.name.as_str(), other.name.as_str()) {
            text_not_after(self.name.as_str(), other.name.as_str())
        } else {
            !self.is_dir || other.is_dir
        }
    }
}

spec fn rows_of(v: Seq<DirEntryRow>) -> Seq<Row> {
    v.map_values(|r: DirEntryRow| r@)
}

/// A listing under way: the first entries in order, one more than the limit.
pub struct Listing {
    limit: usize,
    rows: Vec<DirEntryRow>,
    seen: Ghost<Seq<Row>>,
}

/// The model of a listing: the limit, and every entry taken in.
pub ghost struct ListingView {
    pub limit: nat,
    pub seen: Seq<Row>,
}

impl View for Listing {
    type V = ListingView;

    closed spec fn view(&self) -> ListingView {
        ListingView { limit: self.limit as nat, seen: self.seen@ }
    }
}

/// The entries in order, cut to `n`.
pub open spec fn first_rows(seen: Seq<Row>, n: int) -> Seq<Row> {
    let all = seen.sort_by(row_order());
    if all.len() <= n {
        all
    } else {
        all.take(n)
    }
}

pub open spec fn row_texts(v: Seq<Row>) -> Seq<Seq<char>> {
    v.map_values(|r: Row| row_text(r))
}

pub open spec fn ls_notices(limit: nat, reached: bool, bytes_hit: bool) -> Seq<Seq<char>> {
    let a = if reached {
        seq![
            text::decimal(limit) + " entries limit reached. Use limit="@ + text::decimal(2 * limit)
                + " for more"@,
        ]
    } else {
        Seq::empty()
    };
    if bytes_hit {
        a.push(truncate::size_text(DEFAULT_MAX_BYTES as nat) + " limit reached"@)
    } else {
        a
    }
}

/// What a listing gives.
pub open spec fn listing_text(l: ListingView) -> Seq<char> {
    if l.seen.len() == 0 {
        "(empty directory)"@
    } else {
        let t = truncate::head_truncation(
            text::joined(row_texts(first_rows(l.seen, l.limit as int)), "\n"@),
            usize::MAX,
            DEFAULT_MAX_BYTES,
        );
        with_notices(t.content, ls_notices(l.limit, l.seen.len() > l.limit, t.truncated))
    }
}

impl Listing {
    /// The kept entries are the first of all those seen, one more than the
    /// limit at most.
    pub closed spec fn valid(&self) -> bool {
        &&& 1 <= self.limit
        &&& forall|i: int| 0 <= i < self.rows@.len() ==> (#[trigger] self.rows@[i]).valid()
        &&& rows_of(self.rows@) == first_rows(self.seen@, self.limit + 1)
    }

    /// A listing of at most `limit` entries, at least one.
    pub fn new(limit: Option<usize>) -> (r: Listing)
        ensures
            r.valid(),
            r@ == (ListingView {
                limit: at_least_one(truncate::or_else(limit, DEFAULT_ENTRY_LIMIT) as nat),
                seen: Seq::empty(),
            }),
    {
        let asked: usize = match limit {
            Some(n) => n,
            None => DEFAULT_ENTRY_LIMIT,
        };
        let rows: Vec<DirEntryRow> = Vec::new();
        proof {
            let none = Seq::<Row>::empty();
            lemma_row_order();
            lemma_sorted_form(none, none, row_order());
            assert(rows_of(rows@) =~= none);
        }
        Listing {
            limit: if asked == 0 {
                1
            } else {
                asked
            },
            rows,
            seen: Ghost(Seq::empty()),
        }
    }

    /// Where a row goes: behind all that do not stand after it.
    fn place_for(&self, row: &DirEntryRow) -> (at: usize)
        requires
            row.valid(),
            forall|i: int| 0 <= i < self.rows@.len() ==> (#[trigger] self.rows@[i]).valid(),
            sorted_by(rows_of(self.rows@), row_order()),
        ensures
            at <= self.rows@.len(),
            forall|k: int|
                0 <= k < at ==> row_order()(#[trigger] rows_of(self.rows@)[k], row@),
            forall|k: int|
                at <= k < self.rows@.len() ==> row_order()(
                    row@,
                    #[trigger] rows_of(self.rows@)[k],
                ),
            at < self.rows@.len() ==> !row_order()(rows_of(self.rows@)[at as int], row@),
    {
        let ghost s = rows_of(self.rows@);
        let ghost le = row_order();
        proof {
            lemma_row_order();
        }
        let mut lo: usize = 0;
        let mut hi: usize = self.rows.len();
        while lo < hi
            invariant
                s == rows_of(self.rows@),
                le == row_order(),
                total_ordering(le),
                sorted_by(s, le),
                row.valid(),
                forall|i: int| 0 <= i < self.rows@.len() ==> (#[trigger] self.rows@[i]).valid(),
                lo <= hi <= self.rows@.len(),
                forall|k: int| 0 <= k < lo ==> le(#[trigger] s[k], row@),
                forall|k: int| hi <= k < self.rows@.len() ==> le(row@, #[trigger] s[k]),
                hi < self.rows@.len() ==> !le(s[hi as int], row@),
            decreases hi - lo,
        {
            let mid: usize = lo + (hi - lo) / 2;
            assert(s[mid as int] == self.rows@[mid as int]@);
            if self.rows[mid].not_after(row) {
                assert forall|k: int| 0 <= k < mid + 1 implies le(#[trigger] s[k], row@) by {
                    if k < mid {
                        assert(le(s[k], s[mid as int]));
                    }
                    assert(le(s[mid as int], row@));
                }
                lo = mid + 1;
            } else {
                assert forall|k: int| mid <= k < self.rows@.len() implies le(
                    row@,
                    #[trigger] s[k],
                ) by {
                    assert(le(s[mid as int], row@) || le(row@, s[mid as int]));
                    if mid < k {
                        assert(le(s[mid as int], s[k]));
                    }
                }
                hi = mid;
            }
        }
        lo
    }

    /// Take in one more entry.
    pub fn push(&mut self, name: String, is_dir: bool)
        requires
            old(self).valid(),
        ensures
            final(self).valid(),
            final(self)@ == (ListingView {
                limit: old(self)@.limit,
                seen: old(self)@.seen.push(Row { name: name@, is_dir }),
            }),
    {
        let ghost le = row_order();
        let ghost seen = self.seen@;
        let ghost all = seen.sort_by(le);
        let ghost kept = rows_of(self.rows@);
        let ghost cap = self.limit + 1;
        let row: DirEntryRow = DirEntryRow::new(name, is_dir);
        proof {
            lemma_row_order();
            seen.lemma_sort_by_ensures(le);
            seen.to_multiset_ensures();
            all.to_multiset_ensures();
            assert(all.len() == seen.len());
            assert(kept.len() == self.rows@.len());
        }
        let at: usize = self.place_for(&row);
        let ghost next = all.insert(at as int, row@);
        proof {
            // Everything that was dropped stands behind what was kept.
            if at == kept.len() && kept.len() < all.len() {
                assert(kept.len() == cap);
            }
            assert(at < kept.len() || kept.len() == all.len() || at == cap);
        }
        let room: bool = self.rows.len() <= self.limit;
        if at < self.rows.len() || room {
            proof {
                assert forall|k: int| 0 <= k < at implies le(#[trigger] all[k], row@) by {
                    assert(all[k] == kept[k]);
                }
                assert forall|k: int| at <= k < all.len() implies le(row@, #[trigger] all[k]) by {
                    if k < kept.len() {
                        assert(all[k] == kept[k]);
                    } else {
                        assert(all[at as int] == kept[at as int]);
                        assert(le(row@, kept[at as int]));
                        assert(le(all[at as int], all[k]));
                    }
                }
                lemma_inserted(all, row@, at as int, le);
                seen.to_multiset_ensures();
                lemma_sorted_form(seen.push(row@), next, le);
            }
            let ghost before = self.rows@;
            self.rows.insert(at, row);
            proof {
                assert(rows_of(self.rows@) =~= kept.insert(at as int, row@));
                assert forall|i: int| 0 <= i < self.rows@.len() implies (
                #[trigger] self.rows@[i]).valid() by {
                    if i < at {
                        assert(self.rows@[i] == before[i]);
                    } else if i > at {
                        assert(self.rows@[i] == before[i - 1]);
                    }
                }
            }
            if !room {
                let ghost full = self.rows@;
                self.rows.pop();
                proof {
                    assert(self.rows@ =~= full.drop_last());
                    assert(kept =~= all.take(cap));
                    assert(rows_of(self.rows@) =~= kept.insert(at as int, row@).drop_last());
                    assert(next.len() == all.len() + 1);
                    assert(kept.insert(at as int, row@).drop_last() =~= next.take(cap));
                }
            } else {
                proof {
                    assert(kept =~= all);
                    assert(rows_of(self.rows@) =~= next);
                }
            }
        } else {
            proof {
                // The entry stands behind all that are kept: it is not shown.
                let end = place_in(all, row@, le);
                lemma_place_in(all, row@, le);
                let shifted = all.insert(end, row@);
                lemma_inserted(all, row@, end, le);
                lemma_sorted_form(seen.push(row@), shifted, le);
                assert(end >= cap) by {
                    if end < cap {
                        assert(all[end] == kept[end]);
                        assert(le(kept[end], row@));
                    }
                }
                assert(shifted.take(cap) =~= all.take(cap));
            }
        }
        self.seen = Ghost(seen.push(row@));
        assert(rows_of(self.rows@) == first_rows(self.seen@, cap));
    }

    /// The result of the listing.
    pub fn finish(self) -> (r: String)
        requires
            self.valid(),
        ensures
            r@ == listing_text(self@),
    {
        let ghost le = row_order();
        let ghost seen = self.seen@;
        let ghost all = seen.sort_by(le);
        let limit: usize = self.limit;
        let mut rows: Vec<DirEntryRow> = self.rows;
        let ghost kept = rows_of(rows@);
        proof {
            lemma_row_order();
            seen.lemma_sort_by_ensures(le);
            seen.to_multiset_ensures();
            all.to_multiset_ensures();
            assert(all.len() == seen.len());
            assert(kept.len() == rows@.len());
        }
        if rows.len() == 0 {
            return "(empty directory)".to_string();
        }
        let reached: bool = rows.len() > limit;
        if reached {
            let ghost full = rows@;
            rows.pop();
            assert(rows@ =~= full.drop_last());
        }
        let ghost shown = first_rows(seen, limit as int);
        assert(rows_of(rows@) =~= shown);
        let mut back: Vec<String> = Vec::new();
        let total: usize = rows.len();
        while rows.len() > 0
            invariant
                shown.len() == total,
                rows@.len() + back@.len() == total,
                rows_of(rows@) == shown.take(rows@.len() as int),
                forall|k: int|
                    0 <= k < back@.len() ==> (#[trigger] back@[k])@ == row_text(
                        shown[total - 1 - k],
                    ),
            decreases rows@.len(),
        {
            let ghost n = rows@.len() as int;
            let ghost before = rows@;
            match rows.pop() {
                Some(row) => {
                    proof {
                        assert(rows@ =~= before.drop_last());
                        assert(rows_of(before)[n - 1] == row@);
                        assert(shown.take(n)[n - 1] == shown[n - 1]);
                        assert(rows_of(rows@) =~= shown.take(n - 1));
                    }
                    back.push(row.display());
                },
                None => {},
            }
        }
        let mut texts: Vec<String> = Vec::new();
        let ghost want = row_texts(shown);
        while back.len() > 0
            invariant
                shown.len() == total,
                want == row_texts(shown),
                texts@.len() + back@.len() == total,
                text::views(texts@) == want.take(texts@.len() as int),
                forall|k: int|
                    0 <= k < back@.len() ==> (#[trigger] back@[k])@ == row_text(
                        shown[total - 1 - k],
                    ),
            decreases back@.len(),
        {
            let ghost m = texts@.len() as int;
            let ghost before = back@;
            match back.pop() {
                Some(t) => {
                    proof {
                        assert(t == before[before.len() - 1]);
                        assert(t@ == want[m]);
                        text::lemma_views_push(texts@, t);
                        assert(want.take(m + 1) =~= want.take(m).push(t@));
                    }
                    texts.push(t);
                },
                None => {},
            }
        }
        assert(want.take(total as int) =~= want);
        let raw: String = text::join(&texts, "\n");
        let t: TruncationResult = truncate::truncate_head(raw.as_str(), Some(usize::MAX), None);
        let ghost tv = t@;
        let mut list: Vec<String> = Vec::new();
        if reached {
            let mut n: String = String::new();
            text::push_usize(&mut n, limit);
            assert(n@ =~= text::decimal(limit as nat));
            n.append(" entries limit reached. Use limit=");
            text::push_number(&mut n, 2 * (limit as u128));
            n.append(" for more");
            list.push(n);
        }
        if t.truncated {
            let mut n: String = truncate::format_size(DEFAULT_MAX_BYTES);
            n.append(" limit reached");
            list.push(n);
        }
        assert(text::views(list@) =~= ls_notices(limit as nat, reached, tv.truncated));
        append_notices(t.content, &list)
    }
}

/// How many of the sorted items do not stand after `x`.
spec fn place_in(s: Seq<Row>, x: Row, le: spec_fn(Row, Row) -> bool) -> int
    decreases s.len(),
{
    if s.len() == 0 {
        0
    } else if le(s.last(), x) {
        s.len() as int
    } else {
        place_in(s.drop_last(), x, le)
    }
}

proof fn lemma_place_in(s: Seq<Row>, x: Row, le: spec_fn(Row, Row) -> bool)
    requires
        total_ordering(le),
        sorted_by(s, le),
    ensures
        0 <= place_in(s, x, le) <= s.len(),
        forall|k: int| 0 <= k < place_in(s, x, le) ==> le(#[trigger] s[k], x),
        forall|k: int| place_in(s, x, le) <= k < s.len() ==> le(x, #[trigger] s[k]),
        place_in(s, x, le) < s.len() ==> !le(s[place_in(s, x, le)], x),
    decreases s.len(),
{
    if s.len() > 0 {
        let last = s.len() - 1;
        if le(s[last], x) {
            assert forall|k: int| 0 <= k < s.len() implies le(#[trigger] s[k], x) by {
                if k < last {
                    assert(le(s[k], s[last]));
                }
            }
        } else {
            let init = s.drop_last();
            assert forall|i: int, j: int| 0 <= i < j < init.len() implies #[trigger] le(
                init[i],
                init[j],
            ) by {
                assert(le(s[i], s[j]));
            }
            lemma_place_in(init, x, le);
            assert(le(x, s[last]) || le(s[last], x));
            assert forall|k: int| 0 <= k < place_in(s, x, le) implies le(#[trigger] s[k], x) by {
                assert(init[k] == s[k]);
            }
            assert forall|k: int| place_in(s, x, le) <= k < s.len() implies le(
                x,
                #[trigger] s[k],
            ) by {
                if k < last {
                    assert(init[k] == s[k]);
                }
            }
        }
    }
}

/// The `ls` tool of a working directory.
#[derive(Debug)]
pub struct LsTool {
    pub cwd: String,
}

impl LsTool {
    pub fn schema(&self) -> (r: ToolSchema)
        ensures
            r@ == schema::ls_tool(),
    {
        schema::ls_schema()
    }

    /// The directory to list.
    pub fn target(&self, input: &LsInput, home: Option<&str>) -> (r: Target)
        ensures
            r.is_of(util::or_here(input.path), self.cwd@, text::opt_str(home)),
    {
        util::locate_or_here(&input.path, self.cwd.as_str(), home)
    }

    /// Begin a listing, given what was found at its target.
    pub fn begin(&self, input: &LsInput, target: &Target, exists: bool, is_dir: bool) -> (r:
        Result<Listing, LsError>)
        ensures
            match r {
                Ok(l) => {
                    &&& exists && is_dir
                    &&& l.valid()
                    &&& l@ == (ListingView {
                        limit: at_least_one(
                            truncate::or_else(input.limit, DEFAULT_ENTRY_LIMIT) as nat,
                        ),
                        seen: Seq::empty(),
                    })
                },
                Err(LsError::NotFound { display }) => !exists && display@ == target.display@,
                Err(LsError::NotADirectory { display }) => exists && !is_dir && display@
                    == target.display@,
                Err(_) => false,
            },
    {
        if !exists {
            Err(LsError::NotFound { display: target.display.clone() })
        } else if !is_dir {
            Err(LsError::NotADirectory { display: target.display.clone() })
        } else {
            Ok(Listing::new(input.limit))
        }
    }
}

/// A listing does not depend on the order in which the entries come: the same
/// entries, however they are ordered, give the same text.
pub proof fn law_listings_ignore_the_order_of_entries(limit: nat, a: Seq<Row>, b: Seq<Row>)
    requires
        a.to_multiset() == b.to_multiset(),
    ensures
        listing_text(ListingView { limit, seen: a }) == listing_text(
            ListingView { limit, seen: b },
        ),
{
    let le = row_order();
    lemma_row_order();
    a.lemma_sort_by_ensures(le);
    a.to_multiset_ensures();
    b.to_multiset_ensures();
    lemma_sorted_form(b, a.sort_by(le), le);
}

/// Names are listed without regard to case, those that differ only in case by
/// their characters.
pub proof fn law_names_are_listed_without_regard_to_case(a: Row, b: Row)
    ensures
        text::lower(a.name) != text::lower(b.name) ==> row_le(a, b) == text_le(
            text::lower(a.name),
            text::lower(b.name),
        ),
        text::lower(a.name) == text::lower(b.name) && a.name != b.name ==> row_le(a, b) == text_le(
            a.name,
            b.name,
        ),
{
}

/// A directory is shown with a slash behind its name, anything else by its name.
pub proof fn law_directories_are_shown_with_a_slash(name: Seq<char>)
    ensures
        row_text(Row { name, is_dir: true }) == name.push('/'),
        row_text(Row { name, is_dir: false }) == name,
{
    reveal_strlit("/");
    assert(name + "/"@ =~= name.push('/'));
}

/// A listing holds the first rows in order, as many as the limit says: they are
/// among what was seen, in order, and nothing that was seen and left out stands
/// before one of them.
pub proof fn law_a_listing_holds_the_first_rows(seen: Seq<Row>, n: int)
    requires
        n >= 0,
    ensures
        ({
            let rows = first_rows(seen, n);
            let all = seen.sort_by(row_order());
            &&& all.to_multiset() == seen.to_multiset()
            &&& rows.len() == (if seen.len() <= n {
                seen.len() as int
            } else {
                n
            })
            &&& rows == all.take(rows.len() as int)
            &&& forall|i: int, j: int|
                #![trigger all[i], all[j]]
                0 <= i < j < all.len() ==> row_le(all[i], all[j])
        }),
{
    lemma_row_order();
    seen.lemma_sort_by_ensures(row_order());
    let all = seen.sort_by(row_order());
    assert(all.len() == seen.len()) by {
        broadcast use vstd::seq_lib::group_to_multiset_ensures;

        assert(all.to_multiset().len() == seen.to_multiset().len());
    }
    if all.len() <= n {
        assert(all.take(all.len() as int) =~= all);
    }
    assert forall|i: int, j: int|
        #![trigger all[i], all[j]]
        0 <= i < j < all.len() implies row_le(all[i], all[j]) by {
        assert(row_order()(all[i], all[j]));
    }
}

/// An empty directory is said to be empty; any other is listed, a row to a line,
/// and the listing says where there was more.
pub proof fn law_a_listing_shows_its_rows(l: ListingView)
    ensures
        l.seen.len() == 0 ==> listing_text(l) == "(empty directory)"@,
        ({
            let rows = first_rows(l.seen, l.limit as int);
            let all = text::joined(
                Seq::new(rows.len(), |i: int| row_text(rows[i])),
                seq!['\n'],
            );
            let t = truncate::head_truncation(all, usize::MAX, 51200);
            &&& l.seen.len() > 0 && !t.truncated && l.seen.len() <= l.limit ==> listing_text(l)
                == t.content
            &&& l.seen.len() > 0 && !t.truncated && l.seen.len() > l.limit ==> listing_text(l)
                == t.content + "\n\n["@ + (text::decimal(l.limit)
                + " entries limit reached. Use limit="@ + text::decimal(2 * l.limit)
                + " for more"@) + "]"@
        }),
{
    reveal_strlit("\n");
    assert("\n"@ =~= seq!['\n']);
    let rows = first_rows(l.seen, l.limit as int);
    assert(Seq::new(rows.len(), |i: int| row_text(rows[i])) =~= row_texts(rows));
    let told = text::decimal(l.limit) + " entries limit reached. Use limit="@ + text::decimal(
        2 * l.limit,
    ) + " for more"@;
    text::law_joining_puts_the_separator_between(Seq::empty(), Seq::empty(), told, ". "@);
}

/// The words of the errors of a listing.
pub proof fn law_ls_errors_have_their_words(e: LsError)
    ensures
        match e {
            LsError::NotFound { display } => e.text() == "Path not found: "@ + display@,
            LsError::NotADirectory { display } => e.text() == "Not a directory: "@ + display@,
            LsError::Unreadable { message } => e.text() == "Cannot read directory: "@ + message@,
        },
{
}

/// The notices of a listing: that there were more entries than the limit, and that
/// the output was cut at its size.
pub proof fn law_a_listing_notes_what_it_left_out(limit: nat, reached: bool, bytes_hit: bool)
    ensures
        ({
            let more = text::decimal(limit) + " entries limit reached. Use limit="@ + text::decimal(
                2 * limit,
            ) + " for more"@;
            let size = truncate::size_text(51200) + " limit reached"@;
            let v = ls_notices(limit, reached, bytes_hit);
            &&& reached && bytes_hit ==> v == seq![more, size]
            &&& reached && !bytes_hit ==> v == seq![more]
            &&& !reached && bytes_hit ==> v == seq![size]
            &&& !reached && !bytes_hit ==> v.len() == 0
        }),
{
    let more = text::decimal(limit) + " entries limit reached. Use limit="@ + text::decimal(
        2 * limit,
    ) + " for more"@;
    let size = truncate::size_text(51200) + " limit reached"@;
    assert(seq![more].push(size) =~= seq![more, size]);
    assert(Seq::<Seq<char>>::empty().push(size) =~= seq![size]);
}

} // verus!
