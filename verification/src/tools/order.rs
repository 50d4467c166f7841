//! The order in which results are listed.

use vstd::prelude::*;
use vstd::relations::{sorted_by, total_ordering};
use vstd::seq_lib::{lemma_sorted_unique, to_multiset_insert};

use crate::text;

verus! {

/// `a` stands before `b`, or is the same, compared character by character from
/// `i` on.
pub open spec fn text_le_from(a: Seq<char>, b: Seq<char>, i: int) -> bool
    decreases a.len() - i,
{
    if i < 0 || i >= a.len() {
        true
    } else if i >= b.len() {
        false
    } else if a[i] == b[i] {
        text_le_from(a, b, i + 1)
    } else {
        (a[i] as int) < (b[i] as int)
    }
}

/// The dictionary order of texts.
pub open spec fn text_le(a: Seq<char>, b: Seq<char>) -> bool {
    text_le_from(a, b, 0)
}

pub open spec fn text_order() -> spec_fn(Seq<char>, Seq<char>) -> bool {
    |a: Seq<char>, b: Seq<char>| text_le(a, b)
}

proof fn lemma_le_reflexive(a: Seq<char>, i: int)
    requires
        0 <= i,
    ensures
        text_le_from(a, a, i),
    decreases a.len() - i,
{
    if i < a.len() {
        lemma_le_reflexive(a, i + 1);
    }
}

proof fn lemma_le_total(a: Seq<char>, b: Seq<char>, i: int)
    requires
        0 <= i,
    ensures
        text_le_from(a, b, i) || text_le_from(b, a, i),
    decreases a.len() - i,
{
    if i < a.len() && i < b.len() {
        if a[i] == b[i] {
            lemma_le_total(a, b, i + 1);
        }
    }
}

proof fn lemma_le_antisymmetric(a: Seq<char>, b: Seq<char>, i: int)
    requires
        0 <= i <= a.len(),
        i <= b.len(),
        text_le_from(a, b, i),
        text_le_from(b, a, i),
    ensures
        a.len() == b.len(),
        forall|k: int| i <= k < a.len() ==> a[k] == b[k],
    decreases a.len() - i,
{
    if i < a.len() && i < b.len() {
        lemma_le_antisymmetric(a, b, i + 1);
    }
}

proof fn lemma_le_transitive(a: Seq<char>, b: Seq<char>, c: Seq<char>, i: int)
    requires
        0 <= i,
        text_le_from(a, b, i),
        text_le_from(b, c, i),
    ensures
        text_le_from(a, c, i),
    decreases a.len() - i,
{
    if i < a.len() && i < b.len() && i < c.len() && a[i] == b[i] && b[i] == c[i] {
        lemma_le_transitive(a, b, c, i + 1);
    }
}

/// The dictionary order is a total order.
pub proof fn lemma_text_order()
    ensures
        total_ordering(text_order()),
{
    let le = text_order();
    assert forall|a: Seq<char>| #[trigger] le(a, a) by {
        lemma_le_reflexive(a, 0);
    }
    assert forall|a: Seq<char>, b: Seq<char>| #[trigger] le(a, b) && #[trigger] le(b, a) implies a
        == b by {
        lemma_le_antisymmetric(a, b, 0);
        assert(a =~= b);
    }
    assert forall|a: Seq<char>, b: Seq<char>, c: Seq<char>| #[trigger]
        le(a, b) && #[trigger] le(b, c) implies le(a, c) by {
        lemma_le_transitive(a, b, c, 0);
    }
    assert forall|a: Seq<char>, b: Seq<char>| #[trigger] le(a, b) || #[trigger] le(b, a) by {
        lemma_le_total(a, b, 0);
    }
}

/// Does `a` stand before `b`, or is it the same?
pub fn text_not_after(a: &str, b: &str) -> (r: bool)
    ensures
        r == text_le(a@, b@),
{
    let x: Vec<char> = text::chars_of(a);
    let y: Vec<char> = text::chars_of(b);
    let mut i: usize = 0;
    while i < x.len()
        invariant
            x@ == a@,
            y@ == b@,
            i <= x@.len(),
            text_le(a@, b@) == text_le_from(a@, b@, i as int),
        decreases x@.len() - i,
    {
        if i >= y.len() {
            return false;
        }
        if x[i] != y[i] {
            return x[i] < y[i];
        }
        i += 1;
    }
    true
}

/// Putting `x` behind everything that stands before it keeps a sequence sorted.
pub proof fn lemma_inserted<A>(s: Seq<A>, x: A, at: int, le: spec_fn(A, A) -> bool)
    requires
        total_ordering(le),
        sorted_by(s, le),
        0 <= at <= s.len(),
        forall|k: int| 0 <= k < at ==> le(#[trigger] s[k], x),
        forall|k: int| at <= k < s.len() ==> le(x, #[trigger] s[k]),
    ensures
        sorted_by(s.insert(at, x), le),
        s.insert(at, x).to_multiset() == s.to_multiset().insert(x),
{
    to_multiset_insert(s, at, x);
    let t = s.insert(at, x);
    assert forall|i: int, j: int| 0 <= i < j < t.len() implies #[trigger] le(t[i], t[j]) by {
        if i < at {
            assert(t[i] == s[i]);
            if j < at {
                assert(t[j] == s[j]);
            } else if j > at {
                assert(t[j] == s[j - 1]);
                assert(le(s[i], s[j - 1]));
            }
        } else if i == at {
            assert(t[j] == s[j - 1]);
        } else {
            assert(t[i] == s[i - 1]);
            assert(t[j] == s[j - 1]);
        }
    }
}

/// What is sorted and has the items of `v` is `v` sorted.
pub proof fn lemma_sorted_form<A>(v: Seq<A>, s: Seq<A>, le: spec_fn(A, A) -> bool)
    requires
        total_ordering(le),
        sorted_by(s, le),
        s.to_multiset() == v.to_multiset(),
    ensures
        s == v.sort_by(le),
{
    v.lemma_sort_by_ensures(le);
    lemma_sorted_unique(s, v.sort_by(le), le);
}

/// The texts in dictionary order.
pub open spec fn sorted_texts(v: Seq<Seq<char>>) -> Seq<Seq<char>> {
    v.sort_by(text_order())
}

/// Where `x` goes among sorted texts: behind all that do not stand after it.
fn place_for(v: &Vec<String>, x: &str) -> (at: usize)
    requires
        sorted_by(text::views(v@), text_order()),
    ensures
        at <= v@.len(),
        forall|k: int| 0 <= k < at ==> text_order()(#[trigger] text::views(v@)[k], x@),
        forall|k: int| at <= k < v@.len() ==> text_order()(x@, #[trigger] text::views(v@)[k]),
{
    let ghost s = text::views(v@);
    let ghost le = text_order();
    proof {
        lemma_text_order();
    }
    let mut lo: usize = 0;
    let mut hi: usize = v.len();
    while lo < hi
        invariant
            s == text::views(v@),
            le == text_order(),
            total_ordering(le),
            sorted_by(s, le),
            lo <= hi <= v@.len(),
            forall|k: int| 0 <= k < lo ==> le(#[trigger] s[k], x@),
            forall|k: int| hi <= k < v@.len() ==> le(x@, #[trigger] s[k]),
        decreases hi - lo,
    {
        let mid: usize = lo + (hi - lo) / 2;
        assert(s[mid as int] == v@[mid as int]@);
        if text_not_after(v[mid].as_str(), x) {
            assert forall|k: int| 0 <= k < mid + 1 implies le(#[trigger] s[k], x@) by {
                if k < mid {
                    assert(le(s[k], s[mid as int]));
                }
                assert(le(s[mid as int], x@));
            }
            lo = mid + 1;
        } else {
            assert forall|k: int| mid <= k < v@.len() implies le(x@, #[trigger] s[k]) by {
                assert(le(s[mid as int], x@) || le(x@, s[mid as int]));
                if mid < k {
                    assert(le(s[mid as int], s[k]));
                }
            }
            hi = mid;
        }
    }
    lo
}

/// Sort texts in dictionary order.
pub fn sort_texts(v: Vec<String>) -> (r: Vec<String>)
    ensures
        text::views(r@) == sorted_texts(text::views(v@)),
{
    let ghost all = text::views(v@);
    let ghost le = text_order();
    proof {
        lemma_text_order();
    }
    let mut out: Vec<String> = Vec::new();
    let mut i: usize = 0;
    assert(text::views(out@) =~= all.take(0));
    while i < v.len()
        invariant
            all == text::views(v@),
            le == text_order(),
            total_ordering(le),
            i <= v@.len(),
            sorted_by(text::views(out@), le),
            text::views(out@).to_multiset() == all.take(i as int).to_multiset(),
        decreases v@.len() - i,
    {
        let x: String = v[i].clone();
        let at: usize = place_for(&out, x.as_str());
        proof {
            let s = text::views(out@);
            assert(s.len() == out@.len());
            lemma_inserted(s, x@, at as int, le);
            assert(text::views(out@.insert(at as int, x)) =~= s.insert(at as int, x@));
            assert(all.take(i + 1) =~= all.take(i as int).push(x@));
            all.take(i as int).to_multiset_ensures();
        }
        out.insert(at, x);
        i += 1;
    }
    proof {
        assert(all.take(all.len() as int) =~= all);
        lemma_sorted_form(all, text::views(out@), le);
    }
    out
}

/// Sorted texts are the same texts, in dictionary order.
pub proof fn law_sorted_texts_are_in_order(v: Seq<Seq<char>>)
    ensures
        sorted_texts(v).to_multiset() == v.to_multiset(),
        forall|i: int, j: int|
            0 <= i < j < sorted_texts(v).len() ==> text_le(sorted_texts(v)[i], sorted_texts(v)[j]),
{
    lemma_text_order();
    let le = text_order();
    v.lemma_sort_by_ensures(le);
    let w = sorted_texts(v);
    assert forall|i: int, j: int| 0 <= i < j < w.len() implies text_le(w[i], w[j]) by {
        assert(le(w[i], w[j]));
    }
}

/// The dictionary order: the first character in which two texts differ decides,
/// by its number; a text stands before every longer one that starts with it.
pub proof fn law_the_first_difference_decides(
    common: Seq<char>,
    a: Seq<char>,
    b: Seq<char>,
)
    ensures
        text_le(common, common + b),
        b.len() > 0 ==> !text_le(common + b, common),
        a.len() > 0 && b.len() > 0 && (a[0] as int) < (b[0] as int) ==> text_le(common + a, common + b)
            && !text_le(common + b, common + a),
{
    let n = common.len() as int;
    lemma_common(common, common + b, 0, n);
    lemma_common(common + b, common, 0, n);
    lemma_common(common + a, common + b, 0, n);
    lemma_common(common + b, common + a, 0, n);
    if a.len() > 0 && b.len() > 0 {
        assert((common + a)[n] == a[0]);
        assert((common + b)[n] == b[0]);
    }
}

/// Shared characters do not matter.
proof fn lemma_common(a: Seq<char>, b: Seq<char>, i: int, n: int)
    requires
        0 <= i <= n <= a.len(),
        n <= b.len(),
        forall|k: int| i <= k < n ==> a[k] == b[k],
    ensures
        text_le_from(a, b, i) <==> text_le_from(a, b, n),
    decreases n - i,
{
    if i < n {
        assert(a[i] == b[i]);
        lemma_common(a, b, i + 1, n);
    }
}

} // verus!
