//! Line diffs: a longest-common-subsequence walk and its unified rendering.

use vstd::prelude::*;

use crate::text;

verus! {

// ---------------------------------------------------------------------------
// Operations
// ---------------------------------------------------------------------------

/// One step from the old lines to the new ones.
pub ghost enum Op {
    Equal(Seq<char>),
    Delete(Seq<char>),
    Insert(Seq<char>),
}

/// The executable counterpart of `Op`.
#[derive(Debug)]
pub enum DiffOp {
    Equal(String),
    Delete(String),
    Insert(String),
}

impl View for DiffOp {
    type V = Op;

    open spec fn view(&self) -> Op {
        match self {
            DiffOp::Equal(l) => Op::Equal(l@),
            DiffOp::Delete(l) => Op::Delete(l@),
            DiffOp::Insert(l) => Op::Insert(l@),
        }
    }
}

pub open spec fn ops_of(v: Seq<DiffOp>) -> Seq<Op> {
    v.map_values(|o: DiffOp| o@)
}

proof fn lemma_ops_push(v: Seq<DiffOp>, o: DiffOp)
    ensures
        ops_of(v.push(o)) == ops_of(v).push(o@),
{
    assert(ops_of(v.push(o)) =~= ops_of(v).push(o@));
}

pub open spec fn changes(op: Op) -> bool {
    !(op is Equal)
}

/// The old lines that `ops` starts from.
pub open spec fn old_side(ops: Seq<Op>) -> Seq<Seq<char>>
    decreases ops.len(),
{
    if ops.len() == 0 {
        Seq::empty()
    } else {
        match ops.last() {
            Op::Equal(l) => old_side(ops.drop_last()).push(l),
            Op::Delete(l) => old_side(ops.drop_last()).push(l),
            Op::Insert(l) => old_side(ops.drop_last()),
        }
    }
}

/// The new lines that `ops` arrives at.
pub open spec fn new_side(ops: Seq<Op>) -> Seq<Seq<char>>
    decreases ops.len(),
{
    if ops.len() == 0 {
        Seq::empty()
    } else {
        match ops.last() {
            Op::Equal(l) => new_side(ops.drop_last()).push(l),
            Op::Delete(l) => new_side(ops.drop_last()),
            Op::Insert(l) => new_side(ops.drop_last()).push(l),
        }
    }
}

/// The number of lines that `ops` keeps.
pub open spec fn kept(ops: Seq<Op>) -> nat
    decreases ops.len(),
{
    if ops.len() == 0 {
        0
    } else {
        kept(ops.drop_last()) + (if ops.last() is Equal {
            1nat
        } else {
            0
        })
    }
}

// ---------------------------------------------------------------------------
// Longest common subsequence
// ---------------------------------------------------------------------------

/// Length of the longest common subsequence of `a[i..]` and `b[j..]`.
pub open spec fn lcs(a: Seq<Seq<char>>, b: Seq<Seq<char>>, i: int, j: int) -> nat
    decreases (a.len() - i) + (b.len() - j),
{
    if i < 0 || j < 0 || i >= a.len() || j >= b.len() {
        0
    } else if a[i] == b[j] {
        1 + lcs(a, b, i + 1, j + 1)
    } else if lcs(a, b, i + 1, j) >= lcs(a, b, i, j + 1) {
        lcs(a, b, i + 1, j)
    } else {
        lcs(a, b, i, j + 1)
    }
}

/// The steps from `a[i..]` to `b[j..]` along a longest common subsequence: equal
/// heads are kept; otherwise the old head goes first, unless only keeping it
/// leaves a longer subsequence to follow.
pub open spec fn walk(a: Seq<Seq<char>>, b: Seq<Seq<char>>, i: int, j: int) -> Seq<Op>
    decreases (a.len() - i) + (b.len() - j),
{
    if i < 0 || j < 0 || i > a.len() || j > b.len() {
        Seq::empty()
    } else if i < a.len() && j < b.len() {
        if a[i] == b[j] {
            seq![Op::Equal(a[i])] + walk(a, b, i + 1, j + 1)
        } else if lcs(a, b, i + 1, j) >= lcs(a, b, i, j + 1) {
            seq![Op::Delete(a[i])] + walk(a, b, i + 1, j)
        } else {
            seq![Op::Insert(b[j])] + walk(a, b, i, j + 1)
        }
    } else if i < a.len() {
        seq![Op::Delete(a[i])] + walk(a, b, i + 1, j)
    } else if j < b.len() {
        seq![Op::Insert(b[j])] + walk(a, b, i, j + 1)
    } else {
        Seq::empty()
    }
}

/// Most table cells that a line diff may take; past it the diff is coarse.
pub const DP_CELL_BUDGET: usize = 2_000_000;

/// Every line kept, deleted or inserted.
pub open spec fn all_equal(a: Seq<Seq<char>>) -> Seq<Op> {
    a.map_values(|l: Seq<char>| Op::Equal(l))
}

pub open spec fn all_deleted(a: Seq<Seq<char>>) -> Seq<Op> {
    a.map_values(|l: Seq<char>| Op::Delete(l))
}

pub open spec fn all_inserted(a: Seq<Seq<char>>) -> Seq<Op> {
    a.map_values(|l: Seq<char>| Op::Insert(l))
}

/// The steps between two middles: the walk, or the coarse delete-then-insert
/// when the table would be over budget.
pub open spec fn middle_ops(a: Seq<Seq<char>>, b: Seq<Seq<char>>) -> Seq<Op> {
    if a.len() * b.len() > DP_CELL_BUDGET {
        all_deleted(a) + all_inserted(b)
    } else {
        walk(a, b, 0, 0)
    }
}

/// Number of leading lines that `a` and `b` share from `i` on.
pub open spec fn common_prefix(a: Seq<Seq<char>>, b: Seq<Seq<char>>, i: int) -> int
    decreases a.len() - i,
{
    if 0 <= i < a.len() && i < b.len() && a[i] == b[i] {
        common_prefix(a, b, i + 1)
    } else {
        i
    }
}

/// Number of trailing lines that `a` and `b` share, besides the first `p`.
pub open spec fn common_suffix(a: Seq<Seq<char>>, b: Seq<Seq<char>>, p: int, k: int) -> int
    decreases a.len() - k,
{
    if 0 <= k && 0 <= p && p + k < a.len() && p + k < b.len() && a[a.len() - 1 - k] == b[b.len() - 1
        - k] {
        common_suffix(a, b, p, k + 1)
    } else {
        k
    }
}

/// Is what lies between the shared leading and trailing lines small enough for
/// the table?
pub open spec fn within_budget(a: Seq<Seq<char>>, b: Seq<Seq<char>>) -> bool {
    let p = common_prefix(a, b, 0);
    let k = common_suffix(a, b, p, 0);
    (a.len() - p - k) * (b.len() - p - k) <= DP_CELL_BUDGET
}

/// The line diff of `a` and `b`: the walk over all of them. Where the table for
/// what lies between the shared leading and trailing lines would be over budget,
/// those lines are kept and all between them is replaced.
pub open spec fn diff_ops(a: Seq<Seq<char>>, b: Seq<Seq<char>>) -> Seq<Op> {
    let p = common_prefix(a, b, 0);
    let k = common_suffix(a, b, p, 0);
    if within_budget(a, b) {
        walk(a, b, 0, 0)
    } else {
        all_equal(a.take(p)) + all_deleted(a.subrange(p, a.len() - k)) + all_inserted(
            b.subrange(p, b.len() - k),
        ) + all_equal(a.skip(a.len() - k))
    }
}

proof fn lemma_common_prefix(a: Seq<Seq<char>>, b: Seq<Seq<char>>, i: int)
    requires
        0 <= i <= a.len(),
        i <= b.len(),
    ensures
        i <= common_prefix(a, b, i) <= a.len(),
        common_prefix(a, b, i) <= b.len(),
        forall|x: int| i <= x < common_prefix(a, b, i) ==> a[x] == b[x],
    decreases a.len() - i,
{
    if i < a.len() && i < b.len() && a[i] == b[i] {
        lemma_common_prefix(a, b, i + 1);
    }
}

proof fn lemma_common_suffix(a: Seq<Seq<char>>, b: Seq<Seq<char>>, p: int, k: int)
    requires
        0 <= p,
        0 <= k,
        p + k <= a.len(),
        p + k <= b.len(),
    ensures
        k <= common_suffix(a, b, p, k),
        p + common_suffix(a, b, p, k) <= a.len(),
        p + common_suffix(a, b, p, k) <= b.len(),
        forall|x: int|
            #![trigger a[x]]
            a.len() - common_suffix(a, b, p, k) <= x < a.len() - k ==> a[x] == b[b.len() - a.len()
                + x],
    decreases a.len() - k,
{
    if p + k < a.len() && p + k < b.len() && a[a.len() - 1 - k] == b[b.len() - 1 - k] {
        lemma_common_suffix(a, b, p, k + 1);
    }
}

/// The table of common-subsequence lengths, from the ends backwards:
/// `table[k][l]` belongs to the last `k` lines of `a` and the last `l` of `b`.
fn lcs_table(a: &Vec<String>, b: &Vec<String>) -> (table: Vec<Vec<usize>>)
    ensures
        table@.len() == a@.len() + 1,
        forall|k: int|
            #![trigger table@[k]]
            0 <= k <= a@.len() ==> table@[k]@.len() == b@.len() + 1 && forall|l: int|
                0 <= l <= b@.len() ==> #[trigger] table@[k]@[l] == lcs(
                    text::views(a@),
                    text::views(b@),
                    a@.len() - k,
                    b@.len() - l,
                ),
{
    let ghost x = text::views(a@);
    let ghost y = text::views(b@);
    let n: usize = a.len();
    let m: usize = b.len();
    let mut first: Vec<usize> = Vec::new();
    first.push(0);
    let mut l: usize = 0;
    while l < m
        invariant
            l <= m,
            first@.len() == l + 1,
            forall|q: int| 0 <= q <= l ==> #[trigger] first@[q] == 0,
        decreases m - l,
    {
        first.push(0);
        l += 1;
    }
    let mut table: Vec<Vec<usize>> = Vec::new();
    table.push(first);
    let mut k: usize = 0;
    while k < n
        invariant
            n == a@.len(),
            m == b@.len(),
            x == text::views(a@),
            y == text::views(b@),
            k <= n,
            table@.len() == k + 1,
            forall|q: int|
                #![trigger table@[q]]
                0 <= q <= k ==> table@[q]@.len() == m + 1 && forall|l: int|
                    0 <= l <= m ==> #[trigger] table@[q]@[l] == lcs(x, y, n - q, m - l),
        decreases n - k,
    {
        let i: usize = n - 1 - k;
        let mut row: Vec<usize> = Vec::new();
        row.push(0);
        let mut l: usize = 0;
        while l < m
            invariant
                n == a@.len(),
                m == b@.len(),
                x == text::views(a@),
                y == text::views(b@),
                k < n,
                i == n - 1 - k,
                table@.len() == k + 1,
                table@[k as int]@.len() == m + 1,
                forall|q: int|
                    0 <= q <= m ==> #[trigger] table@[k as int]@[q] == lcs(x, y, n - k, m - q),
                l <= m,
                row@.len() == l + 1,
                forall|q: int| 0 <= q <= l ==> #[trigger] row@[q] == lcs(x, y, i as int, m - q),
            decreases m - l,
        {
            let j: usize = m - 1 - l;
            let above: usize = table[k][l + 1];
            let diagonal: usize = table[k][l];
            let beside: usize = row[l];
            proof {
                lemma_lcs_bound(x, y, i + 1, j + 1);
                assert(x[i as int] == a@[i as int]@);
                assert(y[j as int] == b@[j as int]@);
                assert(table@[k as int]@[l as int] == lcs(x, y, n - k, m - l));
                assert(table@[k as int]@[l + 1] == lcs(x, y, n - k, m - (l + 1)));
            }
            let value: usize = if a[i] == b[j] {
                diagonal + 1
            } else if above >= beside {
                above
            } else {
                beside
            };
            row.push(value);
            l += 1;
        }
        let ghost before = table@;
        table.push(row);
        k += 1;
        proof {
            assert forall|q: int| #![trigger table@[q]] 0 <= q <= k implies table@[q]@.len() == m + 1
                && forall|l: int|
                0 <= l <= m ==> #[trigger] table@[q]@[l] == lcs(x, y, n - q, m - l) by {
                if q < k {
                    assert(table@[q] == before[q]);
                }
            }
        }
    }
    table
}

proof fn lemma_lcs_bound(a: Seq<Seq<char>>, b: Seq<Seq<char>>, i: int, j: int)
    requires
        0 <= i,
        0 <= j,
    ensures
        i <= a.len() ==> lcs(a, b, i, j) <= a.len() - i,
        j <= b.len() ==> lcs(a, b, i, j) <= b.len() - j,
    decreases (a.len() - i) + (b.len() - j),
{
    if i < a.len() && j < b.len() {
        if a[i] == b[j] {
            lemma_lcs_bound(a, b, i + 1, j + 1);
        } else {
            lemma_lcs_bound(a, b, i + 1, j);
            lemma_lcs_bound(a, b, i, j + 1);
        }
    }
}

proof fn lemma_lcs_push(
    a: Seq<Seq<char>>,
    b: Seq<Seq<char>>,
    x: Seq<char>,
    i: int,
    j: int,
)
    requires
        0 <= i <= a.len(),
        0 <= j <= b.len(),
    ensures
        lcs(a.push(x), b.push(x), i, j) == lcs(a, b, i, j) + 1,
    decreases (a.len() - i) + (b.len() - j),
{
    reveal_with_fuel(lcs, 2);
    if i < a.len() && j < b.len() {
        if a[i] == b[j] {
            lemma_lcs_push(a, b, x, i + 1, j + 1);
        } else {
            lemma_lcs_push(a, b, x, i + 1, j);
            lemma_lcs_push(a, b, x, i, j + 1);
        }
    } else if i < a.len() {
        lemma_lcs_push(a, b, x, i + 1, j);
    } else if j < b.len() {
        lemma_lcs_push(a, b, x, i, j + 1);
    }
}

proof fn lemma_lcs_suffix(a: Seq<Seq<char>>, b: Seq<Seq<char>>, k: int, i: int, j: int)
    requires
        0 <= k,
        0 <= i <= a.len() - k,
        0 <= j <= b.len() - k,
        forall|x: int|
            #![trigger a[x]]
            a.len() - k <= x < a.len() ==> a[x] == b[b.len() - a.len() + x],
    ensures
        lcs(a, b, i, j) == lcs(a.take(a.len() - k), b.take(b.len() - k), i, j) + k,
    decreases k,
{
    if k == 0 {
        assert(a.take(a.len() as int) =~= a);
        assert(b.take(b.len() as int) =~= b);
    } else {
        let c = a.drop_last();
        let d = b.drop_last();
        assert(a.last() == b.last()) by {
            assert(a[a.len() - 1] == b[b.len() - a.len() + (a.len() - 1)]);
        }
        assert(a =~= c.push(a.last()));
        assert(b =~= d.push(a.last()));
        lemma_lcs_push(c, d, a.last(), i, j);
        assert forall|x: int|
            #![trigger c[x]]
            c.len() - (k - 1) <= x < c.len() implies c[x] == d[d.len() - c.len() + x] by {
            assert(a[x] == b[b.len() - a.len() + x]);
        }
        lemma_lcs_suffix(c, d, k - 1, i, j);
        assert(c.take(c.len() - (k - 1)) =~= a.take(a.len() - k));
        assert(d.take(d.len() - (k - 1)) =~= b.take(b.len() - k));
    }
}

proof fn lemma_lcs_shift(
    a: Seq<Seq<char>>,
    b: Seq<Seq<char>>,
    p: int,
    i: int,
    j: int,
)
    requires
        0 <= p <= a.len(),
        p <= b.len(),
        0 <= i <= a.len() - p,
        0 <= j <= b.len() - p,
    ensures
        lcs(a, b, p + i, p + j) == lcs(a.skip(p), b.skip(p), i, j),
    decreases (a.len() - i) + (b.len() - j),
{
    if i < a.len() - p && j < b.len() - p {
        lemma_lcs_shift(a, b, p, i + 1, j + 1);
        lemma_lcs_shift(a, b, p, i + 1, j);
        lemma_lcs_shift(a, b, p, i, j + 1);
    }
}

/// A copy of `v[lo..hi]`.
fn copy_range(v: &Vec<String>, lo: usize, hi: usize) -> (r: Vec<String>)
    requires
        lo <= hi <= v@.len(),
    ensures
        text::views(r@) == text::views(v@).subrange(lo as int, hi as int),
{
    let mut out: Vec<String> = Vec::new();
    let mut i: usize = lo;
    assert(text::views(out@) =~= text::views(v@).subrange(lo as int, lo as int));
    while i < hi
        invariant
            lo <= i <= hi <= v@.len(),
            text::views(out@) == text::views(v@).subrange(lo as int, i as int),
        decreases hi - i,
    {
        let s: String = v[i].clone();
        proof {
            text::lemma_views_push(out@, s);
            assert(text::views(v@).subrange(lo as int, i + 1) =~= text::views(v@).subrange(
                lo as int,
                i as int,
            ).push(v@[i as int]@));
        }
        out.push(s);
        i += 1;
    }
    out
}

/// What a table over the middles says of the whole: the `k` shared trailing
/// lines add `k`.
proof fn lemma_lcs_middle(
    a: Seq<Seq<char>>,
    b: Seq<Seq<char>>,
    p: int,
    k: int,
    i: int,
    j: int,
)
    requires
        0 <= p,
        0 <= k,
        p <= i <= a.len() - k,
        p <= j <= b.len() - k,
        forall|x: int|
            #![trigger a[x]]
            a.len() - k <= x < a.len() ==> a[x] == b[b.len() - a.len() + x],
    ensures
        lcs(a, b, i, j) == lcs(
            a.subrange(p, a.len() - k),
            b.subrange(p, b.len() - k),
            i - p,
            j - p,
        ) + k,
{
    lemma_lcs_suffix(a, b, k, i, j);
    let ta = a.take(a.len() - k);
    let tb = b.take(b.len() - k);
    lemma_lcs_shift(ta, tb, p, i - p, j - p);
    assert(ta.skip(p) =~= a.subrange(p, a.len() - k));
    assert(tb.skip(p) =~= b.subrange(p, b.len() - k));
}

/// Is all that is left of one side among the `k` shared trailing lines, and no
/// more than is left of the other side?
spec fn in_tail(n: int, m: int, k: int, i: int, j: int) -> bool {
    ||| n - i <= k && n - i <= m - j
    ||| m - j <= k && m - j <= n - i
}

/// What is left of one side is then the end of what is left of the other.
proof fn lemma_lcs_tail(a: Seq<Seq<char>>, b: Seq<Seq<char>>, k: int, i: int, j: int)
    requires
        0 <= k <= a.len(),
        k <= b.len(),
        0 <= i <= a.len(),
        0 <= j <= b.len(),
        in_tail(a.len() as int, b.len() as int, k, i, j),
        forall|x: int|
            #![trigger a[x]]
            a.len() - k <= x < a.len() ==> a[x] == b[b.len() - a.len() + x],
    ensures
        a.len() - i <= b.len() - j ==> lcs(a, b, i, j) == a.len() - i,
        b.len() - j <= a.len() - i ==> lcs(a, b, i, j) == b.len() - j,
    decreases (a.len() - i) + (b.len() - j),
{
    if i < a.len() && j < b.len() {
        if a.len() - i == b.len() - j {
            assert(a[i] == b[b.len() - a.len() + i]);
        }
        if a[i] == b[j] {
            lemma_lcs_tail(a, b, k, i + 1, j + 1);
        } else if a.len() - i < b.len() - j {
            lemma_lcs_tail(a, b, k, i, j + 1);
            lemma_lcs_bound(a, b, i + 1, j);
        } else {
            lemma_lcs_tail(a, b, k, i + 1, j);
            lemma_lcs_bound(a, b, i, j + 1);
        }
    }
}

/// Append the walk over `a[p..]` and `b[p..]`, which share their last `k` lines.
/// The table covers what lies before those; from there on the side with less
/// left is the end of the other, and every line of it is kept.
fn push_walk(ops: &mut Vec<DiffOp>, a: &Vec<String>, b: &Vec<String>, p: usize, k: usize)
    requires
        p + k <= a@.len(),
        p + k <= b@.len(),
        forall|x: int|
            #![trigger text::views(a@)[x]]
            a@.len() - k <= x < a@.len() ==> text::views(a@)[x] == text::views(b@)[b@.len()
                - a@.len() + x],
    ensures
        ops_of(final(ops)@) == ops_of(old(ops)@) + walk(
            text::views(a@),
            text::views(b@),
            p as int,
            p as int,
        ),
{
    let ghost x = text::views(a@);
    let ghost y = text::views(b@);
    let n: usize = a.len();
    let m: usize = b.len();
    let mid_a: Vec<String> = copy_range(a, p, n - k);
    let mid_b: Vec<String> = copy_range(b, p, m - k);
    let ghost ma = text::views(mid_a@);
    let ghost mb = text::views(mid_b@);
    let rows: usize = n - k - p;
    let columns: usize = m - k - p;
    assert(ma.len() == rows && mb.len() == columns);
    let table: Vec<Vec<usize>> = lcs_table(&mid_a, &mid_b);
    let ghost whole = ops_of(ops@) + walk(x, y, p as int, p as int);
    let mut i: usize = p;
    let mut j: usize = p;
    while i < n - k && j < m - k
        invariant
            n == a@.len(),
            m == b@.len(),
            x == text::views(a@),
            y == text::views(b@),
            p + k <= n,
            p + k <= m,
            rows == n - k - p,
            columns == m - k - p,
            ma == x.subrange(p as int, n - k),
            mb == y.subrange(p as int, m - k),
            forall|q: int|
                #![trigger x[q]]
                n - k <= q < n ==> x[q] == y[m - n + q],
            p <= i <= n - k,
            p <= j <= m - k,
            table@.len() == rows + 1,
            forall|q: int|
                #![trigger table@[q]]
                0 <= q <= rows ==> table@[q]@.len() == columns + 1 && forall|l: int|
                    0 <= l <= columns ==> #[trigger] table@[q]@[l] == lcs(
                        ma,
                        mb,
                        rows - q,
                        columns - l,
                    ),
            ops_of(ops@) + walk(x, y, i as int, j as int) == whole,
        decreases (n - i) + (m - j),
    {
        let ghost before = ops_of(ops@);
        let ghost rest = walk(x, y, i as int, j as int);
        proof {
            assert(x[i as int] == a@[i as int]@);
            assert(y[j as int] == b@[j as int]@);
        }
        let op: DiffOp = if a[i] == b[j] {
            i += 1;
            j += 1;
            DiffOp::Equal(a[i - 1].clone())
        } else {
            let down: usize = table[n - k - i - 1][m - k - j];
            let right: usize = table[n - k - i][m - k - j - 1];
            proof {
                assert(table@[n - k - i - 1]@[m - k - j] == lcs(ma, mb, i + 1 - p, j - p));
                assert(table@[n - k - i]@[m - k - j - 1] == lcs(ma, mb, i - p, j + 1 - p));
                lemma_lcs_middle(x, y, p as int, k as int, i + 1, j as int);
                lemma_lcs_middle(x, y, p as int, k as int, i as int, j + 1);
            }
            if down >= right {
                i += 1;
                DiffOp::Delete(a[i - 1].clone())
            } else {
                j += 1;
                DiffOp::Insert(b[j - 1].clone())
            }
        };
        proof {
            lemma_ops_push(ops@, op);
            assert(rest =~= seq![op@] + walk(x, y, i as int, j as int));
            assert(before.push(op@) + walk(x, y, i as int, j as int) =~= before + rest);
        }
        ops.push(op);
    }
    while i < n || j < m
        invariant
            n == a@.len(),
            m == b@.len(),
            x == text::views(a@),
            y == text::views(b@),
            p + k <= n,
            p + k <= m,
            forall|q: int|
                #![trigger x[q]]
                n - k <= q < n ==> x[q] == y[m - n + q],
            i <= n,
            j <= m,
            in_tail(n as int, m as int, k as int, i as int, j as int),
            ops_of(ops@) + walk(x, y, i as int, j as int) == whole,
        decreases (n - i) + (m - j),
    {
        let ghost before = ops_of(ops@);
        let ghost rest = walk(x, y, i as int, j as int);
        proof {
            if i < n {
                assert(x[i as int] == a@[i as int]@);
            }
            if j < m {
                assert(y[j as int] == b@[j as int]@);
            }
            if n - i == m - j {
                assert(x[i as int] == y[m - n + i]);
            }
        }
        let op: DiffOp = if i < n && j < m && a[i] == b[j] {
            i += 1;
            j += 1;
            DiffOp::Equal(a[i - 1].clone())
        } else if n - i < m - j {
            proof {
                lemma_lcs_tail(x, y, k as int, i as int, j + 1);
                lemma_lcs_bound(x, y, i + 1, j as int);
            }
            j += 1;
            DiffOp::Insert(b[j - 1].clone())
        } else {
            proof {
                lemma_lcs_tail(x, y, k as int, i + 1, j as int);
                lemma_lcs_bound(x, y, i as int, j + 1);
            }
            i += 1;
            DiffOp::Delete(a[i - 1].clone())
        };
        proof {
            lemma_ops_push(ops@, op);
            assert(rest =~= seq![op@] + walk(x, y, i as int, j as int));
            assert(before.push(op@) + walk(x, y, i as int, j as int) =~= before + rest);
        }
        ops.push(op);
    }
    assert(walk(x, y, i as int, j as int) =~= Seq::<Op>::empty());
    assert(ops_of(ops@) =~= whole);
}

/// Diff the changed middle, with a guard against pathological sizes.
pub fn diff_middle(a: &Vec<String>, b: &Vec<String>) -> (ops: Vec<DiffOp>)
    ensures
        ops_of(ops@) == middle_ops(text::views(a@), text::views(b@)),
{
    let ghost x = text::views(a@);
    let ghost y = text::views(b@);
    let n: usize = a.len();
    let m: usize = b.len();
    let over: bool = match n.checked_mul(m) {
        Some(c) => c > DP_CELL_BUDGET,
        None => true,
    };
    let mut ops: Vec<DiffOp> = Vec::new();
    if over {
        let mut i: usize = 0;
        assert(ops_of(ops@) =~= all_deleted(x).take(0));
        while i < n
            invariant
                n == a@.len(),
                x == text::views(a@),
                i <= n,
                ops_of(ops@) == all_deleted(x).take(i as int),
            decreases n - i,
        {
            let op: DiffOp = DiffOp::Delete(a[i].clone());
            proof {
                lemma_ops_push(ops@, op);
                assert(all_deleted(x).take(i + 1) =~= all_deleted(x).take(i as int).push(op@));
            }
            ops.push(op);
            i += 1;
        }
        let mut j: usize = 0;
        assert(ops_of(ops@) =~= all_deleted(x) + all_inserted(y).take(0));
        while j < m
            invariant
                m == b@.len(),
                y == text::views(b@),
                j <= m,
                ops_of(ops@) == all_deleted(x) + all_inserted(y).take(j as int),
            decreases m - j,
        {
            let op: DiffOp = DiffOp::Insert(b[j].clone());
            proof {
                lemma_ops_push(ops@, op);
                assert(ops_of(ops@.push(op)) =~= all_deleted(x) + all_inserted(y).take(j + 1));
            }
            ops.push(op);
            j += 1;
        }
        assert(all_inserted(y).take(m as int) =~= all_inserted(y));
        return ops;
    }
    push_walk(&mut ops, a, b, 0, 0);
    assert(ops_of(ops@) =~= walk(x, y, 0, 0));
    ops
}

/// Append a kept step for each of `v[lo..hi]`.
fn push_equal(ops: &mut Vec<DiffOp>, v: &Vec<String>, lo: usize, hi: usize)
    requires
        lo <= hi <= v@.len(),
    ensures
        ops_of(final(ops)@) == ops_of(old(ops)@) + all_equal(
            text::views(v@).subrange(lo as int, hi as int),
        ),
{
    let ghost start = ops_of(ops@);
    let ghost lines = text::views(v@);
    let mut i: usize = lo;
    assert(ops_of(ops@) =~= start + all_equal(lines.subrange(lo as int, lo as int)));
    while i < hi
        invariant
            lo <= i <= hi <= v@.len(),
            lines == text::views(v@),
            ops_of(ops@) == start + all_equal(lines.subrange(lo as int, i as int)),
        decreases hi - i,
    {
        let op: DiffOp = DiffOp::Equal(v[i].clone());
        proof {
            lemma_ops_push(ops@, op);
            assert(lines.subrange(lo as int, i + 1) =~= lines.subrange(lo as int, i as int).push(
                v@[i as int]@,
            ));
            assert(ops_of(ops@.push(op)) =~= start + all_equal(lines.subrange(lo as int, i + 1)));
        }
        ops.push(op);
        i += 1;
    }
}

/// Line diff. The table is only as large as what lies between the common leading
/// and trailing lines; the steps are those of a table over all lines.
pub fn diff_lines(a: &Vec<String>, b: &Vec<String>) -> (ops: Vec<DiffOp>)
    ensures
        ops_of(ops@) == diff_ops(text::views(a@), text::views(b@)),
{
    let ghost x = text::views(a@);
    let ghost y = text::views(b@);
    let mut prefix: usize = 0;
    while prefix < a.len() && prefix < b.len() && a[prefix] == b[prefix]
        invariant
            prefix <= a@.len(),
            prefix <= b@.len(),
            x == text::views(a@),
            y == text::views(b@),
            common_prefix(x, y, prefix as int) == common_prefix(x, y, 0),
        decreases a@.len() - prefix,
    {
        assert(x[prefix as int] == a@[prefix as int]@);
        assert(y[prefix as int] == b@[prefix as int]@);
        prefix += 1;
    }
    proof {
        if prefix < a@.len() && prefix < b@.len() {
            assert(x[prefix as int] == a@[prefix as int]@);
            assert(y[prefix as int] == b@[prefix as int]@);
        }
    }
    let n: usize = a.len();
    let m: usize = b.len();
    let mut suffix: usize = 0;
    while suffix < n - prefix && suffix < m - prefix && a[n - 1 - suffix] == b[m - 1 - suffix]
        invariant
            n == a@.len(),
            m == b@.len(),
            x == text::views(a@),
            y == text::views(b@),
            prefix <= n,
            prefix <= m,
            suffix <= n - prefix,
            suffix <= m - prefix,
            common_suffix(x, y, prefix as int, suffix as int) == common_suffix(
                x,
                y,
                prefix as int,
                0,
            ),
        decreases n - suffix,
    {
        assert(x[n - 1 - suffix] == a@[n - 1 - suffix]@);
        assert(y[m - 1 - suffix] == b@[m - 1 - suffix]@);
        suffix += 1;
    }
    proof {
        if suffix < n - prefix && suffix < m - prefix {
            assert(x[n - 1 - suffix] == a@[n - 1 - suffix]@);
            assert(y[m - 1 - suffix] == b@[m - 1 - suffix]@);
        }
    }
    proof {
        lemma_common_prefix(x, y, 0);
        lemma_common_suffix(x, y, prefix as int, 0);
    }
    let over: bool = match (n - prefix - suffix).checked_mul(m - prefix - suffix) {
        Some(c) => c > DP_CELL_BUDGET,
        None => true,
    };
    let mut ops: Vec<DiffOp> = Vec::new();
    push_equal(&mut ops, a, 0, prefix);
    assert(x.take(prefix as int) =~= x.subrange(0, prefix as int));
    if over {
        let mid_a: Vec<String> = copy_range(a, prefix, n - suffix);
        let mid_b: Vec<String> = copy_range(b, prefix, m - suffix);
        let mut middle: Vec<DiffOp> = diff_middle(&mid_a, &mid_b);
        let ghost head = ops@;
        let ghost mid = middle@;
        ops.append(&mut middle);
        assert(ops_of(ops@) =~= ops_of(head) + ops_of(mid));
        push_equal(&mut ops, a, n - suffix, n);
        assert(x.skip(n - suffix) =~= x.subrange(n - suffix, n as int));
    } else {
        push_walk(&mut ops, a, b, prefix, suffix);
        proof {
            lemma_walk_prefix(x, y, prefix as int, 0);
        }
    }
    assert(ops_of(ops@) =~= diff_ops(x, y));
    ops
}

/// The walk keeps shared leading lines.
proof fn lemma_walk_prefix(a: Seq<Seq<char>>, b: Seq<Seq<char>>, p: int, i: int)
    requires
        0 <= i <= p <= a.len(),
        p <= b.len(),
        forall|x: int| i <= x < p ==> a[x] == b[x],
    ensures
        walk(a, b, i, i) == all_equal(a.subrange(i, p)) + walk(a, b, p, p),
    decreases p - i,
{
    if i < p {
        lemma_walk_prefix(a, b, p, i + 1);
        assert(all_equal(a.subrange(i, p)) =~= seq![Op::Equal(a[i])] + all_equal(
            a.subrange(i + 1, p),
        ));
    }
    assert(walk(a, b, i, i) =~= all_equal(a.subrange(i, p)) + walk(a, b, p, p));
}

// ---------------------------------------------------------------------------
// Unified rendering
// ---------------------------------------------------------------------------

/// Lines of context kept around a change.
pub const CONTEXT: usize = 3;

/// Does step `i` lie within `CONTEXT` steps of a change?
pub open spec fn in_hunk(ops: Seq<Op>, i: int) -> bool {
    exists|k: int|
        0 <= k < ops.len() && i - CONTEXT <= k <= i + CONTEXT && changes(#[trigger] ops[k])
}

/// The end of the run of hunk steps that `i` starts.
pub open spec fn hunk_end(ops: Seq<Op>, i: int) -> int
    decreases ops.len() - i,
{
    if 0 <= i < ops.len() && in_hunk(ops, i) {
        hunk_end(ops, i + 1)
    } else {
        i
    }
}

/// A run ends between its start and the end of the steps.
pub proof fn lemma_hunk_end(ops: Seq<Op>, i: int)
    requires
        0 <= i <= ops.len(),
    ensures
        i <= hunk_end(ops, i) <= ops.len(),
    decreases ops.len() - i,
{
    if i < ops.len() && in_hunk(ops, i) {
        lemma_hunk_end(ops, i + 1);
    }
}

/// Number of old lines among the steps `lo..hi`.
pub open spec fn old_count(ops: Seq<Op>, lo: int, hi: int) -> nat
    decreases hi - lo,
{
    if hi <= lo {
        0
    } else {
        old_count(ops, lo, hi - 1) + (if ops[hi - 1] is Insert {
            0nat
        } else {
            1
        })
    }
}

/// Number of new lines among the steps `lo..hi`.
pub open spec fn new_count(ops: Seq<Op>, lo: int, hi: int) -> nat
    decreases hi - lo,
{
    if hi <= lo {
        0
    } else {
        new_count(ops, lo, hi - 1) + (if ops[hi - 1] is Delete {
            0nat
        } else {
            1
        })
    }
}

proof fn lemma_counts_split(ops: Seq<Op>, lo: int, mid: int, hi: int)
    requires
        lo <= mid <= hi,
    ensures
        old_count(ops, lo, hi) == old_count(ops, lo, mid) + old_count(ops, mid, hi),
        new_count(ops, lo, hi) == new_count(ops, lo, mid) + new_count(ops, mid, hi),
    decreases hi - mid,
{
    if mid < hi {
        lemma_counts_split(ops, lo, mid, hi - 1);
    }
}

/// How one step is written: its sign, its line, a line end.
pub open spec fn op_text(op: Op) -> Seq<char> {
    match op {
        Op::Equal(l) => " "@ + l + "\n"@,
        Op::Delete(l) => "-"@ + l + "\n"@,
        Op::Insert(l) => "+"@ + l + "\n"@,
    }
}

/// The steps `lo..hi` written one after the other.
pub open spec fn body_text(ops: Seq<Op>, lo: int, hi: int) -> Seq<char>
    decreases hi - lo,
{
    if hi <= lo {
        Seq::empty()
    } else {
        body_text(ops, lo, hi - 1) + op_text(ops[hi - 1])
    }
}

pub open spec fn at_least_one(n: nat) -> nat {
    if n == 0 {
        1
    } else {
        n
    }
}

/// The header of the hunk `lo..hi`: where it starts on both sides (counted from
/// one) and how many lines it covers there, never less than one.
pub open spec fn hunk_header(ops: Seq<Op>, lo: int, hi: int) -> Seq<char> {
    "@@ -"@ + text::decimal(old_count(ops, 0, lo) + 1) + ","@ + text::decimal(
        at_least_one(old_count(ops, lo, hi)),
    ) + " +"@ + text::decimal(new_count(ops, 0, lo) + 1) + ","@ + text::decimal(
        at_least_one(new_count(ops, lo, hi)),
    ) + " @@\n"@
}

/// All hunks from step `i` on.
pub open spec fn hunks_text(ops: Seq<Op>, i: int) -> Seq<char>
    decreases ops.len() - i,
{
    if i < 0 || i >= ops.len() {
        Seq::empty()
    } else if !in_hunk(ops, i) {
        hunks_text(ops, i + 1)
    } else {
        let end = hunk_end(ops, i + 1);
        proof {
            lemma_hunk_end(ops, i + 1);
        }
        hunk_header(ops, i, end) + body_text(ops, i, end) + hunks_text(ops, end)
    }
}

/// The first step from `i` on that changes something.
pub open spec fn first_change(ops: Seq<Op>, i: int) -> Option<int>
    decreases ops.len() - i,
{
    if i < 0 || i >= ops.len() {
        None
    } else if changes(ops[i]) {
        Some(i)
    } else {
        first_change(ops, i + 1)
    }
}

/// The lines that a diff compares: the pieces between line ends, without the
/// empty one behind a final line end.
pub open spec fn diff_view(s: Seq<char>) -> Seq<Seq<char>> {
    if s.len() > 0 && s.last() == '\n' {
        text::pieces(s, '\n').drop_last()
    } else {
        text::pieces(s, '\n')
    }
}

/// What `generate_diff` returns for the steps `ops`: nothing when none changes
/// anything, otherwise the unified text and the new line number (counted from
/// one) of the first change.
pub open spec fn rendered(ops: Seq<Op>, path: Seq<char>) -> (Seq<char>, Option<int>) {
    match first_change(ops, 0) {
        None => (Seq::empty(), None),
        Some(i) => (
            "--- "@ + path + "\n+++ "@ + path + "\n"@ + hunks_text(ops, 0),
            Some((new_count(ops, 0, i) + 1) as int),
        ),
    }
}

fn is_change(op: &DiffOp) -> (r: bool)
    ensures
        r == changes(op@),
{
    match op {
        DiffOp::Equal(_) => false,
        DiffOp::Delete(_) => true,
        DiffOp::Insert(_) => true,
    }
}

fn near_change(ops: &Vec<DiffOp>, i: usize) -> (r: bool)
    requires
        i < ops@.len(),
    ensures
        r == in_hunk(ops_of(ops@), i as int),
{
    let ghost o = ops_of(ops@);
    let lo: usize = if i >= CONTEXT {
        i - CONTEXT
    } else {
        0
    };
    let hi: usize = if ops.len() - i > CONTEXT {
        i + CONTEXT + 1
    } else {
        ops.len()
    };
    let mut k: usize = lo;
    while k < hi
        invariant
            o == ops_of(ops@),
            lo <= k <= hi <= ops@.len(),
            i - CONTEXT <= lo,
            hi <= i + CONTEXT + 1,
            forall|q: int| lo <= q < k ==> !changes(#[trigger] o[q]),
        decreases hi - k,
    {
        assert(o[k as int] == ops@[k as int]@);
        if is_change(&ops[k]) {
            return true;
        }
        k += 1;
    }
    false
}

fn find_change(ops: &Vec<DiffOp>) -> (r: Option<usize>)
    ensures
        match r {
            None => first_change(ops_of(ops@), 0) is None,
            Some(i) => first_change(ops_of(ops@), 0) == Some(i as int) && i < ops@.len(),
        },
{
    let ghost o = ops_of(ops@);
    let mut i: usize = 0;
    while i < ops.len()
        invariant
            o == ops_of(ops@),
            i <= ops@.len(),
            first_change(o, 0) == first_change(o, i as int),
        decreases ops@.len() - i,
    {
        assert(o[i as int] == ops@[i as int]@);
        if is_change(&ops[i]) {
            return Some(i);
        }
        i += 1;
    }
    None
}

fn push_op(out: &mut String, op: &DiffOp)
    ensures
        final(out)@ == old(out)@ + op_text(op@),
{
    match op {
        DiffOp::Equal(l) => {
            out.append(" ");
            out.append(l.as_str());
        },
        DiffOp::Delete(l) => {
            out.append("-");
            out.append(l.as_str());
        },
        DiffOp::Insert(l) => {
            out.append("+");
            out.append(l.as_str());
        },
    }
    out.append("\n");
    assert(out@ =~= old(out)@ + op_text(op@));
}

/// Append the header of a hunk.
fn push_header(
    out: &mut String,
    old_start: usize,
    old_lines: usize,
    new_start: usize,
    new_lines: usize,
)
    ensures
        final(out)@ == old(out)@ + ("@@ -"@ + text::decimal(old_start as nat) + ","@
            + text::decimal(old_lines as nat) + " +"@ + text::decimal(new_start as nat) + ","@
            + text::decimal(new_lines as nat) + " @@\n"@),
{
    out.append("@@ -");
    text::push_usize(out, old_start);
    out.append(",");
    text::push_usize(out, old_lines);
    out.append(" +");
    text::push_usize(out, new_start);
    out.append(",");
    text::push_usize(out, new_lines);
    out.append(" @@\n");
    assert(out@ =~= old(out)@ + ("@@ -"@ + text::decimal(old_start as nat) + ","@ + text::decimal(
        old_lines as nat,
    ) + " +"@ + text::decimal(new_start as nat) + ","@ + text::decimal(new_lines as nat)
        + " @@\n"@));
}

proof fn lemma_counts_bound(ops: Seq<Op>, lo: int, hi: int)
    requires
        lo <= hi,
    ensures
        old_count(ops, lo, hi) <= hi - lo,
        new_count(ops, lo, hi) <= hi - lo,
    decreases hi - lo,
{
    if lo < hi {
        lemma_counts_bound(ops, lo, hi - 1);
    }
}

/// Append every hunk of `ops`.
pub fn group_hunks(out: &mut String, ops: &Vec<DiffOp>)
    ensures
        final(out)@ == old(out)@ + hunks_text(ops_of(ops@), 0),
{
    let ghost o = ops_of(ops@);
    let ghost start = out@;
    let total: usize = ops.len();
    let mut i: usize = 0;
    let mut old_prefix: usize = 0;
    let mut new_prefix: usize = 0;
    while i < total
        invariant
            o == ops_of(ops@),
            total == ops@.len(),
            i <= total,
            old_prefix == old_count(o, 0, i as int),
            new_prefix == new_count(o, 0, i as int),
            out@ + hunks_text(o, i as int) == start + hunks_text(o, 0),
        decreases total - i,
    {
        proof {
            lemma_counts_bound(o, 0, i as int);
        }
        let lo: usize = i;
        let mut old_lines: usize = 0;
        let mut new_lines: usize = 0;
        let mut body: String = String::new();
        if near_change(ops, i) {
            let mut first: bool = true;
            while first || (i < total && near_change(ops, i))
                invariant
                    o == ops_of(ops@),
                    total == ops@.len(),
                    lo <= i <= total,
                    lo < total,
                    first == (i == lo),
                    in_hunk(o, lo as int),
                    !first ==> hunk_end(o, lo + 1) == hunk_end(o, i as int),
                    old_lines == old_count(o, lo as int, i as int),
                    new_lines == new_count(o, lo as int, i as int),
                    body@ == body_text(o, lo as int, i as int),
                decreases total - i,
            {
                assert(o[i as int] == ops@[i as int]@);
                proof {
                    lemma_counts_bound(o, lo as int, i as int);
                }
                push_op(&mut body, &ops[i]);
                match &ops[i] {
                    DiffOp::Equal(_) => {
                        old_lines += 1;
                        new_lines += 1;
                    },
                    DiffOp::Delete(_) => {
                        old_lines += 1;
                    },
                    DiffOp::Insert(_) => {
                        new_lines += 1;
                    },
                }
                i += 1;
                first = false;
            }
            let ghost before = out@;
            let old_span: usize = if old_lines == 0 {
                1
            } else {
                old_lines
            };
            let new_span: usize = if new_lines == 0 {
                1
            } else {
                new_lines
            };
            push_header(out, old_prefix + 1, old_span, new_prefix + 1, new_span);
            out.append(body.as_str());
            proof {
                assert(hunk_end(o, lo + 1) == i);
                lemma_counts_split(o, 0, lo as int, i as int);
                lemma_counts_bound(o, 0, i as int);
                assert(out@ =~= before + (hunk_header(o, lo as int, i as int) + body_text(
                    o,
                    lo as int,
                    i as int,
                )));
                assert(out@ + hunks_text(o, i as int) =~= before + hunks_text(o, lo as int));
            }
            old_prefix += old_lines;
            new_prefix += new_lines;
        } else {
            assert(o[i as int] == ops@[i as int]@);
            assert(!changes(o[i as int]));
            old_prefix += 1;
            new_prefix += 1;
            i += 1;
        }
    }
    assert(hunks_text(o, i as int) =~= Seq::<char>::empty());
    assert(out@ =~= start + hunks_text(o, 0));
}

fn lines_to_compare(s: &str) -> (r: Vec<String>)
    ensures
        text::views(r@) == diff_view(s@),
{
    let mut lines: Vec<String> = text::split(s, '\n');
    let ended: bool = text::ends_with(s, "\n");
    proof {
        reveal_strlit("\n");
        assert("\n"@ =~= seq!['\n']);
        text::lemma_pieces_nonempty(s@, '\n');
        if s@.len() > 0 {
            assert(s@.skip(s@.len() - 1) =~= seq![s@.last()]);
            assert((s@.last() == '\n') == text::finishes_with(s@, "\n"@)) by {
                assert(seq![s@.last()][0] == s@.last());
                assert(seq!['\n'][0] == '\n');
            }
        }
    }
    if ended {
        let ghost before = lines@;
        lines.pop();
        assert(text::views(lines@) =~= text::views(before).drop_last());
    }
    lines
}

/// Produce a unified diff between `base` and `new`, with three lines of context
/// around each change. Returns the diff text and the first changed line number
/// (in the new file).
pub fn generate_diff(base: &str, new: &str, path: &str) -> (r: (String, Option<usize>))
    ensures
        r.0@ == rendered(diff_ops(diff_view(base@), diff_view(new@)), path@).0,
        match r.1 {
            None => rendered(diff_ops(diff_view(base@), diff_view(new@)), path@).1 is None,
            Some(n) => rendered(diff_ops(diff_view(base@), diff_view(new@)), path@).1 == Some(
                n as int,
            ),
        },
{
    let base_lines: Vec<String> = lines_to_compare(base);
    let new_lines: Vec<String> = lines_to_compare(new);
    let ops: Vec<DiffOp> = diff_lines(&base_lines, &new_lines);
    let ghost o = ops_of(ops@);
    let at: usize = match find_change(&ops) {
        None => {
            return (String::new(), None);
        },
        Some(i) => i,
    };
    let mut before: usize = 0;
    let mut i: usize = 0;
    while i < at
        invariant
            o == ops_of(ops@),
            i <= at < ops@.len(),
            before == new_count(o, 0, i as int),
        decreases at - i,
    {
        assert(o[i as int] == ops@[i as int]@);
        proof {
            lemma_counts_bound(o, 0, i as int);
        }
        match &ops[i] {
            DiffOp::Delete(_) => {},
            DiffOp::Equal(_) => {
                before += 1;
            },
            DiffOp::Insert(_) => {
                before += 1;
            },
        }
        i += 1;
    }
    proof {
        lemma_counts_bound(o, 0, at as int);
    }
    let mut out: String = String::new();
    out.append("--- ");
    out.append(path);
    out.append("\n+++ ");
    out.append(path);
    out.append("\n");
    group_hunks(&mut out, &ops);
    (out, Some(before + 1))
}

// ---------------------------------------------------------------------------
// Laws
// ---------------------------------------------------------------------------

proof fn lemma_sides_add(x: Seq<Op>, y: Seq<Op>)
    ensures
        old_side(x + y) == old_side(x) + old_side(y),
        new_side(x + y) == new_side(x) + new_side(y),
        kept(x + y) == kept(x) + kept(y),
    decreases y.len(),
{
    if y.len() == 0 {
        assert(x + y =~= x);
    } else {
        lemma_sides_add(x, y.drop_last());
        assert((x + y).drop_last() =~= x + y.drop_last());
        assert((x + y).last() == y.last());
    }
}

proof fn lemma_sides_one(op: Op)
    ensures
        old_side(seq![op]) == (match op {
            Op::Equal(l) => seq![l],
            Op::Delete(l) => seq![l],
            Op::Insert(l) => Seq::empty(),
        }),
        new_side(seq![op]) == (match op {
            Op::Equal(l) => seq![l],
            Op::Delete(l) => Seq::empty(),
            Op::Insert(l) => seq![l],
        }),
        kept(seq![op]) == (if op is Equal {
            1nat
        } else {
            0
        }),
{
    reveal_with_fuel(old_side, 2);
    reveal_with_fuel(new_side, 2);
    reveal_with_fuel(kept, 2);
    assert(seq![op].drop_last() =~= Seq::<Op>::empty());
    assert(seq![op].last() == op);
}

proof fn lemma_sides_uniform(a: Seq<Seq<char>>)
    ensures
        old_side(all_equal(a)) == a,
        new_side(all_equal(a)) == a,
        kept(all_equal(a)) == a.len(),
        old_side(all_deleted(a)) == a,
        new_side(all_deleted(a)) == Seq::<Seq<char>>::empty(),
        old_side(all_inserted(a)) == Seq::<Seq<char>>::empty(),
        new_side(all_inserted(a)) == a,
    decreases a.len(),
{
    if a.len() > 0 {
        lemma_sides_uniform(a.drop_last());
        assert(all_equal(a).drop_last() =~= all_equal(a.drop_last()));
        assert(all_deleted(a).drop_last() =~= all_deleted(a.drop_last()));
        assert(all_inserted(a).drop_last() =~= all_inserted(a.drop_last()));
        assert(a =~= a.drop_last().push(a.last()));
    } else {
        assert(a =~= Seq::<Seq<char>>::empty());
    }
}

proof fn lemma_walk(a: Seq<Seq<char>>, b: Seq<Seq<char>>, i: int, j: int)
    requires
        0 <= i <= a.len(),
        0 <= j <= b.len(),
    ensures
        old_side(walk(a, b, i, j)) == a.skip(i),
        new_side(walk(a, b, i, j)) == b.skip(j),
        kept(walk(a, b, i, j)) == lcs(a, b, i, j),
    decreases (a.len() - i) + (b.len() - j),
{
    if i < a.len() {
        assert(a.skip(i) =~= seq![a[i]] + a.skip(i + 1));
    }
    if j < b.len() {
        assert(b.skip(j) =~= seq![b[j]] + b.skip(j + 1));
    }
    if i < a.len() && j < b.len() && a[i] == b[j] {
        lemma_walk(a, b, i + 1, j + 1);
        lemma_sides_one(Op::Equal(a[i]));
        lemma_sides_add(seq![Op::Equal(a[i])], walk(a, b, i + 1, j + 1));
    } else if i < a.len() && (j >= b.len() || lcs(a, b, i + 1, j) >= lcs(a, b, i, j + 1)) {
        lemma_walk(a, b, i + 1, j);
        lemma_sides_one(Op::Delete(a[i]));
        lemma_sides_add(seq![Op::Delete(a[i])], walk(a, b, i + 1, j));
        assert(b.skip(j) =~= Seq::empty() + b.skip(j));
    } else if j < b.len() {
        lemma_walk(a, b, i, j + 1);
        lemma_sides_one(Op::Insert(b[j]));
        lemma_sides_add(seq![Op::Insert(b[j])], walk(a, b, i, j + 1));
        assert(a.skip(i) =~= Seq::empty() + a.skip(i));
    } else {
        assert(a.skip(i) =~= Seq::<Seq<char>>::empty());
        assert(b.skip(j) =~= Seq::<Seq<char>>::empty());
    }
}

/// A diff leads from exactly the old lines to exactly the new ones: keeping the
/// equal and deleted lines gives the old side, keeping the equal and inserted
/// lines gives the new side.
pub proof fn law_diff_reproduces_both_sides(a: Seq<Seq<char>>, b: Seq<Seq<char>>)
    ensures
        old_side(diff_ops(a, b)) == a,
        new_side(diff_ops(a, b)) == b,
{
    let p = common_prefix(a, b, 0);
    lemma_common_prefix(a, b, 0);
    let k = common_suffix(a, b, p, 0);
    lemma_common_suffix(a, b, p, 0);
    lemma_walk(a, b, 0, 0);
    assert(a.skip(0) =~= a);
    assert(b.skip(0) =~= b);
    let ma = a.subrange(p, a.len() - k);
    let mb = b.subrange(p, b.len() - k);
    let head = all_equal(a.take(p));
    let tail = all_equal(a.skip(a.len() - k));
    lemma_sides_uniform(a.take(p));
    lemma_sides_uniform(a.skip(a.len() - k));
    lemma_sides_uniform(ma);
    lemma_sides_uniform(mb);
    lemma_sides_add(head, all_deleted(ma));
    lemma_sides_add(head + all_deleted(ma), all_inserted(mb));
    lemma_sides_add(head + all_deleted(ma) + all_inserted(mb), tail);
    let none = Seq::<Seq<char>>::empty();
    assert(a.take(p) + ma + none =~= a.take(p) + ma);
    assert(a.take(p) + none + mb =~= a.take(p) + mb);
    assert(a =~= a.take(p) + ma + a.skip(a.len() - k));
    assert(b =~= a.take(p) + mb + a.skip(a.len() - k)) by {
        assert forall|x: int| 0 <= x < b.len() implies b[x] == (a.take(p) + mb + a.skip(
            a.len() - k,
        ))[x] by {
            if x >= b.len() - k {
                let y = x - b.len() + a.len();
                assert(a[y] == b[b.len() - a.len() + y]);
            }
        }
    }
}

/// Setting the shared leading and trailing lines aside changes no step: unless
/// what lies between is over the table budget, the diff is the walk over all
/// lines, and keeps as many of them as any diff can.
pub proof fn law_diff_keeps_a_longest_common_subsequence(a: Seq<Seq<char>>, b: Seq<Seq<char>>)
    requires
        within_budget(a, b),
    ensures
        diff_ops(a, b) == walk(a, b, 0, 0),
        kept(diff_ops(a, b)) == lcs(a, b, 0, 0),
{
    lemma_walk(a, b, 0, 0);
}

/// Do the positions `ps` of `a` and `qs` of `b` pick out the same lines, in
/// order, from `i` and `j` on?
pub open spec fn common_subsequence(
    a: Seq<Seq<char>>,
    b: Seq<Seq<char>>,
    ps: Seq<int>,
    qs: Seq<int>,
    i: int,
    j: int,
) -> bool {
    &&& ps.len() == qs.len()
    &&& forall|x: int| 0 <= x < ps.len() ==> i <= #[trigger] ps[x] < a.len()
    &&& forall|x: int| 0 <= x < qs.len() ==> j <= #[trigger] qs[x] < b.len()
    &&& forall|x: int, y: int| 0 <= x < y < ps.len() ==> ps[x] < ps[y]
    &&& forall|x: int, y: int| 0 <= x < y < qs.len() ==> qs[x] < qs[y]
    &&& forall|x: int| 0 <= x < ps.len() ==> a[#[trigger] ps[x]] == b[qs[x]]
}

/// No common subsequence of lines is longer than `lcs`.
pub proof fn law_lcs_bounds_every_common_subsequence(
    a: Seq<Seq<char>>,
    b: Seq<Seq<char>>,
    ps: Seq<int>,
    qs: Seq<int>,
    i: int,
    j: int,
)
    requires
        0 <= i,
        0 <= j,
        common_subsequence(a, b, ps, qs, i, j),
    ensures
        ps.len() <= lcs(a, b, i, j),
    decreases (a.len() - i) + (b.len() - j),
{
    if ps.len() > 0 {
        assert(i <= ps[0] < a.len());
        assert(j <= qs[0] < b.len());
        if a[i] == b[j] {
            let pt = ps.skip(1);
            let qt = qs.skip(1);
            assert forall|x: int| 0 <= x < pt.len() implies i + 1 <= #[trigger] pt[x] < a.len() by {
                assert(ps[0] < ps[x + 1]);
            }
            assert forall|x: int| 0 <= x < qt.len() implies j + 1 <= #[trigger] qt[x] < b.len() by {
                assert(qs[0] < qs[x + 1]);
            }
            law_lcs_bounds_every_common_subsequence(a, b, pt, qt, i + 1, j + 1);
        } else if ps[0] > i {
            assert forall|x: int| 0 <= x < ps.len() implies i + 1 <= #[trigger] ps[x] < a.len() by {
                if x > 0 {
                    assert(ps[0] < ps[x]);
                }
            }
            law_lcs_bounds_every_common_subsequence(a, b, ps, qs, i + 1, j);
        } else {
            assert(a[ps[0]] == b[qs[0]]);
            assert forall|x: int| 0 <= x < qs.len() implies j + 1 <= #[trigger] qs[x] < b.len() by {
                if x > 0 {
                    assert(qs[0] < qs[x]);
                }
            }
            law_lcs_bounds_every_common_subsequence(a, b, ps, qs, i, j + 1);
        }
    }
}

proof fn lemma_first_change(ops: Seq<Op>, i: int)
    requires
        0 <= i <= ops.len(),
    ensures
        first_change(ops, i) is None <==> forall|k: int|
            i <= k < ops.len() ==> !changes(#[trigger] ops[k]),
    decreases ops.len() - i,
{
    if i < ops.len() && !changes(ops[i]) {
        lemma_first_change(ops, i + 1);
    }
}

proof fn lemma_unchanged_sides(ops: Seq<Op>)
    requires
        forall|k: int| 0 <= k < ops.len() ==> !changes(#[trigger] ops[k]),
    ensures
        old_side(ops) == new_side(ops),
    decreases ops.len(),
{
    if ops.len() > 0 {
        assert(!changes(ops[ops.len() - 1]));
        assert forall|k: int| 0 <= k < ops.drop_last().len() implies !changes(
            #[trigger] ops.drop_last()[k],
        ) by {
            assert(!changes(ops[k]));
        }
        lemma_unchanged_sides(ops.drop_last());
    }
}

/// A diff is empty exactly when the two sides have the same lines.
pub proof fn law_diff_is_empty_for_equal_sides_only(a: Seq<Seq<char>>, b: Seq<Seq<char>>)
    ensures
        first_change(diff_ops(a, b), 0) is None <==> a == b,
{
    let ops = diff_ops(a, b);
    lemma_first_change(ops, 0);
    law_diff_reproduces_both_sides(a, b);
    if first_change(ops, 0) is None {
        lemma_unchanged_sides(ops);
    }
    if a == b {
        let p = common_prefix(a, b, 0);
        let k = common_suffix(a, b, p, 0);
        lemma_common_prefix(a, b, 0);
        lemma_common_suffix(a, b, p, 0);
        lemma_prefix_stops(a, b, 0);
        assert((a.len() - p - k) * (b.len() - p - k) == 0) by (nonlinear_arith)
            requires
                a.len() - p - k == 0,
        ;
        lemma_walk_prefix(a, b, p, 0);
        assert(walk(a, b, p, p) =~= Seq::<Op>::empty());
    }
}

proof fn lemma_prefix_stops(a: Seq<Seq<char>>, b: Seq<Seq<char>>, i: int)
    requires
        0 <= i <= a.len(),
        i <= b.len(),
    ensures
        common_prefix(a, b, i) < a.len() && common_prefix(a, b, i) < b.len() ==> a[common_prefix(
            a,
            b,
            i,
        )] != b[common_prefix(a, b, i)],
    decreases a.len() - i,
{
    if i < a.len() && i < b.len() && a[i] == b[i] {
        lemma_prefix_stops(a, b, i + 1);
    }
}

// ---------------------------------------------------------------------------
// What a rendered diff shows
// ---------------------------------------------------------------------------

/// Step `i` is a change, or one of the three steps before or behind one.
pub open spec fn near_a_change(ops: Seq<Op>, i: int) -> bool {
    exists|k: int| 0 <= k < ops.len() && i - 3 <= k <= i + 3 && !(#[trigger] ops[k] is Equal)
}

proof fn lemma_near(ops: Seq<Op>, i: int)
    ensures
        in_hunk(ops, i) == near_a_change(ops, i),
{
    if in_hunk(ops, i) {
        let k = choose|k: int|
            0 <= k < ops.len() && i - CONTEXT <= k <= i + CONTEXT && changes(#[trigger] ops[k]);
        assert(!(ops[k] is Equal));
    }
    if near_a_change(ops, i) {
        let k = choose|k: int|
            0 <= k < ops.len() && i - 3 <= k <= i + 3 && !(#[trigger] ops[k] is Equal);
        assert(changes(ops[k]));
    }
}

proof fn lemma_hunk_end_is(ops: Seq<Op>, i: int, hi: int)
    requires
        0 <= i <= hi <= ops.len(),
        forall|k: int| i <= k < hi ==> #[trigger] near_a_change(ops, k),
        hi < ops.len() ==> !near_a_change(ops, hi),
    ensures
        hunk_end(ops, i) == hi,
    decreases hi - i,
{
    lemma_near(ops, i);
    if i < hi {
        assert(near_a_change(ops, i));
        lemma_hunk_end_is(ops, i + 1, hi);
    }
}

proof fn lemma_counts_are_sides(ops: Seq<Op>, lo: int, hi: int)
    requires
        0 <= lo <= hi <= ops.len(),
    ensures
        old_count(ops, lo, hi) == old_side(ops.subrange(lo, hi)).len(),
        new_count(ops, lo, hi) == new_side(ops.subrange(lo, hi)).len(),
    decreases hi - lo,
{
    if lo < hi {
        lemma_counts_are_sides(ops, lo, hi - 1);
        assert(ops.subrange(lo, hi).drop_last() =~= ops.subrange(lo, hi - 1));
    }
}

/// A hunk is a run of steps near a change. Its header says at which line it
/// starts on both sides, counted from one, and how many lines of each side it
/// covers, one at the least; then come its steps, and then the hunks behind it.
pub proof fn law_a_hunk_says_where_it_stands(ops: Seq<Op>, lo: int, hi: int)
    requires
        0 <= lo < hi <= ops.len(),
        forall|k: int| lo <= k < hi ==> #[trigger] near_a_change(ops, k),
        hi < ops.len() ==> !near_a_change(ops, hi),
    ensures
        ({
            let olds = old_side(ops.subrange(lo, hi)).len();
            let news = new_side(ops.subrange(lo, hi)).len();
            hunks_text(ops, lo) == "@@ -"@ + text::decimal(old_side(ops.take(lo)).len() + 1) + ","@
                + text::decimal(
                if olds > 0 {
                    olds
                } else {
                    1
                },
            ) + " +"@ + text::decimal(new_side(ops.take(lo)).len() + 1) + ","@ + text::decimal(
                if news > 0 {
                    news
                } else {
                    1
                },
            ) + " @@\n"@ + body_text(ops, lo, hi) + hunks_text(ops, hi)
        }),
{
    lemma_near(ops, lo);
    assert(near_a_change(ops, lo));
    lemma_hunk_end_is(ops, lo + 1, hi);
    lemma_counts_are_sides(ops, lo, hi);
    lemma_counts_are_sides(ops, 0, lo);
    assert(ops.subrange(0, lo) =~= ops.take(lo));
}

/// Steps that are not near a change are left out, and behind the last step there
/// is nothing.
pub proof fn law_steps_far_from_changes_are_left_out(ops: Seq<Op>, i: int)
    requires
        0 <= i < ops.len(),
        !near_a_change(ops, i),
    ensures
        hunks_text(ops, i) == hunks_text(ops, i + 1),
        hunks_text(ops, ops.len() as int).len() == 0,
{
    lemma_near(ops, i);
}

/// The steps of a hunk are written one to a line: a kept line behind a space, a
/// deleted one behind a minus, an inserted one behind a plus.
pub proof fn law_steps_are_written_with_their_sign(ops: Seq<Op>, lo: int, hi: int)
    requires
        0 <= lo <= hi < ops.len(),
    ensures
        body_text(ops, lo, lo).len() == 0,
        body_text(ops, lo, hi + 1) == body_text(ops, lo, hi) + (match ops[hi] {
            Op::Equal(l) => seq![' '] + l + seq!['\n'],
            Op::Delete(l) => seq!['-'] + l + seq!['\n'],
            Op::Insert(l) => seq!['+'] + l + seq!['\n'],
        }),
{
    reveal_strlit(" ");
    reveal_strlit("-");
    reveal_strlit("+");
    reveal_strlit("\n");
    assert(" "@ =~= seq![' ']);
    assert("-"@ =~= seq!['-']);
    assert("+"@ =~= seq!['+']);
    assert("\n"@ =~= seq!['\n']);
}

proof fn lemma_first_change_is_first(ops: Seq<Op>, from: int)
    requires
        0 <= from <= ops.len(),
    ensures
        match first_change(ops, from) {
            Some(i) => from <= i < ops.len() && !(ops[i] is Equal) && forall|k: int|
                from <= k < i ==> #[trigger] ops[k] is Equal,
            None => forall|k: int| from <= k < ops.len() ==> #[trigger] ops[k] is Equal,
        },
    decreases ops.len() - from,
{
    if from < ops.len() && !changes(ops[from]) {
        lemma_first_change_is_first(ops, from + 1);
    }
}

/// A diff names the file on both sides before its hunks, and gives the line of the
/// first change, counted from one in the new text. Without a change it is empty.
pub proof fn law_a_diff_names_its_file_and_first_change(ops: Seq<Op>, path: Seq<char>, i: int)
    ensures
        (forall|k: int| 0 <= k < ops.len() ==> #[trigger] ops[k] is Equal) ==> rendered(
            ops,
            path,
        ).0.len() == 0 && rendered(ops, path).1 is None,
        0 <= i < ops.len() && !(ops[i] is Equal) && (forall|k: int|
            0 <= k < i ==> #[trigger] ops[k] is Equal) ==> rendered(ops, path).0 == "--- "@ + path
            + "\n+++ "@ + path + "\n"@ + hunks_text(ops, 0) && rendered(ops, path).1 == Some(
            i + 1,
        ),
{
    lemma_first_change_is_first(ops, 0);
    if 0 <= i < ops.len() && !(ops[i] is Equal) && (forall|k: int|
        0 <= k < i ==> #[trigger] ops[k] is Equal) {
        assert(first_change(ops, 0) == Some(i));
        lemma_counts_of_kept(ops, i);
    }
}

proof fn lemma_counts_of_kept(ops: Seq<Op>, n: int)
    requires
        0 <= n <= ops.len(),
        forall|k: int| 0 <= k < n ==> #[trigger] ops[k] is Equal,
    ensures
        new_count(ops, 0, n) == n,
    decreases n,
{
    if n > 0 {
        lemma_counts_of_kept(ops, n - 1);
        assert(ops[n - 1] is Equal);
    }
}

proof fn lemma_lcs_less(a: Seq<Seq<char>>, b: Seq<Seq<char>>, i: int, j: int)
    requires
        0 <= i <= a.len(),
        0 <= j <= b.len(),
    ensures
        lcs(a, b, i + 1, j) <= lcs(a, b, i, j),
        lcs(a, b, i, j + 1) <= lcs(a, b, i, j),
        lcs(a, b, i, j) <= lcs(a, b, i + 1, j + 1) + 1,
    decreases (a.len() - i) + (b.len() - j),
{
    if i < a.len() && j < b.len() {
        lemma_lcs_less(a, b, i + 1, j);
        lemma_lcs_less(a, b, i, j + 1);
        lemma_lcs_less(a, b, i + 1, j + 1);
    }
}

/// The walk never deletes right behind an insertion.
proof fn lemma_walk_order(a: Seq<Seq<char>>, b: Seq<Seq<char>>, i: int, j: int)
    requires
        0 <= i <= a.len(),
        0 <= j <= b.len(),
    ensures
        forall|k: int|
            #![trigger walk(a, b, i, j)[k]]
            0 <= k < walk(a, b, i, j).len() - 1 && walk(a, b, i, j)[k] is Insert ==> !(walk(
                a,
                b,
                i,
                j,
            )[k + 1] is Delete),
    decreases (a.len() - i) + (b.len() - j),
{
    let w = walk(a, b, i, j);
    if i < a.len() && j < b.len() && a[i] == b[j] {
        lemma_walk_order(a, b, i + 1, j + 1);
        lemma_shifted_order(w, walk(a, b, i + 1, j + 1));
    } else if i < a.len() && (j >= b.len() || lcs(a, b, i + 1, j) >= lcs(a, b, i, j + 1)) {
        lemma_walk_order(a, b, i + 1, j);
        lemma_shifted_order(w, walk(a, b, i + 1, j));
    } else if j < b.len() {
        let rest = walk(a, b, i, j + 1);
        lemma_walk_order(a, b, i, j + 1);
        if rest.len() > 0 && i < a.len() {
            lemma_lcs_less(a, b, i + 1, j);
            lemma_lcs_less(a, b, i, j + 1);
            assert(lcs(a, b, i, j + 1) > lcs(a, b, i + 1, j + 1));
            assert(j + 1 < b.len());
            assert(!(rest[0] is Delete));
        }
        lemma_shifted_order(w, rest);
    }
}

proof fn lemma_shifted_order(w: Seq<Op>, rest: Seq<Op>)
    requires
        w.len() == rest.len() + 1,
        w == seq![w[0]] + rest,
        rest.len() > 0 ==> !(w[0] is Insert && rest[0] is Delete),
        forall|k: int|
            #![trigger rest[k]]
            0 <= k < rest.len() - 1 && rest[k] is Insert ==> !(rest[k + 1] is Delete),
    ensures
        forall|k: int|
            #![trigger w[k]]
            0 <= k < w.len() - 1 && w[k] is Insert ==> !(w[k + 1] is Delete),
{
    assert forall|k: int| #![trigger w[k]] 0 <= k < w.len() - 1 && w[k] is Insert implies !(w[k
        + 1] is Delete) by {
        if k > 0 {
            assert(w[k] == rest[k - 1]);
            assert(w[k + 1] == rest[k]);
        } else {
            assert(w[1] == rest[0]);
        }
    }
}

/// Where lines are replaced, the old ones go before the new ones come: no deletion
/// stands right behind an insertion.
pub proof fn law_deletions_come_before_insertions(a: Seq<Seq<char>>, b: Seq<Seq<char>>, k: int)
    requires
        0 <= k < diff_ops(a, b).len() - 1,
        diff_ops(a, b)[k] is Insert,
    ensures
        !(diff_ops(a, b)[k + 1] is Delete),
{
    if within_budget(a, b) {
        lemma_walk_order(a, b, 0, 0);
    } else {
        let p = common_prefix(a, b, 0);
        lemma_common_prefix(a, b, 0);
        let n = common_suffix(a, b, p, 0);
        lemma_common_suffix(a, b, p, 0);
        let x = p + (a.len() - n - p);
        assert(k >= x);
    }
}

/// A diff compares the lines of a text, whether or not the last one is ended.
pub proof fn law_a_diff_compares_lines(lines: Seq<Seq<char>>)
    requires
        lines.len() > 0,
        forall|i: int| 0 <= i < lines.len() ==> !(#[trigger] lines[i]).contains('\n'),
    ensures
        diff_view(text::joined(lines, seq!['\n']).push('\n')) == lines,
        lines.last().len() > 0 ==> diff_view(text::joined(lines, seq!['\n'])) == lines,
        diff_view(Seq::empty()) == seq![Seq::<char>::empty()],
{
    let s = text::joined(lines, seq!['\n']);
    text::law_joined_parts_split_again(lines, '\n');
    assert(s.push('\n').drop_last() =~= s);
    assert(diff_view(s.push('\n')) =~= lines);
    let last = lines[lines.len() - 1];
    if last.len() > 0 {
        let init = lines.drop_last();
        assert(init.push(last) =~= lines);
        text::lemma_joined_push(init, last, seq!['\n']);
        assert(s.last() == last.last());
        assert(last[last.len() - 1] != '\n');
    }
}

/// At least one of a number is the number, but for zero.
pub proof fn law_at_least_one(n: nat)
    ensures
        at_least_one(n) >= 1,
        n >= 1 ==> at_least_one(n) == n,
        n == 0 ==> at_least_one(n) == 1,
{
}

/// Texts of which the lines of one times the lines of the other are no more than
/// two million are compared in full: the steps are those of the walk, and as many
/// lines are kept as any diff can keep.
pub proof fn law_small_texts_are_compared_in_full(a: Seq<Seq<char>>, b: Seq<Seq<char>>)
    requires
        a.len() * b.len() <= 2_000_000,
    ensures
        diff_ops(a, b) == walk(a, b, 0, 0),
        kept(diff_ops(a, b)) == lcs(a, b, 0, 0),
{
    let p = common_prefix(a, b, 0);
    lemma_common_prefix(a, b, 0);
    let k = common_suffix(a, b, p, 0);
    lemma_common_suffix(a, b, p, 0);
    let x = a.len() - p - k;
    let y = b.len() - p - k;
    assert(x * y <= a.len() * b.len()) by (nonlinear_arith)
        requires
            0 <= x <= a.len(),
            0 <= y <= b.len(),
    ;
    lemma_walk(a, b, 0, 0);
}

} // verus!
