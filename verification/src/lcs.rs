//! Longest common subsequence of two sequences of JSON values, by dynamic
//! programming over structural equality.

use crate::json::{lemma_views, views, Json, JsonView};
use vstd::prelude::*;

verus! {

/// The length of a longest common subsequence of `a[i..]` and `b[j..]`.
pub open spec fn lcs_len(a: Seq<JsonView>, b: Seq<JsonView>, i: int, j: int) -> nat
    decreases a.len() - i + b.len() - j,
{
    if i < 0 || j < 0 || i >= a.len() || j >= b.len() {
        0
    } else if a[i] == b[j] {
        1 + lcs_len(a, b, i + 1, j + 1)
    } else if lcs_len(a, b, i + 1, j) >= lcs_len(a, b, i, j + 1) {
        lcs_len(a, b, i + 1, j)
    } else {
        lcs_len(a, b, i, j + 1)
    }
}

/// The longest common subsequence of `a[i..]` and `b[j..]` that the walk
/// through the table of lengths finds: pairs of positions, one in `a` and one
/// in `b`, of equal values. Where both ways on are as good, the walk steps on
/// in `a`.
pub open spec fn lcs_pairs(a: Seq<JsonView>, b: Seq<JsonView>, i: int, j: int) -> Seq<(int, int)>
    decreases a.len() - i + b.len() - j,
{
    if i < 0 || j < 0 || i >= a.len() || j >= b.len() {
        Seq::empty()
    } else if a[i] == b[j] {
        seq![(i, j)] + lcs_pairs(a, b, i + 1, j + 1)
    } else if lcs_len(a, b, i + 1, j) >= lcs_len(a, b, i, j + 1) {
        lcs_pairs(a, b, i + 1, j)
    } else {
        lcs_pairs(a, b, i, j + 1)
    }
}

/// A sequence of pairs of positions pairs equal values of `a` and `b`, from
/// `i` and `j` on, and rises strictly in both positions.
pub open spec fn is_common_subsequence(
    a: Seq<JsonView>,
    b: Seq<JsonView>,
    i: int,
    j: int,
    pairs: Seq<(int, int)>,
) -> bool {
    &&& forall|k: int|
        0 <= k < pairs.len() ==> i <= (#[trigger] pairs[k]).0 < a.len() && j <= pairs[k].1
            < b.len() && a[pairs[k].0] == b[pairs[k].1]
    &&& forall|k: int, l: int|
        0 <= k < l < pairs.len() ==> (#[trigger] pairs[k]).0 < (#[trigger] pairs[l]).0
            && pairs[k].1 < pairs[l].1
}

/// The length of a longest common subsequence is bounded by what is left of
/// either sequence.
pub proof fn lemma_lcs_len_bound(a: Seq<JsonView>, b: Seq<JsonView>, i: int, j: int)
    requires
        0 <= i <= a.len(),
        0 <= j <= b.len(),
    ensures
        lcs_len(a, b, i, j) <= a.len() - i,
        lcs_len(a, b, i, j) <= b.len() - j,
    decreases a.len() - i + b.len() - j,
{
    if i < a.len() && j < b.len() {
        lemma_lcs_len_bound(a, b, i + 1, j + 1);
        lemma_lcs_len_bound(a, b, i + 1, j);
        lemma_lcs_len_bound(a, b, i, j + 1);
    }
}

/// What the walk finds is a common subsequence of the length that the table
/// gives.
pub proof fn lemma_lcs_pairs(a: Seq<JsonView>, b: Seq<JsonView>, i: int, j: int)
    requires
        0 <= i <= a.len(),
        0 <= j <= b.len(),
    ensures
        is_common_subsequence(a, b, i, j, lcs_pairs(a, b, i, j)),
        lcs_pairs(a, b, i, j).len() == lcs_len(a, b, i, j),
    decreases a.len() - i + b.len() - j,
{
    if i < a.len() && j < b.len() {
        if a[i] == b[j] {
            lemma_lcs_pairs(a, b, i + 1, j + 1);
            let rest = lcs_pairs(a, b, i + 1, j + 1);
            let all = lcs_pairs(a, b, i, j);
            assert(all == seq![(i, j)] + rest);
            assert forall|k: int| 0 <= k < all.len() implies i <= (#[trigger] all[k]).0 < a.len()
                && j <= all[k].1 < b.len() && a[all[k].0] == b[all[k].1] by {
                if k > 0 {
                    assert(all[k] == rest[k - 1]);
                }
            }
            assert forall|k: int, l: int| 0 <= k < l < all.len() implies (#[trigger] all[k]).0 < (
            #[trigger] all[l]).0 && all[k].1 < all[l].1 by {
                assert(all[l] == rest[l - 1]);
                if k > 0 {
                    assert(all[k] == rest[k - 1]);
                }
            }
        } else if lcs_len(a, b, i + 1, j) >= lcs_len(a, b, i, j + 1) {
            lemma_lcs_pairs(a, b, i + 1, j);
        } else {
            lemma_lcs_pairs(a, b, i, j + 1);
        }
    }
}

/// No common subsequence is longer than the one that the table gives the
/// length of.
pub proof fn lemma_lcs_is_longest(
    a: Seq<JsonView>,
    b: Seq<JsonView>,
    i: int,
    j: int,
    other: Seq<(int, int)>,
)
    requires
        0 <= i <= a.len(),
        0 <= j <= b.len(),
        is_common_subsequence(a, b, i, j, other),
    ensures
        other.len() <= lcs_len(a, b, i, j),
    decreases a.len() - i + b.len() - j,
{
    if other.len() == 0 {
    } else if i >= a.len() || j >= b.len() {
        assert(i <= other[0].0 < a.len() && j <= other[0].1 < b.len());
    } else {
        let first = other[0];
        assert(i <= first.0 < a.len() && j <= first.1 < b.len());
        if a[i] == b[j] {
            let rest = other.skip(1);
            assert(is_common_subsequence(a, b, i + 1, j + 1, rest)) by {
                assert forall|k: int| 0 <= k < rest.len() implies i + 1 <= (#[trigger] rest[k]).0
                    < a.len() && j + 1 <= rest[k].1 < b.len() && a[rest[k].0] == b[rest[k].1] by {
                    assert(rest[k] == other[k + 1]);
                    assert(other[0].0 < other[k + 1].0 && other[0].1 < other[k + 1].1);
                }
                assert forall|k: int, l: int| 0 <= k < l < rest.len() implies (
                #[trigger] rest[k]).0 < (#[trigger] rest[l]).0 && rest[k].1 < rest[l].1 by {
                    assert(rest[k] == other[k + 1] && rest[l] == other[l + 1]);
                }
            }
            lemma_lcs_is_longest(a, b, i + 1, j + 1, rest);
        } else if first.0 > i {
            assert(is_common_subsequence(a, b, i + 1, j, other)) by {
                assert forall|k: int| 0 <= k < other.len() implies i + 1 <= (#[trigger] other[k]).0
                    < a.len() && j <= other[k].1 < b.len() && a[other[k].0] == b[other[k].1] by {
                    if k > 0 {
                        assert(other[0].0 < other[k].0);
                    }
                }
            }
            lemma_lcs_is_longest(a, b, i + 1, j, other);
        } else {
            assert(first.1 > j);
            assert(is_common_subsequence(a, b, i, j + 1, other)) by {
                assert forall|k: int| 0 <= k < other.len() implies i <= (#[trigger] other[k]).0
                    < a.len() && j + 1 <= other[k].1 < b.len() && a[other[k].0] == b[other[k].1] by {
                    if k > 0 {
                        assert(other[0].1 < other[k].1);
                    }
                }
            }
            lemma_lcs_is_longest(a, b, i, j + 1, other);
        }
    }
}

/// The pairs of a vector of positions, as mathematical integers.
pub open spec fn pairs_view(pairs: Seq<(usize, usize)>) -> Seq<(int, int)> {
    Seq::new(pairs.len(), |k: int| (pairs[k].0 as int, pairs[k].1 as int))
}

/// A row of the table of lengths: `row[j]` is the length for `a[i..]` and
/// `b[j..]`.
pub open spec fn is_row(a: Seq<JsonView>, b: Seq<JsonView>, i: int, row: Seq<usize>) -> bool {
    &&& row.len() == b.len() + 1
    &&& forall|j: int| 0 <= j <= b.len() ==> (#[trigger] row[j]) == lcs_len(a, b, i, j)
}

/// A row of `width` zeros.
fn zero_row(width: usize) -> (row: Vec<usize>)
    ensures
        row@.len() == width + 1,
        forall|j: int| 0 <= j <= width ==> (#[trigger] row@[j]) == 0,
{
    let mut row: Vec<usize> = Vec::new();
    let mut j: usize = 0;
    while j < width
        invariant
            0 <= j <= width,
            row@.len() == j,
            forall|k: int| 0 <= k < j ==> (#[trigger] row@[k]) == 0,
        decreases width - j,
    {
        row.push(0);
        j += 1;
    }
    row.push(0);
    row
}

/// The row of the table for `a[i..]`, from the row for `a[i + 1..]`.
fn next_row(a: &[Json], b: &[Json], i: usize, below: &Vec<usize>) -> (row: Vec<usize>)
    requires
        i < a@.len(),
        forall|k: int| 0 <= k < a@.len() ==> (#[trigger] a@[k]).wf(),
        forall|k: int| 0 <= k < b@.len() ==> (#[trigger] b@[k]).wf(),
        is_row(views(a@), views(b@), i + 1, below@),
    ensures
        is_row(views(a@), views(b@), i as int, row@),
{
    let m = b.len();
    let ghost va = views(a@);
    let ghost vb = views(b@);
    proof {
        lemma_views(a@);
        lemma_views(b@);
    }
    let mut row = zero_row(m);
    let mut j: usize = m;
    while j > 0
        invariant
            0 <= j <= m,
            m == b@.len(),
            i < a@.len(),
            va == views(a@),
            vb == views(b@),
            va.len() == a@.len(),
            vb.len() == b@.len(),
            forall|k: int| 0 <= k < a@.len() ==> (#[trigger] a@[k]).wf(),
            forall|k: int| 0 <= k < b@.len() ==> (#[trigger] b@[k]).wf(),
            forall|k: int| 0 <= k < a@.len() ==> (#[trigger] va[k]) == a@[k]@,
            forall|k: int| 0 <= k < b@.len() ==> (#[trigger] vb[k]) == b@[k]@,
            is_row(va, vb, i + 1, below@),
            row@.len() == m + 1,
            forall|k: int| j <= k <= m ==> (#[trigger] row@[k]) == lcs_len(va, vb, i as int, k),
        decreases j,
    {
        j -= 1;
        let v = if a[i].equals(&b[j]) {
            proof {
                lemma_lcs_len_bound(va, vb, i + 1, j + 1);
            }
            below[j + 1] + 1
        } else if below[j] >= row[j + 1] {
            below[j]
        } else {
            row[j + 1]
        };
        row.set(j, v);
    }
    row
}

/// A longest common subsequence of `a` and `b`: the pairs of positions of the
/// matched values, rising in both.
pub fn longest_common_subsequence(a: &[Json], b: &[Json]) -> (r: Vec<(usize, usize)>)
    requires
        forall|k: int| 0 <= k < a@.len() ==> (#[trigger] a@[k]).wf(),
        forall|k: int| 0 <= k < b@.len() ==> (#[trigger] b@[k]).wf(),
    ensures
        pairs_view(r@) == lcs_pairs(views(a@), views(b@), 0, 0),
{
    let n = a.len();
    let m = b.len();
    let ghost va = views(a@);
    let ghost vb = views(b@);
    proof {
        lemma_views(a@);
        lemma_views(b@);
    }
    // rows[k] is the row of the table for a[n - k..]
    let mut rows: Vec<Vec<usize>> = Vec::new();
    rows.push(zero_row(m));
    let mut k: usize = 0;
    while k < n
        invariant
            0 <= k <= n,
            n == a@.len(),
            m == b@.len(),
            va == views(a@),
            vb == views(b@),
            forall|p: int| 0 <= p < a@.len() ==> (#[trigger] a@[p]).wf(),
            forall|p: int| 0 <= p < b@.len() ==> (#[trigger] b@[p]).wf(),
            rows@.len() == k + 1,
            forall|p: int| 0 <= p <= k ==> is_row(va, vb, n - p, (#[trigger] rows@[p])@),
        decreases n - k,
    {
        let row = next_row(a, b, n - 1 - k, &rows[k]);
        rows.push(row);
        k += 1;
    }
    let mut out: Vec<(usize, usize)> = Vec::new();
    let mut i: usize = 0;
    let mut j: usize = 0;
    while i < n && j < m
        invariant
            0 <= i <= n,
            0 <= j <= m,
            n == a@.len(),
            m == b@.len(),
            va == views(a@),
            vb == views(b@),
            va.len() == n,
            vb.len() == m,
            forall|p: int| 0 <= p < a@.len() ==> (#[trigger] a@[p]).wf(),
            forall|p: int| 0 <= p < b@.len() ==> (#[trigger] b@[p]).wf(),
            forall|p: int| 0 <= p < a@.len() ==> (#[trigger] va[p]) == a@[p]@,
            forall|p: int| 0 <= p < b@.len() ==> (#[trigger] vb[p]) == b@[p]@,
            rows@.len() == n + 1,
            forall|p: int| 0 <= p <= n ==> is_row(va, vb, n - p, (#[trigger] rows@[p])@),
            lcs_pairs(va, vb, 0, 0) == pairs_view(out@) + lcs_pairs(va, vb, i as int, j as int),
        decreases n - i + m - j,
    {
        let ghost before = pairs_view(out@);
        if a[i].equals(&b[j]) {
            out.push((i, j));
            proof {
                assert(pairs_view(out@) =~= before + seq![(i as int, j as int)]);
                assert(lcs_pairs(va, vb, i as int, j as int) == seq![(i as int, j as int)]
                    + lcs_pairs(va, vb, i + 1, j + 1));
                assert(lcs_pairs(va, vb, 0, 0) =~= pairs_view(out@) + lcs_pairs(
                    va,
                    vb,
                    i + 1,
                    j + 1,
                ));
            }
            i += 1;
            j += 1;
        } else {
            assert(is_row(va, vb, n - (n - i - 1), rows@[n - i - 1]@));
            assert(is_row(va, vb, n - (n - i), rows@[n - i]@));
            let down = rows[n - i - 1][j];
            let right = rows[n - i][j + 1];
            if down >= right {
                i += 1;
            } else {
                j += 1;
            }
        }
    }
    proof {
        assert(lcs_pairs(va, vb, i as int, j as int) =~= Seq::empty());
        assert(pairs_view(out@) + Seq::<(int, int)>::empty() =~= pairs_view(out@));
    }
    out
}

} // verus!
