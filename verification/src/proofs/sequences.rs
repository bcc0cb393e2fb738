//! Sequences with some positions left out, and lists that grow.

use crate::json::JsonView;
use vstd::prelude::*;

verus! {

/// The list `after` begins with what the list `before` holds.
pub open spec fn begins_with<T>(after: Seq<T>, before: Seq<T>) -> bool {
    before.len() <= after.len() && after.subrange(0, before.len() as int) == before
}

/// What the list `after` holds behind what the list `before` holds.
pub open spec fn added_to<T>(before: Seq<T>, after: Seq<T>) -> Seq<T> {
    after.subrange(before.len() as int, after.len() as int)
}

/// The positions rise strictly.
pub open spec fn ascending(s: Seq<int>) -> bool {
    forall|i: int, j: int| 0 <= i < j < s.len() ==> #[trigger] s[i] < #[trigger] s[j]
}

/// All positions lie from `lo` up to, but not at, `hi`.
pub open spec fn within(s: Seq<int>, lo: int, hi: int) -> bool {
    forall|k: int| 0 <= k < s.len() ==> lo <= #[trigger] s[k] < hi
}

/// The first `n` elements of `x` without those at the positions that `drop`
/// holds of.
pub open spec fn without(x: Seq<JsonView>, drop: spec_fn(int) -> bool, n: int) -> Seq<JsonView>
    decreases n,
{
    if n <= 0 {
        Seq::empty()
    } else if drop(n - 1) {
        without(x, drop, n - 1)
    } else {
        without(x, drop, n - 1).push(x[n - 1])
    }
}

/// What is left out depends on the positions below `n` alone.
pub proof fn lemma_without_ext(
    x: Seq<JsonView>,
    d1: spec_fn(int) -> bool,
    d2: spec_fn(int) -> bool,
    n: int,
)
    requires
        forall|i: int| 0 <= i < n ==> #[trigger] d1(i) == d2(i),
    ensures
        without(x, d1, n) == without(x, d2, n),
    decreases n,
{
    if n > 0 {
        lemma_without_ext(x, d1, d2, n - 1);
    }
}

/// Equal elements at the kept positions give equal results.
pub proof fn lemma_without_values(
    x: Seq<JsonView>,
    y: Seq<JsonView>,
    drop: spec_fn(int) -> bool,
    n: int,
)
    requires
        n <= x.len(),
        n <= y.len(),
        forall|i: int| 0 <= i < n && !#[trigger] drop(i) ==> x[i] == y[i],
    ensures
        without(x, drop, n) == without(y, drop, n),
    decreases n,
{
    if n > 0 {
        lemma_without_values(x, y, drop, n - 1);
    }
}

/// Where nothing is left out below `n`, the first `n` elements stay.
pub proof fn lemma_without_nothing(x: Seq<JsonView>, drop: spec_fn(int) -> bool, n: int)
    requires
        0 <= n <= x.len(),
        forall|i: int| 0 <= i < n ==> !#[trigger] drop(i),
    ensures
        without(x, drop, n) == x.subrange(0, n),
    decreases n,
{
    if n > 0 {
        lemma_without_nothing(x, drop, n - 1);
        assert(x.subrange(0, n) =~= x.subrange(0, n - 1).push(x[n - 1]));
    } else {
        assert(x.subrange(0, n) =~= Seq::<JsonView>::empty());
    }
}

/// Where nothing is left out up to the position `p`, the elements up to
/// `p` stand where they stood.
pub proof fn lemma_without_prefix(x: Seq<JsonView>, drop: spec_fn(int) -> bool, n: int, p: int)
    requires
        0 <= p < n <= x.len(),
        forall|i: int| 0 <= i <= p ==> !#[trigger] drop(i),
    ensures
        without(x, drop, n).len() > p,
        forall|i: int| 0 <= i <= p ==> #[trigger] without(x, drop, n)[i] == x[i],
    decreases n,
{
    if n - 1 > p {
        lemma_without_prefix(x, drop, n - 1, p);
    } else {
        lemma_without_nothing(x, drop, n);
    }
}

/// The result is no longer than what it was taken from.
pub proof fn lemma_without_len(x: Seq<JsonView>, drop: spec_fn(int) -> bool, n: int)
    requires
        0 <= n,
    ensures
        without(x, drop, n).len() <= n,
    decreases n,
{
    if n > 0 {
        lemma_without_len(x, drop, n - 1);
    }
}

/// Leaving out one position more, below which nothing is left out, is
/// removing the element at that position.
pub proof fn lemma_without_one_more(
    x: Seq<JsonView>,
    drop: spec_fn(int) -> bool,
    more: spec_fn(int) -> bool,
    n: int,
    p: int,
)
    requires
        0 <= p < n <= x.len(),
        forall|i: int| 0 <= i <= p ==> !#[trigger] drop(i),
        forall|i: int| 0 <= i < n ==> #[trigger] more(i) == (drop(i) || i == p),
    ensures
        without(x, drop, n).len() > p,
        without(x, drop, n)[p] == x[p],
        without(x, drop, n).remove(p) == without(x, more, n),
        without(x, more, n).insert(p, x[p]) == without(x, drop, n),
    decreases n,
{
    lemma_without_prefix(x, drop, n, p);
    if n - 1 > p {
        lemma_without_one_more(x, drop, more, n - 1, p);
        let a = without(x, drop, n - 1);
        let b = without(x, more, n - 1);
        if drop(n - 1) {
        } else {
            assert(a.push(x[n - 1]).remove(p) =~= a.remove(p).push(x[n - 1]));
            assert(b.push(x[n - 1]).insert(p, x[p]) =~= b.insert(p, x[p]).push(x[n - 1]));
        }
    } else {
        // n - 1 == p
        lemma_without_nothing(x, drop, n);
        lemma_without_nothing(x, drop, n - 1);
        lemma_without_ext(x, more, drop, n - 1);
        let a = without(x, drop, n - 1);
        assert(a.push(x[p]).remove(p) =~= a);
        assert(a.insert(p, x[p]) =~= a.push(x[p]));
    }
}

/// Two strictly rising sequences that hold the same positions are equal.
pub proof fn lemma_ascending_unique(s1: Seq<int>, s2: Seq<int>)
    requires
        ascending(s1),
        ascending(s2),
        forall|v: int| s1.contains(v) <==> s2.contains(v),
    ensures
        s1 == s2,
    decreases s1.len(),
{
    if s1.len() == 0 {
        if s2.len() > 0 {
            assert(s2.contains(s2[0]));
        }
        assert(s1 =~= s2);
    } else {
        let m1 = s1.last();
        assert(s1.contains(m1));
        assert(s2.len() > 0);
        let m2 = s2.last();
        assert(s2.contains(m2));
        // both are the greatest position
        let k2 = choose|k: int| 0 <= k < s2.len() && s2[k] == m1;
        let k1 = choose|k: int| 0 <= k < s1.len() && s1[k] == m2;
        assert(m1 <= m2) by {
            if k2 < s2.len() - 1 {
                assert(s2[k2] < s2[s2.len() - 1]);
            }
        }
        assert(m2 <= m1) by {
            if k1 < s1.len() - 1 {
                assert(s1[k1] < s1[s1.len() - 1]);
            }
        }
        let i1 = s1.drop_last();
        let i2 = s2.drop_last();
        assert forall|v: int| i1.contains(v) <==> i2.contains(v) by {
            if i1.contains(v) {
                let k = choose|k: int| 0 <= k < i1.len() && i1[k] == v;
                assert(s1[k] == v);
                assert(s1[k] < s1[s1.len() - 1]);
                assert(s1.contains(v));
                let j = choose|j: int| 0 <= j < s2.len() && s2[j] == v;
                assert(j < s2.len() - 1);
                assert(i2[j] == v);
            }
            if i2.contains(v) {
                let k = choose|k: int| 0 <= k < i2.len() && i2[k] == v;
                assert(s2[k] == v);
                assert(s2[k] < s2[s2.len() - 1]);
                assert(s2.contains(v));
                let j = choose|j: int| 0 <= j < s1.len() && s1[j] == v;
                assert(j < s1.len() - 1);
                assert(i1[j] == v);
            }
        }
        assert(ascending(i1)) by {
            assert forall|i: int, j: int| 0 <= i < j < i1.len() implies #[trigger] i1[i]
                < #[trigger] i1[j] by {
                assert(s1[i] < s1[j]);
            }
        }
        assert(ascending(i2)) by {
            assert forall|i: int, j: int| 0 <= i < j < i2.len() implies #[trigger] i2[i]
                < #[trigger] i2[j] by {
                assert(s2[i] < s2[j]);
            }
        }
        lemma_ascending_unique(i1, i2);
        assert(s1 =~= i1.push(m1));
        assert(s2 =~= i2.push(m2));
    }
}

} // verus!
