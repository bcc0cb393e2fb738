//! What holds of the parts of two arrays that an array diff works with.

use crate::json::JsonView;
use crate::lcs::{lcs_pairs, lemma_lcs_pairs};
use crate::pipeline::arrays::lemma_unmatched;
use crate::errors::PatchFailure;
use crate::proofs::rearrange::{holds, lemma_rearranged};
use crate::proofs::shape::{
    carried_to, claims_valid, inverse, lemma_found, lemma_inverse, lemma_inverse_twice,
    lemma_shape_rearranges, lemma_shape_reversed, shape_ops,
};
use crate::semantics::patch::{
    element_outcomes, first_failure, patch_spec, place_results, rearranged, Patched,
};
use crate::semantics::reverse::reverse_spec;
use crate::proofs::sequences::{ascending, within, without};
use crate::semantics::diff::{
    array_delta, array_ops, array_parts, carried, claim_moves, common_head, common_tail, first_fit,
    is_matched, kept_old, unmatched,
};
use crate::types::{ArrayDeltaIndex, DeltaView, Options};
use vstd::prelude::*;

verus! {

/// Where the common head ends: the values before it are equal, pair by
/// pair.
pub proof fn lemma_common_head(a: Seq<JsonView>, b: Seq<JsonView>, i: int)
    requires
        0 <= i <= a.len(),
        i <= b.len(),
    ensures
        i <= common_head(a, b, i) <= a.len(),
        common_head(a, b, i) <= b.len(),
        forall|k: int| i <= k < common_head(a, b, i) ==> a[k] == b[k],
        common_head(a, b, i) < a.len() && common_head(a, b, i) < b.len() ==> a[common_head(a, b, i)]
            != b[common_head(a, b, i)],
    decreases a.len() - i,
{
    if i < a.len() && i < b.len() && a[i] == b[i] {
        lemma_common_head(a, b, i + 1);
    }
}

/// The `k`-th values from the ends of `a` and `b` are equal.
pub open spec fn same_from_end(a: Seq<JsonView>, b: Seq<JsonView>, k: int) -> bool {
    a[a.len() - 1 - k] == b[b.len() - 1 - k]
}

/// How long the common tail is: the values in it are equal, pair by pair,
/// and it does not reach into the head.
pub proof fn lemma_common_tail(a: Seq<JsonView>, b: Seq<JsonView>, head: int, t: int)
    requires
        0 <= head,
        0 <= t,
        t + head <= a.len(),
        t + head <= b.len(),
    ensures
        t <= common_tail(a, b, head, t),
        common_tail(a, b, head, t) + head <= a.len(),
        common_tail(a, b, head, t) + head <= b.len(),
        forall|k: int| t <= k < common_tail(a, b, head, t) ==> #[trigger] same_from_end(a, b, k),
    decreases a.len() - t,
{
    if t + head < a.len() && t + head < b.len() && a[a.len() - 1 - t] == b[b.len() - 1 - t] {
        lemma_common_tail(a, b, head, t + 1);
    }
}

/// What the claims are while moves are detected: each claimed target is one
/// of the targets taken so far and holds the value of the removed position
/// that it claimed, and no target has claimed two positions.
pub open spec fn claims_sound(
    a: Seq<JsonView>,
    b: Seq<JsonView>,
    removed: Seq<int>,
    targets: Seq<int>,
    claims: Seq<Option<int>>,
    p: int,
) -> bool {
    &&& claims.len() == removed.len()
    &&& forall|k: int|
        0 <= k < claims.len() && (#[trigger] claims[k]) is Some ==> (exists|q: int|
            0 <= q < p && q < targets.len() && #[trigger] targets[q] == claims[k]->0)
            && a[removed[k]] == b[claims[k]->0]
    &&& forall|k: int, l: int|
        0 <= k < claims.len() && 0 <= l < claims.len() && k != l && (#[trigger] claims[k]) is Some
            ==> claims[k] != #[trigger] claims[l]
}

/// Where the first fit lies.
pub proof fn lemma_first_fit(
    a: Seq<JsonView>,
    value: JsonView,
    removed: Seq<int>,
    claims: Seq<Option<int>>,
    k: int,
)
    requires
        0 <= k <= removed.len(),
        claims.len() == removed.len(),
    ensures
        k <= first_fit(a, value, removed, claims, k) <= removed.len(),
        first_fit(a, value, removed, claims, k) < removed.len() ==> claims[first_fit(
            a,
            value,
            removed,
            claims,
            k,
        )] is None && a[removed[first_fit(a, value, removed, claims, k)]] == value,
    decreases removed.len() - k,
{
    if k < removed.len() && !(claims[k] is None && a[removed[k]] == value) {
        lemma_first_fit(a, value, removed, claims, k + 1);
    }
}

/// Move detection keeps the claims sound.
pub proof fn lemma_claim_moves(
    a: Seq<JsonView>,
    b: Seq<JsonView>,
    removed: Seq<int>,
    targets: Seq<int>,
    claims: Seq<Option<int>>,
    p: int,
)
    requires
        ascending(targets),
        0 <= p <= targets.len(),
        claims_sound(a, b, removed, targets, claims, p),
    ensures
        claims_sound(
            a,
            b,
            removed,
            targets,
            claim_moves(a, b, removed, targets, claims, p),
            targets.len() as int,
        ),
    decreases targets.len() - p,
{
    if p < targets.len() {
        let t = targets[p];
        let k = first_fit(a, b[t], removed, claims, 0);
        lemma_first_fit(a, b[t], removed, claims, 0);
        if k < removed.len() {
            let next = claims.update(k, Some(t));
            assert(claims_sound(a, b, removed, targets, next, p + 1)) by {
                assert forall|i: int| 0 <= i < next.len() && (#[trigger] next[i]) is Some implies (
                exists|q: int|
                    0 <= q < p + 1 && q < targets.len() && #[trigger] targets[q] == next[i]->0)
                    && a[removed[i]] == b[next[i]->0] by {
                    if i == k {
                        assert(targets[p] == t);
                    } else {
                        assert(claims[i] is Some);
                        let q = choose|q: int|
                            0 <= q < p && q < targets.len() && #[trigger] targets[q]
                                == claims[i]->0;
                        assert(targets[q] == next[i]->0);
                    }
                }
                assert forall|i: int, l: int|
                    0 <= i < next.len() && 0 <= l < next.len() && i != l && (#[trigger] next[i])
                        is Some implies next[i] != #[trigger] next[l] by {
                    if i != k && l != k {
                        assert(claims[i] is Some);
                        assert(claims[i] != claims[l]);
                    } else {
                        let other = if i == k {
                            l
                        } else {
                            i
                        };
                        if claims[other] is Some {
                            let q = choose|q: int|
                                0 <= q < p && q < targets.len() && #[trigger] targets[q]
                                    == claims[other]->0;
                            assert(targets[q] < targets[p]);
                        }
                    }
                }
            }
            lemma_claim_moves(a, b, removed, targets, next, p + 1);
        } else {
            assert(claims_sound(a, b, removed, targets, claims, p + 1)) by {
                assert forall|i: int|
                    0 <= i < claims.len() && (#[trigger] claims[i]) is Some implies (exists|q: int|
                    0 <= q < p + 1 && q < targets.len() && #[trigger] targets[q] == claims[i]->0)
                    && a[removed[i]] == b[claims[i]->0] by {
                    let q = choose|q: int|
                        0 <= q < p && q < targets.len() && #[trigger] targets[q] == claims[i]->0;
                    assert(targets[q] == claims[i]->0);
                }
            }
            lemma_claim_moves(a, b, removed, targets, claims, p + 1);
        }
    } else {
        assert(claim_moves(a, b, removed, targets, claims, p) == claims);
    }
}

/// The elements of `x` at the positions `idx`, in order.
pub open spec fn picked(x: Seq<JsonView>, idx: Seq<int>) -> Seq<JsonView> {
    Seq::new(idx.len(), |k: int| x[idx[k]])
}

/// Leaving out all positions but those of `idx` is picking those of `idx`.
pub proof fn lemma_without_is_picked(
    x: Seq<JsonView>,
    drop: spec_fn(int) -> bool,
    idx: Seq<int>,
    n: int,
)
    requires
        0 <= n <= x.len(),
        ascending(idx),
        within(idx, 0, n),
        forall|i: int| 0 <= i < n ==> #[trigger] drop(i) == !idx.contains(i),
    ensures
        without(x, drop, n) == picked(x, idx),
    decreases n,
{
    if n == 0 {
        if idx.len() > 0 {
            let v = idx[0];
            assert(0 <= v && v < n);
        }
        assert(without(x, drop, n) =~= picked(x, idx));
    } else if idx.contains(n - 1) {
        let at = choose|at: int| 0 <= at < idx.len() && idx[at] == n - 1;
        if at < idx.len() - 1 {
            assert(idx[at] < idx[idx.len() - 1]);
            assert(idx[idx.len() - 1] < n);
        }
        let init = idx.drop_last();
        assert(ascending(init)) by {
            assert forall|i: int, j: int| 0 <= i < j < init.len() implies #[trigger] init[i]
                < #[trigger] init[j] by {
                assert(idx[i] < idx[j]);
            }
        }
        assert(within(init, 0, n - 1)) by {
            assert forall|k: int| 0 <= k < init.len() implies 0 <= #[trigger] init[k] < n - 1 by {
                assert(idx[k] < idx[idx.len() - 1]);
                assert(0 <= idx[k]);
            }
        }
        assert forall|i: int| 0 <= i < n - 1 implies #[trigger] drop(i) == !init.contains(i) by {
            if init.contains(i) {
                let k = choose|k: int| 0 <= k < init.len() && init[k] == i;
                assert(idx[k] == i);
            }
            if idx.contains(i) {
                let k = choose|k: int| 0 <= k < idx.len() && idx[k] == i;
                assert(k < idx.len() - 1);
                assert(init[k] == i);
            }
        }
        lemma_without_is_picked(x, drop, init, n - 1);
        assert(without(x, drop, n) =~= picked(x, idx));
    } else {
        assert(within(idx, 0, n - 1)) by {
            assert forall|k: int| 0 <= k < idx.len() implies 0 <= #[trigger] idx[k] < n - 1 by {
                assert(idx.contains(idx[k]));
            }
        }
        lemma_without_is_picked(x, drop, idx, n - 1);
    }
}

/// The positions that stay in place: those of the head, those that the
/// pairs hold in the middle, and those of the tail.
pub open spec fn staying(head: int, tail: int, n: int, middle: Seq<int>) -> Seq<int> {
    Seq::new(
        (head + middle.len() + tail) as nat,
        |k: int|
            if k < head {
                k
            } else if k < head + middle.len() {
                head + middle[k - head]
            } else {
                n - tail + (k - head - middle.len())
            },
    )
}

/// The first positions of the pairs.
pub open spec fn firsts(pairs: Seq<(int, int)>) -> Seq<int> {
    Seq::new(pairs.len(), |k: int| pairs[k].0)
}

/// The second positions of the pairs.
pub open spec fn seconds(pairs: Seq<(int, int)>) -> Seq<int> {
    Seq::new(pairs.len(), |k: int| pairs[k].1)
}

/// The positions that stay rise, lie within the array, and are all but the
/// unmatched positions of the middle.
pub proof fn lemma_staying(
    head: int,
    tail: int,
    n: int,
    pairs: Seq<(int, int)>,
    left: bool,
    i: int,
)
    requires
        0 <= head,
        0 <= tail,
        head + tail <= n,
        forall|k: int, l: int|
            0 <= k < l < pairs.len() ==> (#[trigger] pairs[k]).0 < (#[trigger] pairs[l]).0
                && pairs[k].1 < pairs[l].1,
        forall|k: int|
            0 <= k < pairs.len() ==> 0 <= (if left {
                (#[trigger] pairs[k]).0
            } else {
                pairs[k].1
            }) < n - tail - head,
        0 <= i < n,
    ensures
        ascending(
            staying(
                head,
                tail,
                n,
                if left {
                    firsts(pairs)
                } else {
                    seconds(pairs)
                },
            ),
        ),
        within(
            staying(
                head,
                tail,
                n,
                if left {
                    firsts(pairs)
                } else {
                    seconds(pairs)
                },
            ),
            0,
            n,
        ),
        staying(
            head,
            tail,
            n,
            if left {
                firsts(pairs)
            } else {
                seconds(pairs)
            },
        ).contains(i) <==> i < head || i >= n - tail || is_matched(pairs, left, i - head),
{
    let middle = if left {
        firsts(pairs)
    } else {
        seconds(pairs)
    };
    let s = staying(head, tail, n, middle);
    let len = middle.len() as int;
    assert forall|k: int, l: int| 0 <= k < l < s.len() implies #[trigger] s[k] < #[trigger] s[l] by {
        if head <= k < head + len && head <= l < head + len {
            assert(pairs[k - head].0 < pairs[l - head].0 && pairs[k - head].1 < pairs[l - head].1);
        }
        if head <= k < head + len {
            assert(0 <= middle[k - head] < n - tail - head);
        }
        if head <= l < head + len {
            assert(0 <= middle[l - head] < n - tail - head);
        }
    }
    assert forall|k: int| 0 <= k < s.len() implies 0 <= #[trigger] s[k] < n by {
        if head <= k < head + len {
            assert(0 <= middle[k - head] < n - tail - head);
        }
    }
    if s.contains(i) {
        let k = choose|k: int| 0 <= k < s.len() && s[k] == i;
        if head <= k < head + len {
            assert(middle[k - head] == i - head);
            assert((if left {
                pairs[k - head].0
            } else {
                pairs[k - head].1
            }) == i - head);
            assert(is_matched(pairs, left, i - head));
        }
    }
    if i < head {
        assert(s[i] == i);
    } else if i >= n - tail {
        assert(s[head + len + (i - (n - tail))] == i);
    } else if is_matched(pairs, left, i - head) {
        let k = choose|k: int|
            0 <= k < pairs.len() && (if left {
                (#[trigger] pairs[k]).0
            } else {
                pairs[k].1
            }) == i - head;
        assert(s[head + k] == i);
    }
}

/// What an array diff takes out of the left array leaves what it does not
/// put into the right one: the values that stay in place.
pub proof fn lemma_kept_equal(a: Seq<JsonView>, b: Seq<JsonView>, o: Options)
    ensures
        without(a, |i: int| holds(array_parts(a, b, o).removed, i), a.len() as int) == without(
            b,
            |i: int| holds(array_parts(a, b, o).targets, i),
            b.len() as int,
        ),
        ascending(array_parts(a, b, o).removed),
        ascending(array_parts(a, b, o).targets),
        within(array_parts(a, b, o).removed, 0, a.len() as int),
        within(array_parts(a, b, o).targets, 0, b.len() as int),
{
    let parts = array_parts(a, b, o);
    let n = a.len() as int;
    let m = b.len() as int;
    let head = parts.head;
    let tail = parts.tail;
    lemma_common_head(a, b, 0);
    lemma_common_tail(a, b, head, 0);
    let mid_a = a.subrange(head, n - tail);
    let mid_b = b.subrange(head, m - tail);
    let pairs = lcs_pairs(mid_a, mid_b, 0, 0);
    lemma_lcs_pairs(mid_a, mid_b, 0, 0);
    lemma_unmatched(pairs, true, mid_a.len() as int, head);
    lemma_unmatched(pairs, false, mid_b.len() as int, head);
    let removed = parts.removed;
    let targets = parts.targets;
    assert(removed == unmatched(pairs, true, mid_a.len() as int, head));
    assert(targets == unmatched(pairs, false, mid_b.len() as int, head));
    let stay_a = staying(head, tail, n, firsts(pairs));
    let stay_b = staying(head, tail, m, seconds(pairs));
    let drop_a = |i: int| holds(removed, i);
    let drop_b = |i: int| holds(targets, i);
    assert forall|k: int| 0 <= k < pairs.len() implies 0 <= (#[trigger] pairs[k]).0 < n - tail
        - head && 0 <= pairs[k].1 < m - tail - head by {}
    assert forall|i: int| 0 <= i < n implies #[trigger] drop_a(i) == !stay_a.contains(i) by {
        lemma_staying(head, tail, n, pairs, true, i);
        if holds(removed, i) {
            let k = choose|k: int| 0 <= k < removed.len() && removed[k] == i;
            assert(!is_matched(pairs, true, removed[k] - head));
        }
    }
    assert forall|i: int| 0 <= i < m implies #[trigger] drop_b(i) == !stay_b.contains(i) by {
        lemma_staying(head, tail, m, pairs, false, i);
        if holds(targets, i) {
            let k = choose|k: int| 0 <= k < targets.len() && targets[k] == i;
            assert(!is_matched(pairs, false, targets[k] - head));
        }
    }
    if n > 0 {
        lemma_staying(head, tail, n, pairs, true, 0);
    } else {
        assert(stay_a.len() == 0);
    }
    if m > 0 {
        lemma_staying(head, tail, m, pairs, false, 0);
    } else {
        assert(stay_b.len() == 0);
    }
    lemma_without_is_picked(a, drop_a, stay_a, n);
    lemma_without_is_picked(b, drop_b, stay_b, m);
    assert forall|k: int| 0 <= k < stay_a.len() implies a[stay_a[k]] == b[stay_b[k]] by {
        let len = pairs.len() as int;
        if k < head {
        } else if k < head + len {
            let p = pairs[k - head];
            assert(mid_a[p.0] == mid_b[p.1]);
        } else {
            let back = tail - 1 - (k - head - len);
            assert(same_from_end(a, b, back));
        }
    }
    assert(picked(a, stay_a) =~= picked(b, stay_b));
    assert(within(removed, 0, n)) by {
        assert forall|k: int| 0 <= k < removed.len() implies 0 <= #[trigger] removed[k] < n by {}
    }
    assert(within(targets, 0, m)) by {
        assert forall|k: int| 0 <= k < targets.len() implies 0 <= #[trigger] targets[k] < m by {}
    }
}

/// The operations of an array diff, as a delta of the shape.
pub open spec fn diff_shape(a: Seq<JsonView>, b: Seq<JsonView>, o: Options) -> Map<
    ArrayDeltaIndex,
    DeltaView,
> {
    let parts = array_parts(a, b, o);
    shape_ops(
        parts.removed,
        parts.targets,
        parts.claims,
        |i: int| kept_old(a[i], o),
        |j: int| b[j],
        |i: int| carried(a[i], o),
    )
}

/// What holds of the parts of two arrays: the removed positions and the
/// targets rise and lie within their arrays, the claims are valid, a
/// claimed target holds the value of the position that it claimed, and the
/// operations of the diff are a delta of the shape.
pub proof fn lemma_parts(a: Seq<JsonView>, b: Seq<JsonView>, o: Options)
    ensures
        ascending(array_parts(a, b, o).removed),
        ascending(array_parts(a, b, o).targets),
        within(array_parts(a, b, o).removed, 0, a.len() as int),
        within(array_parts(a, b, o).targets, 0, b.len() as int),
        claims_valid(
            array_parts(a, b, o).removed,
            array_parts(a, b, o).targets,
            array_parts(a, b, o).claims,
        ),
        forall|k: int|
            0 <= k < array_parts(a, b, o).claims.len() && (#[trigger] array_parts(
                a,
                b,
                o,
            ).claims[k]) is Some ==> a[array_parts(a, b, o).removed[k]] == b[array_parts(
                a,
                b,
                o,
            ).claims[k]->0],
        array_ops(a, b, o) == diff_shape(a, b, o),
{
    let parts = array_parts(a, b, o);
    lemma_kept_equal(a, b, o);
    let removed = parts.removed;
    let targets = parts.targets;
    let free = Seq::new(removed.len(), |k: int| None::<int>);
    assert(claims_sound(a, b, removed, targets, free, 0));
    if o.spec_detect_move() {
        lemma_claim_moves(a, b, removed, targets, free, 0);
    }
    let claims = parts.claims;
    assert(claims_sound(a, b, removed, targets, claims, targets.len() as int));
    assert forall|k: int| 0 <= k < claims.len() && (#[trigger] claims[k]) is Some implies holds(
        targets,
        claims[k]->0,
    ) by {
        let q = choose|q: int|
            0 <= q < targets.len() && q < targets.len() && #[trigger] targets[q] == claims[k]->0;
        assert(targets[q] == claims[k]->0);
    }
    assert(array_ops(a, b, o) =~= diff_shape(a, b, o));
}

/// Applying the delta between two arrays to the first gives the second.
pub proof fn lemma_array_patch_of_diff(a: Seq<JsonView>, b: Seq<JsonView>, o: Options)
    requires
        a.len() <= usize::MAX,
        b.len() <= usize::MAX,
        a != b,
    ensures
        patch_spec(JsonView::Array(a), array_delta(a, b, o)) == Patched::Value(JsonView::Array(b)),
{
    let parts = array_parts(a, b, o);
    lemma_parts(a, b, o);
    lemma_kept_equal(a, b, o);
    let ops = array_ops(a, b, o);
    assert forall|q: int| 0 <= q < parts.targets.len() implies (|j: int| b[j])(
        #[trigger] parts.targets[q],
    ) == b[parts.targets[q]] by {}
    lemma_shape_rearranges(
        a,
        b,
        parts.removed,
        parts.targets,
        parts.claims,
        |i: int| kept_old(a[i], o),
        |j: int| b[j],
        |i: int| carried(a[i], o),
    );
    lemma_rearranged(ops, a, b, parts.removed, parts.targets);
    lemma_placed(JsonView::Array(a), DeltaView::Array(ops), b);
}

/// An array delta without a patch in place makes of the array what its
/// removals and insertions make of it.
pub proof fn lemma_placed(l: JsonView, d: DeltaView, y: Seq<JsonView>)
    requires
        l is Array,
        d is Array,
        rearranged(l->Array_0, d->Array_0) == Ok::<(Seq<JsonView>, Seq<usize>), PatchFailure>(
            (y, Seq::<usize>::empty()),
        ),
    ensures
        patch_spec(l, d) == Patched::Value(JsonView::Array(y)),
{
    let outcomes = element_outcomes(l, d);
    let mods = Seq::<usize>::empty();
    assert(first_failure(mods, outcomes, 0) is None);
    assert(place_results(y, mods, outcomes, 0) == Ok::<Seq<JsonView>, PatchFailure>(y));
}

/// The reversal of the delta between two arrays, as a delta of the shape.
pub open spec fn reversed_shape(a: Seq<JsonView>, b: Seq<JsonView>, o: Options) -> Map<
    ArrayDeltaIndex,
    DeltaView,
> {
    let parts = array_parts(a, b, o);
    shape_ops(
        parts.targets,
        parts.removed,
        inverse(parts.removed, parts.targets, parts.claims),
        |j: int| b[j],
        |i: int| kept_old(a[i], o),
        |t: int| carried_to(parts.removed, parts.claims, |i: int| carried(a[i], o), t),
    )
}

/// The delta between two arrays has a reversal: the delta of the shape
/// with sources and targets swapped.
pub proof fn lemma_array_diff_reversed(a: Seq<JsonView>, b: Seq<JsonView>, o: Options)
    requires
        a.len() <= usize::MAX,
        b.len() <= usize::MAX,
    ensures
        reverse_spec(DeltaView::Array(array_ops(a, b, o))) == Some(
            DeltaView::Array(reversed_shape(a, b, o)),
        ),
{
    let parts = array_parts(a, b, o);
    lemma_parts(a, b, o);
    assert(within(parts.removed, 0, usize::MAX + 1)) by {
        assert forall|k: int| 0 <= k < parts.removed.len() implies 0 <= #[trigger] parts.removed[k]
            < usize::MAX + 1 by {}
    }
    assert(within(parts.targets, 0, usize::MAX + 1)) by {
        assert forall|k: int| 0 <= k < parts.targets.len() implies 0 <= #[trigger] parts.targets[k]
            < usize::MAX + 1 by {}
    }
    lemma_shape_reversed(
        parts.removed,
        parts.targets,
        parts.claims,
        |i: int| kept_old(a[i], o),
        |j: int| b[j],
        |i: int| carried(a[i], o),
    );
}

/// Applying the reversal of the delta between two arrays to the second
/// gives the first, where the delta holds the values that it removes.
pub proof fn lemma_array_patch_back(a: Seq<JsonView>, b: Seq<JsonView>, o: Options)
    requires
        a.len() <= usize::MAX,
        b.len() <= usize::MAX,
        !o.spec_omit_removed_values(),
    ensures
        reverse_spec(DeltaView::Array(array_ops(a, b, o))) is Some,
        patch_spec(JsonView::Array(b), reverse_spec(DeltaView::Array(array_ops(a, b, o)))->0)
            == Patched::Value(JsonView::Array(a)),
{
    let parts = array_parts(a, b, o);
    lemma_parts(a, b, o);
    lemma_kept_equal(a, b, o);
    lemma_array_diff_reversed(a, b, o);
    let inv = inverse(parts.removed, parts.targets, parts.claims);
    lemma_inverse(parts.removed, parts.targets, parts.claims);
    let rev = reversed_shape(a, b, o);
    assert forall|q: int| 0 <= q < inv.len() && (#[trigger] inv[q]) is Some implies b[parts.targets[q]]
        == a[inv[q]->0] by {
        assert(holds(parts.removed, inv[q]->0));
        lemma_found(parts.removed, inv[q]->0);
        let k = parts.removed.index_of(inv[q]->0);
        assert(inv[q] == Some(parts.removed[k]));
        assert(parts.claims[k] == Some(parts.targets[q]));
    }
    assert forall|k: int| 0 <= k < parts.removed.len() implies (|i: int| kept_old(a[i], o))(
        #[trigger] parts.removed[k],
    ) == a[parts.removed[k]] by {}
    lemma_shape_rearranges(
        b,
        a,
        parts.targets,
        parts.removed,
        inv,
        |j: int| b[j],
        |i: int| kept_old(a[i], o),
        |t: int| carried_to(parts.removed, parts.claims, |i: int| carried(a[i], o), t),
    );
    lemma_rearranged(rev, b, a, parts.targets, parts.removed);
    lemma_placed(JsonView::Array(b), DeltaView::Array(rev), a);
}

/// Reversing the delta between two arrays twice gives the delta back.
pub proof fn lemma_array_diff_reversed_twice(a: Seq<JsonView>, b: Seq<JsonView>, o: Options)
    requires
        a.len() <= usize::MAX,
        b.len() <= usize::MAX,
    ensures
        reverse_spec(DeltaView::Array(array_ops(a, b, o))) is Some,
        reverse_spec(reverse_spec(DeltaView::Array(array_ops(a, b, o)))->0) == Some(
            DeltaView::Array(array_ops(a, b, o)),
        ),
{
    let parts = array_parts(a, b, o);
    lemma_parts(a, b, o);
    lemma_array_diff_reversed(a, b, o);
    let removed = parts.removed;
    let targets = parts.targets;
    let claims = parts.claims;
    let inv = inverse(removed, targets, claims);
    lemma_inverse(removed, targets, claims);
    lemma_inverse_twice(removed, targets, claims);
    assert(within(removed, 0, usize::MAX + 1)) by {
        assert forall|k: int| 0 <= k < removed.len() implies 0 <= #[trigger] removed[k] < usize::MAX
            + 1 by {}
    }
    assert(within(targets, 0, usize::MAX + 1)) by {
        assert forall|k: int| 0 <= k < targets.len() implies 0 <= #[trigger] targets[k] < usize::MAX
            + 1 by {}
    }
    let carry = |i: int| carried(a[i], o);
    let back = |t: int| carried_to(removed, claims, carry, t);
    lemma_shape_reversed(targets, removed, inv, |j: int| b[j], |i: int| kept_old(a[i], o), back);
    let twice = shape_ops(
        removed,
        targets,
        inverse(targets, removed, inv),
        |i: int| kept_old(a[i], o),
        |j: int| b[j],
        |s: int| carried_to(targets, inv, back, s),
    );
    let ops = diff_shape(a, b, o);
    assert forall|key: ArrayDeltaIndex| twice.contains_key(key) implies twice[key] == ops[key] by {
        match key {
            ArrayDeltaIndex::RemovedOrMoved(i) => {
                lemma_found(removed, i as int);
                let k = removed.index_of(i as int);
                match claims[k] {
                    Some(t) => {
                        assert(holds(targets, t));
                        lemma_found(targets, t);
                        let q = targets.index_of(t);
                        assert(claims[k] == Some(targets[q]));
                        assert(inv[q] == Some(removed[k]));
                        crate::proofs::shape::lemma_claim_index(targets, removed, inv, q);
                        crate::proofs::shape::lemma_claim_index(removed, targets, claims, k);
                        assert(carried_to(targets, inv, back, i as int) == back(targets[q]));
                        assert(back(t) == carry(removed[k]));
                    },
                    None => {},
                }
            },
            ArrayDeltaIndex::NewOrModified(j) => {},
        }
    }
    assert(twice =~= ops);
}

} // verus!
