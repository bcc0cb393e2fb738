//! The removals and the insertions of an array delta that holds no patch in
//! place: what they make of an array.

use crate::errors::PatchFailure;
use crate::json::JsonView;
use crate::pipeline::patch_pipeline::lemma_sorted_entries;
use crate::proofs::sequences::{
    ascending, lemma_ascending_unique, lemma_without_ext, lemma_without_nothing,
    lemma_without_one_more, within, without,
};
use crate::semantics::patch::{
    apply_insertions, collect_ops, insert_sorted, rearranged, sort_insertions, sorted_entries,
    take_op, ArrayPatching, Insertion,
};
use crate::types::{ArrayDeltaIndex, DeltaView};
use vstd::prelude::*;

verus! {

/// The element that an operation puts on the list of insertions, if any: an
/// addition the added value, a move the element of `x` that it takes away.
pub open spec fn insertion_of(x: Seq<JsonView>, key: ArrayDeltaIndex, d: DeltaView) -> Option<
    Insertion,
> {
    match key {
        ArrayDeltaIndex::NewOrModified(t) => if d is Added {
            Some(Insertion { index: t, value: d->Added_0, from: None })
        } else {
            None
        },
        ArrayDeltaIndex::RemovedOrMoved(s) => if d is Moved {
            Some(Insertion { index: d->new_index, value: x[s as int], from: Some(s) })
        } else {
            None
        },
    }
}

/// Whether `s` holds the position `i`.
pub open spec fn holds(s: Seq<int>, i: int) -> bool {
    s.contains(i)
}

/// The operations `ops` take the positions `sources` out of `x` and fill
/// the positions `targets` of `y`, and what is left of `x` is what was
/// there of `y`.
///
/// Under the key of each source stands a deletion or a move; every other
/// operation is an addition. Each insertion goes to a target and brings
/// the element that `y` holds there; each target gets one insertion.
pub open spec fn rearranges(
    ops: Map<ArrayDeltaIndex, DeltaView>,
    x: Seq<JsonView>,
    y: Seq<JsonView>,
    sources: Seq<int>,
    targets: Seq<int>,
) -> bool {
    &&& x.len() <= usize::MAX
    &&& y.len() <= usize::MAX
    &&& ascending(sources)
    &&& within(sources, 0, x.len() as int)
    &&& ascending(targets)
    &&& within(targets, 0, y.len() as int)
    &&& forall|key: ArrayDeltaIndex| #[trigger]
        ops.contains_key(key) ==> match key {
            ArrayDeltaIndex::RemovedOrMoved(s) => holds(sources, s as int) && (ops[key] is Deleted
                || ops[key] is Moved),
            ArrayDeltaIndex::NewOrModified(_) => ops[key] is Added,
        }
    &&& forall|s: int| #[trigger]
        holds(sources, s) ==> ops.contains_key(ArrayDeltaIndex::RemovedOrMoved(s as usize))
    &&& forall|key: ArrayDeltaIndex| #[trigger]
        ops.contains_key(key) && insertion_of(x, key, ops[key]) is Some ==> holds(
            targets,
            insertion_of(x, key, ops[key])->0.index as int,
        ) && insertion_of(x, key, ops[key])->0.value == y[insertion_of(
            x,
            key,
            ops[key],
        )->0.index as int]
    &&& forall|a: ArrayDeltaIndex, b: ArrayDeltaIndex|
        #[trigger] ops.contains_key(a) && #[trigger] ops.contains_key(b) && a != b && insertion_of(
            x,
            a,
            ops[a],
        ) is Some && insertion_of(x, b, ops[b]) is Some ==> insertion_of(x, a, ops[a])->0.index
            != insertion_of(x, b, ops[b])->0.index
    &&& forall|t: int| #[trigger]
        holds(targets, t) ==> exists|key: ArrayDeltaIndex| #[trigger]
            ops.contains_key(key) && insertion_of(x, key, ops[key]) is Some && insertion_of(
                x,
                key,
                ops[key],
            )->0.index == t
    &&& without(x, |i: int| holds(sources, i), x.len() as int) == without(
        y,
        |i: int| holds(targets, i),
        y.len() as int,
    )
}

/// Whether one of the entries from the `k`-th on takes the position `i`
/// away.
pub open spec fn taken_from(entries: Seq<(ArrayDeltaIndex, DeltaView)>, k: int, i: int) -> bool {
    exists|j: int|
        k <= j < entries.len() && (#[trigger] entries[j]).0 == ArrayDeltaIndex::RemovedOrMoved(
            i as usize,
        ) && 0 <= i <= usize::MAX
}

/// Whether the insertion `e` was put on the list by one of the entries from
/// the `k`-th on.
pub open spec fn put_from(
    x: Seq<JsonView>,
    entries: Seq<(ArrayDeltaIndex, DeltaView)>,
    k: int,
    e: Insertion,
) -> bool {
    exists|j: int|
        k <= j < entries.len() && insertion_of(x, (#[trigger] entries[j]).0, entries[j].1) == Some(
            e,
        )
}

/// No two insertions go to one position.
pub open spec fn distinct_indices(s: Seq<Insertion>) -> bool {
    forall|p: int, q: int|
        0 <= p < s.len() && 0 <= q < s.len() && p != q ==> (#[trigger] s[p]).index != (
        #[trigger] s[q]).index
}

/// What the collecting of the operations from the `k`-th on leaves: the
/// array without the positions taken away so far, the insertions put on
/// the list so far, and no patch in place.
pub open spec fn collected(
    x: Seq<JsonView>,
    entries: Seq<(ArrayDeltaIndex, DeltaView)>,
    k: int,
    state: ArrayPatching,
) -> bool {
    &&& state.mods == Seq::<usize>::empty()
    &&& state.arr == without(x, |i: int| taken_from(entries, k, i), x.len() as int)
    &&& forall|p: int| 0 <= p < state.inserts.len() ==> put_from(x, entries, k, #[trigger] state.inserts[p])
    &&& forall|j: int|
        k <= j < entries.len() && insertion_of(x, (#[trigger] entries[j]).0, entries[j].1) is Some
            ==> state.inserts.contains(insertion_of(x, entries[j].0, entries[j].1)->0)
    &&& distinct_indices(state.inserts)
}

/// The operations are collected without an error.
pub proof fn lemma_collect(
    ops: Map<ArrayDeltaIndex, DeltaView>,
    x: Seq<JsonView>,
    y: Seq<JsonView>,
    sources: Seq<int>,
    targets: Seq<int>,
    k: int,
)
    requires
        rearranges(ops, x, y, sources, targets),
        0 <= k <= sorted_entries(ops).len(),
    ensures
        collect_ops(sorted_entries(ops), x, k) is Ok,
        collected(x, sorted_entries(ops), k, collect_ops(sorted_entries(ops), x, k)->Ok_0),
    decreases sorted_entries(ops).len() - k,
{
    let entries = sorted_entries(ops);
    lemma_sorted_entries(ops);
    let n = x.len() as int;
    if k == entries.len() {
        let state = collect_ops(entries, x, k)->Ok_0;
        lemma_without_nothing(x, |i: int| taken_from(entries, k, i), n);
        assert(x.subrange(0, n) =~= x);
    } else {
        lemma_collect(ops, x, y, sources, targets, k + 1);
        let before = collect_ops(entries, x, k + 1)->Ok_0;
        let key = entries[k].0;
        let d = entries[k].1;
        assert(ops.contains_key(key));
        assert(d == ops[key]);
        let drop = |i: int| taken_from(entries, k + 1, i);
        let more = |i: int| taken_from(entries, k, i);
        let after = take_op(before, x.len(), key, d);
        match key {
            ArrayDeltaIndex::NewOrModified(t) => {
                assert(d is Added);
                assert forall|i: int| 0 <= i < n implies #[trigger] more(i) == drop(i) by {
                    if taken_from(entries, k, i) {
                        let j = choose|j: int|
                            k <= j < entries.len() && (#[trigger] entries[j]).0
                                == ArrayDeltaIndex::RemovedOrMoved(i as usize) && 0 <= i
                                <= usize::MAX;
                        assert(j != k);
                    }
                }
                lemma_without_ext(x, more, drop, n);
            },
            ArrayDeltaIndex::RemovedOrMoved(s) => {
                assert(holds(sources, s as int));
                let at = choose|at: int| 0 <= at < sources.len() && sources[at] == s as int;
                assert(0 <= s < n);
                assert forall|i: int| 0 <= i <= s implies !#[trigger] drop(i) by {
                    if taken_from(entries, k + 1, i) {
                        let j = choose|j: int|
                            k + 1 <= j < entries.len() && (#[trigger] entries[j]).0
                                == ArrayDeltaIndex::RemovedOrMoved(i as usize) && 0 <= i
                                <= usize::MAX;
                        assert(entries[k].0.spec_lt(entries[j].0));
                    }
                }
                assert forall|i: int| 0 <= i < n implies #[trigger] more(i) == (drop(i) || i
                    == s) by {
                    if taken_from(entries, k, i) {
                        let j = choose|j: int|
                            k <= j < entries.len() && (#[trigger] entries[j]).0
                                == ArrayDeltaIndex::RemovedOrMoved(i as usize) && 0 <= i
                                <= usize::MAX;
                        if j != k {
                            assert(taken_from(entries, k + 1, i));
                        }
                    }
                    if i == s {
                        assert(entries[k].0 == ArrayDeltaIndex::RemovedOrMoved(i as usize));
                    }
                    if drop(i) {
                        let j = choose|j: int|
                            k + 1 <= j < entries.len() && (#[trigger] entries[j]).0
                                == ArrayDeltaIndex::RemovedOrMoved(i as usize) && 0 <= i
                                <= usize::MAX;
                        assert(taken_from(entries, k, i));
                    }
                }
                lemma_without_one_more(x, drop, more, n, s as int);
            },
        }
        assert(after is Ok);
        let state = after->Ok_0;
        assert(collect_ops(entries, x, k) == after);
        assert(state.arr == without(x, more, n));
        let made = insertion_of(x, key, d);
        assert forall|p: int| 0 <= p < state.inserts.len() implies put_from(
            x,
            entries,
            k,
            #[trigger] state.inserts[p],
        ) by {
            if p < before.inserts.len() {
                assert(state.inserts[p] == before.inserts[p]);
                assert(put_from(x, entries, k + 1, before.inserts[p]));
                let j = choose|j: int|
                    k + 1 <= j < entries.len() && insertion_of(
                        x,
                        (#[trigger] entries[j]).0,
                        entries[j].1,
                    ) == Some(before.inserts[p]);
                assert(entries[j].0 == entries[j].0);
            } else {
                assert(made == Some(state.inserts[p]));
                assert(entries[k].0 == key);
            }
        }
        assert forall|j: int|
            k <= j < entries.len() && insertion_of(x, (#[trigger] entries[j]).0, entries[j].1)
                is Some implies state.inserts.contains(
            insertion_of(x, entries[j].0, entries[j].1)->0,
        ) by {
            let e = insertion_of(x, entries[j].0, entries[j].1)->0;
            if j > k {
                assert(before.inserts.contains(e));
                let p = choose|p: int| 0 <= p < before.inserts.len() && before.inserts[p] == e;
                assert(state.inserts[p] == e);
            } else {
                assert(state.inserts[state.inserts.len() - 1] == e);
            }
        }
        assert forall|p: int, q: int|
            0 <= p < state.inserts.len() && 0 <= q < state.inserts.len() && p != q implies (
        #[trigger] state.inserts[p]).index != (#[trigger] state.inserts[q]).index by {
            let old_len = before.inserts.len() as int;
            if p < old_len && q < old_len {
                assert(state.inserts[p] == before.inserts[p]);
                assert(state.inserts[q] == before.inserts[q]);
            } else {
                let (o, fresh) = if p < old_len {
                    (p, q)
                } else {
                    (q, p)
                };
                assert(state.inserts[o] == before.inserts[o]);
                assert(put_from(x, entries, k + 1, before.inserts[o]));
                let j = choose|j: int|
                    k + 1 <= j < entries.len() && insertion_of(
                        x,
                        (#[trigger] entries[j]).0,
                        entries[j].1,
                    ) == Some(before.inserts[o]);
                assert(entries[k].0.spec_lt(entries[j].0));
                assert(ops.contains_key(entries[j].0));
                assert(entries[j].1 == ops[entries[j].0]);
                assert(made == Some(state.inserts[fresh]));
            }
        }
    }
}

/// Whether one of the insertions of `s` is `e`.
pub open spec fn has(s: Seq<Insertion>, e: Insertion) -> bool {
    s.contains(e)
}

/// Putting an insertion into a sorted list keeps the list sorted, adds the
/// insertion and nothing else, and keeps the positions distinct where the
/// new one is none of the old ones.
pub proof fn lemma_insert_sorted_keeps(sorted: Seq<Insertion>, x: Insertion)
    requires
        forall|i: int, j: int|
            0 <= i < j < sorted.len() ==> (#[trigger] sorted[i]).index <= (#[trigger] sorted[j]).index,
    ensures
        insert_sorted(sorted, x).len() == sorted.len() + 1,
        forall|e: Insertion| #[trigger] has(insert_sorted(sorted, x), e) <==> has(sorted, e) || e == x,
        forall|i: int, j: int|
            0 <= i < j < insert_sorted(sorted, x).len() ==> (#[trigger] insert_sorted(
                sorted,
                x,
            )[i]).index <= (#[trigger] insert_sorted(sorted, x)[j]).index,
    decreases sorted.len(),
{
    let r = insert_sorted(sorted, x);
    if sorted.len() == 0 {
        assert(r[0] == x);
        assert forall|e: Insertion| #[trigger] has(r, e) <==> has(sorted, e) || e == x by {
            if has(r, e) {
                let p = choose|p: int| 0 <= p < r.len() && r[p] == e;
            }
        }
    } else if sorted.last().index <= x.index {
        assert forall|e: Insertion| #[trigger] has(r, e) <==> has(sorted, e) || e == x by {
            if has(r, e) {
                let p = choose|p: int| 0 <= p < r.len() && r[p] == e;
                if p < sorted.len() {
                    assert(sorted[p] == e);
                }
            }
            if has(sorted, e) {
                let p = choose|p: int| 0 <= p < sorted.len() && sorted[p] == e;
                assert(r[p] == e);
            }
            if e == x {
                assert(r[r.len() - 1] == e);
            }
        }
        assert forall|i: int, j: int| 0 <= i < j < r.len() implies (#[trigger] r[i]).index <= (
        #[trigger] r[j]).index by {
            if j < sorted.len() {
                assert(r[i] == sorted[i] && r[j] == sorted[j]);
            } else {
                assert(r[i] == sorted[i]);
                if i < sorted.len() - 1 {
                    assert(sorted[i].index <= sorted[sorted.len() - 1].index);
                }
            }
        }
    } else {
        let init = sorted.drop_last();
        let last = sorted.last();
        assert forall|i: int, j: int| 0 <= i < j < init.len() implies (#[trigger] init[i]).index
            <= (#[trigger] init[j]).index by {
            assert(sorted[i].index <= sorted[j].index);
        }
        lemma_insert_sorted_keeps(init, x);
        let inner = insert_sorted(init, x);
        assert(r == inner.push(last));
        assert forall|e: Insertion| #[trigger] has(r, e) <==> has(sorted, e) || e == x by {
            if has(r, e) {
                let p = choose|p: int| 0 <= p < r.len() && r[p] == e;
                if p < inner.len() {
                    assert(inner[p] == e);
                    assert(has(inner, e));
                    if has(init, e) {
                        let q = choose|q: int| 0 <= q < init.len() && init[q] == e;
                        assert(sorted[q] == e);
                    }
                } else {
                    assert(sorted[sorted.len() - 1] == e);
                }
            }
            if has(sorted, e) {
                let p = choose|p: int| 0 <= p < sorted.len() && sorted[p] == e;
                if p < init.len() {
                    assert(init[p] == e);
                    assert(has(init, e));
                    assert(has(inner, e));
                    let q = choose|q: int| 0 <= q < inner.len() && inner[q] == e;
                    assert(r[q] == e);
                } else {
                    assert(r[r.len() - 1] == e);
                }
            }
            if e == x {
                assert(has(inner, e));
                let q = choose|q: int| 0 <= q < inner.len() && inner[q] == e;
                assert(r[q] == e);
            }
        }
        assert forall|i: int, j: int| 0 <= i < j < r.len() implies (#[trigger] r[i]).index <= (
        #[trigger] r[j]).index by {
            if j < inner.len() {
                assert(r[i] == inner[i] && r[j] == inner[j]);
            } else {
                assert(r[i] == inner[i]);
                assert(has(inner, inner[i]));
                if inner[i] != x {
                    assert(has(init, inner[i]));
                    let q = choose|q: int| 0 <= q < init.len() && init[q] == inner[i];
                    assert(sorted[q].index <= sorted[sorted.len() - 1].index);
                }
            }
        }
    }
}

/// Sorting the insertions keeps them all and nothing else, and puts them
/// in the order of their positions.
pub proof fn lemma_sort_insertions(s: Seq<Insertion>)
    ensures
        sort_insertions(s).len() == s.len(),
        forall|e: Insertion| #[trigger] has(sort_insertions(s), e) <==> has(s, e),
        forall|i: int, j: int|
            0 <= i < j < sort_insertions(s).len() ==> (#[trigger] sort_insertions(s)[i]).index <= (
            #[trigger] sort_insertions(s)[j]).index,
    decreases s.len(),
{
    if s.len() > 0 {
        let init = s.drop_last();
        lemma_sort_insertions(init);
        lemma_insert_sorted_keeps(sort_insertions(init), s.last());
        let r = sort_insertions(s);
        assert forall|e: Insertion| #[trigger] has(r, e) <==> has(s, e) by {
            if has(s, e) {
                let p = choose|p: int| 0 <= p < s.len() && s[p] == e;
                if p < init.len() {
                    assert(init[p] == e);
                    assert(has(init, e));
                }
            }
            if has(init, e) {
                let p = choose|p: int| 0 <= p < init.len() && init[p] == e;
                assert(s[p] == e);
            }
            if e == s.last() {
                assert(s[s.len() - 1] == e);
            }
        }
    } else {
        assert forall|e: Insertion| #[trigger] has(sort_insertions(s), e) <==> has(s, e) by {}
    }
}

/// Whether one of the positions of `targets` from the `k`-th on is `i`.
pub open spec fn holds_from(targets: Seq<int>, k: int, i: int) -> bool {
    exists|j: int| k <= j < targets.len() && #[trigger] targets[j] == i
}

/// Inserting at the targets, from the lowest up, the elements that `y`
/// holds there gives `y`.
pub proof fn lemma_apply(y: Seq<JsonView>, targets: Seq<int>, sorted: Seq<Insertion>, k: int)
    requires
        ascending(targets),
        within(targets, 0, y.len() as int),
        sorted.len() == targets.len(),
        forall|j: int|
            0 <= j < sorted.len() ==> (#[trigger] sorted[j]).index == targets[j] && sorted[j].value
                == y[targets[j]],
        0 <= k <= targets.len(),
    ensures
        apply_insertions(
            without(y, |i: int| holds_from(targets, k, i), y.len() as int),
            sorted,
            k,
        ) == Ok::<Seq<JsonView>, PatchFailure>(y),
    decreases targets.len() - k,
{
    let n = y.len() as int;
    let more = |i: int| holds_from(targets, k, i);
    if k == targets.len() {
        lemma_without_nothing(y, more, n);
        assert(y.subrange(0, n) =~= y);
    } else {
        let drop = |i: int| holds_from(targets, k + 1, i);
        let p = targets[k];
        assert forall|i: int| 0 <= i <= p implies !#[trigger] drop(i) by {
            if holds_from(targets, k + 1, i) {
                let j = choose|j: int| k + 1 <= j < targets.len() && #[trigger] targets[j] == i;
                assert(targets[k] < targets[j]);
            }
        }
        assert forall|i: int| 0 <= i < n implies #[trigger] more(i) == (drop(i) || i == p) by {
            if holds_from(targets, k, i) {
                let j = choose|j: int| k <= j < targets.len() && #[trigger] targets[j] == i;
                if j != k {
                    assert(holds_from(targets, k + 1, i));
                }
            }
            if i == p {
                assert(targets[k] == i);
            }
            if drop(i) {
                let j = choose|j: int| k + 1 <= j < targets.len() && #[trigger] targets[j] == i;
                assert(holds_from(targets, k, i));
            }
        }
        lemma_without_one_more(y, drop, more, n, p);
        let arr = without(y, more, n);
        assert(arr.insert(p, y[p]) == without(y, drop, n));
        assert(arr.len() >= p) by {
            assert(arr.insert(p, y[p]).len() == arr.len() + 1);
        }
        assert(sorted[k].index == p);
        lemma_apply(y, targets, sorted, k + 1);
    }
}

/// The positions of a list of insertions.
pub open spec fn indices(s: Seq<Insertion>) -> Seq<int> {
    Seq::new(s.len(), |k: int| s[k].index as int)
}

/// Where the operations take the sources out of `x` and fill the targets
/// of `y`, the removals and the insertions turn `x` into `y`.
pub proof fn lemma_rearranged(
    ops: Map<ArrayDeltaIndex, DeltaView>,
    x: Seq<JsonView>,
    y: Seq<JsonView>,
    sources: Seq<int>,
    targets: Seq<int>,
)
    requires
        rearranges(ops, x, y, sources, targets),
    ensures
        rearranged(x, ops) == Ok::<(Seq<JsonView>, Seq<usize>), PatchFailure>(
            (y, Seq::<usize>::empty()),
        ),
{
    let entries = sorted_entries(ops);
    lemma_sorted_entries(ops);
    lemma_collect(ops, x, y, sources, targets, 0);
    let state = collect_ops(entries, x, 0)->Ok_0;
    let n = x.len() as int;
    // what is left of x is what was there of y
    let taken = |i: int| taken_from(entries, 0, i);
    let in_sources = |i: int| holds(sources, i);
    assert forall|i: int| 0 <= i < n implies #[trigger] taken(i) == in_sources(i) by {
        if taken_from(entries, 0, i) {
            let j = choose|j: int|
                0 <= j < entries.len() && (#[trigger] entries[j]).0
                    == ArrayDeltaIndex::RemovedOrMoved(i as usize) && 0 <= i <= usize::MAX;
            assert(ops.contains_key(entries[j].0));
        }
        if holds(sources, i) {
            let key = ArrayDeltaIndex::RemovedOrMoved(i as usize);
            assert(ops.contains_key(key));
            let j = choose|j: int| 0 <= j < entries.len() && (#[trigger] entries[j]).0 == key;
            assert(0 <= i <= usize::MAX);
            assert(entries[j].0 == ArrayDeltaIndex::RemovedOrMoved(i as usize));
            assert(taken_from(entries, 0, i));
        }
    }
    lemma_without_ext(x, taken, in_sources, n);
    assert(state.arr == without(x, taken, n));
    assert(without(x, in_sources, n) == without(y, |i: int| holds(targets, i), y.len() as int));
    // the sorted insertions go to the targets, in order
    let sorted = sort_insertions(state.inserts);
    lemma_sort_insertions(state.inserts);
    let idx = indices(sorted);
    assert forall|p: int| 0 <= p < sorted.len() implies holds(
        targets,
        (#[trigger] sorted[p]).index as int,
    ) && sorted[p].value == y[sorted[p].index as int] by {
        assert(has(sorted, sorted[p]));
        assert(has(state.inserts, sorted[p]));
        let q = choose|q: int| 0 <= q < state.inserts.len() && state.inserts[q] == sorted[p];
        assert(put_from(x, entries, 0, state.inserts[q]));
        let j = choose|j: int|
            0 <= j < entries.len() && insertion_of(x, (#[trigger] entries[j]).0, entries[j].1)
                == Some(state.inserts[q]);
        assert(ops.contains_key(entries[j].0));
        assert(entries[j].1 == ops[entries[j].0]);
    }
    assert forall|p: int, q: int| 0 <= p < q < sorted.len() implies (#[trigger] sorted[p]).index < (
    #[trigger] sorted[q]).index by {
        assert(sorted[p].index <= sorted[q].index);
        if sorted[p].index == sorted[q].index {
            lemma_sorted_distinct(state.inserts, p, q);
        }
    }
    assert(ascending(idx));
    assert forall|v: int| idx.contains(v) <==> targets.contains(v) by {
        if idx.contains(v) {
            let p = choose|p: int| 0 <= p < idx.len() && idx[p] == v;
            assert(holds(targets, sorted[p].index as int));
        }
        if targets.contains(v) {
            assert(holds(targets, v));
            let key = choose|key: ArrayDeltaIndex| #[trigger]
                ops.contains_key(key) && insertion_of(x, key, ops[key]) is Some && insertion_of(
                    x,
                    key,
                    ops[key],
                )->0.index == v;
            let j = choose|j: int| 0 <= j < entries.len() && (#[trigger] entries[j]).0 == key;
            let e = insertion_of(x, entries[j].0, entries[j].1)->0;
            assert(state.inserts.contains(e));
            assert(has(state.inserts, e));
            assert(has(sorted, e));
            let p = choose|p: int| 0 <= p < sorted.len() && sorted[p] == e;
            assert(idx[p] == v);
        }
    }
    lemma_ascending_unique(idx, targets);
    assert forall|j: int| 0 <= j < sorted.len() implies (#[trigger] sorted[j]).index == targets[j]
        && sorted[j].value == y[targets[j]] by {
        assert(idx[j] == targets[j]);
    }
    lemma_apply(y, targets, sorted, 0);
    let from_start = |i: int| holds_from(targets, 0, i);
    let in_targets = |i: int| holds(targets, i);
    assert forall|i: int| 0 <= i < y.len() implies #[trigger] from_start(i) == in_targets(i) by {
        if holds_from(targets, 0, i) {
            let j = choose|j: int| 0 <= j < targets.len() && #[trigger] targets[j] == i;
        }
        if holds(targets, i) {
            let j = choose|j: int| 0 <= j < targets.len() && targets[j] == i;
            assert(holds_from(targets, 0, i));
        }
    }
    lemma_without_ext(y, from_start, in_targets, y.len() as int);
    assert(state.arr == without(y, from_start, y.len() as int));
    assert(apply_insertions(state.arr, sorted, 0) == Ok::<Seq<JsonView>, PatchFailure>(y));
}

/// Sorted insertions with distinct positions hold no position twice.
pub proof fn lemma_sorted_distinct(s: Seq<Insertion>, p: int, q: int)
    requires
        distinct_indices(s),
        0 <= p < q < sort_insertions(s).len(),
    ensures
        sort_insertions(s)[p].index != sort_insertions(s)[q].index,
{
    lemma_sort_distinct(s);
}

/// Sorting keeps the positions distinct.
pub proof fn lemma_sort_distinct(s: Seq<Insertion>)
    requires
        distinct_indices(s),
    ensures
        distinct_indices(sort_insertions(s)),
    decreases s.len(),
{
    if s.len() > 0 {
        let init = s.drop_last();
        assert(distinct_indices(init)) by {
            assert forall|p: int, q: int|
                0 <= p < init.len() && 0 <= q < init.len() && p != q implies (
            #[trigger] init[p]).index != (#[trigger] init[q]).index by {
                assert(s[p].index != s[q].index);
            }
        }
        lemma_sort_distinct(init);
        lemma_sort_insertions(init);
        let sorted = sort_insertions(init);
        assert forall|p: int| 0 <= p < sorted.len() implies (#[trigger] sorted[p]).index
            != s.last().index by {
            assert(has(sorted, sorted[p]));
            assert(has(init, sorted[p]));
            let q = choose|q: int| 0 <= q < init.len() && init[q] == sorted[p];
            assert(s[q].index != s[s.len() - 1].index);
        }
        lemma_insert_distinct(sorted, s.last());
    }
}

/// Putting an insertion whose position is new into a list with distinct
/// positions keeps them distinct.
pub proof fn lemma_insert_distinct(sorted: Seq<Insertion>, x: Insertion)
    requires
        distinct_indices(sorted),
        forall|p: int| 0 <= p < sorted.len() ==> (#[trigger] sorted[p]).index != x.index,
    ensures
        distinct_indices(insert_sorted(sorted, x)),
    decreases sorted.len(),
{
    let r = insert_sorted(sorted, x);
    if sorted.len() == 0 {
    } else if sorted.last().index <= x.index {
        assert forall|p: int, q: int| 0 <= p < r.len() && 0 <= q < r.len() && p != q implies (
        #[trigger] r[p]).index != (#[trigger] r[q]).index by {
            if p < sorted.len() {
                assert(r[p] == sorted[p]);
            }
            if q < sorted.len() {
                assert(r[q] == sorted[q]);
            }
        }
    } else {
        let init = sorted.drop_last();
        assert(distinct_indices(init)) by {
            assert forall|p: int, q: int|
                0 <= p < init.len() && 0 <= q < init.len() && p != q implies (
            #[trigger] init[p]).index != (#[trigger] init[q]).index by {
                assert(sorted[p].index != sorted[q].index);
            }
        }
        assert forall|p: int| 0 <= p < init.len() implies (#[trigger] init[p]).index != x.index by {
            assert(sorted[p].index != x.index);
        }
        lemma_insert_distinct(init, x);
        let inner = insert_sorted(init, x);
        assert(r == inner.push(sorted.last()));
        // what the inner list holds
        assert forall|p: int| 0 <= p < inner.len() implies (#[trigger] inner[p]).index
            != sorted.last().index by {
            lemma_inner_holds(init, x, p);
            if inner[p] != x {
                let q = choose|q: int| 0 <= q < init.len() && init[q] == inner[p];
                assert(sorted[q].index != sorted[sorted.len() - 1].index);
            } else {
                assert(sorted[sorted.len() - 1].index != x.index);
            }
        }
        assert forall|p: int, q: int| 0 <= p < r.len() && 0 <= q < r.len() && p != q implies (
        #[trigger] r[p]).index != (#[trigger] r[q]).index by {
            if p < inner.len() {
                assert(r[p] == inner[p]);
            }
            if q < inner.len() {
                assert(r[q] == inner[q]);
            }
        }
    }
}

/// An element of the list that an insertion was put into is the insertion
/// or was in the list.
pub proof fn lemma_inner_holds(sorted: Seq<Insertion>, x: Insertion, p: int)
    requires
        0 <= p < insert_sorted(sorted, x).len(),
    ensures
        insert_sorted(sorted, x)[p] == x || sorted.contains(insert_sorted(sorted, x)[p]),
    decreases sorted.len(),
{
    let r = insert_sorted(sorted, x);
    if sorted.len() == 0 {
    } else if sorted.last().index <= x.index {
        if p < sorted.len() {
            assert(sorted[p] == r[p]);
        }
    } else {
        let init = sorted.drop_last();
        let inner = insert_sorted(init, x);
        if p < inner.len() {
            lemma_inner_holds(init, x, p);
            if inner[p] != x {
                let q = choose|q: int| 0 <= q < init.len() && init[q] == inner[p];
                assert(sorted[q] == inner[p]);
            }
        } else {
            assert(sorted[sorted.len() - 1] == r[p]);
        }
    }
}

} // verus!
