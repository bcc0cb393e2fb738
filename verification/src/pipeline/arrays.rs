//! The diff of two arrays.

use crate::context::diff::DiffContext;
use crate::context::{ContextData, FilterContext};
use crate::decimal::{decimal, parse_decimal, parse_index, to_decimal};
use crate::errors::JsonDiffPatchError;
use crate::json::{lemma_views, lemma_views_subrange, views, Json};
use crate::proofs::sequences::begins_with;
use crate::lcs::{lcs_pairs, lemma_lcs_pairs, longest_common_subsequence, pairs_view};
use crate::semantics::diff::{
    array_delta, array_ops, array_parts, claim_moves, common_head, common_tail, first_fit,
    is_matched, ops_of_parts, unmatched,
};
use crate::types::{
    delta_ops, distinct_ops, has_op, lemma_delta_ops, op_index, ArrayDeltaIndex, Delta, DeltaView,
    Options,
};
use vstd::prelude::*;
use vstd::slice::slice_subrange;

verus! {

/// The positions of a vector, as mathematical integers.
pub open spec fn ints(v: Seq<usize>) -> Seq<int> {
    Seq::new(v.len(), |k: int| v[k] as int)
}

/// The claims of a vector, as mathematical integers.
pub open spec fn claims_view(v: Seq<Option<usize>>) -> Seq<Option<int>> {
    Seq::new(
        v.len(),
        |k: int|
            match v[k] {
                Some(j) => Some(j as int),
                None => None,
            },
    )
}

/// What `unmatched` holds: exactly the unmatched positions, raised by the
/// offset, in strictly rising order.
pub proof fn lemma_unmatched(pairs: Seq<(int, int)>, left: bool, len: int, offset: int)
    requires
        0 <= len,
    ensures
        unmatched(pairs, left, len, offset).len() <= len,
        forall|k: int|
            0 <= k < unmatched(pairs, left, len, offset).len() ==> offset <= (#[trigger] unmatched(
                pairs,
                left,
                len,
                offset,
            )[k]) < offset + len && !is_matched(
                pairs,
                left,
                unmatched(pairs, left, len, offset)[k] - offset,
            ),
        forall|k: int, l: int|
            0 <= k < l < unmatched(pairs, left, len, offset).len() ==> (#[trigger] unmatched(
                pairs,
                left,
                len,
                offset,
            )[k]) < (#[trigger] unmatched(pairs, left, len, offset)[l]),
        forall|x: int|
            offset <= x < offset + len && !is_matched(pairs, left, x - offset) ==> unmatched(
                pairs,
                left,
                len,
                offset,
            ).contains(x),
    decreases len,
{
    if len > 0 {
        lemma_unmatched(pairs, left, len - 1, offset);
        let init = unmatched(pairs, left, len - 1, offset);
        let all = unmatched(pairs, left, len, offset);
        if is_matched(pairs, left, len - 1) {
            assert(all == init);
            assert forall|x: int|
                offset <= x < offset + len && !is_matched(pairs, left, x - offset) implies all.contains(
                x,
            ) by {
                assert(x != len - 1 + offset);
                assert(init.contains(x));
            }
        } else {
            assert(all == init.push(len - 1 + offset));
            assert forall|x: int|
                offset <= x < offset + len && !is_matched(pairs, left, x - offset) implies all.contains(
                x,
            ) by {
                if x == len - 1 + offset {
                    assert(all[all.len() - 1] == x);
                } else {
                    assert(init.contains(x));
                    let k = choose|k: int| 0 <= k < init.len() && init[k] == x;
                    assert(all[k] == x);
                }
            }
        }
    }
}

/// The positions below `len` that no pair of `pairs` holds on the given
/// side, each raised by `offset`, in rising order.
pub fn unmatched_positions(pairs: &Vec<(usize, usize)>, left: bool, len: usize, offset: usize) -> (r:
    Vec<usize>)
    requires
        offset + len <= usize::MAX,
        forall|k: int, l: int|
            0 <= k < l < pairs@.len() ==> (#[trigger] pairs@[k]).0 < (#[trigger] pairs@[l]).0
                && pairs@[k].1 < pairs@[l].1,
    ensures
        ints(r@) == unmatched(pairs_view(pairs@), left, len as int, offset as int),
{
    let ghost pv = pairs_view(pairs@);
    let mut out: Vec<usize> = Vec::new();
    let mut p: usize = 0;
    let mut i: usize = 0;
    proof {
        assert(ints(out@) =~= unmatched(pv, left, 0, offset as int));
    }
    while i < len
        invariant
            0 <= i <= len,
            0 <= p <= pairs@.len(),
            offset + len <= usize::MAX,
            pv == pairs_view(pairs@),
            forall|k: int, l: int|
                0 <= k < l < pairs@.len() ==> (#[trigger] pairs@[k]).0 < (#[trigger] pairs@[l]).0
                    && pairs@[k].1 < pairs@[l].1,
            forall|k: int|
                0 <= k < p ==> (if left {
                    (#[trigger] pairs@[k]).0
                } else {
                    pairs@[k].1
                }) < i,
            forall|k: int|
                p <= k < pairs@.len() ==> (if left {
                    (#[trigger] pairs@[k]).0
                } else {
                    pairs@[k].1
                }) >= i,
            ints(out@) == unmatched(pv, left, i as int, offset as int),
        decreases len - i,
    {
        let hit = p < pairs.len() && (if left {
            pairs[p].0
        } else {
            pairs[p].1
        }) == i;
        proof {
            if hit {
                assert((if left {
                    pv[p as int].0
                } else {
                    pv[p as int].1
                }) == i);
                assert(is_matched(pv, left, i as int));
            } else {
                if is_matched(pv, left, i as int) {
                    let k = choose|k: int|
                        0 <= k < pv.len() && (if left {
                            (#[trigger] pv[k]).0
                        } else {
                            pv[k].1
                        }) == i;
                    assert((if left {
                        pairs@[k].0
                    } else {
                        pairs@[k].1
                    }) == i);
                    assert(k >= p);
                    if k > p {
                        assert(pairs@[p as int].0 < pairs@[k].0 && pairs@[p as int].1 < pairs@[k].1);
                    }
                    assert(false);
                }
            }
        }
        if hit {
            proof {
                assert forall|k: int| p + 1 <= k < pairs@.len() implies (if left {
                    (#[trigger] pairs@[k]).0
                } else {
                    pairs@[k].1
                }) >= i + 1 by {
                    assert(pairs@[p as int].0 < pairs@[k].0 && pairs@[p as int].1 < pairs@[k].1);
                }
            }
            p += 1;
        } else {
            let ghost before = ints(out@);
            out.push(i + offset);
            proof {
                assert(ints(out@) =~= before.push(i + offset));
            }
        }
        i += 1;
    }
    out
}

/// A context that a step of an array diff hands to the runtime: a pair of
/// equal values, one from each array, not yet worked on.
pub open spec fn is_pair_of(
    child: DiffContext,
    left: Seq<Json>,
    right: Seq<Json>,
    options: Options,
) -> bool {
    &&& child.context_data == (ContextData::<Delta> { result: None, exiting: false, options })
    &&& left.contains(*child.left)
    &&& right.contains(*child.right)
    &&& child.left@ == child.right@
}

/// A child that a step of an array diff hands to the runtime, under its
/// name: a pair of equal values, named by a position, in decimal, at which
/// the right array holds its right value.
pub open spec fn is_pair_entry(
    entry: (String, DiffContext),
    left: Seq<Json>,
    right: Seq<Json>,
    options: Options,
) -> bool {
    &&& is_pair_of(entry.1, left, right, options)
    &&& exists|j: int|
        0 <= j < right.len() && #[trigger] right[j] == *entry.1.right && entry.0@ == decimal(
            j as nat,
        )
}

/// The first removed position that no move has claimed and that holds a
/// value equal to `value`; the number of removed positions where there is
/// none.
fn find_first_fit(
    left: &[Json],
    value: &Json,
    removed: &Vec<usize>,
    claims: &Vec<Option<usize>>,
) -> (k: usize)
    requires
        value.wf(),
        forall|i: int| 0 <= i < left@.len() ==> (#[trigger] left@[i]).wf(),
        claims@.len() == removed@.len(),
        forall|i: int| 0 <= i < removed@.len() ==> (#[trigger] removed@[i]) < left@.len(),
    ensures
        k == first_fit(views(left@), value@, ints(removed@), claims_view(claims@), 0),
        k <= removed@.len(),
        k < removed@.len() ==> claims@[k as int] is None && left@[removed@[k as int] as int]@
            == value@,
{
    let ghost va = views(left@);
    proof {
        lemma_views(left@);
    }
    let mut k: usize = 0;
    while k < removed.len()
        invariant
            0 <= k <= removed@.len(),
            value.wf(),
            va == views(left@),
            va.len() == left@.len(),
            forall|i: int| 0 <= i < left@.len() ==> (#[trigger] va[i]) == left@[i]@,
            forall|i: int| 0 <= i < left@.len() ==> (#[trigger] left@[i]).wf(),
            claims@.len() == removed@.len(),
            forall|i: int| 0 <= i < removed@.len() ==> (#[trigger] removed@[i]) < left@.len(),
            first_fit(va, value@, ints(removed@), claims_view(claims@), 0) == first_fit(
                va,
                value@,
                ints(removed@),
                claims_view(claims@),
                k as int,
            ),
        decreases removed@.len() - k,
    {
        if claims[k].is_none() && left[removed[k]].equals(value) {
            return k;
        }
        k += 1;
    }
    k
}

/// Whether a move has claimed a removed position for the target `target`.
fn is_claimed(claims: &Vec<Option<usize>>, target: usize) -> (r: bool)
    ensures
        r == claims_view(claims@).contains(Some(target as int)),
{
    let mut k: usize = 0;
    while k < claims.len()
        invariant
            0 <= k <= claims@.len(),
            forall|i: int| 0 <= i < k ==> claims_view(claims@)[i] != Some(target as int),
        decreases claims@.len() - k,
    {
        match claims[k] {
            Some(j) => {
                if j == target {
                    assert(claims_view(claims@)[k as int] == Some(target as int));
                    return true;
                }
            },
            None => {},
        }
        k += 1;
    }
    false
}

/// Move detection: each target, in order, claims the first removed position
/// still free that holds an equal value. For each move a child context is
/// emitted, which pairs the value that moved with the value at its target.
fn detect_moves<'a>(
    left: &'a [Json],
    right: &'a [Json],
    removed: &Vec<usize>,
    targets: &Vec<usize>,
    options: Options,
    new_children_context: &mut Vec<(String, DiffContext<'a>)>,
) -> (claims: Vec<Option<usize>>)
    requires
        forall|i: int| 0 <= i < left@.len() ==> (#[trigger] left@[i]).wf(),
        forall|i: int| 0 <= i < right@.len() ==> (#[trigger] right@[i]).wf(),
        forall|i: int| 0 <= i < removed@.len() ==> (#[trigger] removed@[i]) < left@.len(),
        forall|i: int| 0 <= i < targets@.len() ==> (#[trigger] targets@[i]) < right@.len(),
        forall|i: int|
            0 <= i < old(new_children_context)@.len() ==> is_pair_entry(
                #[trigger] old(new_children_context)@[i],
                left@,
                right@,
                options,
            ),
    ensures
        claims@.len() == removed@.len(),
        claims_view(claims@) == (if options.spec_detect_move() {
            claim_moves(
                views(left@),
                views(right@),
                ints(removed@),
                ints(targets@),
                Seq::new(removed@.len(), |k: int| None::<int>),
                0,
            )
        } else {
            Seq::new(removed@.len(), |k: int| None::<int>)
        }),
        forall|i: int|
            0 <= i < final(new_children_context)@.len() ==> is_pair_entry(
                #[trigger] final(new_children_context)@[i],
                left@,
                right@,
                options,
            ),
{
    let ghost va = views(left@);
    let ghost vb = views(right@);
    let ghost free = Seq::new(removed@.len(), |k: int| None::<int>);
    proof {
        lemma_views(left@);
        lemma_views(right@);
    }
    let mut claims: Vec<Option<usize>> = Vec::new();
    let mut k: usize = 0;
    while k < removed.len()
        invariant
            0 <= k <= removed@.len(),
            claims@.len() == k,
            forall|i: int| 0 <= i < k ==> (#[trigger] claims@[i]) is None,
        decreases removed@.len() - k,
    {
        claims.push(None);
        k += 1;
    }
    assert(claims_view(claims@) =~= free);
    if !options.detect_move() {
        return claims;
    }
    let mut p: usize = 0;
    while p < targets.len()
        invariant
            0 <= p <= targets@.len(),
            va == views(left@),
            vb == views(right@),
            va.len() == left@.len(),
            vb.len() == right@.len(),
            forall|i: int| 0 <= i < left@.len() ==> (#[trigger] va[i]) == left@[i]@,
            forall|i: int| 0 <= i < right@.len() ==> (#[trigger] vb[i]) == right@[i]@,
            forall|i: int| 0 <= i < left@.len() ==> (#[trigger] left@[i]).wf(),
            forall|i: int| 0 <= i < right@.len() ==> (#[trigger] right@[i]).wf(),
            forall|i: int| 0 <= i < removed@.len() ==> (#[trigger] removed@[i]) < left@.len(),
            forall|i: int| 0 <= i < targets@.len() ==> (#[trigger] targets@[i]) < right@.len(),
            claims@.len() == removed@.len(),
            claim_moves(va, vb, ints(removed@), ints(targets@), free, 0) == claim_moves(
                va,
                vb,
                ints(removed@),
                ints(targets@),
                claims_view(claims@),
                p as int,
            ),
            forall|i: int|
                0 <= i < new_children_context@.len() ==> is_pair_entry(
                #[trigger] new_children_context@[i],
                    left@,
                    right@,
                    options,
                ),
        decreases targets@.len() - p,
    {
        let target = targets[p];
        let k = find_first_fit(left, &right[target], removed, &claims);
        if k < removed.len() {
            let ghost before = claims_view(claims@);
            let ghost children_before = new_children_context@;
            claims.set(k, Some(target));
            proof {
                assert(claims_view(claims@) =~= before.update(k as int, Some(target as int)));
                assert(ints(targets@)[p as int] == target);
            }
            let source = removed[k];
            let child = DiffContext::new(&left[source], &right[target], options);
            proof {
                assert(left@[source as int] == *child.left);
                assert(right@[target as int] == *child.right);
                assert(is_pair_of(child, left@, right@, options));
            }
            new_children_context.push((to_decimal(target), child));
            proof {
                let pushed = new_children_context@[new_children_context@.len() - 1];
                assert(right@[target as int] == *pushed.1.right && pushed.0@ == decimal(
                    target as nat,
                ));
                assert(is_pair_entry(pushed, left@, right@, options));
                assert forall|i: int| 0 <= i < new_children_context@.len() implies is_pair_entry(
                #[trigger] new_children_context@[i],
                    left@,
                    right@,
                    options,
                ) by {
                    if i < children_before.len() {
                        assert(new_children_context@[i] == children_before[i]);
                    }
                }
            }
        } else {
            proof {
                assert(ints(targets@)[p as int] == target);
            }
        }
        p += 1;
    }
    claims
}

/// Whether operations are listed in the order of their keys: those on
/// positions of the old array first, then those on positions of the new
/// array, each kind from the lowest position up.
pub open spec fn in_key_order(ops: Seq<(ArrayDeltaIndex, Delta)>) -> bool {
    forall|i: int, j: int|
        0 <= i < j < ops.len() ==> (#[trigger] ops[i]).0.spec_lt((#[trigger] ops[j]).0)
}

/// The operations of an array delta, from what drops out of `left`, what
/// comes into `right` and what moves. They are listed in the order of their
/// keys.
fn build_changes(
    left: &[Json],
    right: &[Json],
    removed: &Vec<usize>,
    targets: &Vec<usize>,
    claims: &Vec<Option<usize>>,
    options: Options,
) -> (changes: Vec<(ArrayDeltaIndex, Delta)>)
    requires
        forall|i: int| 0 <= i < left@.len() ==> (#[trigger] left@[i]).wf(),
        forall|i: int| 0 <= i < right@.len() ==> (#[trigger] right@[i]).wf(),
        forall|i: int| 0 <= i < removed@.len() ==> (#[trigger] removed@[i]) < left@.len(),
        forall|i: int| 0 <= i < targets@.len() ==> (#[trigger] targets@[i]) < right@.len(),
        forall|i: int, j: int|
            0 <= i < j < removed@.len() ==> (#[trigger] removed@[i]) < (#[trigger] removed@[j]),
        forall|i: int, j: int|
            0 <= i < j < targets@.len() ==> (#[trigger] targets@[i]) < (#[trigger] targets@[j]),
        claims@.len() == removed@.len(),
    ensures
        delta_ops(changes@) == ops_of_parts(
            views(left@),
            views(right@),
            ints(removed@),
            ints(targets@),
            claims_view(claims@),
            options,
        ),
        distinct_ops(changes@),
        in_key_order(changes@),
        forall|i: int| 0 <= i < changes@.len() ==> (#[trigger] changes@[i]).1.wf(),
        changes@.len() >= removed@.len(),
        changes@.len() == 0 ==> removed@.len() == 0 && forall|q: int|
            0 <= q < targets@.len() ==> claims_view(claims@).contains(
                Some((#[trigger] targets@[q]) as int),
            ),
{
    let ghost va = views(left@);
    let ghost vb = views(right@);
    let ghost rem = ints(removed@);
    let ghost tgt = ints(targets@);
    let ghost cl = claims_view(claims@);
    let ghost spec_ops = ops_of_parts(va, vb, rem, tgt, cl, options);
    proof {
        lemma_views(left@);
        lemma_views(right@);
    }
    let mut changes: Vec<(ArrayDeltaIndex, Delta)> = Vec::new();
    let mut k: usize = 0;
    while k < removed.len()
        invariant
            0 <= k <= removed@.len(),
            va == views(left@),
            va.len() == left@.len(),
            rem == ints(removed@),
            tgt == ints(targets@),
            cl == claims_view(claims@),
            spec_ops == ops_of_parts(va, vb, rem, tgt, cl, options),
            claims@.len() == removed@.len(),
            forall|i: int| 0 <= i < left@.len() ==> (#[trigger] va[i]) == left@[i]@,
            forall|i: int| 0 <= i < left@.len() ==> (#[trigger] left@[i]).wf(),
            forall|i: int| 0 <= i < removed@.len() ==> (#[trigger] removed@[i]) < left@.len(),
            forall|i: int, j: int|
                0 <= i < j < removed@.len() ==> (#[trigger] removed@[i]) < (#[trigger] removed@[j]),
            changes@.len() == k,
            forall|i: int|
                0 <= i < k ==> (#[trigger] changes@[i]).0 == ArrayDeltaIndex::RemovedOrMoved(
                    removed@[i],
                ),
            forall|i: int|
                0 <= i < k ==> spec_ops.contains_key((#[trigger] changes@[i]).0) && spec_ops[changes@[i].0]
                    == changes@[i].1@ && changes@[i].1.wf(),
        decreases removed@.len() - k,
    {
        let source = removed[k];
        let ghost key = ArrayDeltaIndex::RemovedOrMoved(source);
        proof {
            assert(rem[k as int] == source);
            assert(rem.contains(source as int));
            let found = rem.index_of(source as int);
            assert(0 <= found < rem.len() && rem[found] == source);
            assert(removed@[found] == removed@[k as int]);
            assert(found == k);
            assert(spec_ops.contains_key(key));
            assert(left@[source as int].wf());
        }
        let change = match claims[k] {
            Some(target) => {
                let moved_value = if options.include_value_on_move()
                    && !options.omit_removed_values() {
                    Some(left[source].clone())
                } else {
                    None
                };
                Delta::Moved { moved_value, new_index: target }
            },
            None => {
                if options.omit_removed_values() {
                    Delta::Deleted(Json::Null)
                } else {
                    Delta::Deleted(left[source].clone())
                }
            },
        };
        proof {
            assert(cl[k as int] == match claims@[k as int] {
                Some(j) => Some(j as int),
                None => None,
            });
            assert(spec_ops[key] == change@);
        }
        changes.push((ArrayDeltaIndex::RemovedOrMoved(source), change));
        k += 1;
    }
    let ghost mut origins: Seq<int> = Seq::empty();
    let mut q: usize = 0;
    while q < targets.len()
        invariant
            0 <= q <= targets@.len(),
            vb == views(right@),
            vb.len() == right@.len(),
            rem == ints(removed@),
            tgt == ints(targets@),
            cl == claims_view(claims@),
            spec_ops == ops_of_parts(va, vb, rem, tgt, cl, options),
            forall|i: int| 0 <= i < right@.len() ==> (#[trigger] vb[i]) == right@[i]@,
            forall|i: int| 0 <= i < right@.len() ==> (#[trigger] right@[i]).wf(),
            forall|i: int| 0 <= i < targets@.len() ==> (#[trigger] targets@[i]) < right@.len(),
            forall|i: int, j: int|
                0 <= i < j < targets@.len() ==> (#[trigger] targets@[i]) < (#[trigger] targets@[j]),
            forall|i: int, j: int|
                0 <= i < j < removed@.len() ==> (#[trigger] removed@[i]) < (#[trigger] removed@[j]),
            changes@.len() == removed@.len() + origins.len(),
            forall|i: int|
                0 <= i < removed@.len() ==> (#[trigger] changes@[i]).0
                    == ArrayDeltaIndex::RemovedOrMoved(removed@[i]),
            forall|i: int|
                0 <= i < origins.len() ==> 0 <= (#[trigger] origins[i]) < q && changes@[removed@.len()
                    + i].0 == ArrayDeltaIndex::NewOrModified(targets@[origins[i]]),
            forall|i: int, j: int|
                0 <= i < j < origins.len() ==> (#[trigger] origins[i]) < (#[trigger] origins[j]),
            forall|i: int|
                0 <= i < changes@.len() ==> spec_ops.contains_key((#[trigger] changes@[i]).0)
                    && spec_ops[changes@[i].0] == changes@[i].1@ && changes@[i].1.wf(),
            forall|p: int|
                0 <= p < q && !cl.contains(Some(targets@[p] as int)) ==> has_op(
                    changes@,
                    ArrayDeltaIndex::NewOrModified(#[trigger] targets@[p]),
                ),
        decreases targets@.len() - q,
    {
        let target = targets[q];
        if !is_claimed(claims, target) {
            let ghost key = ArrayDeltaIndex::NewOrModified(target);
            let ghost before = changes@;
            proof {
                assert(tgt[q as int] == target);
                assert(tgt.contains(target as int));
                assert(spec_ops.contains_key(key));
                assert(right@[target as int].wf());
            }
            changes.push((ArrayDeltaIndex::NewOrModified(target), Delta::added_ref(&right[target])));
            proof {
                origins = origins.push(q as int);
                assert forall|p: int|
                    0 <= p < q + 1 && !cl.contains(Some(targets@[p] as int)) implies has_op(
                    changes@,
                    ArrayDeltaIndex::NewOrModified(#[trigger] targets@[p]),
                ) by {
                    if p < q {
                        let idx = op_index(before, ArrayDeltaIndex::NewOrModified(targets@[p]));
                        assert(changes@[idx] == before[idx]);
                    } else {
                        assert(changes@[changes@.len() - 1].0 == key);
                    }
                }
                assert forall|i: int|
                    0 <= i < changes@.len() implies spec_ops.contains_key((#[trigger] changes@[i]).0)
                    && spec_ops[changes@[i].0] == changes@[i].1@ && changes@[i].1.wf() by {
                    if i < before.len() {
                        assert(changes@[i] == before[i]);
                    }
                }
                assert forall|i: int| 0 <= i < removed@.len() implies (#[trigger] changes@[i]).0
                    == ArrayDeltaIndex::RemovedOrMoved(removed@[i]) by {
                    assert(changes@[i] == before[i]);
                }
                assert forall|i: int| 0 <= i < origins.len() implies 0 <= (#[trigger] origins[i]) < q
                    + 1 && changes@[removed@.len() + i].0 == ArrayDeltaIndex::NewOrModified(
                    targets@[origins[i]],
                ) by {
                    if i < origins.len() - 1 {
                        assert(changes@[removed@.len() + i] == before[removed@.len() + i]);
                    }
                }
            }
        }
        q += 1;
    }
    proof {
        assert(distinct_ops(changes@)) by {
            assert forall|i: int, j: int|
                0 <= i < changes@.len() && 0 <= j < changes@.len() && i != j implies (
            #[trigger] changes@[i]).0 != (#[trigger] changes@[j]).0 by {
                let r = removed@.len() as int;
                if i < r && j < r {
                    if i < j {
                        assert(removed@[i] < removed@[j]);
                    } else {
                        assert(removed@[j] < removed@[i]);
                    }
                } else if i >= r && j >= r {
                    let oi = origins[i - r];
                    let oj = origins[j - r];
                    assert(changes@[r + (i - r)].0 == ArrayDeltaIndex::NewOrModified(targets@[oi]));
                    assert(changes@[r + (j - r)].0 == ArrayDeltaIndex::NewOrModified(targets@[oj]));
                    if i < j {
                        assert(origins[i - r] < origins[j - r]);
                        assert(targets@[oi] < targets@[oj]);
                    } else {
                        assert(origins[j - r] < origins[i - r]);
                        assert(targets@[oj] < targets@[oi]);
                    }
                } else if i < r {
                    assert(changes@[r + (j - r)].0 == ArrayDeltaIndex::NewOrModified(
                        targets@[origins[j - r]],
                    ));
                } else {
                    assert(changes@[r + (i - r)].0 == ArrayDeltaIndex::NewOrModified(
                        targets@[origins[i - r]],
                    ));
                }
            }
        }
        assert(in_key_order(changes@)) by {
            assert forall|i: int, j: int| 0 <= i < j < changes@.len() implies (
            #[trigger] changes@[i]).0.spec_lt((#[trigger] changes@[j]).0) by {
                let r = removed@.len() as int;
                if j < r {
                    assert(removed@[i] < removed@[j]);
                } else if i >= r {
                    let oi = origins[i - r];
                    let oj = origins[j - r];
                    assert(changes@[r + (i - r)].0 == ArrayDeltaIndex::NewOrModified(targets@[oi]));
                    assert(changes@[r + (j - r)].0 == ArrayDeltaIndex::NewOrModified(targets@[oj]));
                    assert(origins[i - r] < origins[j - r]);
                    assert(targets@[oi] < targets@[oj]);
                } else {
                    assert(changes@[r + (j - r)].0 == ArrayDeltaIndex::NewOrModified(
                        targets@[origins[j - r]],
                    ));
                }
            }
        }
        lemma_delta_ops(changes@);
        let made = delta_ops(changes@);
        assert forall|key: ArrayDeltaIndex| made.contains_key(key) <==> spec_ops.contains_key(
            key,
        ) by {
            if made.contains_key(key) {
                let idx = op_index(changes@, key);
                assert(spec_ops.contains_key(changes@[idx].0));
            }
            if spec_ops.contains_key(key) {
                match key {
                    ArrayDeltaIndex::RemovedOrMoved(i) => {
                        let k = rem.index_of(i as int);
                        assert(0 <= k < rem.len() && rem[k] == i);
                        assert(changes@[k].0 == key);
                    },
                    ArrayDeltaIndex::NewOrModified(j) => {
                        let p = tgt.index_of(j as int);
                        assert(0 <= p < tgt.len() && tgt[p] == j);
                        assert(targets@[p] == j);
                        assert(has_op(changes@, ArrayDeltaIndex::NewOrModified(targets@[p])));
                    },
                }
            }
        }
        assert forall|key: ArrayDeltaIndex| made.contains_key(key) implies made[key]
            == spec_ops[key] by {
            let idx = op_index(changes@, key);
            assert(made[changes@[idx].0] == changes@[idx].1@);
        }
        assert(made =~= spec_ops);
        if changes@.len() == 0 {
            assert forall|p: int| 0 <= p < targets@.len() implies cl.contains(
                Some((#[trigger] targets@[p]) as int),
            ) by {
                if !cl.contains(Some(targets@[p] as int)) {
                    assert(has_op(changes@, ArrayDeltaIndex::NewOrModified(targets@[p])));
                }
            }
        }
    }
    changes
}

/// The first step of the diff of two arrays.
///
/// The common head and the common tail are set aside. Of what lies between,
/// a longest common subsequence stays in place; every other element of
/// `left` is deleted, every other element of `right` added, and a deletion
/// and an addition of equal values become one move where the options have
/// moves detected. The delta is stored in the context, unless the arrays
/// are equal, and the exit flag is raised. Its operations are listed in the
/// order of their keys.
///
/// For each pair of the common head and tail and for each move a child
/// context is emitted, behind the children that the list holds already. The
/// two values of each child are equal, so that no child will yield a
/// change.
pub fn process_arrays_diff<'a>(
    context: &mut DiffContext<'a>,
    left: &'a [Json],
    right: &'a [Json],
    new_children_context: &mut Vec<(String, DiffContext<'a>)>,
) -> (r: Result<(), JsonDiffPatchError>)
    requires
        old(context).context_data.result is None,
        forall|i: int| 0 <= i < left@.len() ==> (#[trigger] left@[i]).wf(),
        forall|i: int| 0 <= i < right@.len() ==> (#[trigger] right@[i]).wf(),
    ensures
        r is Ok,
        final(context).left == old(context).left,
        final(context).right == old(context).right,
        final(context).context_data.options == old(context).context_data.options,
        final(context).context_data.exiting,
        match array_delta(views(left@), views(right@), old(context).context_data.options) {
            DeltaView::Unchanged => final(context).context_data.result is None,
            d => final(context).context_data.result matches Some(found) && found@ == d
                && found.wf(),
        },
        in_key_order(held_ops(final(context).context_data.result)),
        begins_with(final(new_children_context)@, old(new_children_context)@),
        forall|i: int|
            old(new_children_context)@.len() <= i < final(new_children_context)@.len()
                ==> is_pair_entry(
                #[trigger] final(new_children_context)@[i],
                left@,
                right@,
                old(context).context_data.options,
            ),
{
    let mut emitted: Vec<(String, DiffContext<'a>)> = Vec::new();
    let ghost held = new_children_context@;
    let options = *context.options();
    let n = left.len();
    let m = right.len();
    let ghost va = views(left@);
    let ghost vb = views(right@);
    proof {
        lemma_views(left@);
        lemma_views(right@);
    }
    // the common head
    let mut head: usize = 0;
    let mut more = n > 0 && m > 0 && left[0].equals(&right[0]);
    while more
        invariant
            0 <= head <= n,
            head <= m,
            n == left@.len(),
            m == right@.len(),
            va == views(left@),
            vb == views(right@),
            va.len() == n,
            vb.len() == m,
            forall|i: int| 0 <= i < left@.len() ==> (#[trigger] va[i]) == left@[i]@,
            forall|i: int| 0 <= i < right@.len() ==> (#[trigger] vb[i]) == right@[i]@,
            forall|i: int| 0 <= i < left@.len() ==> (#[trigger] left@[i]).wf(),
            forall|i: int| 0 <= i < right@.len() ==> (#[trigger] right@[i]).wf(),
            more <==> head < n && head < m && va[head as int] == vb[head as int],
            common_head(va, vb, 0) == common_head(va, vb, head as int),
            forall|i: int| 0 <= i < head ==> #[trigger] va[i] == vb[i],
            forall|i: int|
                0 <= i < emitted@.len() ==> is_pair_entry(
                #[trigger] emitted@[i],
                    left@,
                    right@,
                    options,
                ),
        decreases n - head,
    {
        let ghost children_before = emitted@;
        let child = DiffContext::new(&left[head], &right[head], options);
        proof {
            assert(left@[head as int] == *child.left);
            assert(right@[head as int] == *child.right);
        }
        emitted.push((to_decimal(head), child));
        proof {
            let pushed = emitted@[emitted@.len() - 1];
            assert(right@[head as int] == *pushed.1.right && pushed.0@ == decimal(head as nat));
            assert(is_pair_entry(pushed, left@, right@, options));
            assert forall|i: int| 0 <= i < emitted@.len() implies is_pair_entry(
                #[trigger] emitted@[i],
                left@,
                right@,
                options,
            ) by {
                if i < children_before.len() {
                    assert(emitted@[i] == children_before[i]);
                }
            }
        }
        head += 1;
        more = head < n && head < m && left[head].equals(&right[head]);
    }
    // the common tail
    let mut tail: usize = 0;
    let mut more = head < n && head < m && left[n - 1].equals(&right[m - 1]);
    while more
        invariant
            0 <= head <= n,
            head <= m,
            0 <= tail,
            tail + head <= n,
            tail + head <= m,
            n == left@.len(),
            m == right@.len(),
            va == views(left@),
            vb == views(right@),
            va.len() == n,
            vb.len() == m,
            forall|i: int| 0 <= i < left@.len() ==> (#[trigger] va[i]) == left@[i]@,
            forall|i: int| 0 <= i < right@.len() ==> (#[trigger] vb[i]) == right@[i]@,
            forall|i: int| 0 <= i < left@.len() ==> (#[trigger] left@[i]).wf(),
            forall|i: int| 0 <= i < right@.len() ==> (#[trigger] right@[i]).wf(),
            more <==> tail + head < n && tail + head < m && va[n - 1 - tail] == vb[m - 1 - tail],
            common_tail(va, vb, head as int, 0) == common_tail(va, vb, head as int, tail as int),
            forall|i: int| 0 <= i < tail ==> #[trigger] va[n - 1 - i] == vb[m - 1 - i],
            forall|i: int|
                0 <= i < emitted@.len() ==> is_pair_entry(
                #[trigger] emitted@[i],
                    left@,
                    right@,
                    options,
                ),
        decreases n - tail,
    {
        let index1 = n - 1 - tail;
        let index2 = m - 1 - tail;
        let ghost children_before = emitted@;
        let child = DiffContext::new(&left[index1], &right[index2], options);
        proof {
            assert(left@[index1 as int] == *child.left);
            assert(right@[index2 as int] == *child.right);
        }
        emitted.push((to_decimal(index2), child));
        proof {
            let pushed = emitted@[emitted@.len() - 1];
            assert(right@[index2 as int] == *pushed.1.right && pushed.0@ == decimal(index2 as nat));
            assert(is_pair_entry(pushed, left@, right@, options));
            assert forall|i: int| 0 <= i < emitted@.len() implies is_pair_entry(
                #[trigger] emitted@[i],
                left@,
                right@,
                options,
            ) by {
                if i < children_before.len() {
                    assert(emitted@[i] == children_before[i]);
                }
            }
        }
        tail += 1;
        more = tail + head < n && tail + head < m && left[n - 1 - tail].equals(
            &right[m - 1 - tail],
        );
    }
    let ghost parts = array_parts(va, vb, options);
    assert(parts.head == head);
    assert(parts.tail == tail);
    if head + tail == n && n == m {
        // the arrays are equal
        proof {
            assert forall|i: int| 0 <= i < n implies va[i] == vb[i] by {
                if i >= head {
                    assert(va[n - 1 - (n - 1 - i)] == vb[m - 1 - (n - 1 - i)]);
                }
            }
            assert(va =~= vb);
        }
        context.set_result(Delta::Unchanged).exit();
        let ghost handed = emitted@;
        new_children_context.append(&mut emitted);
        proof {
            assert(new_children_context@.subrange(0, held.len() as int) =~= held);
            assert forall|i: int| held.len() <= i < new_children_context@.len() implies is_pair_entry(
                #[trigger] new_children_context@[i],
                left@,
                right@,
                options,
            ) by {
                assert(new_children_context@[i] == handed[i - held.len()]);
            }
        }
        return Ok(());
    }
    proof {
        if n == m {
            assert(va[head as int] != vb[head as int]);
        }
        assert(va != vb);
    }
    // what lies between the head and the tail
    let mid_left = slice_subrange(left, head, n - tail);
    let mid_right = slice_subrange(right, head, m - tail);
    proof {
        lemma_views_subrange(left@, head as int, n - tail);
        lemma_views_subrange(right@, head as int, m - tail);
        assert forall|i: int| 0 <= i < mid_left@.len() implies (#[trigger] mid_left@[i]).wf() by {
            assert(mid_left@[i] == left@[head + i]);
        }
        assert forall|i: int| 0 <= i < mid_right@.len() implies (#[trigger] mid_right@[i]).wf() by {
            assert(mid_right@[i] == right@[head + i]);
        }
    }
    let pairs = longest_common_subsequence(mid_left, mid_right);
    let ghost mid_a = va.subrange(head as int, n - tail);
    let ghost mid_b = vb.subrange(head as int, m - tail);
    let ghost pv = pairs_view(pairs@);
    proof {
        assert(pv == lcs_pairs(mid_a, mid_b, 0, 0));
        lemma_lcs_pairs(mid_a, mid_b, 0, 0);
        assert forall|k: int, l: int| 0 <= k < l < pairs@.len() implies (#[trigger] pairs@[k]).0 < (
        #[trigger] pairs@[l]).0 && pairs@[k].1 < pairs@[l].1 by {
            assert(pv[k].0 < pv[l].0 && pv[k].1 < pv[l].1);
        }
    }
    let removed = unmatched_positions(&pairs, true, n - tail - head, head);
    let targets = unmatched_positions(&pairs, false, m - tail - head, head);
    proof {
        lemma_unmatched(pv, true, n - tail - head, head as int);
        lemma_unmatched(pv, false, m - tail - head, head as int);
        assert(ints(removed@) == parts.removed);
        assert(ints(targets@) == parts.targets);
        assert forall|i: int| 0 <= i < removed@.len() implies (#[trigger] removed@[i]) < left@.len() by {
            assert(ints(removed@)[i] == removed@[i]);
        }
        assert forall|i: int| 0 <= i < targets@.len() implies (#[trigger] targets@[i]) < right@.len() by {
            assert(ints(targets@)[i] == targets@[i]);
        }
        assert forall|i: int, j: int| 0 <= i < j < removed@.len() implies (#[trigger] removed@[i]) < (
        #[trigger] removed@[j]) by {
            assert(ints(removed@)[i] < ints(removed@)[j]);
        }
        assert forall|i: int, j: int| 0 <= i < j < targets@.len() implies (#[trigger] targets@[i]) < (
        #[trigger] targets@[j]) by {
            assert(ints(targets@)[i] < ints(targets@)[j]);
        }
    }
    let claims = detect_moves(left, right, &removed, &targets, options, &mut emitted);
    proof {
        assert(Seq::new(removed@.len(), |k: int| None::<int>) =~= Seq::new(
            parts.removed.len(),
            |k: int| None::<int>,
        ));
        assert(claims_view(claims@) == parts.claims);
    }
    let changes = build_changes(left, right, &removed, &targets, &claims, options);
    let delta = Delta::Array(changes);
    proof {
        assert(delta@ == DeltaView::Array(array_ops(va, vb, options)));
        assert(delta.wf());
    }
    context.set_result(delta).exit();
    let ghost handed = emitted@;
    new_children_context.append(&mut emitted);
    proof {
        assert(new_children_context@.subrange(0, held.len() as int) =~= held);
        assert forall|i: int| held.len() <= i < new_children_context@.len() implies is_pair_entry(
            #[trigger] new_children_context@[i],
            left@,
            right@,
            options,
        ) by {
            assert(new_children_context@[i] == handed[i - held.len()]);
        }
    }
    Ok(())
}

/// The position that the name of a child stands for; zero where the name
/// is no position.
pub open spec fn index_of_name(name: Seq<char>) -> usize {
    match parse_decimal(name) {
        Some(n) => if n <= usize::MAX {
            n as usize
        } else {
            0
        },
        None => 0,
    }
}

/// The changes that the children of an array step yielded: for each child
/// that holds a result, in order, that result under the key of the new
/// position that the child is named after.
pub open spec fn child_changes(children: Seq<(String, DiffContext)>) -> Seq<
    (ArrayDeltaIndex, Delta),
>
    decreases children.len(),
{
    if children.len() == 0 {
        Seq::empty()
    } else {
        let init = child_changes(children.drop_last());
        let last = children.last();
        match last.1.context_data.result {
            Some(d) => init.push((ArrayDeltaIndex::NewOrModified(index_of_name(last.0@)), d)),
            None => init,
        }
    }
}

/// Children without results yield no changes.
pub proof fn lemma_no_child_changes(children: Seq<(String, DiffContext)>)
    requires
        forall|i: int| 0 <= i < children.len() ==> (#[trigger] children[i]).1.context_data.result is None,
    ensures
        child_changes(children).len() == 0,
    decreases children.len(),
{
    if children.len() > 0 {
        let init = children.drop_last();
        assert forall|i: int| 0 <= i < init.len() implies (#[trigger] init[i]).1.context_data.result is None by {
            assert(init[i] == children[i]);
        }
        lemma_no_child_changes(init);
        assert(children.last() == children[children.len() - 1]);
    }
}

/// The operations that a result slot holds, where it holds an array delta.
pub open spec fn held_ops(result: Option<Delta>) -> Seq<(ArrayDeltaIndex, Delta)> {
    match result {
        Some(Delta::Array(ops)) => ops@,
        _ => Seq::empty(),
    }
}

/// The step of the diff of two arrays that follows the children.
///
/// The results of the children are taken out of them. Each is added to the
/// array delta of the context, after the operations that it holds, under the
/// key of the new position that the child is named after. Where no child
/// holds a result, the context stays as it is.
pub fn post_process_arrays_diff<'a>(
    context: &mut DiffContext<'a>,
    children_context: &mut Vec<(String, DiffContext<'a>)>,
) -> (r: Result<(), JsonDiffPatchError>)
    ensures
        r is Ok,
        final(context).left == old(context).left,
        final(context).right == old(context).right,
        final(context).context_data.options == old(context).context_data.options,
        child_changes(old(children_context)@).len() == 0 ==> *final(context) == *old(context),
        child_changes(old(children_context)@).len() > 0 ==> final(context).context_data.exiting,
        child_changes(old(children_context)@).len() > 0 ==> held_ops(
            final(context).context_data.result,
        ) == held_ops(old(context).context_data.result) + child_changes(old(children_context)@)
            && final(context).context_data.result is Some
            && final(context).context_data.result->0 is Array,
        final(children_context)@.len() == old(children_context)@.len(),
        forall|i: int|
            0 <= i < old(children_context)@.len() ==> (#[trigger] final(children_context)@[i]).0
                == old(children_context)@[i].0 && final(children_context)@[i].1
                == old(children_context)@[i].1.with_data(
                ContextData { result: None, ..old(children_context)@[i].1.context_data },
            ),
{
    let ghost given = children_context@;
    let n = children_context.len();
    let mut array_changes: Vec<(ArrayDeltaIndex, Delta)> = Vec::new();
    let mut i: usize = 0;
    proof {
        assert(given.subrange(0, 0) =~= Seq::empty());
    }
    while i < n
        invariant
            0 <= i <= n,
            n == given.len(),
            children_context@.len() == n,
            forall|j: int| i <= j < n ==> #[trigger] children_context@[j] == given[j],
            forall|j: int|
                0 <= j < i ==> (#[trigger] children_context@[j]).0 == given[j].0
                    && children_context@[j].1 == given[j].1.with_data(
                    ContextData { result: None, ..given[j].1.context_data },
                ),
            array_changes@ == child_changes(given.subrange(0, i as int)),
        decreases n - i,
    {
        proof {
            assert(children_context@[i as int] == given[i as int]);
            assert(given.subrange(0, i + 1).drop_last() =~= given.subrange(0, i as int));
            assert(given.subrange(0, i + 1).last() == given[i as int]);
        }
        match children_context[i].1.pop_result() {
            Some(child_result) => {
                let index = match parse_index(children_context[i].0.as_str(), 0) {
                    Some(at) => at,
                    None => 0,
                };
                proof {
                    assert(given[i as int].0@.subrange(0, given[i as int].0@.len() as int)
                        =~= given[i as int].0@);
                }
                array_changes.push((ArrayDeltaIndex::NewOrModified(index), child_result));
            },
            None => {},
        }
        i += 1;
    }
    proof {
        assert(given.subrange(0, n as int) =~= given);
    }
    if array_changes.len() > 0 {
        let mut merged: Vec<(ArrayDeltaIndex, Delta)> = match context.pop_result() {
            Some(Delta::Array(ops)) => ops,
            _ => Vec::new(),
        };
        merged.append(&mut array_changes);
        context.set_result(Delta::Array(merged)).exit();
    }
    Ok(())
}

} // verus!
