//! The patch pipeline: one step applies a delta to a value.

use crate::context::patch::{
    emits_element_patches, emits_member_patches, fresh_patch, held_delta, holds_patch,
    holds_value, holds_wf, is_array_patch, is_object_patch, patch_fails, same_target,
    DeltaIndicator, DeltaWithLeftover, PatchContext,
};
use crate::context::FilterContext;
use crate::decimal::{decimal, lemma_decimal_parses, to_decimal};
use crate::errors::{JsonDiffPatchError, PatchFailure};
use crate::filters::arrays::{place_children, ArraysPatchFilter};
use crate::filters::nested::{applied_members, CollectionChildrenPatchFilter};
use crate::filters::objects::ObjectsPatchFilter;
use crate::filters::texts::TextsPatchFilter;
use crate::json::{distinct_keys, has_key, key_index};
use crate::proofs::sequences::{added_to, begins_with};
use crate::pipeline::arrays::index_of_name;
use crate::processor::Pipeline;
use crate::semantics::patch::{
    array_patch, element_outcomes, first_failure, member_failures, member_outcome, patch_spec,
    patched_members, place_results, Patched,
};
use crate::json::{lemma_views, lemma_views_congruent, views, Json, JsonView};
use crate::semantics::patch::{
    apply_insertions, collect_ops, entries_below, insert_sorted, is_modification, rearranged,
    sort_insertions, sorted_entries, take_op, ArrayPatching, Insertion,
};
use crate::types::{
    delta_ops, distinct_ops, has_op, lemma_delta_ops, op_index, ArrayDeltaIndex, Delta, DeltaView,
};
use vstd::prelude::*;

verus! {

/// What `entries_below` holds: exactly the entries of its kind below the
/// bound, in strictly rising order.
pub proof fn lemma_entries_below(ops: Map<ArrayDeltaIndex, DeltaView>, removed: bool, bound: nat)
    requires
        bound <= usize::MAX + 1,
    ensures
        forall|t: int|
            0 <= t < entries_below(ops, removed, bound).len() ==> {
                let e = #[trigger] entries_below(ops, removed, bound)[t];
                &&& (e.0 is RemovedOrMoved) == removed
                &&& e.0.spec_index() < bound
                &&& ops.contains_key(e.0)
                &&& e.1 == ops[e.0]
            },
        forall|s: int, t: int|
            0 <= s < t < entries_below(ops, removed, bound).len() ==> (#[trigger] entries_below(
                ops,
                removed,
                bound,
            )[s]).0.spec_index() < (#[trigger] entries_below(ops, removed, bound)[t]).0.spec_index(),
        forall|key: ArrayDeltaIndex|
            ops.contains_key(key) && (key is RemovedOrMoved) == removed && key.spec_index() < bound
                ==> exists|t: int|
                0 <= t < entries_below(ops, removed, bound).len() && (#[trigger] entries_below(
                    ops,
                    removed,
                    bound,
                )[t]).0 == key,
    decreases bound,
{
    if bound > 0 {
        lemma_entries_below(ops, removed, (bound - 1) as nat);
        let init = entries_below(ops, removed, (bound - 1) as nat);
        let all = entries_below(ops, removed, bound);
        let last_key = if removed {
            ArrayDeltaIndex::RemovedOrMoved((bound - 1) as usize)
        } else {
            ArrayDeltaIndex::NewOrModified((bound - 1) as usize)
        };
        assert forall|key: ArrayDeltaIndex|
            ops.contains_key(key) && (key is RemovedOrMoved) == removed && key.spec_index()
                < bound implies exists|t: int|
            0 <= t < all.len() && (#[trigger] all[t]).0 == key by {
            if key.spec_index() < bound - 1 {
                let t = choose|t: int| 0 <= t < init.len() && (#[trigger] init[t]).0 == key;
                assert(all[t].0 == key);
            } else {
                assert(key == last_key);
                assert(all[all.len() - 1].0 == key);
            }
        }
    }
}

/// What `sorted_entries` holds: exactly the entries of the delta, in the
/// strictly rising order of their keys.
pub proof fn lemma_sorted_entries(ops: Map<ArrayDeltaIndex, DeltaView>)
    ensures
        forall|t: int|
            0 <= t < sorted_entries(ops).len() ==> ops.contains_key(
                (#[trigger] sorted_entries(ops)[t]).0,
            ) && sorted_entries(ops)[t].1 == ops[sorted_entries(ops)[t].0],
        forall|s: int, t: int|
            0 <= s < t < sorted_entries(ops).len() ==> (#[trigger] sorted_entries(ops)[s]).0.spec_lt(
                (#[trigger] sorted_entries(ops)[t]).0,
            ),
        forall|key: ArrayDeltaIndex|
            ops.contains_key(key) ==> exists|t: int|
                0 <= t < sorted_entries(ops).len() && (#[trigger] sorted_entries(ops)[t]).0 == key,
{
    let bound = usize::MAX as nat + 1;
    lemma_entries_below(ops, true, bound);
    lemma_entries_below(ops, false, bound);
    let old_part = entries_below(ops, true, bound);
    let new_part = entries_below(ops, false, bound);
    let all = sorted_entries(ops);
    assert forall|key: ArrayDeltaIndex| ops.contains_key(key) implies exists|t: int|
        0 <= t < all.len() && (#[trigger] all[t]).0 == key by {
        if key is RemovedOrMoved {
            let t = choose|t: int| 0 <= t < old_part.len() && (#[trigger] old_part[t]).0 == key;
            assert(all[t].0 == key);
        } else {
            let t = choose|t: int| 0 <= t < new_part.len() && (#[trigger] new_part[t]).0 == key;
            assert(all[old_part.len() + t].0 == key);
        }
    }
    assert forall|s: int, t: int| 0 <= s < t < all.len() implies (#[trigger] all[s]).0.spec_lt(
        (#[trigger] all[t]).0,
    ) by {
        if t < old_part.len() {
            assert(all[s] == old_part[s] && all[t] == old_part[t]);
        } else if s >= old_part.len() {
            assert(all[s] == new_part[s - old_part.len()]);
            assert(all[t] == new_part[t - old_part.len()]);
        } else {
            assert(all[s] == old_part[s]);
            assert(all[t] == new_part[t - old_part.len()]);
        }
    }
    assert forall|t: int| 0 <= t < all.len() implies ops.contains_key((#[trigger] all[t]).0)
        && all[t].1 == ops[all[t].0] by {
        if t < old_part.len() {
            assert(all[t] == old_part[t]);
        } else {
            assert(all[t] == new_part[t - old_part.len()]);
        }
    }
}

/// Takes the operation with the highest key out of `ops`.
fn take_highest(ops: &mut Vec<(ArrayDeltaIndex, Delta)>) -> (r: (ArrayDeltaIndex, Delta))
    requires
        old(ops)@.len() > 0,
        distinct_ops(old(ops)@),
    ensures
        final(ops)@.len() == old(ops)@.len() - 1,
        distinct_ops(final(ops)@),
        has_op(old(ops)@, r.0),
        old(ops)@[op_index(old(ops)@, r.0)] == r,
        forall|i: int| 0 <= i < old(ops)@.len() ==> !r.0.spec_lt((#[trigger] old(ops)@[i]).0),
        forall|i: int|
            0 <= i < final(ops)@.len() ==> old(ops)@.contains(#[trigger] final(ops)@[i])
                && final(ops)@[i].0 != r.0,
        forall|i: int|
            0 <= i < old(ops)@.len() && old(ops)@[i].0 != r.0 ==> final(ops)@.contains(
                #[trigger] old(ops)@[i],
            ),
{
    let ghost given = ops@;
    let mut best: usize = 0;
    let mut i: usize = 1;
    while i < ops.len()
        invariant
            1 <= i <= ops@.len(),
            0 <= best < i,
            ops@ == given,
            forall|j: int| 0 <= j < i ==> !ops@[best as int].0.spec_lt((#[trigger] ops@[j]).0),
        decreases ops@.len() - i,
    {
        if ops[best].0.lt(ops[i].0) {
            best = i;
        }
        i += 1;
    }
    let taken = ops.swap_remove(best);
    proof {
        assert(given[best as int] == taken);
        let at = op_index(given, taken.0);
        assert(given[at].0 == given[best as int].0);
        assert(at == best);
        assert forall|k: int| 0 <= k < ops@.len() implies given.contains(#[trigger] ops@[k])
            && ops@[k].0 != taken.0 by {
            if k == best {
                assert(ops@[k] == given[given.len() - 1]);
            } else {
                assert(ops@[k] == given[k]);
            }
        }
        assert forall|k: int| 0 <= k < given.len() && given[k].0 != taken.0 implies ops@.contains(
            #[trigger] given[k],
        ) by {
            if k == given.len() - 1 {
                assert(ops@[best as int] == given[k]);
            } else {
                assert(ops@[k] == given[k]);
            }
        }
        assert forall|a: int, b: int|
            0 <= a < ops@.len() && 0 <= b < ops@.len() && a != b implies (#[trigger] ops@[a]).0 != (
        #[trigger] ops@[b]).0 by {
            let ga = if a == best {
                given.len() - 1
            } else {
                a
            };
            let gb = if b == best {
                given.len() - 1
            } else {
                b
            };
            assert(ops@[a] == given[ga]);
            assert(ops@[b] == given[gb]);
        }
    }
    taken
}

/// An element that waits to be inserted: where, what, and the position that
/// it was moved from, if it is a moved one.
pub struct Pending {
    pub index: usize,
    pub value: Json,
    pub from: Option<usize>,
}

impl View for Pending {
    type V = Insertion;

    open spec fn view(&self) -> Insertion {
        Insertion { index: self.index, value: self.value@, from: self.from }
    }
}

/// The models of a sequence of waiting elements.
pub open spec fn pending_views(s: Seq<Pending>) -> Seq<Insertion> {
    Seq::new(s.len(), |k: int| s[k]@)
}

/// Putting an element into a sorted sequence is inserting it behind the
/// last element of the same or a lower position.
proof fn lemma_insert_sorted(sorted: Seq<Insertion>, x: Insertion, p: int)
    requires
        0 <= p <= sorted.len(),
        p > 0 ==> sorted[p - 1].index <= x.index,
        forall|q: int| p <= q < sorted.len() ==> (#[trigger] sorted[q]).index > x.index,
    ensures
        insert_sorted(sorted, x) == sorted.insert(p, x),
    decreases sorted.len(),
{
    if sorted.len() == 0 {
        assert(sorted.insert(p, x) =~= seq![x]);
    } else if p == sorted.len() {
        assert(sorted.insert(p, x) =~= sorted.push(x));
    } else {
        let init = sorted.drop_last();
        assert(sorted[sorted.len() - 1].index > x.index);
        assert forall|q: int| p <= q < init.len() implies (#[trigger] init[q]).index > x.index by {
            assert(init[q] == sorted[q]);
        }
        if p > 0 {
            assert(init[p - 1] == sorted[p - 1]);
        }
        lemma_insert_sorted(init, x, p);
        assert(sorted.insert(p, x) =~= init.insert(p, x).push(sorted.last()));
    }
}

/// Puts `x` into `sorted`, behind every element of the same or a lower
/// position.
fn insert_by_index(sorted: &mut Vec<Pending>, x: Pending)
    ensures
        pending_views(final(sorted)@) == insert_sorted(pending_views(old(sorted)@), x@),
        final(sorted)@.len() == old(sorted)@.len() + 1,
        forall|k: int|
            0 <= k < final(sorted)@.len() ==> (#[trigger] final(sorted)@[k]) == x || old(
                sorted,
            )@.contains(final(sorted)@[k]),
{
    let ghost given = sorted@;
    let mut p: usize = sorted.len();
    while p > 0 && sorted[p - 1].index > x.index
        invariant
            0 <= p <= sorted@.len(),
            sorted@ == given,
            forall|q: int| p <= q < sorted@.len() ==> (#[trigger] sorted@[q]).index > x.index,
        decreases p,
    {
        p -= 1;
    }
    sorted.insert(p, x);
    proof {
        let views = pending_views(given);
        assert forall|q: int| p <= q < views.len() implies (#[trigger] views[q]).index
            > x@.index by {
            assert(given[q].index > x.index);
        }
        lemma_insert_sorted(views, x@, p as int);
        assert(pending_views(sorted@) =~= views.insert(p as int, x@));
        assert forall|k: int| 0 <= k < sorted@.len() implies (#[trigger] sorted@[k]) == x
            || given.contains(sorted@[k]) by {
            if k < p {
                assert(sorted@[k] == given[k]);
            } else if k > p {
                assert(sorted@[k] == given[k - 1]);
            }
        }
    }
}

/// Whether one of the first `g` entries has the key `key`.
pub open spec fn has_entry(
    entries: Seq<(ArrayDeltaIndex, DeltaView)>,
    g: int,
    key: ArrayDeltaIndex,
) -> bool {
    exists|pos: int| 0 <= pos < g && pos < entries.len() && (#[trigger] entries[pos]).0 == key
}

/// The position of an entry with the key `key` among the first `g`.
pub open spec fn entry_position(
    entries: Seq<(ArrayDeltaIndex, DeltaView)>,
    g: int,
    key: ArrayDeltaIndex,
) -> int {
    choose|pos: int| 0 <= pos < g && pos < entries.len() && (#[trigger] entries[pos]).0 == key
}

/// The patches in place that an array patch hands on: for each position of
/// `mods`, in order, a triple of the position in decimal, the element of
/// the array as it was at that position, and the delta that stands in the
/// array delta under the key of that position.
pub open spec fn awaits_patches(
    left: Seq<Json>,
    array_delta: Seq<(ArrayDeltaIndex, Delta)>,
    mods: Seq<usize>,
    container: Seq<(String, &Json, Delta)>,
) -> bool {
    &&& container.len() == mods.len()
    &&& forall|t: int|
        0 <= t < mods.len() ==> {
            let entry = #[trigger] container[t];
            &&& entry.0@ == decimal(mods[t] as nat)
            &&& mods[t] < left.len()
            &&& *entry.1 == left[mods[t] as int]
            &&& array_delta.contains((ArrayDeltaIndex::NewOrModified(mods[t]), entry.2))
            &&& is_modification(entry.2@)
        }
}

/// A deep copy of a slice of values.
fn copy_values(items: &[Json]) -> (r: Vec<Json>)
    ensures
        views(r@) == views(items@),
        r@.len() == items@.len(),
        (forall|i: int| 0 <= i < items@.len() ==> (#[trigger] items@[i]).wf()) ==> forall|i: int|
            0 <= i < r@.len() ==> (#[trigger] r@[i]).wf(),
{
    let mut out: Vec<Json> = Vec::new();
    let mut i: usize = 0;
    while i < items.len()
        invariant
            0 <= i <= items@.len(),
            out@.len() == i,
            forall|j: int| 0 <= j < i ==> (#[trigger] out@[j])@ == items@[j]@,
            forall|j: int| 0 <= j < i && items@[j].wf() ==> (#[trigger] out@[j]).wf(),
        decreases items@.len() - i,
    {
        out.push(items[i].clone());
        i += 1;
    }
    proof {
        lemma_views_congruent(out@, items@);
    }
    out
}

/// The first two phases of an array patch: the removals and the insertions.
///
/// The operations are taken up from the highest key down. An addition waits
/// to be inserted; a delta that patches an element in place is handed on in
/// `return_container`, behind what that holds already, with the element as
/// it was; a deletion or a move
/// takes its element out of the array at once, and a moved element waits to
/// be inserted at its target. Then the waiting elements are inserted, from
/// the lowest position up. Each position is checked against the array as it
/// is at that moment. Where a position fails the check, nothing is handed
/// on.
pub fn handle_array<'a>(
    left: &'a [Json],
    array_delta: Vec<(ArrayDeltaIndex, Delta)>,
    return_container: &mut Vec<(String, &'a Json, Delta)>,
) -> (r: Result<Json, JsonDiffPatchError>)
    requires
        forall|i: int| 0 <= i < left@.len() ==> (#[trigger] left@[i]).wf(),
        distinct_ops(array_delta@),
        forall|i: int| 0 <= i < array_delta@.len() ==> (#[trigger] array_delta@[i]).1.wf(),
    ensures
        match r {
            Ok(v) => {
                &&& rearranged(views(left@), delta_ops(array_delta@)) matches Ok(done)
                &&& v@ == JsonView::Array(done.0)
                &&& v.wf()
                &&& begins_with(final(return_container)@, old(return_container)@)
                &&& awaits_patches(
                    left@,
                    array_delta@,
                    done.1,
                    added_to(old(return_container)@, final(return_container)@),
                )
            },
            Err(e) => rearranged(views(left@), delta_ops(array_delta@)) matches Err(f) && f == e@
                && final(return_container)@ == old(return_container)@,
        },
{
    let mut waiting: Vec<(String, &'a Json, Delta)> = Vec::new();
    let ghost given = array_delta@;
    let ghost ops = delta_ops(given);
    let ghost items = views(left@);
    let ghost entries = sorted_entries(ops);
    proof {
        lemma_views(left@);
        lemma_delta_ops(given);
        lemma_sorted_entries(ops);
    }
    let mut rest = array_delta;
    let mut new_array = copy_values(left);
    let mut to_insert: Vec<Pending> = Vec::new();
    let ghost mut state = ArrayPatching { arr: items, inserts: Seq::empty(), mods: Seq::empty() };
    let ghost mut g: int = entries.len() as int;
    proof {
        assert(pending_views(to_insert@) =~= sort_insertions(state.inserts));
        assert forall|idx: int| 0 <= idx < rest@.len() implies has_entry(
            entries,
            g,
            (#[trigger] rest@[idx]).0,
        ) by {
            assert(ops.contains_key(rest@[idx].0));
        }
        assert forall|pos: int| 0 <= pos < g implies has_op(rest@, (#[trigger] entries[pos]).0) by {
            assert(ops.contains_key(entries[pos].0));
        }
    }
    while rest.len() > 0
        invariant
            0 <= g <= entries.len(),
            given == array_delta@,
            ops == delta_ops(given),
            items == views(left@),
            items.len() == left@.len(),
            entries == sorted_entries(ops),
            distinct_ops(given),
            distinct_ops(rest@),
            forall|i: int| 0 <= i < left@.len() ==> (#[trigger] left@[i]).wf(),
            forall|i: int| 0 <= i < left@.len() ==> (#[trigger] items[i]) == left@[i]@,
            forall|i: int| 0 <= i < given.len() ==> (#[trigger] given[i]).1.wf(),
            forall|i: int| 0 <= i < given.len() ==> ops[(#[trigger] given[i]).0] == given[i].1@,
            forall|t: int|
                0 <= t < entries.len() ==> ops.contains_key((#[trigger] entries[t]).0)
                    && entries[t].1 == ops[entries[t].0],
            forall|s: int, t: int|
                0 <= s < t < entries.len() ==> (#[trigger] entries[s]).0.spec_lt(
                    (#[trigger] entries[t]).0,
                ),
            forall|idx: int| 0 <= idx < rest@.len() ==> given.contains(#[trigger] rest@[idx]),
            forall|idx: int|
                0 <= idx < rest@.len() ==> has_entry(entries, g, (#[trigger] rest@[idx]).0),
            forall|pos: int| 0 <= pos < g ==> has_op(rest@, (#[trigger] entries[pos]).0),
            collect_ops(entries, items, g) == Ok::<ArrayPatching, PatchFailure>(state),
            views(new_array@) == state.arr,
            forall|i: int| 0 <= i < new_array@.len() ==> (#[trigger] new_array@[i]).wf(),
            pending_views(to_insert@) == sort_insertions(state.inserts),
            forall|i: int| 0 <= i < to_insert@.len() ==> (#[trigger] to_insert@[i]).value.wf(),
            awaits_patches(left@, given, state.mods, waiting@),
        decreases rest@.len(),
    {
        let ghost rest_before = rest@;
        let ghost container_before = waiting@;
        let (index, delta) = take_highest(&mut rest);
        proof {
            let at = op_index(rest_before, index);
            assert(rest_before[at] == (index, delta));
            assert(given.contains(rest_before[at]));
            assert(has_entry(entries, g, rest_before[at].0));
            let pos = entry_position(entries, g, rest_before[at].0);
            assert(has_op(rest_before, entries[g - 1].0));
            let other = op_index(rest_before, entries[g - 1].0);
            assert(!index.spec_lt(rest_before[other].0));
            if pos < g - 1 {
                assert(entries[pos].0.spec_lt(entries[g - 1].0));
            }
            assert(pos == g - 1);
            let orig = choose|i: int| 0 <= i < given.len() && given[i] == (index, delta);
            assert(ops[given[orig].0] == given[orig].1@);
            assert(entries[g - 1] == (index, delta@));
            assert(delta.wf());
            assert forall|idx: int| 0 <= idx < rest@.len() implies has_entry(
                entries,
                g - 1,
                (#[trigger] rest@[idx]).0,
            ) by {
                assert(rest_before.contains(rest@[idx]));
                let j = choose|j: int| 0 <= j < rest_before.len() && rest_before[j] == rest@[idx];
                assert(has_entry(entries, g, rest_before[j].0));
                let p2 = entry_position(entries, g, rest_before[j].0);
                assert(p2 != g - 1);
                assert(entries[p2].0 == rest@[idx].0);
            }
            assert forall|p2: int| 0 <= p2 < g - 1 implies has_op(
                rest@,
                (#[trigger] entries[p2]).0,
            ) by {
                assert(entries[p2].0.spec_lt(entries[g - 1].0));
                let j = op_index(rest_before, entries[p2].0);
                assert(rest@.contains(rest_before[j]));
                let k = choose|k: int| 0 <= k < rest@.len() && rest@[k] == rest_before[j];
                assert(rest@[k].0 == entries[p2].0);
            }
            assert forall|idx: int| 0 <= idx < rest@.len() implies given.contains(
                #[trigger] rest@[idx],
            ) by {
                assert(rest_before.contains(rest@[idx]));
            }
            lemma_views(new_array@);
        }
        let ghost next = take_op(state, items.len(), index, delta@);
        match index {
            ArrayDeltaIndex::RemovedOrMoved(removed_index) => {
                if removed_index >= new_array.len() {
                    proof {
                        assert(next == Err::<ArrayPatching, PatchFailure>(
                            PatchFailure::IndexOutOfBoundsRemove {
                                index: removed_index,
                                length: new_array@.len() as usize,
                            },
                        ));
                        lemma_collect_fails(entries, items, g - 1);
                    }
                    return Err(
                        JsonDiffPatchError::IndexOutOfBoundsRemove {
                            index: removed_index,
                            length: new_array.len(),
                        },
                    );
                }
                let ghost array_before = new_array@;
                let ghost pending_before = to_insert@;
                let removed_value = new_array.remove(removed_index);
                proof {
                    lemma_views(array_before);
                    lemma_views(new_array@);
                    assert(views(new_array@) =~= state.arr.remove(removed_index as int));
                    assert(removed_value@ == state.arr[removed_index as int]);
                    assert(removed_value == array_before[removed_index as int]);
                }
                match delta {
                    Delta::Deleted(_) => {
                        proof {
                            assert(next is Ok);
                            assert(next->Ok_0.mods == state.mods);
                        }
                    },
                    Delta::Moved { new_index, .. } => {
                        insert_by_index(
                            &mut to_insert,
                            Pending {
                                index: new_index,
                                value: removed_value,
                                from: Some(removed_index),
                            },
                        );
                        proof {
                            assert(next is Ok);
                            assert(next->Ok_0.mods == state.mods);
                            assert(next->Ok_0.inserts.drop_last() =~= state.inserts);
                            assert forall|i: int| 0 <= i < to_insert@.len() implies (
                            #[trigger] to_insert@[i]).value.wf() by {
                                if pending_before.contains(to_insert@[i]) {
                                }
                            }
                        }
                    },
                    _ => {
                        proof {
                            lemma_collect_fails(entries, items, g - 1);
                        }
                        return Err(
                            JsonDiffPatchError::InvalidPatch(
                                "only removal or move can be applied at original array indices".to_owned(),
                            ),
                        );
                    },
                }
            },
            ArrayDeltaIndex::NewOrModified(new_index) => {
                match delta {
                    Delta::Added(value) => {
                        let ghost pending_before = to_insert@;
                        insert_by_index(
                            &mut to_insert,
                            Pending { index: new_index, value, from: None },
                        );
                        proof {
                            assert(next is Ok);
                            assert(next->Ok_0.mods == state.mods);
                            assert(next->Ok_0.inserts.drop_last() =~= state.inserts);
                            assert forall|i: int| 0 <= i < to_insert@.len() implies (
                            #[trigger] to_insert@[i]).value.wf() by {
                                if pending_before.contains(to_insert@[i]) {
                                }
                            }
                        }
                    },
                    Delta::Modified(..) | Delta::Object(_) | Delta::Array(_) | Delta::TextDiff(_) => {
                        if new_index >= left.len() {
                            proof {
                                lemma_collect_fails(entries, items, g - 1);
                            }
                            return Err(
                                JsonDiffPatchError::IndexOutOfBoundsModify {
                                    index: new_index,
                                    length: left.len(),
                                },
                            );
                        }
                        proof {
                            assert(next is Ok);
                            assert(next->Ok_0.mods == state.mods.push(new_index));
                            assert(given.contains((index, delta)));
                        }
                        waiting.push((to_decimal(new_index), &left[new_index], delta));
                        proof {
                            lemma_awaits_push(
                                left@,
                                given,
                                state.mods,
                                container_before,
                                new_index,
                                waiting@[waiting@.len() - 1],
                            );
                            assert(waiting@ =~= container_before.push(
                                waiting@[waiting@.len() - 1],
                            ));
                        }
                    },
                    _ => {
                        proof {
                            lemma_collect_fails(entries, items, g - 1);
                        }
                        return Err(
                            JsonDiffPatchError::InvalidPatch(
                                "only addition or modification can be applied at new array indices".to_owned(),
                            ),
                        );
                    },
                }
            },
        }
        proof {
            state = next->Ok_0;
            g = g - 1;
        }
    }
    proof {
        assert(g == 0) by {
            if g > 0 {
                assert(has_op(rest@, entries[0].0));
            }
        }
    }
    // the insertions, from the lowest position up
    let ghost sorted = sort_insertions(state.inserts);
    let mut k: usize = 0;
    while k < to_insert.len()
        invariant
            0 <= k <= to_insert@.len(),
            sorted == pending_views(to_insert@),
            sorted == sort_insertions(state.inserts),
            collect_ops(sorted_entries(delta_ops(array_delta@)), views(left@), 0) == Ok::<
                ArrayPatching,
                PatchFailure,
            >(state),
            awaits_patches(left@, array_delta@, state.mods, waiting@),
            forall|i: int| 0 <= i < new_array@.len() ==> (#[trigger] new_array@[i]).wf(),
            forall|i: int| 0 <= i < to_insert@.len() ==> (#[trigger] to_insert@[i]).value.wf(),
            apply_insertions(state.arr, sorted, 0) == apply_insertions(
                views(new_array@),
                sorted,
                k as int,
            ),
        decreases to_insert@.len() - k,
    {
        let index = to_insert[k].index;
        proof {
            lemma_views(new_array@);
            assert(sorted[k as int] == to_insert@[k as int]@);
        }
        if index > new_array.len() {
            return Err(
                match to_insert[k].from {
                    Some(from) => JsonDiffPatchError::IndexOutOfBoundsMove {
                        from,
                        to: index,
                        length: new_array.len(),
                    },
                    None => JsonDiffPatchError::IndexOutOfBoundsInsert {
                        index,
                        length: new_array.len(),
                    },
                },
            );
        }
        let ghost array_before = new_array@;
        let value = to_insert[k].value.clone();
        new_array.insert(index, value);
        proof {
            lemma_views(array_before);
            lemma_views(new_array@);
            assert(views(new_array@) =~= views(array_before).insert(index as int, value@));
            assert forall|i: int| 0 <= i < new_array@.len() implies (#[trigger] new_array@[i]).wf() by {
                if i < index {
                    assert(new_array@[i] == array_before[i]);
                } else if i > index {
                    assert(new_array@[i] == array_before[i - 1]);
                }
            }
        }
        k += 1;
    }
    let patched = Json::Array(new_array);
    let ghost held = return_container@;
    let ghost handed = waiting@;
    return_container.append(&mut waiting);
    proof {
        patched.lemma_array_view();
        assert(return_container@.subrange(0, held.len() as int) =~= held);
        assert(added_to(held, return_container@) =~= handed);
    }
    Ok(patched)
}

/// One more patch in place is handed on.
proof fn lemma_awaits_push(
    left: Seq<Json>,
    array_delta: Seq<(ArrayDeltaIndex, Delta)>,
    mods: Seq<usize>,
    container: Seq<(String, &Json, Delta)>,
    j: usize,
    entry: (String, &Json, Delta),
)
    requires
        awaits_patches(left, array_delta, mods, container),
        entry.0@ == decimal(j as nat),
        j < left.len(),
        *entry.1 == left[j as int],
        array_delta.contains((ArrayDeltaIndex::NewOrModified(j), entry.2)),
        is_modification(entry.2@),
    ensures
        awaits_patches(left, array_delta, mods.push(j), container.push(entry)),
{
    let mods2 = mods.push(j);
    let container2 = container.push(entry);
    assert forall|t: int| 0 <= t < mods2.len() implies {
        let e = #[trigger] container2[t];
        &&& e.0@ == decimal(mods2[t] as nat)
        &&& mods2[t] < left.len()
        &&& *e.1 == left[mods2[t] as int]
        &&& array_delta.contains((ArrayDeltaIndex::NewOrModified(mods2[t]), e.2))
        &&& is_modification(e.2@)
    } by {
        if t < mods.len() {
            assert(container2[t] == container[t]);
            assert(mods2[t] == mods[t]);
        }
    }
}

/// An error met while the operations are collected stays the outcome.
proof fn lemma_collect_fails(entries: Seq<(ArrayDeltaIndex, DeltaView)>, items: Seq<JsonView>, k: int)
    requires
        0 <= k <= entries.len(),
        collect_ops(entries, items, k) is Err,
    ensures
        collect_ops(entries, items, 0) == collect_ops(entries, items, k),
    decreases k,
{
    if k > 0 {
        lemma_collect_fails(entries, items, k - 1);
    }
}

/// What gathering the first `n` children of an object patch makes of the
/// members: a child that yielded a value has set the member it is named
/// after, one that yielded none has removed it, and the members that no
/// child is named after are as they were.
pub proof fn lemma_applied_members(
    m: Map<Seq<char>, JsonView>,
    children: Seq<(String, PatchContext)>,
    n: int,
)
    requires
        distinct_keys(children),
        0 <= n <= children.len(),
    ensures
        forall|j: int|
            0 <= j < n ==> match (#[trigger] children[j]).1.context_data.result {
                Some(v) => applied_members(m, children, n).contains_key(children[j].0@)
                    && applied_members(m, children, n)[children[j].0@] == v@,
                None => !applied_members(m, children, n).contains_key(children[j].0@),
            },
        forall|key: Seq<char>|
            (forall|j: int| 0 <= j < n ==> (#[trigger] children[j]).0@ != key) ==> (
            #[trigger] applied_members(m, children, n).contains_key(key) <==> m.contains_key(key))
                && applied_members(m, children, n)[key] == m[key],
    decreases n,
{
    if n > 0 {
        lemma_applied_members(m, children, n - 1);
        let prev = applied_members(m, children, n - 1);
        let now = applied_members(m, children, n);
        let last = children[n - 1];
        assert forall|j: int| 0 <= j < n implies match (#[trigger] children[j]).1.context_data.result {
            Some(v) => now.contains_key(children[j].0@) && now[children[j].0@] == v@,
            None => !now.contains_key(children[j].0@),
        } by {
            if j < n - 1 {
                assert(children[j].0@ != children[n - 1].0@);
            }
        }
        assert forall|key: Seq<char>|
            (forall|j: int| 0 <= j < n ==> (#[trigger] children[j]).0@ != key) implies (
        #[trigger] now.contains_key(key) <==> m.contains_key(key)) && now[key] == m[key] by {
            assert(children[n - 1].0@ != key);
            assert forall|j: int| 0 <= j < n - 1 implies (#[trigger] children[j]).0@ != key by {}
            assert(prev.contains_key(key) <==> m.contains_key(key));
        }
    }
}

/// The children of a patch have run: each holds what its delta made of its
/// value, and none failed.
pub open spec fn patches_done(
    emitted: Seq<(String, PatchContext)>,
    children: Seq<(String, PatchContext)>,
) -> bool {
    &&& emitted.len() == children.len()
    &&& forall|i: int|
        0 <= i < emitted.len() ==> (#[trigger] emitted[i]).0 == children[i].0 && holds_patch(
            emitted[i].1,
            children[i].1,
        )
}

/// Gathering the children of an object patch gives the members that the
/// object delta makes of the object.
pub proof fn lemma_members_gathered(
    parent: PatchContext,
    emitted: Seq<(String, PatchContext)>,
    children: Seq<(String, PatchContext)>,
)
    requires
        is_object_patch(parent),
        emits_member_patches(parent, emitted),
        patches_done(emitted, children),
    ensures
        patch_spec(parent.left@, held_delta(parent)) == Patched::Value(
            JsonView::Object(
                applied_members(parent.left@->Object_0, children, children.len() as int),
            ),
        ),
{
    let l = parent.left@;
    let d = held_delta(parent);
    let changes = d->Object_0;
    let m = l->Object_0;
    let n = children.len() as int;
    assert forall|a: int, b: int|
        0 <= a < children.len() && 0 <= b < children.len() && a != b implies (
    #[trigger] children[a]).0@ != (#[trigger] children[b]).0@ by {
        assert(emitted[a].0@ != emitted[b].0@);
    }
    lemma_applied_members(m, children, n);
    let gathered = applied_members(m, children, n);
    assert forall|key: Seq<char>| #[trigger] changes.contains_key(key) implies !(member_outcome(
        l,
        d,
        key,
    ) is Failure) by {
        assert(has_key(emitted, key));
        let at = key_index(emitted, key);
        assert(holds_patch(emitted[at].1, children[at].1));
    }
    let wanted = patched_members(l, d);
    assert forall|key: Seq<char>| gathered.contains_key(key) <==> wanted.contains_key(key) by {
        if changes.contains_key(key) {
            assert(has_key(emitted, key));
            let at = key_index(emitted, key);
            assert(holds_patch(emitted[at].1, children[at].1));
            assert(children[at].0@ == key);
        } else {
            assert forall|j: int| 0 <= j < n implies (#[trigger] children[j]).0@ != key by {
                assert(changes.contains_key(emitted[j].0@));
            }
        }
    }
    assert forall|key: Seq<char>| gathered.contains_key(key) implies gathered[key]
        == wanted[key] by {
        if changes.contains_key(key) {
            assert(has_key(emitted, key));
            let at = key_index(emitted, key);
            assert(holds_patch(emitted[at].1, children[at].1));
            assert(children[at].0@ == key);
        } else {
            assert forall|j: int| 0 <= j < n implies (#[trigger] children[j]).0@ != key by {
                assert(changes.contains_key(emitted[j].0@));
            }
        }
    }
    assert(gathered =~= wanted);
    assert(d is Object);
    assert(l is Object);
    assert(!(exists|key: Seq<char>|
        #[trigger] changes.contains_key(key) && member_outcome(l, d, key) is Failure));
    assert(patch_spec(l, d) == Patched::Value(JsonView::Object(patched_members(l, d))));
}

/// Placing the values that the children of an array patch yielded is
/// placing what their deltas make of their elements.
pub proof fn lemma_place_children(
    parent: PatchContext,
    arr: Seq<JsonView>,
    mods: Seq<usize>,
    emitted: Seq<(String, PatchContext)>,
    children: Seq<(String, PatchContext)>,
    t: int,
)
    requires
        is_array_patch(parent),
        emits_element_patches(parent, mods, emitted),
        patches_done(emitted, children),
        0 <= t <= mods.len(),
    ensures
        place_children(arr, children, t) == place_results(arr, mods, element_outcomes(parent.left@, held_delta(parent)), t),
        first_failure(mods, element_outcomes(parent.left@, held_delta(parent)), t) is None,
    decreases mods.len() - t,
{
    if t < mods.len() {
        let key = ArrayDeltaIndex::NewOrModified(mods[t]);
        let outcomes = element_outcomes(parent.left@, held_delta(parent));
        assert(holds_patch(emitted[t].1, children[t].1));
        assert(outcomes[key] == patch_spec(emitted[t].1.left@, held_delta(emitted[t].1)));
        lemma_decimal_parses(mods[t] as nat);
        assert(index_of_name(children[t].0@) == mods[t]);
        match outcomes[key] {
            Patched::Value(v) => {
                if mods[t] < arr.len() {
                    lemma_place_children(
                        parent,
                        arr.update(mods[t] as int, v),
                        mods,
                        emitted,
                        children,
                        t + 1,
                    );
                } else {
                    lemma_place_children(parent, arr, mods, emitted, children, t + 1);
                }
            },
            _ => {
                lemma_place_children(parent, arr, mods, emitted, children, t + 1);
            },
        }
    }
}

/// The first child of an array patch that fails decides the errors of the
/// patch.
pub proof fn lemma_first_failure(
    mods: Seq<usize>,
    outcomes: Map<ArrayDeltaIndex, Patched>,
    i: int,
    t: int,
)
    requires
        0 <= t <= i < mods.len(),
        forall|j: int|
            t <= j < i ==> !(outcomes[ArrayDeltaIndex::NewOrModified(#[trigger] mods[j])] is Failure),
        outcomes[ArrayDeltaIndex::NewOrModified(mods[i])] is Failure,
    ensures
        first_failure(mods, outcomes, t) == Some(
            outcomes[ArrayDeltaIndex::NewOrModified(mods[i])]->Failure_0,
        ),
    decreases i - t,
{
    if t < i {
        assert(!(outcomes[ArrayDeltaIndex::NewOrModified(mods[t])] is Failure));
        lemma_first_failure(mods, outcomes, i, t + 1);
    }
}

pub struct PatchPipeline;

impl<'a> Pipeline<PatchContext<'a>> for PatchPipeline {
    /// A run starts on a context that nothing has worked on, with a
    /// well-formed value and a well-formed delta.
    open spec fn ready(&self, ctx: PatchContext<'a>) -> bool {
        fresh_patch(ctx)
    }

    open spec fn rank(&self, ctx: PatchContext<'a>) -> nat {
        match ctx.delta {
            DeltaWithLeftover::Delta(delta) => delta.size(),
            DeltaWithLeftover::Leftover(_) => 0,
        }
    }

    /// After the first step the delta has been taken out of the context.
    /// For an object delta the children wait and the slot is empty; for an
    /// array delta the slot holds the array after the removals and the
    /// insertions, and the patches in place wait as children; any other
    /// delta has been applied.
    open spec fn processed(
        &self,
        before: PatchContext<'a>,
        now: PatchContext<'a>,
        emitted: Seq<(String, PatchContext<'a>)>,
    ) -> bool {
        &&& fresh_patch(before)
        &&& same_target(before, now)
        &&& now.delta == DeltaWithLeftover::Leftover(DeltaIndicator::of(before.delta->Delta_0))
        &&& if is_object_patch(before) {
            now.context_data.result is None && emits_member_patches(before, emitted)
        } else if is_array_patch(before) {
            &&& rearranged(before.left@->Array_0, held_delta(before)->Array_0) matches Ok(done)
            &&& holds_value(now.context_data.result, JsonView::Array(done.0))
            &&& emits_element_patches(before, done.1, emitted)
        } else {
            holds_patch(before, now) && emitted.len() == 0
        }
    }

    /// After a run, the slot holds what the delta makes of the value, and
    /// is empty where the delta deletes it.
    open spec fn done(&self, before: PatchContext<'a>, after: PatchContext<'a>) -> bool {
        same_target(before, after) && holds_patch(before, after)
    }

    open spec fn failed(&self, before: PatchContext<'a>, error: JsonDiffPatchError) -> bool {
        patch_fails(before, error)
    }

    proof fn child_failure(
        &self,
        before: PatchContext<'a>,
        now: PatchContext<'a>,
        emitted: Seq<(String, PatchContext<'a>)>,
        children: Seq<(String, PatchContext<'a>)>,
        i: int,
        error: JsonDiffPatchError,
    ) {
        let l = before.left@;
        let d = held_delta(before);
        if is_object_patch(before) {
            let key = emitted[i].0@;
            assert(member_outcome(l, d, key) == patch_spec(
                emitted[i].1.left@,
                held_delta(emitted[i].1),
            ));
            assert(d->Object_0.contains_key(key));
            assert(member_outcome(l, d, key) is Failure);
            assert(member_outcome(l, d, key)->Failure_0.contains(error@));
            assert(member_failures(l, d).contains(error@));
            assert(patch_spec(l, d) == Patched::Failure(member_failures(l, d)));
        } else if is_array_patch(before) {
            let done = rearranged(l->Array_0, d->Array_0)->Ok_0;
            let mods = done.1;
            let outcomes = element_outcomes(before.left@, held_delta(before));
            assert forall|j: int| 0 <= j < i implies !(outcomes[ArrayDeltaIndex::NewOrModified(
                #[trigger] mods[j],
            )] is Failure) by {
                assert(self.done(emitted[j].1, children[j].1));
                assert(holds_patch(emitted[j].1, children[j].1));
                assert(outcomes[ArrayDeltaIndex::NewOrModified(mods[j])] == patch_spec(
                    emitted[j].1.left@,
                    held_delta(emitted[j].1),
                ));
            }
            assert(outcomes[ArrayDeltaIndex::NewOrModified(mods[i])] == patch_spec(
                emitted[i].1.left@,
                held_delta(emitted[i].1),
            ));
            lemma_first_failure(mods, outcomes, i, 0);
        }
    }

    fn filter_name(&self) -> (r: &str)
        ensures
            r@ == "patch-pipeline"@,
    {
        "patch-pipeline"
    }

    fn process(
        &self,
        context: &mut PatchContext<'a>,
        new_children_context: &mut Vec<(String, PatchContext<'a>)>,
    ) -> (r: Result<(), JsonDiffPatchError>) {
        let ghost before = *context;
        let delta = context.take_delta();
        match delta {
            Delta::Object(entries) => ObjectsPatchFilter.process(
                context,
                entries,
                new_children_context,
            ),
            Delta::Array(ops) => {
                proof {
                    if before.left@ is Array {
                        assert(patch_spec(before.left@, held_delta(before)) == array_patch(
                            before.left@->Array_0,
                            delta_ops(ops@),
                            element_outcomes(before.left@, held_delta(before)),
                        ));
                    }
                }
                ArraysPatchFilter.process(context, ops, new_children_context)
            },
            Delta::Added(new_value) => {
                context.set_result(new_value).exit();
                Ok(())
            },
            Delta::Deleted(_) => Ok(()),
            Delta::Modified(_, to) => {
                context.set_result(to).exit();
                Ok(())
            },
            Delta::Moved { .. } => Err(
                JsonDiffPatchError::InternalPatchLogicError(
                    "Should be handled by array directly, as move does not make sense for non-array container".to_owned(),
                ),
            ),
            Delta::TextDiff(text_diff) => TextsPatchFilter.process(context, text_diff),
            Delta::Unchanged => {
                let kept = context.left.clone();
                context.set_result(kept).exit();
                Ok(())
            },
        }
    }

    fn post_process(
        &self,
        context: &mut PatchContext<'a>,
        children_context: &mut Vec<(String, PatchContext<'a>)>,
    ) -> (r: Result<(), JsonDiffPatchError>) {
        let ghost now = *context;
        let ghost children = children_context@;
        let ghost (before, emitted) = choose|
            before: PatchContext<'a>,
            emitted: Seq<(String, PatchContext<'a>)>,
        |
            {
                &&& #[trigger] self.processed(before, now, emitted)
                &&& emitted.len() == children.len()
                &&& forall|i: int|
                    0 <= i < emitted.len() ==> (#[trigger] emitted[i]).0 == children[i].0
                        && self.done(emitted[i].1, children[i].1)
            };
        proof {
            assert forall|i: int| 0 <= i < children.len() implies holds_wf(
                (#[trigger] children[i]).1.context_data.result,
            ) by {
                assert(self.done(emitted[i].1, children[i].1));
            }
        }
        let r = match context.peek_delta() {
            DeltaIndicator::Array => {
                proof {
                    assert(is_array_patch(before));
                }
                ArraysPatchFilter.post_process(context, children_context)
            },
            DeltaIndicator::Object => {
                proof {
                    assert(is_object_patch(before));
                }
                CollectionChildrenPatchFilter.post_process(context, children_context);
                Ok(())
            },
            _ => Ok(()),
        };
        proof {
            assert forall|b: PatchContext<'a>, e: Seq<(String, PatchContext<'a>)>|
                {
                    &&& #[trigger] self.processed(b, now, e)
                    &&& e.len() == children.len()
                    &&& forall|i: int|
                        0 <= i < e.len() ==> (#[trigger] e[i]).0 == children[i].0 && self.done(
                            e[i].1,
                            children[i].1,
                        )
                } implies (r is Ok ==> self.done(b, *context)) && (r matches Err(err)
                ==> self.failed(b, err)) by {
                assert(patches_done(e, children)) by {
                    assert forall|i: int| 0 <= i < e.len() implies (#[trigger] e[i]).0
                        == children[i].0 && holds_patch(e[i].1, children[i].1) by {
                        assert(self.done(e[i].1, children[i].1));
                    }
                }
                assert(same_target(b, *context));
                if now.delta.spec_peek() == DeltaIndicator::Object {
                    assert(held_delta(b) is Object);
                    assert(is_object_patch(b));
                    lemma_members_gathered(b, e, children);
                    assert(r is Ok);
                    assert(holds_patch(b, *context));
                } else if now.delta.spec_peek() == DeltaIndicator::Array {
                    assert(held_delta(b) is Array);
                    assert(is_array_patch(b));
                    let items = b.left@->Array_0;
                    let ops = held_delta(b)->Array_0;
                    let done = rearranged(items, ops)->Ok_0;
                    assert(now.context_data.result->0@ == JsonView::Array(done.0));
                    lemma_place_children(b, done.0, done.1, e, children, 0);
                    let outcomes = element_outcomes(b.left@, held_delta(b));
                    assert(patch_spec(b.left@, held_delta(b)) == array_patch(items, ops, outcomes));
                    match place_results(done.0, done.1, outcomes, 0) {
                        Ok(placed) => {
                            assert(patch_spec(b.left@, held_delta(b)) == Patched::Value(
                                JsonView::Array(placed),
                            ));
                        },
                        Err(f) => {
                            assert(patch_spec(b.left@, held_delta(b)) == Patched::Failure(set![f]));
                            assert(set![f].contains(f));
                        },
                    }
                } else {
                    assert(!is_object_patch(b));
                    assert(!is_array_patch(b));
                }
            }
        }
        r
    }
}

} // verus!
