//! What applying a delta yields.

use crate::errors::{misplaced_at_new_text, misplaced_at_old_text, stray_move_text, PatchFailure};
use crate::json::JsonView;
use crate::pipeline::texts::patched_text;
use crate::types::{ArrayDeltaIndex, DeltaView};
use vstd::prelude::*;

verus! {

/// What applying a delta to a value yields: a value, the absence of a value
/// (the delta deletes it), or a failure. A failure holds the errors that can
/// be reported: where several members of an object delta fail, the order in
/// which the delta lists them decides which error is met first, and that
/// order is no part of the model.
pub enum Patched {
    Value(JsonView),
    Absent,
    Failure(Set<PatchFailure>),
}

/// An element that waits to be inserted into an array: where, what, and the
/// position that it was moved from, if it is a moved one.
pub struct Insertion {
    pub index: usize,
    pub value: JsonView,
    pub from: Option<usize>,
}

/// The state of an array patch while its operations are collected.
pub struct ArrayPatching {
    /// The array, without the elements removed so far.
    pub arr: Seq<JsonView>,
    /// The elements to insert, in the order in which they were met.
    pub inserts: Seq<Insertion>,
    /// The new positions whose element is patched by a delta of its own, in
    /// the order in which they were met.
    pub mods: Seq<usize>,
}

/// The deltas that change a value in place, as against adding or removing
/// it.
pub open spec fn is_modification(d: DeltaView) -> bool {
    d is Modified || d is Object || d is Array || d is TextDiff
}

/// The entries of `ops` of one kind of key with a position below `bound`,
/// in rising order.
pub open spec fn entries_below(
    ops: Map<ArrayDeltaIndex, DeltaView>,
    removed: bool,
    bound: nat,
) -> Seq<(ArrayDeltaIndex, DeltaView)>
    decreases bound,
{
    if bound == 0 {
        Seq::empty()
    } else {
        let key = if removed {
            ArrayDeltaIndex::RemovedOrMoved((bound - 1) as usize)
        } else {
            ArrayDeltaIndex::NewOrModified((bound - 1) as usize)
        };
        let init = entries_below(ops, removed, (bound - 1) as nat);
        if ops.contains_key(key) {
            init.push((key, ops[key]))
        } else {
            init
        }
    }
}

/// The entries of an array delta in the order of their keys: the keys of the
/// old array first, then those of the new one, each kind by position.
pub open spec fn sorted_entries(ops: Map<ArrayDeltaIndex, DeltaView>) -> Seq<
    (ArrayDeltaIndex, DeltaView),
> {
    entries_below(ops, true, usize::MAX as nat + 1) + entries_below(
        ops,
        false,
        usize::MAX as nat + 1,
    )
}

/// One operation is taken up. `len` is the length of the array before the
/// patch.
///
/// Under a key of the new array stands an addition, which waits to be
/// inserted, or a delta that patches the element in place, which must lie
/// within the array as it was. Under a key of the old array stands a
/// deletion or a move: the element is removed at once, and a moved one waits
/// to be inserted at its target.
pub open spec fn take_op(state: ArrayPatching, len: nat, key: ArrayDeltaIndex, d: DeltaView) -> Result<
    ArrayPatching,
    PatchFailure,
> {
    match key {
        ArrayDeltaIndex::NewOrModified(j) => {
            if d is Added {
                Ok(
                    ArrayPatching {
                        inserts: state.inserts.push(
                            Insertion { index: j, value: d->Added_0, from: None },
                        ),
                        ..state
                    },
                )
            } else if is_modification(d) {
                if j < len {
                    Ok(ArrayPatching { mods: state.mods.push(j), ..state })
                } else {
                    Err(PatchFailure::IndexOutOfBoundsModify { index: j, length: len as usize })
                }
            } else {
                Err(PatchFailure::InvalidPatch(misplaced_at_new_text()))
            }
        },
        ArrayDeltaIndex::RemovedOrMoved(i) => {
            if i >= state.arr.len() {
                Err(
                    PatchFailure::IndexOutOfBoundsRemove {
                        index: i,
                        length: state.arr.len() as usize,
                    },
                )
            } else if d is Deleted {
                Ok(ArrayPatching { arr: state.arr.remove(i as int), ..state })
            } else if d is Moved {
                Ok(
                    ArrayPatching {
                        arr: state.arr.remove(i as int),
                        inserts: state.inserts.push(
                            Insertion {
                                index: d->new_index,
                                value: state.arr[i as int],
                                from: Some(i),
                            },
                        ),
                        ..state
                    },
                )
            } else {
                Err(PatchFailure::InvalidPatch(misplaced_at_old_text()))
            }
        },
    }
}

/// The operations from the `k`-th on are taken up, the last one first: so
/// the keys of the new array come before those of the old one, and the
/// positions of each kind fall. Removing at falling positions leaves the
/// positions still to come in place.
pub open spec fn collect_ops(
    entries: Seq<(ArrayDeltaIndex, DeltaView)>,
    items: Seq<JsonView>,
    k: int,
) -> Result<ArrayPatching, PatchFailure>
    decreases entries.len() - k,
{
    if k < 0 || k >= entries.len() {
        Ok(ArrayPatching { arr: items, inserts: Seq::empty(), mods: Seq::empty() })
    } else {
        match collect_ops(entries, items, k + 1) {
            Ok(state) => take_op(state, items.len(), entries[k].0, entries[k].1),
            Err(e) => Err(e),
        }
    }
}

/// `x` is put into a sequence sorted by position, behind every element of
/// the same or a lower position.
pub open spec fn insert_sorted(sorted: Seq<Insertion>, x: Insertion) -> Seq<Insertion>
    decreases sorted.len(),
{
    if sorted.len() == 0 {
        seq![x]
    } else if sorted.last().index <= x.index {
        sorted.push(x)
    } else {
        insert_sorted(sorted.drop_last(), x).push(sorted.last())
    }
}

/// The insertions sorted by position; those of one position stay in the
/// order in which they were met.
pub open spec fn sort_insertions(inserts: Seq<Insertion>) -> Seq<Insertion>
    decreases inserts.len(),
{
    if inserts.len() == 0 {
        Seq::empty()
    } else {
        insert_sorted(sort_insertions(inserts.drop_last()), inserts.last())
    }
}

/// The error of an insertion at a position beyond the end of the array.
pub open spec fn insertion_failure(x: Insertion, length: nat) -> PatchFailure {
    match x.from {
        Some(from) => PatchFailure::IndexOutOfBoundsMove {
            from,
            to: x.index,
            length: length as usize,
        },
        None => PatchFailure::IndexOutOfBoundsInsert { index: x.index, length: length as usize },
    }
}

/// The insertions from the `k`-th on are made, one after the other. Each
/// must lie within the array as it then is, or at its end.
pub open spec fn apply_insertions(arr: Seq<JsonView>, sorted: Seq<Insertion>, k: int) -> Result<
    Seq<JsonView>,
    PatchFailure,
>
    decreases sorted.len() - k,
{
    if k < 0 || k >= sorted.len() {
        Ok(arr)
    } else if sorted[k].index > arr.len() {
        Err(insertion_failure(sorted[k], arr.len()))
    } else {
        apply_insertions(arr.insert(sorted[k].index as int, sorted[k].value), sorted, k + 1)
    }
}

/// The errors of the first of the patches in place, from the `t`-th on,
/// that fails; `None` where none fails.
pub open spec fn first_failure(
    mods: Seq<usize>,
    outcomes: Map<ArrayDeltaIndex, Patched>,
    t: int,
) -> Option<Set<PatchFailure>>
    decreases mods.len() - t,
{
    if t < 0 || t >= mods.len() {
        None
    } else {
        match outcomes[ArrayDeltaIndex::NewOrModified(mods[t])] {
            Patched::Failure(errors) => Some(errors),
            _ => first_failure(mods, outcomes, t + 1),
        }
    }
}

/// The values that the patches in place yielded, from the `t`-th on, are
/// put into the array, each at its position, which must lie within the
/// array.
pub open spec fn place_results(
    arr: Seq<JsonView>,
    mods: Seq<usize>,
    outcomes: Map<ArrayDeltaIndex, Patched>,
    t: int,
) -> Result<Seq<JsonView>, PatchFailure>
    decreases mods.len() - t,
{
    if t < 0 || t >= mods.len() {
        Ok(arr)
    } else {
        match outcomes[ArrayDeltaIndex::NewOrModified(mods[t])] {
            Patched::Value(v) => {
                if mods[t] < arr.len() {
                    place_results(arr.update(mods[t] as int, v), mods, outcomes, t + 1)
                } else {
                    Err(
                        PatchFailure::IndexOutOfBoundsModify {
                            index: mods[t],
                            length: arr.len() as usize,
                        },
                    )
                }
            },
            _ => place_results(arr, mods, outcomes, t + 1),
        }
    }
}

/// The array after the removals and the insertions of an array delta, with
/// the positions that are still to be patched in place.
pub open spec fn rearranged(items: Seq<JsonView>, ops: Map<ArrayDeltaIndex, DeltaView>) -> Result<
    (Seq<JsonView>, Seq<usize>),
    PatchFailure,
> {
    match collect_ops(sorted_entries(ops), items, 0) {
        Ok(state) => match apply_insertions(state.arr, sort_insertions(state.inserts), 0) {
            Ok(arr) => Ok((arr, state.mods)),
            Err(e) => Err(e),
        },
        Err(e) => Err(e),
    }
}

/// What an array delta makes of an array. `outcomes` holds, for each key
/// under which a delta patches an element in place, what that delta makes of
/// the element.
///
/// The removals come first, from the highest position down; then the
/// insertions, from the lowest position up; then the patches in place.
pub open spec fn array_patch(
    items: Seq<JsonView>,
    ops: Map<ArrayDeltaIndex, DeltaView>,
    outcomes: Map<ArrayDeltaIndex, Patched>,
) -> Patched {
    match rearranged(items, ops) {
        Ok((arr, mods)) => match first_failure(mods, outcomes, 0) {
            Some(errors) => Patched::Failure(errors),
            None => match place_results(arr, mods, outcomes, 0) {
                Ok(patched) => Patched::Value(JsonView::Array(patched)),
                Err(e) => Patched::Failure(set![e]),
            },
        },
        Err(e) => Patched::Failure(set![e]),
    }
}

/// What the delta under `key` of an array delta makes of the element that
/// it patches in place: the element of the array, as it was, at the position
/// of the key.
pub open spec fn element_outcome(l: JsonView, d: DeltaView, key: ArrayDeltaIndex) -> Patched
    decreases d, 0nat,
{
    match (l, d) {
        (JsonView::Array(items), DeltaView::Array(ops)) => {
            if ops.contains_key(key) && key.spec_index() < items.len() {
                patch_spec(items[key.spec_index() as int], ops[key])
            } else {
                Patched::Absent
            }
        },
        _ => Patched::Absent,
    }
}

/// What the deltas of an array delta that patch elements in place make of
/// their elements, by key.
pub open spec fn element_outcomes(l: JsonView, d: DeltaView) -> Map<ArrayDeltaIndex, Patched>
    decreases d, 1nat,
{
    Map::new(
        |key: ArrayDeltaIndex| d->Array_0.contains_key(key),
        |key: ArrayDeltaIndex| element_outcome(l, d, key),
    )
}

/// What the delta under `key` of an object delta makes of the member under
/// that key; an absent member counts as null.
pub open spec fn member_outcome(l: JsonView, d: DeltaView, key: Seq<char>) -> Patched
    decreases d, 0nat,
{
    match d {
        DeltaView::Object(changes) => {
            if changes.contains_key(key) {
                patch_spec(l.get_or_null(key), changes[key])
            } else {
                Patched::Absent
            }
        },
        _ => Patched::Absent,
    }
}

/// The errors that the members of an object delta can fail with.
pub open spec fn member_failures(l: JsonView, d: DeltaView) -> Set<PatchFailure>
    decreases d, 1nat,
{
    Set::new(
        |f: PatchFailure|
            exists|key: Seq<char>|
                #[trigger] d->Object_0.contains_key(key) && member_outcome(l, d, key) is Failure
                    && member_outcome(l, d, key)->Failure_0.contains(f),
    )
}

/// The members of an object after an object delta: a member that the delta
/// does not name stays; one that it names takes the value that its delta
/// yields, and goes where that delta yields none.
pub open spec fn patched_members(l: JsonView, d: DeltaView) -> Map<Seq<char>, JsonView>
    decreases d, 1nat,
{
    Map::new(
        |key: Seq<char>|
            if d->Object_0.contains_key(key) {
                member_outcome(l, d, key) is Value
            } else {
                l->Object_0.contains_key(key)
            },
        |key: Seq<char>|
            if d->Object_0.contains_key(key) {
                member_outcome(l, d, key)->Value_0
            } else {
                l->Object_0[key]
            },
    )
}

/// What applying the delta `d` to the value `l` yields.
pub open spec fn patch_spec(l: JsonView, d: DeltaView) -> Patched
    decreases d, 2nat,
{
    match d {
        DeltaView::Unchanged => Patched::Value(l),
        DeltaView::Added(v) => Patched::Value(v),
        DeltaView::Modified(_, r) => Patched::Value(r),
        DeltaView::Deleted(_) => Patched::Absent,
        DeltaView::Moved { .. } => Patched::Failure(
            set![PatchFailure::InternalPatchLogicError(stray_move_text())],
        ),
        DeltaView::TextDiff(p) => match l {
            JsonView::String(s) => match patched_text(p, s) {
                Some(t) => Patched::Value(JsonView::String(t)),
                None => Patched::Failure(set![PatchFailure::ApplyTextDiffFailed]),
            },
            _ => Patched::Failure(set![PatchFailure::InvalidPatchToTarget { patch: "text diff"@ }]),
        },
        DeltaView::Object(changes) => match l {
            JsonView::Object(_) => {
                if exists|key: Seq<char>|
                    #[trigger] changes.contains_key(key) && member_outcome(l, d, key) is Failure {
                    Patched::Failure(member_failures(l, d))
                } else {
                    Patched::Value(JsonView::Object(patched_members(l, d)))
                }
            },
            _ => Patched::Failure(set![PatchFailure::InvalidPatchToTarget { patch: "object"@ }]),
        },
        DeltaView::Array(ops) => match l {
            JsonView::Array(items) => array_patch(items, ops, element_outcomes(l, d)),
            _ => Patched::Failure(set![PatchFailure::InvalidPatchToTarget { patch: "array"@ }]),
        },
    }
}

} // verus!
