//! What the reversal of a delta is.

use crate::types::{ArrayDeltaIndex, DeltaView};
use crate::unidiff::reversed_text;
use vstd::prelude::*;

verus! {

/// An operation of a reversed array delta: its key and its delta.
pub struct ReversedOp {
    pub key: ArrayDeltaIndex,
    pub delta: DeltaView,
}

/// The reversed operation of an array delta. `c` stands under `key`, and
/// `reversed` is the reversal of `c` where `c` is no move.
///
/// A move from one position to another becomes the move back. An addition
/// becomes a deletion at the same position of the other array and the other
/// way round. A delta that changes an element in place keeps its key.
/// A move under a key of the new array has no reversal.
pub open spec fn reversed_op(key: ArrayDeltaIndex, c: DeltaView, reversed: Option<DeltaView>) -> Option<
    ReversedOp,
> {
    match c {
        DeltaView::Moved { moved_value, new_index } => match key {
            ArrayDeltaIndex::RemovedOrMoved(i) => Some(
                ReversedOp {
                    key: ArrayDeltaIndex::RemovedOrMoved(new_index),
                    delta: DeltaView::Moved { moved_value, new_index: i },
                },
            ),
            ArrayDeltaIndex::NewOrModified(_) => None,
        },
        _ => match reversed {
            Some(r) => Some(
                ReversedOp {
                    key: if r is Added {
                        ArrayDeltaIndex::NewOrModified(key.spec_index())
                    } else if r is Deleted {
                        ArrayDeltaIndex::RemovedOrMoved(key.spec_index())
                    } else {
                        key
                    },
                    delta: r,
                },
            ),
            None => None,
        },
    }
}

/// The reversal of the delta under `key` of an array delta.
pub open spec fn element_reverse(d: DeltaView, key: ArrayDeltaIndex) -> Option<DeltaView>
    decreases d, 0nat,
{
    match d {
        DeltaView::Array(ops) => if ops.contains_key(key) {
            reverse_spec(ops[key])
        } else {
            None
        },
        _ => None,
    }
}

/// The reversal of the delta under `key` of an object delta.
pub open spec fn member_reverse(d: DeltaView, key: Seq<char>) -> Option<DeltaView>
    decreases d, 0nat,
{
    match d {
        DeltaView::Object(changes) => if changes.contains_key(key) {
            reverse_spec(changes[key])
        } else {
            None
        },
        _ => None,
    }
}

/// The reversals of the deltas of the members of an object delta.
pub open spec fn reversed_members(d: DeltaView) -> Map<Seq<char>, DeltaView>
    decreases d, 1nat,
{
    Map::new(
        |key: Seq<char>| d->Object_0.contains_key(key),
        |key: Seq<char>| member_reverse(d, key)->0,
    )
}

/// The reversed operation of the entry under `key` of an array delta.
pub open spec fn reversed_entry(d: DeltaView, key: ArrayDeltaIndex) -> Option<ReversedOp>
    decreases d, 1nat,
{
    reversed_op(key, d->Array_0[key], element_reverse(d, key))
}

/// The reversal of an array delta: its operations reversed, where each has
/// a reversal and no two of them come to stand under one key.
pub open spec fn reversed_ops(d: DeltaView) -> Option<Map<ArrayDeltaIndex, DeltaView>>
    decreases d, 2nat,
{
    let ops = d->Array_0;
    if exists|key: ArrayDeltaIndex| #[trigger] ops.contains_key(key) && reversed_entry(d, key) is None {
        None
    } else if exists|a: ArrayDeltaIndex, b: ArrayDeltaIndex|
        #[trigger] ops.contains_key(a) && #[trigger] ops.contains_key(b) && a != b
            && reversed_entry(d, a)->0.key == reversed_entry(d, b)->0.key {
        None
    } else {
        Some(
            Map::new(
                |to: ArrayDeltaIndex|
                    exists|key: ArrayDeltaIndex|
                        #[trigger] ops.contains_key(key) && reversed_entry(d, key)->0.key == to,
                |to: ArrayDeltaIndex|
                    {
                        let key = choose|key: ArrayDeltaIndex|
                            #[trigger] ops.contains_key(key) && reversed_entry(d, key)->0.key == to;
                        reversed_entry(d, key)->0.delta
                    },
            ),
        )
    }
}

/// The reversal of a delta: the delta that undoes it. `None` where a move
/// stands where it cannot be inverted.
pub open spec fn reverse_spec(d: DeltaView) -> Option<DeltaView>
    decreases d, 3nat,
{
    match d {
        DeltaView::Added(v) => Some(DeltaView::Deleted(v)),
        DeltaView::Deleted(v) => Some(DeltaView::Added(v)),
        DeltaView::Modified(l, r) => Some(DeltaView::Modified(r, l)),
        DeltaView::Unchanged => Some(DeltaView::Unchanged),
        DeltaView::TextDiff(p) => Some(DeltaView::TextDiff(reversed_text(p))),
        DeltaView::Moved { .. } => None,
        DeltaView::Object(changes) => {
            if exists|key: Seq<char>| #[trigger] changes.contains_key(key) && member_reverse(d, key) is None {
                None
            } else {
                Some(DeltaView::Object(reversed_members(d)))
            }
        },
        DeltaView::Array(_) => match reversed_ops(d) {
            Some(ops) => Some(DeltaView::Array(ops)),
            None => None,
        },
    }
}

} // verus!
