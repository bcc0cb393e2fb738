//! The reverse pipeline: one step inverts a delta. Beside it stands the
//! reversal of a delta in one go, `Delta::build_reverse`.

use crate::context::patch::{DeltaIndicator, DeltaWithLeftover};
use crate::context::reverse::{
    fresh_reverse, holds_reverse, is_reverse_child, same_delta, ReverseContext,
};
use crate::context::FilterContext;
use crate::errors::{JsonDiffPatchError, JsonDiffPatchReverseError};
use crate::filters::nested::CollectionChildrenReverseFilter;
use crate::filters::objects::ObjectsReverseFilter;
use crate::filters::texts::TextsReverseFilter;
use crate::processor::Pipeline;
use crate::semantics::wire::index_name;
use crate::json::{distinct_keys, has_key, key_index};
use crate::semantics::reverse::{
    element_reverse, member_reverse, reverse_spec, reversed_entry, reversed_members, reversed_ops,
    ReversedOp,
};
use crate::types::{
    delta_members, delta_ops, distinct_ops, find_op, lemma_delta_member_sizes, lemma_delta_members,
    lemma_delta_op_sizes, lemma_delta_ops, op_index, ArrayDeltaIndex, Delta, DeltaView,
};
use crate::unidiff::reverse_patch;
use vstd::prelude::*;

verus! {

/// What a reversal returns, against the reversal of the model: the reversed
/// delta, or the error where there is none.
pub open spec fn found_reversed(
    found: Result<Delta, JsonDiffPatchReverseError>,
    wanted: Option<DeltaView>,
) -> bool {
    match wanted {
        Some(d) => found matches Ok(reversed) && reversed@ == d && reversed.wf(),
        None => found is Err,
    }
}

/// The key under which the reversal `reversed` of an operation that is no
/// move comes to stand, the operation standing under `key`.
pub fn reversed_key(key: ArrayDeltaIndex, reversed: &Delta) -> (r: ArrayDeltaIndex)
    ensures
        r == (if reversed@ is Added {
            ArrayDeltaIndex::NewOrModified(key.spec_index())
        } else if reversed@ is Deleted {
            ArrayDeltaIndex::RemovedOrMoved(key.spec_index())
        } else {
            key
        }),
{
    match reversed {
        Delta::Added(_) => ArrayDeltaIndex::NewOrModified(key.index()),
        Delta::Deleted(_) => ArrayDeltaIndex::RemovedOrMoved(key.index()),
        _ => key,
    }
}

/// The reversed operations of an array delta are its reversal, where each
/// operation has one and no two come to stand under one key.
pub proof fn lemma_reversed_ops(
    d: DeltaView,
    given: Seq<(ArrayDeltaIndex, Delta)>,
    out: Seq<(ArrayDeltaIndex, Delta)>,
)
    requires
        d == DeltaView::Array(delta_ops(given)),
        distinct_ops(given),
        distinct_ops(out),
        out.len() == given.len(),
        forall|j: int|
            0 <= j < given.len() ==> reversed_entry(d, (#[trigger] given[j]).0) == Some(
                ReversedOp { key: out[j].0, delta: out[j].1@ },
            ),
    ensures
        reversed_ops(d) == Some(delta_ops(out)),
{
    let ops = delta_ops(given);
    lemma_delta_ops(given);
    lemma_delta_ops(out);
    assert forall|key: ArrayDeltaIndex| #[trigger] ops.contains_key(key) implies !(reversed_entry(
        d,
        key,
    ) is None) by {
        let j = op_index(given, key);
        assert(given[j].0 == key);
    }
    assert forall|a: ArrayDeltaIndex, b: ArrayDeltaIndex|
        #[trigger] ops.contains_key(a) && #[trigger] ops.contains_key(b) && a != b implies reversed_entry(
        d,
        a,
    )->0.key != reversed_entry(d, b)->0.key by {
        let ja = op_index(given, a);
        let jb = op_index(given, b);
        assert(given[ja].0 == a && given[jb].0 == b);
        assert(out[ja].0 != out[jb].0);
    }
    let wanted = reversed_ops(d)->0;
    let made = delta_ops(out);
    assert forall|to: ArrayDeltaIndex| made.contains_key(to) <==> wanted.contains_key(to) by {
        if made.contains_key(to) {
            let j = op_index(out, to);
            assert(ops.contains_key(given[j].0));
            assert(reversed_entry(d, given[j].0)->0.key == to);
        }
        if wanted.contains_key(to) {
            let key = choose|key: ArrayDeltaIndex|
                #[trigger] ops.contains_key(key) && reversed_entry(d, key)->0.key == to;
            let j = op_index(given, key);
            assert(given[j].0 == key);
            assert(out[j].0 == to);
        }
    }
    assert forall|to: ArrayDeltaIndex| made.contains_key(to) implies made[to] == wanted[to] by {
        let key = choose|key: ArrayDeltaIndex|
            #[trigger] ops.contains_key(key) && reversed_entry(d, key)->0.key == to;
        let j = op_index(given, key);
        assert(given[j].0 == key);
        assert(out[j].0 == to);
        assert(made[out[j].0] == out[j].1@);
    }
    assert(made =~= wanted);
}

impl Delta {
    /// The delta that undoes `self`.
    ///
    /// An addition becomes a deletion and the other way round, and a
    /// replacement swaps its two values. An object delta reverses the delta
    /// of each member. An array delta reverses each operation: an addition
    /// at a position of the new array becomes a deletion at that position
    /// of the old array and the other way round, and a move becomes the
    /// move back. A text diff becomes the text diff that undoes it. A move
    /// outside an array delta, or under a key of the new array, or onto a
    /// position that another reversed operation takes, has no reversal.
    pub fn build_reverse(self) -> (r: Result<Delta, JsonDiffPatchReverseError>)
        requires
            self.wf(),
        ensures
            found_reversed(r, reverse_spec(self@)),
        decreases self.size(),
    {
        let ghost d = self@;
        match self {
            Delta::Added(new_value) => Ok(Delta::Deleted(new_value)),
            Delta::Modified(old_value, new_value) => Ok(Delta::Modified(new_value, old_value)),
            Delta::Deleted(deleted) => Ok(Delta::Added(deleted)),
            Delta::Unchanged => Ok(Delta::Unchanged),
            Delta::Moved { .. } => Err(JsonDiffPatchReverseError::InvalidMoveDelta),
            Delta::TextDiff(uni_diff) => Ok(Delta::TextDiff(reverse_patch(uni_diff.as_str()))),
            Delta::Object(object) => {
                let ghost given = object@;
                let ghost changes = delta_members(given);
                proof {
                    lemma_delta_members(given);
                }
                let mut rest = object;
                let mut out: Vec<(String, Delta)> = Vec::new();
                let n = rest.len();
                let mut i: usize = 0;
                while i < n
                    invariant
                        0 <= i <= n,
                        n == given.len(),
                        rest@.len() == n,
                        d == DeltaView::Object(changes),
                        changes == delta_members(given),
                        self == Delta::Object(object),
                        given == object@,
                        distinct_keys(given),
                        forall|j: int| 0 <= j < given.len() ==> (#[trigger] given[j]).1.wf(),
                        forall|j: int|
                            0 <= j < given.len() ==> changes.contains_key((#[trigger] given[j]).0@)
                                && changes[given[j].0@] == given[j].1@,
                        forall|j: int| i <= j < n ==> #[trigger] rest@[j] == given[j],
                        out@.len() == i,
                        forall|j: int|
                            0 <= j < i ==> (#[trigger] out@[j]).0@ == given[j].0@ && reverse_spec(
                                given[j].1@,
                            ) == Some(out@[j].1@) && out@[j].1.wf(),
                    decreases n - i,
                {
                    let mut entry = (String::new(), Delta::Unchanged);
                    proof {
                        assert(rest@[i as int] == given[i as int]);
                        lemma_delta_member_sizes(given, i as int);
                    }
                    std::mem::swap(&mut rest[i], &mut entry);
                    let (key, value) = entry;
                    match value.build_reverse() {
                        Ok(reversed) => {
                            out.push((key, reversed));
                        },
                        Err(e) => {
                            proof {
                                assert(changes.contains_key(given[i as int].0@));
                                assert(member_reverse(d, given[i as int].0@) is None);
                            }
                            return Err(e);
                        },
                    }
                    i += 1;
                }
                proof {
                    lemma_delta_members(given);
                    assert forall|key: Seq<char>| #[trigger] changes.contains_key(key) implies !(
                    member_reverse(d, key) is None) by {
                        assert(has_key(given, key));
                        let j = key_index(given, key);
                        assert(given[j].0@ == key);
                        assert(changes[given[j].0@] == given[j].1@);
                        assert(reverse_spec(given[j].1@) == Some(out@[j].1@));
                    }
                    assert forall|a: int, b: int|
                        0 <= a < out@.len() && 0 <= b < out@.len() && a != b implies (
                    #[trigger] out@[a]).0@ != (#[trigger] out@[b]).0@ by {
                        assert(given[a].0@ != given[b].0@);
                    }
                    lemma_delta_members(out@);
                    let made = delta_members(out@);
                    let wanted = reversed_members(d);
                    assert forall|key: Seq<char>| made.contains_key(key) <==> wanted.contains_key(
                        key,
                    ) by {
                        if has_key(out@, key) {
                            let j = key_index(out@, key);
                            assert(given[j].0@ == key);
                        }
                        if has_key(given, key) {
                            let j = key_index(given, key);
                            assert(out@[j].0@ == key);
                        }
                    }
                    assert forall|key: Seq<char>| made.contains_key(key) implies made[key]
                        == wanted[key] by {
                        let j = key_index(out@, key);
                        assert(made[out@[j].0@] == out@[j].1@);
                        assert(given[j].0@ == key);
                        assert(changes[given[j].0@] == given[j].1@);
                        assert(reverse_spec(given[j].1@) == Some(out@[j].1@));
                    }
                    assert(made =~= wanted);
                }
                Ok(Delta::Object(out))
            },
            Delta::Array(array) => {
                let ghost given = array@;
                let ghost ops = delta_ops(given);
                proof {
                    lemma_delta_ops(given);
                }
                let mut rest = array;
                let mut out: Vec<(ArrayDeltaIndex, Delta)> = Vec::new();
                let n = rest.len();
                let mut i: usize = 0;
                while i < n
                    invariant
                        0 <= i <= n,
                        n == given.len(),
                        rest@.len() == n,
                        d == DeltaView::Array(ops),
                        ops == delta_ops(given),
                        self == Delta::Array(array),
                        given == array@,
                        distinct_ops(given),
                        distinct_ops(out@),
                        forall|j: int| 0 <= j < given.len() ==> (#[trigger] given[j]).1.wf(),
                        forall|j: int|
                            0 <= j < given.len() ==> ops.contains_key((#[trigger] given[j]).0)
                                && ops[given[j].0] == given[j].1@,
                        forall|j: int| i <= j < n ==> #[trigger] rest@[j] == given[j],
                        out@.len() == i,
                        forall|j: int|
                            0 <= j < i ==> reversed_entry(d, (#[trigger] given[j]).0) == Some(
                                ReversedOp { key: out@[j].0, delta: out@[j].1@ },
                            ),
                        forall|j: int| 0 <= j < i ==> (#[trigger] out@[j]).1.wf(),
                    decreases n - i,
                {
                    let mut entry = (ArrayDeltaIndex::NewOrModified(0), Delta::Unchanged);
                    proof {
                        assert(rest@[i as int] == given[i as int]);
                        lemma_delta_op_sizes(given, i as int);
                        assert(ops.contains_key(given[i as int].0));
                    }
                    std::mem::swap(&mut rest[i], &mut entry);
                    let (key, value) = entry;
                    let ghost out_before = out@;
                    let reversed: (ArrayDeltaIndex, Delta) = match value {
                        Delta::Moved { moved_value, new_index } => match key {
                            ArrayDeltaIndex::RemovedOrMoved(from) => (
                                ArrayDeltaIndex::RemovedOrMoved(new_index),
                                Delta::Moved { moved_value, new_index: from },
                            ),
                            ArrayDeltaIndex::NewOrModified(_) => {
                                proof {
                                    assert(reversed_entry(d, key) is None);
                                }
                                return Err(JsonDiffPatchReverseError::InvalidMoveDelta);
                            },
                        },
                        other => match other.build_reverse() {
                            Ok(r) => (reversed_key(key, &r), r),
                            Err(e) => {
                                proof {
                                    assert(reversed_entry(d, key) is None);
                                }
                                return Err(e);
                            },
                        },
                    };
                    proof {
                        assert(reversed_entry(d, key) == Some(
                            ReversedOp { key: reversed.0, delta: reversed.1@ },
                        ));
                    }
                    match find_op(&out, reversed.0) {
                        Some(at) => {
                            proof {
                                assert(ops.contains_key(given[at as int].0));
                                assert(given[at as int].0 != key);
                                assert(reversed_entry(d, given[at as int].0)->0.key
                                    == reversed_entry(d, key)->0.key);
                            }
                            return Err(JsonDiffPatchReverseError::InvalidMoveDelta);
                        },
                        None => {},
                    }
                    out.push(reversed);
                    proof {
                        assert forall|a: int, b: int|
                            0 <= a < out@.len() && 0 <= b < out@.len() && a != b implies (
                        #[trigger] out@[a]).0 != (#[trigger] out@[b]).0 by {
                            if a < i && b < i {
                                assert(out@[a] == out_before[a] && out@[b] == out_before[b]);
                            } else if a < i {
                                assert(out@[a] == out_before[a]);
                            } else {
                                assert(out@[b] == out_before[b]);
                            }
                        }
                        assert forall|j: int| 0 <= j < i + 1 implies reversed_entry(
                            d,
                            (#[trigger] given[j]).0,
                        ) == Some(ReversedOp { key: out@[j].0, delta: out@[j].1@ }) by {
                            if j < i {
                                assert(out@[j] == out_before[j]);
                            }
                        }
                        assert forall|j: int| 0 <= j < i + 1 implies (#[trigger] out@[j]).1.wf() by {
                            if j < i {
                                assert(out@[j] == out_before[j]);
                            }
                        }
                    }
                    i += 1;
                }
                proof {
                    lemma_reversed_ops(d, given, out@);
                }
                Ok(Delta::Array(out))
            },
        }
    }
}

/// The children emitted for an object delta: one for each entry, in order,
/// named by its key and made for its delta.
pub open spec fn emits_member_reversals(
    parent: ReverseContext,
    entries: Seq<(String, Delta)>,
    emitted: Seq<(String, ReverseContext)>,
) -> bool {
    &&& emitted.len() == entries.len()
    &&& forall|j: int|
        0 <= j < entries.len() ==> (#[trigger] emitted[j]).0@ == entries[j].0@ && is_reverse_child(
            emitted[j].1,
            parent,
            entries[j].1@,
        )
}

/// The state after the first step on an array delta. The slot holds the
/// operations with their keys, of which only the moves have kept their
/// deltas. One child is emitted for each operation, in order, named by its
/// key: that of a move is made for "no change", any other for the delta of
/// the operation.
pub open spec fn emits_element_reversals(
    parent: ReverseContext,
    ops: Seq<(ArrayDeltaIndex, Delta)>,
    kept: Seq<(ArrayDeltaIndex, Delta)>,
    emitted: Seq<(String, ReverseContext)>,
) -> bool {
    &&& emitted.len() == ops.len()
    &&& kept.len() == ops.len()
    &&& forall|j: int| 0 <= j < ops.len() ==> keeps_op(#[trigger] kept[j], ops[j])
    &&& forall|j: int|
        0 <= j < ops.len() ==> (#[trigger] emitted[j]).0@ == index_name(ops[j].0)
            && is_reverse_child(
            emitted[j].1,
            parent,
            if ops[j].1 is Moved {
                DeltaView::Unchanged
            } else {
                ops[j].1@
            },
        )
}

/// What the slot keeps of an operation: its key, and its delta where it is
/// a move.
pub open spec fn keeps_op(kept: (ArrayDeltaIndex, Delta), op: (ArrayDeltaIndex, Delta)) -> bool {
    &&& kept.0 == op.0
    &&& if op.1 is Moved {
        kept.1@ == op.1@ && kept.1.wf()
    } else {
        kept.1 is Unchanged
    }
}

pub struct ReversePipeline;

impl Pipeline<ReverseContext> for ReversePipeline {
    /// A run starts on a context that nothing has worked on, with a
    /// well-formed delta.
    open spec fn ready(&self, ctx: ReverseContext) -> bool {
        fresh_reverse(ctx)
    }

    open spec fn rank(&self, ctx: ReverseContext) -> nat {
        match ctx.delta {
            DeltaWithLeftover::Delta(delta) => delta.size(),
            DeltaWithLeftover::Leftover(_) => 0,
        }
    }

    /// After the first step the delta has been taken out of the context.
    /// For an object or array delta the children wait; any other delta has
    /// been reversed.
    open spec fn processed(
        &self,
        before: ReverseContext,
        now: ReverseContext,
        emitted: Seq<(String, ReverseContext)>,
    ) -> bool {
        &&& fresh_reverse(before)
        &&& same_delta(before, now)
        &&& now.delta == DeltaWithLeftover::Leftover(DeltaIndicator::of(before.delta->Delta_0))
        &&& match before.delta->Delta_0 {
            Delta::Object(entries) => now.context_data.result is None && emits_member_reversals(
                before,
                entries@,
                emitted,
            ),
            Delta::Array(ops) => now.context_data.result is Some && now.context_data.result->0
                is Array && emits_element_reversals(
                before,
                ops@,
                now.context_data.result->0->Array_0@,
                emitted,
            ),
            _ => holds_reverse(now) && emitted.len() == 0,
        }
    }

    /// After a run, the slot holds the reversal of the delta.
    open spec fn done(&self, before: ReverseContext, after: ReverseContext) -> bool {
        same_delta(before, after) && holds_reverse(after)
    }

    /// A reversal fails where the delta has none; the error says that the
    /// patch is invalid.
    open spec fn failed(&self, before: ReverseContext, error: JsonDiffPatchError) -> bool {
        reverse_spec(before.given@) is None && error is InvalidPatch
    }

    proof fn child_failure(
        &self,
        before: ReverseContext,
        now: ReverseContext,
        emitted: Seq<(String, ReverseContext)>,
        children: Seq<(String, ReverseContext)>,
        i: int,
        error: JsonDiffPatchError,
    ) {
        let d = before.given@;
        match before.delta->Delta_0 {
            Delta::Object(entries) => {
                lemma_delta_members(entries@);
                assert(before.delta->Delta_0.wf());
                assert(distinct_keys(entries@));
                let key = entries@[i].0@;
                assert(delta_members(entries@).contains_key(key));
                assert(delta_members(entries@)[entries@[i].0@] == entries@[i].1@);
                assert(is_reverse_child(emitted[i].1, before, entries@[i].1@));
                assert(member_reverse(d, key) is None);
            },
            Delta::Array(ops) => {
                lemma_delta_ops(ops@);
                assert(before.delta->Delta_0.wf());
                assert(distinct_ops(ops@));
                let key = ops@[i].0;
                assert(delta_ops(ops@).contains_key(key));
                assert(delta_ops(ops@)[ops@[i].0] == ops@[i].1@);
                assert(is_reverse_child(
                    emitted[i].1,
                    before,
                    if ops@[i].1 is Moved {
                        DeltaView::Unchanged
                    } else {
                        ops@[i].1@
                    },
                ));
                assert(!(ops@[i].1 is Moved));
                assert(element_reverse(d, key) is None);
                assert(reversed_entry(d, key) is None);
            },
            _ => {},
        }
    }

    fn filter_name(&self) -> (r: &str)
        ensures
            r@ == "reverse-pipeline"@,
    {
        "reverse-pipeline"
    }

    /// The first step of a reversal. An addition, a deletion, a
    /// replacement and a text diff are reversed at once. A move outside an
    /// array delta has no reversal. For an object delta a child is emitted
    /// for each entry. For an array delta a child is emitted for each
    /// operation, and the moves are kept in the slot for the step after the
    /// children.
    fn process(
        &self,
        context: &mut ReverseContext,
        new_children_context: &mut Vec<(String, ReverseContext)>,
    ) -> (r: Result<(), JsonDiffPatchError>) {
        let ghost before = *context;
        let options = *context.options();
        let delta = context.take_delta();
        match delta {
            Delta::Added(new_value) => {
                context.set_result(Delta::Deleted(new_value)).exit();
                Ok(())
            },
            Delta::Deleted(old_value) => {
                context.set_result(Delta::Added(old_value)).exit();
                Ok(())
            },
            Delta::Modified(from, to) => {
                context.set_result(Delta::Modified(to, from)).exit();
                Ok(())
            },
            Delta::Unchanged => {
                context.set_result(Delta::Unchanged).exit();
                Ok(())
            },
            Delta::TextDiff(text_diff) => {
                TextsReverseFilter.process(context, text_diff);
                Ok(())
            },
            Delta::Moved { .. } => Err(
                JsonDiffPatchError::InvalidPatch(
                    "a move cannot be reversed outside an array delta".to_owned(),
                ),
            ),
            Delta::Object(object_delta) => {
                ObjectsReverseFilter.process(context, object_delta, new_children_context);
                Ok(())
            },
            Delta::Array(array_delta) => {
                let ghost given = array_delta@;
                let mut rest = array_delta;
                let mut kept: Vec<(ArrayDeltaIndex, Delta)> = Vec::new();
                let n = rest.len();
                let mut i: usize = 0;
                while i < n
                    invariant
                        0 <= i <= n,
                        n == given.len(),
                        rest@.len() == n,
                        before.delta == DeltaWithLeftover::Delta(Delta::Array(array_delta)),
                        given == array_delta@,
                        before.context_data.options == options,
                        forall|j: int| 0 <= j < given.len() ==> (#[trigger] given[j]).1.wf(),
                        forall|j: int| i <= j < n ==> #[trigger] rest@[j] == given[j],
                        new_children_context@.len() == i,
                        kept@.len() == i,
                        forall|j: int| 0 <= j < i ==> keeps_op(#[trigger] kept@[j], given[j]),
                        forall|j: int|
                            0 <= j < i ==> (#[trigger] new_children_context@[j]).0@ == index_name(
                                given[j].0,
                            ) && is_reverse_child(
                                new_children_context@[j].1,
                                before,
                                if given[j].1 is Moved {
                                    DeltaView::Unchanged
                                } else {
                                    given[j].1@
                                },
                            ),
                    decreases n - i,
                {
                    let ghost children_before = new_children_context@;
                    let ghost kept_before = kept@;
                    let mut entry = (ArrayDeltaIndex::NewOrModified(0), Delta::Unchanged);
                    proof {
                        assert(rest@[i as int] == given[i as int]);
                        lemma_delta_op_sizes(given, i as int);
                    }
                    std::mem::swap(&mut rest[i], &mut entry);
                    let (key, value) = entry;
                    let name = key.serialize();
                    match value {
                        Delta::Moved { moved_value, new_index } => {
                            kept.push((key, Delta::Moved { moved_value, new_index }));
                            new_children_context.push(
                                (name, ReverseContext::new(Delta::Unchanged, options)),
                            );
                        },
                        other => {
                            kept.push((key, Delta::Unchanged));
                            new_children_context.push((name, ReverseContext::new(other, options)));
                        },
                    }
                    proof {
                        assert forall|j: int| 0 <= j < i + 1 implies keeps_op(
                            #[trigger] kept@[j],
                            given[j],
                        ) by {
                            if j < i {
                                assert(kept@[j] == kept_before[j]);
                            }
                        }
                        assert forall|j: int| 0 <= j < i + 1 implies (
                        #[trigger] new_children_context@[j]).0@ == index_name(given[j].0)
                            && is_reverse_child(
                            new_children_context@[j].1,
                            before,
                            if given[j].1 is Moved {
                                DeltaView::Unchanged
                            } else {
                                given[j].1@
                            },
                        ) by {
                            if j < i {
                                assert(new_children_context@[j] == children_before[j]);
                            }
                        }
                    }
                    i += 1;
                }
                context.set_result(Delta::Array(kept));
                Ok(())
            },
        }
    }

    /// The step after the children. For an object delta the reversals of
    /// the members are gathered under their keys. For an array delta each
    /// operation is reversed: a move becomes the move back, and any other
    /// operation takes the reversal that its child yielded and the key that
    /// goes with it; the step fails where two reversed operations come to
    /// stand under one key.
    fn post_process(
        &self,
        context: &mut ReverseContext,
        children_context: &mut Vec<(String, ReverseContext)>,
    ) -> (r: Result<(), JsonDiffPatchError>) {
        let ghost now = *context;
        let ghost children = children_context@;
        let ghost (before, emitted) = choose|
            before: ReverseContext,
            emitted: Seq<(String, ReverseContext)>,
        |
            {
                &&& #[trigger] self.processed(before, now, emitted)
                &&& emitted.len() == children.len()
                &&& forall|i: int|
                    0 <= i < emitted.len() ==> (#[trigger] emitted[i]).0 == children[i].0
                        && self.done(emitted[i].1, children[i].1)
            };
        let ghost d = now.given@;
        match context.peek_delta() {
            DeltaIndicator::Object => {
                let ghost given = before.delta->Delta_0->Object_0@;
                let ghost changes = delta_members(given);
                proof {
                    assert(before.delta->Delta_0 is Object);
                    lemma_delta_members(given);
                }
                proof {
                    assert(before.delta->Delta_0.wf());
                    assert(distinct_keys(given));
                    assert forall|j: int| 0 <= j < children.len() implies (#[trigger] children[j]).0@
                        == given[j].0@ && children[j].1.given@ == given[j].1@ && holds_reverse(
                        children[j].1,
                    ) by {
                        assert(emitted[j].0 == children[j].0);
                        assert(self.done(emitted[j].1, children[j].1));
                        assert(is_reverse_child(emitted[j].1, before, given[j].1@));
                    }
                }
                CollectionChildrenReverseFilter.post_process(context, children_context);
                let ghost out = context.context_data.result->0->Object_0;
                proof {
                    assert forall|j: int| 0 <= j < out@.len() implies (#[trigger] out@[j]).0@
                        == given[j].0@ && reverse_spec(given[j].1@) == Some(out@[j].1@)
                        && out@[j].1.wf() by {
                        assert(holds_reverse(children[j].1));
                    }
                }
                proof {
                    lemma_delta_members(given);
                    assert forall|key: Seq<char>| #[trigger] changes.contains_key(key) implies !(
                    member_reverse(d, key) is None) by {
                        assert(has_key(given, key));
                        let j = key_index(given, key);
                        assert(given[j].0@ == key);
                        assert(changes[given[j].0@] == given[j].1@);
                        assert(reverse_spec(given[j].1@) == Some(out@[j].1@));
                    }
                    assert forall|a: int, b: int|
                        0 <= a < out@.len() && 0 <= b < out@.len() && a != b implies (
                    #[trigger] out@[a]).0@ != (#[trigger] out@[b]).0@ by {
                        assert(given[a].0@ != given[b].0@);
                    }
                    lemma_delta_members(out@);
                    let made = delta_members(out@);
                    let wanted = reversed_members(d);
                    assert forall|key: Seq<char>| made.contains_key(key) <==> wanted.contains_key(
                        key,
                    ) by {
                        if has_key(out@, key) {
                            let j = key_index(out@, key);
                            assert(given[j].0@ == key);
                        }
                        if has_key(given, key) {
                            let j = key_index(given, key);
                            assert(out@[j].0@ == key);
                        }
                    }
                    assert forall|key: Seq<char>| made.contains_key(key) implies made[key]
                        == wanted[key] by {
                        let j = key_index(out@, key);
                        assert(made[out@[j].0@] == out@[j].1@);
                        assert(given[j].0@ == key);
                        assert(changes[given[j].0@] == given[j].1@);
                        assert(reverse_spec(given[j].1@) == Some(out@[j].1@));
                    }
                    assert(made =~= wanted);
                }
                proof {
                    let reversed = context.context_data.result->0;
                    assert(reversed == Delta::Object(out));
                    assert(reversed.wf());
                    assert(reverse_spec(d) == Some(reversed@));
                }
                Ok(())
            },
            DeltaIndicator::Array => {
                let ghost given = before.delta->Delta_0->Array_0@;
                let ghost ops = delta_ops(given);
                proof {
                    assert(before.delta->Delta_0 is Array);
                    lemma_delta_ops(given);
                }
                let ghost held = now.context_data.result->0->Array_0@;
                let mut kept: Vec<(ArrayDeltaIndex, Delta)> = match context.pop_result() {
                    Some(Delta::Array(kept)) => kept,
                    _ => {
                        proof {
                            assert(false);
                        }
                        Vec::new()
                    },
                };
                proof {
                    assert(before.delta->Delta_0.wf());
                    assert(distinct_ops(given));
                    assert(held.len() == given.len());
                    assert forall|j: int| 0 <= j < children.len() implies holds_reverse(
                        (#[trigger] children[j]).1,
                    ) && (!(given[j].1 is Moved) ==> children[j].1.given@ == given[j].1@) by {
                        assert(emitted[j].0 == children[j].0);
                        assert(self.done(emitted[j].1, children[j].1));
                        assert(is_reverse_child(
                            emitted[j].1,
                            before,
                            if given[j].1 is Moved {
                                DeltaView::Unchanged
                            } else {
                                given[j].1@
                            },
                        ));
                    }
                }
                let mut out: Vec<(ArrayDeltaIndex, Delta)> = Vec::new();
                let n = kept.len();
                let mut i: usize = 0;
                while i < n
                    invariant
                        0 <= i <= n,
                        n == given.len(),
                        n == children.len(),
                        kept@.len() == n,
                        children_context@.len() == n,
                        now == *old(context),
                        context.given == now.given,
                        context.context_data.options == now.context_data.options,
                        context.delta == now.delta,
                        d == DeltaView::Array(ops),
                        d == now.given@,
                        ops == delta_ops(given),
                        distinct_ops(given),
                        distinct_ops(out@),
                        forall|j: int|
                            0 <= j < given.len() ==> ops.contains_key((#[trigger] given[j]).0)
                                && ops[given[j].0] == given[j].1@,
                        forall|j: int| i <= j < n ==> #[trigger] children_context@[j] == children[j],
                        forall|j: int| i <= j < n ==> #[trigger] kept@[j] == held[j],
                        forall|j: int| 0 <= j < n ==> keeps_op(#[trigger] held[j], given[j]),
                        forall|j: int|
                            0 <= j < n ==> holds_reverse((#[trigger] children[j]).1) && (!(
                            given[j].1 is Moved) ==> children[j].1.given@ == given[j].1@),
                        out@.len() == i,
                        forall|j: int|
                            0 <= j < i ==> reversed_entry(d, (#[trigger] given[j]).0) == Some(
                                ReversedOp { key: out@[j].0, delta: out@[j].1@ },
                            ),
                        forall|j: int| 0 <= j < i ==> (#[trigger] out@[j]).1.wf(),
                    decreases n - i,
                {
                    let ghost out_before = out@;
                    let mut entry = (ArrayDeltaIndex::NewOrModified(0), Delta::Unchanged);
                    proof {
                        assert(kept@[i as int] == held[i as int]);
                        assert(keeps_op(held[i as int], given[i as int]));
                        assert(children_context@[i as int] == children[i as int]);
                        assert(holds_reverse(children[i as int].1));
                        assert(ops.contains_key(given[i as int].0));
                    }
                    std::mem::swap(&mut kept[i], &mut entry);
                    let (key, value) = entry;
                    let child_result = children_context[i].1.pop_result();
                    let reversed: (ArrayDeltaIndex, Delta) = match value {
                        Delta::Moved { moved_value, new_index } => match key {
                            ArrayDeltaIndex::RemovedOrMoved(from) => (
                                ArrayDeltaIndex::RemovedOrMoved(new_index),
                                Delta::Moved { moved_value, new_index: from },
                            ),
                            ArrayDeltaIndex::NewOrModified(_) => {
                                proof {
                                    assert(ops.contains_key(key));
                                    assert(reversed_entry(d, key) is None);
                                    assert(reversed_ops(d) is None);
                                    assert(reverse_spec(d) is None);
                                }
                                return Err(
                                    JsonDiffPatchError::InvalidPatch(
                                        "a move cannot be reversed under a key of the new array".to_owned(),
                                    ),
                                );
                            },
                        },
                        _ => match child_result {
                            Some(r) => (reversed_key(key, &r), r),
                            None => {
                                proof {
                                    assert(false);
                                }
                                (key, Delta::Unchanged)
                            },
                        },
                    };
                    proof {
                        assert(reversed_entry(d, key) == Some(
                            ReversedOp { key: reversed.0, delta: reversed.1@ },
                        ));
                    }
                    match find_op(&out, reversed.0) {
                        Some(at) => {
                            proof {
                                assert(ops.contains_key(given[at as int].0));
                                assert(given[at as int].0 != key);
                                assert(reversed_entry(d, given[at as int].0)->0.key
                                    == reversed_entry(d, key)->0.key);
                                assert(ops.contains_key(key));
                                assert(reversed_ops(d) is None);
                                assert(reverse_spec(d) is None);
                            }
                            return Err(
                                JsonDiffPatchError::InvalidPatch(
                                    "two reversed operations come to stand under one key".to_owned(),
                                ),
                            );
                        },
                        None => {},
                    }
                    out.push(reversed);
                    proof {
                        assert forall|a: int, b: int|
                            0 <= a < out@.len() && 0 <= b < out@.len() && a != b implies (
                        #[trigger] out@[a]).0 != (#[trigger] out@[b]).0 by {
                            if a < i && b < i {
                                assert(out@[a] == out_before[a] && out@[b] == out_before[b]);
                            } else if a < i {
                                assert(out@[a] == out_before[a]);
                            } else {
                                assert(out@[b] == out_before[b]);
                            }
                        }
                        assert forall|j: int| 0 <= j < i + 1 implies reversed_entry(
                            d,
                            (#[trigger] given[j]).0,
                        ) == Some(ReversedOp { key: out@[j].0, delta: out@[j].1@ }) by {
                            if j < i {
                                assert(out@[j] == out_before[j]);
                            }
                        }
                        assert forall|j: int| 0 <= j < i + 1 implies (#[trigger] out@[j]).1.wf() by {
                            if j < i {
                                assert(out@[j] == out_before[j]);
                            }
                        }
                    }
                    i += 1;
                }
                proof {
                    lemma_reversed_ops(d, given, out@);
                }
                let reversed = Delta::Array(out);
                proof {
                    assert(reversed.wf());
                    assert(reverse_spec(d) == Some(reversed@));
                }
                context.set_result(reversed).exit();
                Ok(())
            },
            _ => Ok(()),
        }
    }
}

} // verus!
