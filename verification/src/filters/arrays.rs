//! The stages for arrays.

use crate::context::diff::{fresh, holds_diff, same_inputs, DiffContext};
use crate::context::patch::{
    emits_element_patches, held_delta, holds_value, holds_wf, is_patch_child, DeltaWithLeftover,
    PatchContext,
};
use crate::context::{ContextData, FilterContext};
use crate::decimal::{decimal, parse_index};
use crate::errors::{JsonDiffPatchError, PatchFailure};
use crate::json::{lemma_views, views, Json, JsonView};
use crate::pipeline::arrays::{
    child_changes, held_ops, in_key_order, index_of_name, is_pair_entry,
    post_process_arrays_diff, process_arrays_diff,
};
use crate::pipeline::patch_pipeline::{awaits_patches, handle_array};
use crate::proofs::sequences::added_to;
use crate::semantics::patch::rearranged;
use crate::types::{
    delta_ops, distinct_ops, lemma_delta_op_sizes, lemma_delta_ops, ArrayDeltaIndex, Delta,
};
use vstd::prelude::*;

verus! {

/// The step on `ctx` compares two different arrays.
pub open spec fn is_array_step(ctx: DiffContext) -> bool {
    ctx.left@ != ctx.right@ && is_array_pair(ctx)
}

/// Both values of `ctx` are arrays.
pub open spec fn is_array_pair(ctx: DiffContext) -> bool {
    ctx.left@ is Array && ctx.right@ is Array
}

/// The children `after` are the children `before` with their results taken
/// out: each has its name and its values, and an empty slot.
pub open spec fn results_taken(
    before: Seq<(String, DiffContext)>,
    after: Seq<(String, DiffContext)>,
) -> bool {
    &&& after.len() == before.len()
    &&& forall|i: int|
        0 <= i < before.len() ==> (#[trigger] after[i]).0 == before[i].0 && after[i].1
            == before[i].1.with_data(ContextData { result: None, ..before[i].1.context_data })
}

pub struct ArraysDiffFilter;

impl ArraysDiffFilter {
    pub fn filter_name(&self) -> (r: &'static str)
        ensures
            r@ == "arrays-diff"@,
    {
        "arrays-diff"
    }

    /// Settles the step where both values are arrays: stores the array
    /// delta, with its operations in the order of their keys and nothing
    /// where the arrays are equal, and raises the exit flag. Each child that
    /// it emits pairs two equal elements, one of each array. Any other step
    /// is left as it is.
    pub fn process<'a>(
        &self,
        context: &mut DiffContext<'a>,
        new_children_context: &mut Vec<(String, DiffContext<'a>)>,
    )
        requires
            fresh(*old(context)),
            old(new_children_context)@.len() == 0,
        ensures
            same_inputs(*old(context), *final(context)),
            is_array_pair(*old(context)) ==> holds_diff(*final(context))
                && final(context).context_data.exiting && in_key_order(
                held_ops(final(context).context_data.result),
            ) && forall|i: int|
                0 <= i < final(new_children_context)@.len() ==> is_pair_entry(
                    #[trigger] final(new_children_context)@[i],
                    old(context).left->Array_0@,
                    old(context).right->Array_0@,
                    old(context).context_data.options,
                ),
            !is_array_pair(*old(context)) ==> *final(context) == *old(context)
                && *final(new_children_context) == *old(new_children_context),
    {
        let left = context.left;
        let right = context.right;
        match (left, right) {
            (Json::Array(l), Json::Array(r)) => {
                proof {
                    left.lemma_array_view();
                    right.lemma_array_view();
                    assert forall|i: int| 0 <= i < l@.len() implies (#[trigger] l@[i]).wf() by {}
                    assert forall|i: int| 0 <= i < r@.len() implies (#[trigger] r@[i]).wf() by {}
                }
                let _ = process_arrays_diff(
                    context,
                    l.as_slice(),
                    r.as_slice(),
                    new_children_context,
                );
            },
            _ => {},
        }
    }

    /// The step after the children of an array step. The results of the
    /// children are taken out of them; each is added to the array delta of
    /// the context, after the operations that it holds, under the key of
    /// the new position that the child is named after, and the exit flag is
    /// raised. Where no child holds a result, the context stays as the
    /// first step left it: so it is after an array diff, whose children
    /// each pair two equal values.
    pub fn post_process<'a>(
        &self,
        context: &mut DiffContext<'a>,
        children_context: &mut Vec<(String, DiffContext<'a>)>,
    )
        ensures
            same_inputs(*old(context), *final(context)),
            child_changes(old(children_context)@).len() == 0 ==> *final(context) == *old(context),
            child_changes(old(children_context)@).len() > 0 ==> final(context).context_data.exiting
                && final(context).context_data.result is Some
                && final(context).context_data.result->0 is Array && held_ops(
                final(context).context_data.result,
            ) == held_ops(old(context).context_data.result) + child_changes(
                old(children_context)@,
            ),
            results_taken(old(children_context)@, final(children_context)@),
    {
        let _ = post_process_arrays_diff(context, children_context);
    }
}

/// The values that the children of an array patch yielded, from the `t`-th
/// child on, are put into the array: each at the position that its child
/// is named after, which must lie within the array.
pub open spec fn place_children(
    arr: Seq<JsonView>,
    children: Seq<(String, PatchContext)>,
    t: int,
) -> Result<Seq<JsonView>, PatchFailure>
    decreases children.len() - t,
{
    if t < 0 || t >= children.len() {
        Ok(arr)
    } else {
        match children[t].1.context_data.result {
            Some(v) => {
                let j = index_of_name(children[t].0@);
                if j < arr.len() {
                    place_children(arr.update(j as int, v@), children, t + 1)
                } else {
                    Err(PatchFailure::IndexOutOfBoundsModify { index: j, length: arr.len() as usize })
                }
            },
            None => place_children(arr, children, t + 1),
        }
    }
}

pub struct ArraysPatchFilter;

impl ArraysPatchFilter {
    pub fn filter_name(&self) -> (r: &'static str)
        ensures
            r@ == "arrays-patch"@,
    {
        "arrays-patch"
    }

    /// The first step of applying an array delta, whose operations are
    /// `ops`, the delta having been taken out of the context. The value
    /// must be an array. The removals and the insertions are made, and the
    /// array that they leave is stored; for each delta that patches an
    /// element in place a child context is emitted. Where the step fails,
    /// the context is as it was and no child is emitted.
    pub fn process<'a>(
        &self,
        context: &mut PatchContext<'a>,
        ops: Vec<(ArrayDeltaIndex, Delta)>,
        new_children_context: &mut Vec<(String, PatchContext<'a>)>,
    ) -> (r: Result<(), JsonDiffPatchError>)
        requires
            old(context).left.wf(),
            old(context).context_data.result is None,
            distinct_ops(ops@),
            forall|i: int| 0 <= i < ops@.len() ==> (#[trigger] ops@[i]).1.wf(),
            old(new_children_context)@.len() == 0,
        ensures
            final(context).left == old(context).left,
            final(context).delta == old(context).delta,
            final(context).context_data.options == old(context).context_data.options,
            !(old(context).left@ is Array) ==> r is Err && r->Err_0@ == (PatchFailure::InvalidPatchToTarget {
                patch: "array"@,
            }),
            old(context).left@ is Array ==> match rearranged(
                old(context).left@->Array_0,
                delta_ops(ops@),
            ) {
                Ok(done) => {
                    &&& r is Ok
                    &&& final(context).context_data.exiting
                    &&& holds_value(final(context).context_data.result, JsonView::Array(done.0))
                    &&& emits_element_patches(
                        PatchContext {
                            delta: DeltaWithLeftover::Delta(Delta::Array(ops)),
                            ..*old(context)
                        },
                        done.1,
                        final(new_children_context)@,
                    )
                },
                Err(f) => r is Err && r->Err_0@ == f,
            },
            r is Err ==> *final(context) == *old(context),
            r is Err ==> final(new_children_context)@.len() == 0,
    {
        let left = context.left;
        let options = *context.options();
        let ghost parent = PatchContext {
            delta: DeltaWithLeftover::Delta(Delta::Array(ops)),
            ..*context
        };
        let ghost given = ops@;
        match left {
            Json::Array(items) => {
                proof {
                    left.lemma_array_view();
                    lemma_delta_ops(given);
                    assert forall|i: int| 0 <= i < items@.len() implies (#[trigger] items@[i]).wf() by {}
                }
                let mut container: Vec<(String, &'a Json, Delta)> = Vec::new();
                let result = match handle_array(items.as_slice(), ops, &mut container) {
                    Ok(v) => v,
                    Err(e) => {
                        return Err(e);
                    },
                };
                let ghost done = rearranged(views(items@), delta_ops(given))->Ok_0;
                let ghost handed = container@;
                proof {
                    assert(added_to(Seq::<(String, &'a Json, Delta)>::empty(), handed) =~= handed);
                }
                let n = container.len();
                let mut t: usize = 0;
                while t < n
                    invariant
                        0 <= t <= n,
                        n == handed.len(),
                        container@.len() == n,
                        *left == Json::Array(*items),
                        left.wf(),
                        parent.left == left,
                        parent.context_data.options == options,
                        parent.delta == DeltaWithLeftover::Delta(Delta::Array(ops)),
                        given == ops@,
                        distinct_ops(given),
                        forall|i: int| 0 <= i < given.len() ==> (#[trigger] given[i]).1.wf(),
                        awaits_patches(items@, given, done.1, handed),
                        forall|i: int| t <= i < n ==> #[trigger] container@[i] == handed[i],
                        new_children_context@.len() == t,
                        forall|i: int|
                            0 <= i < t ==> {
                                let child = (#[trigger] new_children_context@[i]).1;
                                &&& new_children_context@[i].0 == handed[i].0
                                &&& child.left == handed[i].1
                                &&& child.delta == DeltaWithLeftover::Delta(handed[i].2)
                                &&& child.context_data == (ContextData::<Json> {
                                    result: None,
                                    exiting: false,
                                    options,
                                })
                            },
                    decreases n - t,
                {
                    let ghost before = new_children_context@;
                    let mut entry: (String, &'a Json, Delta) = (
                        String::new(),
                        &Json::Null,
                        Delta::Unchanged,
                    );
                    proof {
                        assert(container@[t as int] == handed[t as int]);
                    }
                    std::mem::swap(&mut container[t], &mut entry);
                    let (name, value, delta) = entry;
                    new_children_context.push((name, PatchContext::new(value, delta, options)));
                    proof {
                        assert forall|i: int| 0 <= i < t + 1 implies {
                            let child = (#[trigger] new_children_context@[i]).1;
                            &&& new_children_context@[i].0 == handed[i].0
                            &&& child.left == handed[i].1
                            &&& child.delta == DeltaWithLeftover::Delta(handed[i].2)
                            &&& child.context_data == (ContextData::<Json> {
                                result: None,
                                exiting: false,
                                options,
                            })
                        } by {
                            if i < t {
                                assert(new_children_context@[i] == before[i]);
                            }
                        }
                    }
                    t += 1;
                }
                proof {
                    let emitted = new_children_context@;
                    let mods = done.1;
                    lemma_views(items@);
                    assert forall|i: int| 0 <= i < mods.len() implies {
                        let child = (#[trigger] emitted[i]).1;
                        &&& emitted[i].0@ == decimal(mods[i] as nat)
                        &&& mods[i] < left@->Array_0.len()
                        &&& child.left@ == left@->Array_0[mods[i] as int]
                        &&& delta_ops(given).contains_key(ArrayDeltaIndex::NewOrModified(mods[i]))
                        &&& held_delta(child) == delta_ops(given)[ArrayDeltaIndex::NewOrModified(
                            mods[i],
                        )]
                        &&& is_patch_child(child, parent)
                    } by {
                        let h = handed[i];
                        assert(given.contains((ArrayDeltaIndex::NewOrModified(mods[i]), h.2)));
                        let at = choose|at: int|
                            0 <= at < given.len() && given[at] == (
                                ArrayDeltaIndex::NewOrModified(mods[i]),
                                h.2,
                            );
                        assert(delta_ops(given)[given[at].0] == given[at].1@);
                        assert(crate::types::has_op(given, given[at].0));
                        lemma_delta_op_sizes(given, at);
                        assert(given[at].1.wf());
                        assert(items@[mods[i] as int].wf());
                    }
                }
                context.set_result(result).exit();
                Ok(())
            },
            _ => Err(JsonDiffPatchError::InvalidPatchToTarget { patch: "array".to_owned() }),
        }
    }

    /// The step after the children of an array patch: the value that each
    /// child yielded takes the place of the element at the position that
    /// the child is named after. The results are taken out of the children.
    pub fn post_process<'a>(
        &self,
        context: &mut PatchContext<'a>,
        children_context: &mut Vec<(String, PatchContext<'a>)>,
    ) -> (r: Result<(), JsonDiffPatchError>)
        requires
            old(context).context_data.result is Some,
            old(context).context_data.result->0 is Array,
            old(context).context_data.result->0.wf(),
            forall|i: int|
                0 <= i < old(children_context)@.len() ==> holds_wf(
                    (#[trigger] old(children_context)@[i]).1.context_data.result,
                ),
        ensures
            final(context).left == old(context).left,
            final(context).delta == old(context).delta,
            final(context).context_data.options == old(context).context_data.options,
            final(context).context_data.exiting == old(context).context_data.exiting,
            match place_children(
                old(context).context_data.result->0@->Array_0,
                old(children_context)@,
                0,
            ) {
                Ok(placed) => r is Ok && holds_value(
                    final(context).context_data.result,
                    JsonView::Array(placed),
                ),
                Err(f) => r is Err && r->Err_0@ == f,
            },
    {
        let ghost given = children_context@;
        let ghost start = context.context_data.result->0;
        let mut items: Vec<Json> = match context.pop_result() {
            Some(Json::Array(items)) => items,
            _ => {
                proof {
                    assert(false);
                }
                Vec::new()
            },
        };
        proof {
            start.lemma_array_view();
            assert forall|i: int| 0 <= i < items@.len() implies (#[trigger] items@[i]).wf() by {}
        }
        let n = children_context.len();
        let mut t: usize = 0;
        while t < n
            invariant
                0 <= t <= n,
                n == given.len(),
                children_context@.len() == n,
                given == old(children_context)@,
                start == old(context).context_data.result->0,
                context.left == old(context).left,
                context.delta == old(context).delta,
                context.context_data.options == old(context).context_data.options,
                context.context_data.exiting == old(context).context_data.exiting,
                forall|i: int| t <= i < n ==> #[trigger] children_context@[i] == given[i],
                forall|i: int|
                    0 <= i < given.len() ==> holds_wf((#[trigger] given[i]).1.context_data.result),
                forall|i: int| 0 <= i < items@.len() ==> (#[trigger] items@[i]).wf(),
                place_children(start@->Array_0, given, 0) == place_children(
                    views(items@),
                    given,
                    t as int,
                ),
            decreases n - t,
        {
            proof {
                assert(children_context@[t as int] == given[t as int]);
                lemma_views(items@);
            }
            match children_context[t].1.pop_result() {
                Some(value) => {
                    let index = match parse_index(children_context[t].0.as_str(), 0) {
                        Some(at) => at,
                        None => 0,
                    };
                    proof {
                        assert(given[t as int].0@.subrange(0, given[t as int].0@.len() as int)
                            =~= given[t as int].0@);
                        assert(index == index_of_name(given[t as int].0@));
                    }
                    if index >= items.len() {
                        return Err(
                            JsonDiffPatchError::IndexOutOfBoundsModify {
                                index,
                                length: items.len(),
                            },
                        );
                    }
                    let ghost before = items@;
                    items.set(index, value);
                    proof {
                        lemma_views(before);
                        lemma_views(items@);
                        assert(views(items@) =~= views(before).update(index as int, value@));
                        assert forall|i: int| 0 <= i < items@.len() implies (
                        #[trigger] items@[i]).wf() by {
                            if i != index {
                                assert(items@[i] == before[i]);
                            }
                        }
                    }
                },
                None => {},
            }
            t += 1;
        }
        let patched = Json::Array(items);
        proof {
            patched.lemma_array_view();
        }
        context.set_result(patched);
        Ok(())
    }
}

} // verus!
