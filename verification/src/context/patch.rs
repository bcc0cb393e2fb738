//! The context of a patch: the value to change and the delta to apply.

use crate::context::{ContextData, FilterContext};
use crate::decimal::decimal;
use crate::errors::JsonDiffPatchError;
use crate::json::{distinct_keys, has_key, Json};
use crate::semantics::patch::{patch_spec, Patched};
use crate::types::{ArrayDeltaIndex, Delta, DeltaView, Options};
use vstd::prelude::*;

verus! {

/// What kind of delta a context held, for the time after the delta has been
/// taken out of it.
#[derive(Debug, Copy, Clone, PartialEq, Eq, Structural)]
pub enum DeltaIndicator {
    Object,
    Array,
    TextDiff,
    Added,
    Modified,
    Deleted,
    Moved,
    Unchanged,
}

impl DeltaIndicator {
    /// The kind of a delta.
    pub open spec fn of(delta: Delta) -> DeltaIndicator {
        match delta {
            Delta::Object(_) => DeltaIndicator::Object,
            Delta::Array(_) => DeltaIndicator::Array,
            Delta::TextDiff(_) => DeltaIndicator::TextDiff,
            Delta::Added(_) => DeltaIndicator::Added,
            Delta::Modified(_, _) => DeltaIndicator::Modified,
            Delta::Deleted(_) => DeltaIndicator::Deleted,
            Delta::Moved { .. } => DeltaIndicator::Moved,
            Delta::Unchanged => DeltaIndicator::Unchanged,
        }
    }

    pub fn new_from_delta(delta: &Delta) -> (r: Self)
        ensures
            r == DeltaIndicator::of(*delta),
    {
        match delta {
            Delta::Object(_) => DeltaIndicator::Object,
            Delta::Array(_) => DeltaIndicator::Array,
            Delta::TextDiff(_) => DeltaIndicator::TextDiff,
            Delta::Added(_) => DeltaIndicator::Added,
            Delta::Modified(_, _) => DeltaIndicator::Modified,
            Delta::Deleted(_) => DeltaIndicator::Deleted,
            Delta::Moved { .. } => DeltaIndicator::Moved,
            Delta::Unchanged => DeltaIndicator::Unchanged,
        }
    }
}

/// A delta, or what is left of it once it has been taken: its kind.
#[derive(Debug)]
pub enum DeltaWithLeftover {
    Delta(Delta),
    Leftover(DeltaIndicator),
}

impl DeltaWithLeftover {
    /// The kind of the delta that is or was there.
    pub open spec fn spec_peek(&self) -> DeltaIndicator {
        match self {
            DeltaWithLeftover::Delta(delta) => DeltaIndicator::of(*delta),
            DeltaWithLeftover::Leftover(indicator) => *indicator,
        }
    }

    #[verifier::when_used_as_spec(spec_peek)]
    pub fn peek(&self) -> (r: DeltaIndicator)
        ensures
            r == self.spec_peek(),
    {
        match self {
            DeltaWithLeftover::Delta(delta) => DeltaIndicator::new_from_delta(delta),
            DeltaWithLeftover::Leftover(indicator) => *indicator,
        }
    }
}

#[derive(Debug)]
pub struct PatchContext<'a> {
    pub context_data: ContextData<Json>,
    pub left: &'a Json,
    pub delta: DeltaWithLeftover,
}

impl<'a> PatchContext<'a> {
    pub fn new(left: &'a Json, delta: Delta, options: Options) -> (r: Self)
        ensures
            r == (PatchContext {
                context_data: ContextData { result: None, exiting: false, options },
                left,
                delta: DeltaWithLeftover::Delta(delta),
            }),
    {
        PatchContext {
            left,
            delta: DeltaWithLeftover::Delta(delta),
            context_data: ContextData::new(options),
        }
    }

    /// Takes the delta out of the context and leaves its kind behind. The
    /// delta can be taken once.
    pub fn take_delta(&mut self) -> (r: Delta)
        requires
            old(self).delta is Delta,
        ensures
            old(self).delta == DeltaWithLeftover::Delta(r),
            *final(self) == (PatchContext {
                delta: DeltaWithLeftover::Leftover(DeltaIndicator::of(r)),
                ..*old(self)
            }),
    {
        let mut taken = DeltaWithLeftover::Leftover(self.delta.peek());
        std::mem::swap(&mut self.delta, &mut taken);
        match taken {
            DeltaWithLeftover::Delta(delta) => delta,
            DeltaWithLeftover::Leftover(_) => {
                proof {
                    assert(false);
                }
                Delta::Unchanged
            },
        }
    }

    /// The kind of the delta that the context holds or held.
    pub fn peek_delta(&self) -> (r: DeltaIndicator)
        ensures
            r == self.delta.spec_peek(),
    {
        self.delta.peek()
    }
}

impl<'a> FilterContext for PatchContext<'a> {
    type Result = Json;

    open spec fn data(&self) -> ContextData<Json> {
        self.context_data
    }

    open spec fn with_data(&self, data: ContextData<Json>) -> Self {
        PatchContext { context_data: data, left: self.left, delta: self.delta }
    }

    /// Every result is stored.
    open spec fn skips(&self, result: &Json) -> bool {
        false
    }

    fn skip_set_result_filter(&mut self, result: &Json) -> (r: bool) {
        false
    }

    fn inner_data(&self) -> (r: &ContextData<Json>) {
        &self.context_data
    }

    fn inner_data_mut(&mut self) -> (r: &mut ContextData<Json>) {
        &mut self.context_data
    }
}

/// The model of the delta that a context holds.
pub open spec fn held_delta(ctx: PatchContext) -> DeltaView {
    match ctx.delta {
        DeltaWithLeftover::Delta(delta) => delta@,
        DeltaWithLeftover::Leftover(_) => DeltaView::Unchanged,
    }
}

/// A context on which nothing has worked yet, with a well-formed value and
/// a well-formed delta.
pub open spec fn fresh_patch(ctx: PatchContext) -> bool {
    &&& ctx.context_data.result is None
    &&& !ctx.context_data.exiting
    &&& ctx.left.wf()
    &&& ctx.delta is Delta
    &&& ctx.delta->Delta_0.wf()
}

/// The slot holds a well-formed value whose model is `v`.
pub open spec fn holds_value(result: Option<Json>, v: crate::json::JsonView) -> bool {
    result matches Some(found) && found@ == v && found.wf()
}

/// What the slot holds, if anything, is well formed.
pub open spec fn holds_wf(result: Option<Json>) -> bool {
    result matches Some(found) ==> found.wf()
}

/// Two contexts patch the same value under the same options.
pub open spec fn same_target(a: PatchContext, b: PatchContext) -> bool {
    a.left == b.left && a.context_data.options == b.context_data.options
}

/// The result slot of `after` holds what the delta of `before` makes of its
/// value: the patched value, or nothing where the delta deletes the value.
pub open spec fn holds_patch(before: PatchContext, after: PatchContext) -> bool {
    match patch_spec(before.left@, held_delta(before)) {
        Patched::Value(v) => holds_value(after.context_data.result, v),
        Patched::Absent => after.context_data.result is None,
        Patched::Failure(_) => false,
    }
}

/// Applying the delta of `before` to its value can fail with `error`.
pub open spec fn patch_fails(before: PatchContext, error: JsonDiffPatchError) -> bool {
    patch_spec(before.left@, held_delta(before)) is Failure && patch_spec(
        before.left@,
        held_delta(before),
    )->Failure_0.contains(error@)
}

/// The step on `ctx` applies an object delta to an object.
pub open spec fn is_object_patch(ctx: PatchContext) -> bool {
    held_delta(ctx) is Object && ctx.left@ is Object
}

/// The step on `ctx` applies an array delta to an array.
pub open spec fn is_array_patch(ctx: PatchContext) -> bool {
    held_delta(ctx) is Array && ctx.left@ is Array
}

/// A child context that nothing has worked on, under the options of its
/// parent and with a smaller delta.
pub open spec fn is_patch_child(child: PatchContext, parent: PatchContext) -> bool {
    &&& fresh_patch(child)
    &&& child.context_data.options == parent.context_data.options
    &&& child.delta->Delta_0.size() < parent.delta->Delta_0.size()
}

/// The children emitted for an object delta: one for each key of the delta,
/// none twice. Each applies the delta under its key to the member under
/// that key, or to null where there is no such member.
pub open spec fn emits_member_patches(
    parent: PatchContext,
    emitted: Seq<(String, PatchContext)>,
) -> bool {
    let changes = held_delta(parent)->Object_0;
    &&& distinct_keys(emitted)
    &&& forall|i: int|
        0 <= i < emitted.len() ==> {
            let child = (#[trigger] emitted[i]).1;
            &&& changes.contains_key(emitted[i].0@)
            &&& child.left@ == parent.left@.get_or_null(emitted[i].0@)
            &&& held_delta(child) == changes[emitted[i].0@]
            &&& is_patch_child(child, parent)
        }
    &&& forall|key: Seq<char>| changes.contains_key(key) ==> #[trigger] has_key(emitted, key)
}

/// The children emitted for an array delta: one for each position of
/// `mods`, in order, named by the position in decimal. Each applies the
/// delta under the key of its position to the element that the array, as it
/// was, holds there.
pub open spec fn emits_element_patches(
    parent: PatchContext,
    mods: Seq<usize>,
    emitted: Seq<(String, PatchContext)>,
) -> bool {
    let items = parent.left@->Array_0;
    let ops = held_delta(parent)->Array_0;
    &&& emitted.len() == mods.len()
    &&& forall|t: int|
        0 <= t < mods.len() ==> {
            let child = (#[trigger] emitted[t]).1;
            &&& emitted[t].0@ == decimal(mods[t] as nat)
            &&& mods[t] < items.len()
            &&& child.left@ == items[mods[t] as int]
            &&& ops.contains_key(ArrayDeltaIndex::NewOrModified(mods[t]))
            &&& held_delta(child) == ops[ArrayDeltaIndex::NewOrModified(mods[t])]
            &&& is_patch_child(child, parent)
        }
}

} // verus!
