//! The context of a diff: the two values to compare.

use crate::context::{ContextData, FilterContext};
use crate::json::{distinct_keys, has_key, Json};
use crate::semantics::diff::diff_spec;
use crate::types::{Delta, DeltaView, Options};
use vstd::prelude::*;

verus! {

#[derive(Debug)]
pub struct DiffContext<'a> {
    pub context_data: ContextData<Delta>,
    pub left: &'a Json,
    pub right: &'a Json,
}

impl<'a> FilterContext for DiffContext<'a> {
    type Result = Delta;

    open spec fn data(&self) -> ContextData<Delta> {
        self.context_data
    }

    open spec fn with_data(&self, data: ContextData<Delta>) -> Self {
        DiffContext { context_data: data, left: self.left, right: self.right }
    }

    /// "No change" is not stored: the slot stays empty.
    open spec fn skips(&self, result: &Delta) -> bool {
        *result is Unchanged
    }

    fn skip_set_result_filter(&mut self, result: &Delta) -> (r: bool) {
        match result {
            Delta::Unchanged => true,
            _ => false,
        }
    }

    fn inner_data(&self) -> (r: &ContextData<Delta>) {
        &self.context_data
    }

    fn inner_data_mut(&mut self) -> (r: &mut ContextData<Delta>) {
        &mut self.context_data
    }
}

impl<'a> DiffContext<'a> {
    pub fn new(left: &'a Json, right: &'a Json, options: Options) -> (r: Self)
        ensures
            r == (DiffContext { context_data: ContextData { result: None, exiting: false, options }, left, right }),
    {
        DiffContext { left, right, context_data: ContextData::new(options) }
    }
}

/// A context on which nothing has worked yet, with well-formed values.
pub open spec fn fresh(ctx: DiffContext) -> bool {
    &&& ctx.context_data.result is None
    &&& !ctx.context_data.exiting
    &&& ctx.left.wf()
    &&& ctx.right.wf()
}

/// Two contexts compare the same values under the same options.
pub open spec fn same_inputs(a: DiffContext, b: DiffContext) -> bool {
    &&& a.left == b.left
    &&& a.right == b.right
    &&& a.context_data.options == b.context_data.options
}

/// The result slot holds the delta between the two values of the context,
/// and is empty where they do not differ.
pub open spec fn holds_diff(ctx: DiffContext) -> bool {
    match diff_spec(ctx.left@, ctx.right@, ctx.context_data.options) {
        DeltaView::Unchanged => ctx.context_data.result is None,
        d => ctx.context_data.result matches Some(found) && found@ == d && found.wf(),
    }
}

/// The step on `ctx` goes by the members of two objects.
pub open spec fn is_object_step(ctx: DiffContext) -> bool {
    ctx.left@ != ctx.right@ && is_object_pair(ctx)
}

/// Both values of `ctx` are objects.
pub open spec fn is_object_pair(ctx: DiffContext) -> bool {
    ctx.left@ is Object && ctx.right@ is Object
}

/// The child context for the member `name` of the two objects of `parent`:
/// it compares the two members, with null for one that is absent.
pub open spec fn is_member_pair(child: DiffContext, name: Seq<char>, parent: DiffContext) -> bool {
    &&& child.context_data == (ContextData::<Delta> {
        result: None,
        exiting: false,
        options: parent.context_data.options,
    })
    &&& child.left@ == parent.left@.get_or_null(name)
    &&& child.right@ == parent.right@.get_or_null(name)
    &&& child.left.wf()
    &&& child.right.wf()
    &&& child.left.size() + child.right.size() < parent.left.size() + parent.right.size()
}

/// The children emitted for two objects: one for each key of either, and
/// none twice.
pub open spec fn emits_members(parent: DiffContext, emitted: Seq<(String, DiffContext)>) -> bool {
    &&& distinct_keys(emitted)
    &&& forall|i: int|
        0 <= i < emitted.len() ==> is_member_pair(
            (#[trigger] emitted[i]).1,
            emitted[i].0@,
            parent,
        )
    &&& forall|key: Seq<char>|
        parent.left@->Object_0.contains_key(key) || parent.right@->Object_0.contains_key(key)
            ==> #[trigger] has_key(emitted, key)
}

} // verus!
