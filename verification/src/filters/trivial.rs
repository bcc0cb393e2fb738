//! The diffs that need no look inside the values.

use crate::context::diff::{fresh, holds_diff, same_inputs, DiffContext};
use crate::context::FilterContext;
use crate::json::Json;
use crate::semantics::diff::kept_old;
use crate::types::{Delta, Options};
use vstd::prelude::*;

verus! {

/// The cases of a diff that are settled by the variants of the two values
/// alone: equal values, a value that appears or disappears, a change of
/// variant, and booleans and numbers.
pub open spec fn is_trivial_step(ctx: DiffContext) -> bool {
    let l = ctx.left@;
    let r = ctx.right@;
    l == r || r is Null || l is Null || l is Bool || l is Number || !l.same_variant(r)
}

/// The old value as a delta records it: a copy, or null where the options
/// ask to leave removed values out.
pub fn old_value(value: &Json, options: &Options) -> (r: Json)
    ensures
        r@ == kept_old(value@, *options),
        value.wf() ==> r.wf(),
{
    if options.omit_removed_values() {
        Json::Null
    } else {
        value.clone()
    }
}

pub struct TrivialDiffFilter;

impl TrivialDiffFilter {
    pub fn filter_name(&self) -> (r: &'static str)
        ensures
            r@ == "trivial-diff"@,
    {
        "trivial-diff"
    }

    /// Settles the step where it is trivial: stores the delta and raises the
    /// exit flag. Leaves the context as it is where it is not.
    pub fn process<'a>(
        &self,
        context: &mut DiffContext<'a>,
        _new_children_context: &mut Vec<(String, DiffContext<'a>)>,
    )
        requires
            fresh(*old(context)),
        ensures
            same_inputs(*old(context), *final(context)),
            *final(_new_children_context) == *old(_new_children_context),
            is_trivial_step(*old(context)) ==> holds_diff(*final(context))
                && final(context).context_data.exiting,
            !is_trivial_step(*old(context)) ==> *final(context) == *old(context),
    {
        let left = context.left;
        let right = context.right;
        let options = *context.options();
        if left.equals(right) {
            context.set_result(Delta::Unchanged).exit();
        } else if right.is_null() {
            context.set_result(Delta::Deleted(old_value(left, &options))).exit();
        } else if left.is_null() {
            context.set_result(Delta::added_ref(right)).exit();
        } else if left.is_boolean() || left.is_number() || !left.same_variant(right) {
            context.set_result(Delta::Modified(old_value(left, &options), right.clone())).exit();
        }
    }
}

} // verus!
