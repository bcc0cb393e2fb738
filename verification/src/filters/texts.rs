//! The stages for strings.

use crate::context::diff::{fresh, holds_diff, same_inputs, DiffContext};
use crate::context::FilterContext;
use crate::context::patch::{holds_value, PatchContext};
use crate::context::reverse::{holds_delta, ReverseContext};
use crate::errors::{JsonDiffPatchError, PatchFailure};
use crate::semantics::diff::text_delta;
use crate::json::{Json, JsonView};
use crate::pipeline::texts::{apply_text_diff, patched_text, process_text_diff};
use crate::types::{Delta, DeltaView};
use crate::unidiff::{reverse_patch, reversed_text};
use vstd::prelude::*;

verus! {

/// The step on `ctx` compares two different strings.
pub open spec fn is_text_step(ctx: DiffContext) -> bool {
    ctx.left@ != ctx.right@ && is_text_pair(ctx)
}

/// Both values of `ctx` are strings.
pub open spec fn is_text_pair(ctx: DiffContext) -> bool {
    ctx.left@ is String && ctx.right@ is String
}

/// The result slot holds the delta of the two strings of the context: the
/// text diff, or the replacement of one string by the other.
pub open spec fn holds_text_delta(ctx: DiffContext) -> bool {
    ctx.context_data.result matches Some(found) && found.wf() && found@ == text_delta(
        ctx.left@->String_0,
        ctx.right@->String_0,
        ctx.context_data.options,
    )
}

pub struct TextsDiffFilter;

impl TextsDiffFilter {
    pub fn filter_name(&self) -> (r: &'static str)
        ensures
            r@ == "texts-diff"@,
    {
        "texts-diff"
    }

    /// Settles the step where both values are strings: stores the text diff
    /// or the replacement and raises the exit flag. Where the strings differ
    /// that is their delta. Any other step is left as it is.
    pub fn process<'a>(
        &self,
        context: &mut DiffContext<'a>,
        _new_children_context: &mut Vec<(String, DiffContext<'a>)>,
    )
        requires
            fresh(*old(context)),
        ensures
            same_inputs(*old(context), *final(context)),
            *final(_new_children_context) == *old(_new_children_context),
            is_text_pair(*old(context)) ==> final(context).context_data.exiting
                && holds_text_delta(*final(context)),
            is_text_step(*old(context)) ==> holds_diff(*final(context)),
            !is_text_pair(*old(context)) ==> *final(context) == *old(context),
    {
        let left = context.left;
        let right = context.right;
        match (left, right) {
            (Json::String(l), Json::String(r)) => {
                let _ = process_text_diff(context, l.as_str(), r.as_str());
            },
            _ => {},
        }
    }
}

pub struct TextsPatchFilter;

impl TextsPatchFilter {
    pub fn filter_name(&self) -> (r: &'static str)
        ensures
            r@ == "texts-patch"@,
    {
        "texts-patch"
    }

    /// Applies the text diff `patch`, which has been taken out of the
    /// context, to the value, which must be a string. The patched string is
    /// stored and the exit flag is raised. The step fails where the value
    /// is no string, where the text-diff library reports an error, and
    /// where it could apply no hunk of the patch.
    pub fn process<'a>(&self, context: &mut PatchContext<'a>, patch: String) -> (r: Result<
        (),
        JsonDiffPatchError,
    >)
        ensures
            final(context).left == old(context).left,
            final(context).delta == old(context).delta,
            final(context).context_data.options == old(context).context_data.options,
            match r {
                Ok(()) => old(context).left@ is String && patched_text(
                    patch@,
                    old(context).left@->String_0,
                ) is Some && holds_value(
                    final(context).context_data.result,
                    JsonView::String(patched_text(patch@, old(context).left@->String_0)->0),
                ) && final(context).context_data.exiting,
                Err(e) => *final(context) == *old(context) && (if old(context).left@ is String {
                    patched_text(patch@, old(context).left@->String_0) is None
                        && e is ApplyTextDiffFailed
                } else {
                    e@ == (PatchFailure::InvalidPatchToTarget { patch: "text diff"@ })
                }),
            },
    {
        let left = context.left;
        match left {
            Json::String(text) => {
                match apply_text_diff(patch.as_str(), text.as_str()) {
                    Ok(patched) => {
                        context.set_result(Json::String(patched)).exit();
                        Ok(())
                    },
                    Err(e) => Err(e),
                }
            },
            _ => Err(JsonDiffPatchError::InvalidPatchToTarget { patch: "text diff".to_owned() }),
        }
    }
}

pub struct TextsReverseFilter;

impl TextsReverseFilter {
    pub fn filter_name(&self) -> (r: &'static str)
        ensures
            r@ == "texts-reverse"@,
    {
        "texts-reverse"
    }

    /// Reverses the text diff `patch`, which has been taken out of the
    /// context: the text diff that undoes it is stored and the exit flag is
    /// raised.
    pub fn process(&self, context: &mut ReverseContext, patch: String)
        ensures
            final(context).delta == old(context).delta,
            final(context).given == old(context).given,
            final(context).context_data.options == old(context).context_data.options,
            final(context).context_data.exiting,
            holds_delta(
                final(context).context_data.result,
                DeltaView::TextDiff(reversed_text(patch@)),
            ),
    {
        context.set_result(Delta::TextDiff(reverse_patch(patch.as_str()))).exit();
    }
}

} // verus!
