//! Text diffs of long strings. The diffing and patching of texts is the work
//! of the `diff_match_patch_rs` crate; what this module states of it is
//! believed, not proved.

use crate::context::diff::{holds_diff, same_inputs, DiffContext};
use crate::context::FilterContext;
use crate::errors::JsonDiffPatchError;
use crate::filters::trivial::old_value;
use crate::fitting::{check_fit, fits_exactly};
use crate::semantics::diff::text_delta;
use crate::types::Delta;
use crate::unidiff::{check_patch, is_sound_patch};
use diff_match_patch_rs::{DiffMatchPatch, Efficient, PatchInput};
use vstd::prelude::*;

verus! {

/// The patch, in unidiff form, that the text-diff library makes for turning
/// `left` into `right`; `None` where the library reports an error.
pub uninterp spec fn text_patch(left: Seq<char>, right: Seq<char>) -> Option<Seq<char>>;

/// What the text-diff library yields when it applies the patch `patch` to
/// `text`: the patched text and, for each hunk, whether it was applied;
/// `None` where the library reports an error.
pub uninterp spec fn text_patch_applied(patch: Seq<char>, text: Seq<char>) -> Option<
    (Seq<char>, Seq<bool>),
>;

/// Calls `DiffMatchPatch::diff_main`, `patch_make` and `patch_to_text`, with
/// the library's time limit switched off, so that the patch depends on the
/// two texts alone. The contract gives that patch its name.
///
/// This has a price. Under its time limit, one second unless it is set, the
/// library gives up the search for the shortest diff when the time is over,
/// and it tries a short cut, halving the texts at a long common part, which
/// may give a longer diff. Without the limit it does neither: the patch can
/// differ from the one that the library makes under its limit, and the
/// diff of two long texts that have little in common takes as long as it
/// takes.
#[verifier::external_body]
pub(crate) fn make_text_patch(left: &str, right: &str) -> (r: Result<
    String,
    diff_match_patch_rs::Error,
>)
    ensures
        match r {
            Ok(p) => text_patch(left@, right@) == Some(p@),
            Err(_) => text_patch(left@, right@) is None,
        },
{
    let mut dmp = DiffMatchPatch::new();
    dmp.set_timeout(None);
    let diffs = dmp.diff_main::<Efficient>(left, right)?;
    let patches = dmp.patch_make(PatchInput::new_diffs(&diffs))?;
    Ok(dmp.patch_to_text(&patches))
}

/// Calls `DiffMatchPatch::patch_from_text` and `patch_apply`, with the
/// library's time limit switched off, so that the outcome depends on the
/// patch and the text alone. The contract gives that outcome its name.
///
/// The library is handed only a patch in which every header names ranges
/// that are in order: in reading a header it subtracts one from a position
/// that is not that of an empty range, and it adds to positions and
/// lengths. And it is handed only a patch that fits the text exactly: for
/// a hunk that does not stand at the place that its header names it
/// searches the text, and where it finds no place it subtracts the length
/// of the hunk's old text from that of its new text, both unsigned, and
/// goes on from a place that it computes from the difference. Where every
/// hunk stands at its place the library replaces it there, and none of this
/// is reached.
#[verifier::external_body]
pub(crate) fn apply_text_patch(patch: &str, text: &str) -> (r: Result<
    (String, Vec<bool>),
    diff_match_patch_rs::Error,
>)
    requires
        is_sound_patch(patch@),
        fits_exactly(patch@, text@),
    ensures
        match r {
            Ok(applied) => text_patch_applied(patch@, text@) == Some((applied.0@, applied.1@)),
            Err(_) => text_patch_applied(patch@, text@) is None,
        },
{
    let mut dmp = DiffMatchPatch::new();
    dmp.set_timeout(None);
    let patches = dmp.patch_from_text::<Efficient>(patch)?;
    dmp.patch_apply(&patches, text)
}

/// The library's error for input that it cannot use: the value
/// `Error::InvalidInput`.
#[verifier::external_body]
pub(crate) fn invalid_input() -> diff_match_patch_rs::Error {
    diff_match_patch_rs::Error::InvalidInput
}

/// Whether every hunk of a patch failed to apply.
pub open spec fn all_hunks_failed(flags: Seq<bool>) -> bool {
    flags.len() > 0 && forall|i: int| 0 <= i < flags.len() ==> !flags[i]
}

/// The string that the patch `patch` turns `text` into: what the library
/// yields, unless the headers of the patch are not in order, the patch does
/// not fit the text exactly, or the library reports an error or could apply
/// none of the hunks.
pub open spec fn patched_text(patch: Seq<char>, text: Seq<char>) -> Option<Seq<char>> {
    if !is_sound_patch(patch) || !fits_exactly(patch, text) {
        None
    } else {
        match text_patch_applied(patch, text) {
            Some((patched, flags)) => if all_hunks_failed(flags) {
                None
            } else {
                Some(patched)
            },
            None => None,
        }
    }
}

/// Reads the outcome of applying a patch: the patched text, or a failure
/// where the library reported an error or no hunk was applied. An error
/// of the library is handed on as it came.
pub fn read_applied(outcome: Result<(String, Vec<bool>), diff_match_patch_rs::Error>) -> (r:
    Result<String, JsonDiffPatchError>)
    ensures
        match outcome {
            Ok(applied) => if all_hunks_failed(applied.1@) {
                r is Err
            } else {
                r == Ok::<String, JsonDiffPatchError>(applied.0)
            },
            Err(e) => r == Err::<String, JsonDiffPatchError>(
                JsonDiffPatchError::ApplyTextDiffFailed(e),
            ),
        },
        r matches Err(e) ==> e is ApplyTextDiffFailed,
{
    match outcome {
        Ok((patched, flags)) => {
            let mut i: usize = 0;
            let mut any_applied = false;
            while i < flags.len()
                invariant
                    0 <= i <= flags@.len(),
                    any_applied <==> exists|j: int| 0 <= j < i && flags@[j],
                decreases flags@.len() - i,
            {
                if flags[i] {
                    any_applied = true;
                }
                i += 1;
            }
            if flags.len() > 0 && !any_applied {
                Err(JsonDiffPatchError::ApplyTextDiffFailed(invalid_input()))
            } else {
                Ok(patched)
            }
        },
        Err(e) => Err(JsonDiffPatchError::ApplyTextDiffFailed(e)),
    }
}

/// Applies the unidiff `patch` to `text`. A patch whose headers are not in
/// order, or which does not fit the text exactly, is not applied: it fails
/// as a patch does that the library cannot use.
pub fn apply_text_diff(patch: &str, text: &str) -> (r: Result<String, JsonDiffPatchError>)
    ensures
        match r {
            Ok(s) => patched_text(patch@, text@) == Some(s@),
            Err(e) => patched_text(patch@, text@) is None && e is ApplyTextDiffFailed,
        },
{
    if !check_patch(patch) || !check_fit(patch, text) {
        return Err(JsonDiffPatchError::ApplyTextDiffFailed(invalid_input()));
    }
    read_applied(apply_text_patch(patch, text))
}

/// The delta that the step on two strings stores; where the strings differ
/// it is their diff. Where one of them is shorter, in
/// bytes, than the options ask for, the delta replaces the old string by the
/// new one; else it is the text diff that the text-diff library makes, or
/// the replacement again where the library reports an error. The delta is
/// stored in the context and the exit flag is raised.
pub fn process_text_diff<'a>(context: &mut DiffContext<'a>, left: &str, right: &str) -> (r: Result<
    (),
    JsonDiffPatchError,
>)
    requires
        old(context).context_data.result is None,
        old(context).left@ == crate::json::JsonView::String(left@),
        old(context).right@ == crate::json::JsonView::String(right@),
        old(context).left.wf(),
        old(context).right.wf(),
    ensures
        r is Ok,
        same_inputs(*old(context), *final(context)),
        final(context).context_data.exiting,
        final(context).context_data.result matches Some(found) && found@ == text_delta(
            left@,
            right@,
            old(context).context_data.options,
        ) && found.wf(),
        left@ != right@ ==> holds_diff(*final(context)),
{
    let options = *context.options();
    let min_length = options.min_length();
    if left.as_bytes().len() < min_length || right.as_bytes().len() < min_length {
        let delta = Delta::Modified(old_value(context.left, &options), context.right.clone());
        context.set_result(delta).exit();
        return Ok(());
    }
    match make_text_patch(left, right) {
        Ok(patch) => {
            context.set_result(Delta::TextDiff(patch)).exit();
        },
        Err(_) => {
            let delta = Delta::Modified(old_value(context.left, &options), context.right.clone());
            context.set_result(delta).exit();
        },
    }
    Ok(())
}

} // verus!
