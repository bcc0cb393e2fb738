//! The errors of patching and of reversing.

use crate::decimal::{decimal, push_decimal};
use vstd::prelude::*;
use vstd::string::StringExecFns;

verus! {

/// The error of the text-diff library. Nothing is known of its contents here.
#[verifier::external_type_specification]
#[verifier::external_body]
pub struct ExTextDiffError(diff_match_patch_rs::Error);

/// Why a delta could not be applied.
#[derive(Debug)]
pub enum JsonDiffPatchError {
    /// The engine met a state that its own rules exclude.
    InternalPatchLogicError(String),
    /// The delta is not one that can be applied to anything.
    InvalidPatch(String),
    /// The delta has a shape that the target value does not have.
    InvalidPatchToTarget { patch: String },
    IndexOutOfBoundsRemove { index: usize, length: usize },
    IndexOutOfBoundsInsert { index: usize, length: usize },
    IndexOutOfBoundsMove { from: usize, to: usize, length: usize },
    IndexOutOfBoundsModify { index: usize, length: usize },
    /// The text-diff library refused the patch of a string.
    ApplyTextDiffFailed(diff_match_patch_rs::Error),
}

/// The model of a patch error: which error it is, with the words and the
/// positions that it reports. Of an error of the text-diff library it says
/// only that it is one.
pub enum PatchFailure {
    InternalPatchLogicError(Seq<char>),
    InvalidPatch(Seq<char>),
    InvalidPatchToTarget { patch: Seq<char> },
    IndexOutOfBoundsRemove { index: usize, length: usize },
    IndexOutOfBoundsInsert { index: usize, length: usize },
    IndexOutOfBoundsMove { from: usize, to: usize, length: usize },
    IndexOutOfBoundsModify { index: usize, length: usize },
    ApplyTextDiffFailed,
}

impl View for JsonDiffPatchError {
    type V = PatchFailure;

    open spec fn view(&self) -> PatchFailure {
        match self {
            JsonDiffPatchError::InternalPatchLogicError(m) => {
                PatchFailure::InternalPatchLogicError(m@)
            },
            JsonDiffPatchError::InvalidPatch(m) => PatchFailure::InvalidPatch(m@),
            JsonDiffPatchError::InvalidPatchToTarget { patch } => {
                PatchFailure::InvalidPatchToTarget { patch: patch@ }
            },
            JsonDiffPatchError::IndexOutOfBoundsRemove { index, length } => {
                PatchFailure::IndexOutOfBoundsRemove { index: *index, length: *length }
            },
            JsonDiffPatchError::IndexOutOfBoundsInsert { index, length } => {
                PatchFailure::IndexOutOfBoundsInsert { index: *index, length: *length }
            },
            JsonDiffPatchError::IndexOutOfBoundsMove { from, to, length } => {
                PatchFailure::IndexOutOfBoundsMove { from: *from, to: *to, length: *length }
            },
            JsonDiffPatchError::IndexOutOfBoundsModify { index, length } => {
                PatchFailure::IndexOutOfBoundsModify { index: *index, length: *length }
            },
            JsonDiffPatchError::ApplyTextDiffFailed(_) => PatchFailure::ApplyTextDiffFailed,
        }
    }
}

/// What is said of a move that stands outside an array delta.
pub open spec fn stray_move_text() -> Seq<char> {
    "Should be handled by array directly, as move does not make sense for non-array container"@
}

/// What is said of a delta under a key of the old array that neither
/// removes nor moves.
pub open spec fn misplaced_at_old_text() -> Seq<char> {
    "only removal or move can be applied at original array indices"@
}

/// What is said of a delta under a key of the new array that neither adds
/// nor modifies.
pub open spec fn misplaced_at_new_text() -> Seq<char> {
    "only addition or modification can be applied at new array indices"@
}

/// Why a delta could not be reversed.
#[derive(Clone, Copy, Debug, PartialEq, Eq, Structural)]
pub enum JsonDiffPatchReverseError {
    /// A move stands where it cannot be inverted: outside an array delta,
    /// under a key of the new array, or onto a position that another
    /// operation of the reversed delta takes.
    InvalidMoveDelta,
}

/// Calls the `Debug` formatting of the text-diff library's error, in its
/// pretty form. Nothing is claimed of the text that it yields.
#[verifier::external_body]
fn describe(error: &diff_match_patch_rs::Error) -> String {
    format!("{:#?}", error)
}

/// The wording of an out-of-bounds error: what the patch is trying to do
/// at which position, and how many items the array has.
pub open spec fn out_of_bounds_text(doing: Seq<char>, at: Seq<char>, length: usize) -> Seq<char> {
    "index out of bounds: the patch is trying to "@ + doing + at + ", but the array has only "@
        + decimal(length as nat) + " items"@
}

impl JsonDiffPatchError {
    /// The wording of the error, but for an error of the text-diff library,
    /// whose wording is its own.
    pub open spec fn message_text(&self) -> Option<Seq<char>> {
        match self {
            JsonDiffPatchError::InternalPatchLogicError(m) => Some(
                "internal logic error: "@ + m@,
            ),
            JsonDiffPatchError::InvalidPatch(m) => Some("Cannot apply patch: "@ + m@),
            JsonDiffPatchError::InvalidPatchToTarget { patch } => Some(
                "The given patch '"@ + patch@ + "' cannot be applied to the target"@,
            ),
            JsonDiffPatchError::IndexOutOfBoundsRemove { index, length } => Some(
                out_of_bounds_text(
                    "remove an item at index "@,
                    decimal(*index as nat),
                    *length,
                ),
            ),
            JsonDiffPatchError::IndexOutOfBoundsInsert { index, length } => Some(
                out_of_bounds_text(
                    "insert an item at index "@,
                    decimal(*index as nat),
                    *length,
                ),
            ),
            JsonDiffPatchError::IndexOutOfBoundsMove { from, to, length } => Some(
                out_of_bounds_text(
                    "move an item from index "@,
                    decimal(*from as nat) + " to index "@ + decimal(*to as nat),
                    *length,
                ),
            ),
            JsonDiffPatchError::IndexOutOfBoundsModify { index, length } => Some(
                out_of_bounds_text(
                    "modify an item at index "@,
                    decimal(*index as nat),
                    *length,
                ),
            ),
            JsonDiffPatchError::ApplyTextDiffFailed(_) => None,
        }
    }

    /// The error in words. An error of the text-diff library is described
    /// by that library, after the words "failed to apply text diff: ".
    pub fn message(&self) -> (r: String)
        ensures
            match self.message_text() {
                Some(text) => r@ == text,
                None => r@.len() >= "failed to apply text diff: "@.len() && r@.subrange(
                    0,
                    "failed to apply text diff: "@.len() as int,
                ) == "failed to apply text diff: "@,
            },
    {
        let mut out = String::new();
        match self {
            JsonDiffPatchError::InternalPatchLogicError(m) => {
                out.append("internal logic error: ");
                out.append(m.as_str());
                assert(out@ =~= "internal logic error: "@ + m@);
            },
            JsonDiffPatchError::InvalidPatch(m) => {
                out.append("Cannot apply patch: ");
                out.append(m.as_str());
                assert(out@ =~= "Cannot apply patch: "@ + m@);
            },
            JsonDiffPatchError::InvalidPatchToTarget { patch } => {
                out.append("The given patch '");
                out.append(patch.as_str());
                out.append("' cannot be applied to the target");
                assert(out@ =~= "The given patch '"@ + patch@
                    + "' cannot be applied to the target"@);
            },
            JsonDiffPatchError::IndexOutOfBoundsRemove { index, length } => {
                out.append("index out of bounds: the patch is trying to ");
                out.append("remove an item at index ");
                push_decimal(&mut out, *index);
                out.append(", but the array has only ");
                push_decimal(&mut out, *length);
                out.append(" items");
                assert(out@ =~= self.message_text()->0);
            },
            JsonDiffPatchError::IndexOutOfBoundsInsert { index, length } => {
                out.append("index out of bounds: the patch is trying to ");
                out.append("insert an item at index ");
                push_decimal(&mut out, *index);
                out.append(", but the array has only ");
                push_decimal(&mut out, *length);
                out.append(" items");
                assert(out@ =~= self.message_text()->0);
            },
            JsonDiffPatchError::IndexOutOfBoundsMove { from, to, length } => {
                out.append("index out of bounds: the patch is trying to ");
                out.append("move an item from index ");
                push_decimal(&mut out, *from);
                out.append(" to index ");
                push_decimal(&mut out, *to);
                out.append(", but the array has only ");
                push_decimal(&mut out, *length);
                out.append(" items");
                assert(out@ =~= self.message_text()->0);
            },
            JsonDiffPatchError::IndexOutOfBoundsModify { index, length } => {
                out.append("index out of bounds: the patch is trying to ");
                out.append("modify an item at index ");
                push_decimal(&mut out, *index);
                out.append(", but the array has only ");
                push_decimal(&mut out, *length);
                out.append(" items");
                assert(out@ =~= self.message_text()->0);
            },
            JsonDiffPatchError::ApplyTextDiffFailed(e) => {
                out.append("failed to apply text diff: ");
                let described = describe(e);
                out.append(described.as_str());
                assert(out@.subrange(0, "failed to apply text diff: "@.len() as int)
                    =~= "failed to apply text diff: "@);
            },
        }
        out
    }
}

impl JsonDiffPatchReverseError {
    /// The error in words.
    pub fn message(&self) -> (r: String)
        ensures
            r@ == "a move cannot be reversed where it stands"@,
    {
        String::from_str("a move cannot be reversed where it stands")
    }
}

} // verus!
