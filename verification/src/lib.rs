//! Structural diffing and patching of JSON values.
//!
//! `diff` computes a delta between two values, `patch` applies a delta to a
//! value, and `reverse` inverts a delta; `unpatch` applies the inverted
//! delta. A delta can be written as a JSON value, its wire form, and read
//! back.
//!
//! - `json` and `types` hold the values, the deltas and the options.
//! - `semantics` states what each operation computes, as functions on the
//!   mathematical models of values and deltas.
//! - `processor` is the runtime that runs an operation over a tree of
//!   contexts; `context` holds the contexts, `pipeline` the three
//!   operations, and `filters` the stages that they are made of.
//! - `wire` writes and reads deltas, `unidiff` reverses text diffs,
//!   `fitting` tells whether a text diff fits a text exactly, `lines` takes
//!   a text for the list of its lines, `lcs` finds longest common
//!   subsequences.
//! - `laws` states what holds of the operations together, and `proofs`
//!   holds the lemmas behind that.
//!
//! The diffing and patching of long strings is the work of the
//! `diff_match_patch_rs` crate. What the library relies on of that crate is
//! stated, with its name, in `pipeline::texts`. A text diff is applied only
//! where each of its hunks stands in the text at the place that its header
//! names; any other text diff fails.

pub mod context;
pub mod decimal;
pub mod diffpatcher;
pub mod errors;
pub mod filters;
pub mod fitting;
pub mod json;
pub mod laws;
pub mod lcs;
pub mod lines;
pub mod pipeline;
pub mod processor;
pub mod proofs;
pub mod semantics;
pub mod types;
pub mod unidiff;
pub mod wire;

use crate::diffpatcher::{found_delta, found_patched, DiffPatcher};
use crate::errors::{JsonDiffPatchError, JsonDiffPatchReverseError, PatchFailure};
use crate::json::Json;
use crate::pipeline::reverse_pipeline::found_reversed;
use crate::semantics::diff::diff_spec;
use crate::semantics::patch::patch_spec;
use crate::semantics::reverse::reverse_spec;
use crate::types::{Delta, Options};
use vstd::prelude::*;

verus! {

/// An engine with `options`, or with the defaults where there are none.
pub fn create(options: Option<Options>) -> (r: DiffPatcher)
    ensures
        r.options() == (match options {
            Some(o) => o,
            None => Options::spec_default(),
        }),
{
    DiffPatcher::new(options)
}

/// The delta that turns `left` into `right` under the default options;
/// `None` where there is no change to record.
pub fn diff(left: &Json, right: &Json) -> (r: Option<Delta>)
    requires
        left.wf(),
        right.wf(),
    ensures
        found_delta(r, diff_spec(left@, right@, Options::spec_default())),
{
    DiffPatcher::new(None).diff(left, right)
}

/// Applies `delta` to `left`. The result is the patched value, or `None`
/// where the delta deletes the value.
pub fn patch(left: &Json, delta: Delta) -> (r: Result<Option<Json>, JsonDiffPatchError>)
    requires
        left.wf(),
        delta.wf(),
    ensures
        found_patched(r, patch_spec(left@, delta@)),
{
    DiffPatcher::new(None).patch(left, delta)
}

/// Undoes `delta` on `right`: applies the reversal of `delta`. Where
/// `delta` has no reversal, the patch is invalid.
pub fn unpatch(right: &Json, delta: &Delta) -> (r: Result<Option<Json>, JsonDiffPatchError>)
    requires
        right.wf(),
        delta.wf(),
    ensures
        match reverse_spec(delta@) {
            Some(reversed) => found_patched(r, patch_spec(right@, reversed)),
            None => r is Err && r->Err_0@ == PatchFailure::InvalidPatch(
                "the delta cannot be reversed"@,
            ),
        },
{
    DiffPatcher::new(None).unpatch(right, delta)
}

/// The delta that undoes `delta`.
pub fn reverse(delta: &Delta) -> (r: Result<Delta, JsonDiffPatchReverseError>)
    requires
        delta.wf(),
    ensures
        found_reversed(r, reverse_spec(delta@)),
{
    DiffPatcher::new(None).reverse(delta)
}

} // verus!
