//! The entry point: an engine with its options.

use crate::context::diff::DiffContext;
use crate::context::patch::PatchContext;
use crate::context::reverse::ReverseContext;
use crate::context::FilterContext;
use crate::errors::{JsonDiffPatchError, JsonDiffPatchReverseError, PatchFailure};
use crate::json::Json;
use crate::pipeline::diff_pipeline::DiffPipeline;
use crate::pipeline::patch_pipeline::PatchPipeline;
use crate::pipeline::reverse_pipeline::{found_reversed, ReversePipeline};
use crate::semantics::reverse::reverse_spec;
use crate::processor::Processor;
use crate::semantics::diff::diff_spec;
use crate::semantics::patch::{patch_spec, Patched};
use crate::types::{Delta, DeltaView, Options};
use vstd::prelude::*;

verus! {

/// The delta in a slot: none stands for "no change".
pub open spec fn found_delta(found: Option<Delta>, d: DeltaView) -> bool {
    match d {
        DeltaView::Unchanged => found is None,
        _ => found matches Some(delta) && delta@ == d && delta.wf(),
    }
}

/// What a patch returns, against what the delta makes of the value: the
/// patched value, nothing where the delta deletes the value, or one of the
/// errors that the patch can fail with.
pub open spec fn found_patched(
    found: Result<Option<Json>, JsonDiffPatchError>,
    outcome: Patched,
) -> bool {
    match outcome {
        Patched::Value(v) => found matches Ok(Some(patched)) && patched@ == v && patched.wf(),
        Patched::Absent => found matches Ok(None),
        Patched::Failure(errors) => found matches Err(e) && errors.contains(e@),
    }
}

pub struct DiffPatcher {
    pub processor: Processor,
}

impl DiffPatcher {
    /// An engine with `options`, or with the defaults where there are none.
    pub fn new(options: Option<Options>) -> (r: Self)
        ensures
            r.processor.options == (match options {
                Some(o) => o,
                None => Options::spec_default(),
            }),
    {
        DiffPatcher { processor: Processor::new(options) }
    }

    /// The options of the engine.
    pub open spec fn options(&self) -> Options {
        self.processor.options
    }

    /// The delta that turns `left` into `right`; `None` where there is no
    /// change to record.
    pub fn diff(&self, left: &Json, right: &Json) -> (r: Option<Delta>)
        requires
            left.wf(),
            right.wf(),
        ensures
            found_delta(r, diff_spec(left@, right@, self.options())),
    {
        let mut context = DiffContext::new(left, right, self.processor.options);
        let mut diff_pipe = DiffPipeline;
        let _ = self.processor.process(&mut context, &mut diff_pipe);
        context.pop_result()
    }

    /// Applies `delta` to `left`. The result is the patched value, or
    /// `None` where the delta deletes the value.
    pub fn patch(&self, left: &Json, delta: Delta) -> (r: Result<Option<Json>, JsonDiffPatchError>)
        requires
            left.wf(),
            delta.wf(),
        ensures
            found_patched(r, patch_spec(left@, delta@)),
    {
        let mut context = PatchContext::new(left, delta, self.processor.options);
        let mut patch_pipe = PatchPipeline;
        match self.processor.process(&mut context, &mut patch_pipe) {
            Ok(()) => Ok(context.pop_result()),
            Err(e) => Err(e),
        }
    }

    /// The delta that undoes `delta`. For a delta that `diff` has made,
    /// `laws::law_patch_back` says on which values it leads back from the
    /// value that `delta` leads to, to the value that `delta` started from.
    pub fn reverse(&self, delta: &Delta) -> (r: Result<Delta, JsonDiffPatchReverseError>)
        requires
            delta.wf(),
        ensures
            found_reversed(r, reverse_spec(delta@)),
    {
        let mut context = ReverseContext::new(delta.clone(), self.processor.options);
        let mut reverse_pipe = ReversePipeline;
        match self.processor.process(&mut context, &mut reverse_pipe) {
            Ok(()) => match context.pop_result() {
                Some(reversed) => Ok(reversed),
                None => {
                    proof {
                        assert(false);
                    }
                    Err(JsonDiffPatchReverseError::InvalidMoveDelta)
                },
            },
            Err(_) => Err(JsonDiffPatchReverseError::InvalidMoveDelta),
        }
    }

    /// Undoes `delta` on `right`: applies the reversal of `delta`. Where
    /// `delta` has no reversal, the patch is invalid.
    pub fn unpatch(&self, right: &Json, delta: &Delta) -> (r: Result<
        Option<Json>,
        JsonDiffPatchError,
    >)
        requires
            right.wf(),
            delta.wf(),
        ensures
            match reverse_spec(delta@) {
                Some(reversed) => found_patched(r, patch_spec(right@, reversed)),
                None => r is Err && r->Err_0@ == PatchFailure::InvalidPatch(
                    "the delta cannot be reversed"@,
                ),
            },
    {
        match self.reverse(delta) {
            Ok(reversed_delta) => self.patch(right, reversed_delta),
            Err(_) => Err(
                JsonDiffPatchError::InvalidPatch("the delta cannot be reversed".to_owned()),
            ),
        }
    }
}

} // verus!
