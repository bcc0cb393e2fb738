//! The runtime that drives a pipeline over a tree of contexts.
//!
//! A pipeline is one operation in two steps. `process` works on a context and
//! may emit child contexts; the runtime then runs the same pipeline on each
//! child, in the order emitted and depth first; `post_process` then gathers
//! what the children yielded into the parent.

use crate::context::FilterContext;
use crate::errors::JsonDiffPatchError;
use crate::types::Options;
use vstd::prelude::*;

verus! {

/// An operation that the runtime can drive.
///
/// The spec functions say what the operation is: which contexts it accepts
/// (`ready`), what state `process` leaves (`processed`), what a whole run
/// yields (`done`) and when it fails (`failed`). `rank` bounds the depth of
/// the recursion.
pub trait Pipeline<C: FilterContext>: Sized {
    /// The contexts that a run may start on.
    spec fn ready(&self, ctx: C) -> bool;

    /// A measure that is smaller for each child than for its parent.
    spec fn rank(&self, ctx: C) -> nat;

    /// `process` has turned `before` into `now` and emitted `emitted`.
    spec fn processed(&self, before: C, now: C, emitted: Seq<(String, C)>) -> bool;

    /// A whole run has turned `before` into `after`.
    spec fn done(&self, before: C, after: C) -> bool;

    /// A run on `before` can end with `error`.
    spec fn failed(&self, before: C, error: JsonDiffPatchError) -> bool;

    /// The error of a child is an error of its parent, where the children
    /// before it have run without one.
    proof fn child_failure(
        &self,
        before: C,
        now: C,
        emitted: Seq<(String, C)>,
        children: Seq<(String, C)>,
        i: int,
        error: JsonDiffPatchError,
    )
        requires
            self.processed(before, now, emitted),
            0 <= i < emitted.len(),
            children.len() == emitted.len(),
            forall|j: int| 0 <= j < i ==> self.done((#[trigger] emitted[j]).1, children[j].1),
            self.failed(emitted[i].1, error),
        ensures
            self.failed(before, error),
    ;

    fn filter_name(&self) -> &str;

    /// The forward step: may store a result, raise the exit flag, and emit
    /// children to recurse into. Where it fails it stores no result and
    /// emits no child.
    fn process(&self, context: &mut C, new_children_context: &mut Vec<(String, C)>) -> (r: Result<
        (),
        JsonDiffPatchError,
    >)
        requires
            self.ready(*old(context)),
            old(new_children_context)@.len() == 0,
        ensures
            r is Ok ==> self.processed(
                *old(context),
                *final(context),
                final(new_children_context)@,
            ),
            r is Ok ==> forall|i: int|
                0 <= i < final(new_children_context)@.len() ==> self.ready(
                    (#[trigger] final(new_children_context)@[i]).1,
                ) && self.rank(final(new_children_context)@[i].1) < self.rank(*old(context)),
            r matches Err(e) ==> self.failed(*old(context), e),
            r is Err ==> final(context).data().result is None,
            r is Err ==> final(new_children_context)@.len() == 0,
    ;

    /// The step after the children: gathers their results into the parent.
    /// It is called when `process` has run on the parent and a whole run on
    /// each child that it emitted.
    fn post_process(&self, context: &mut C, children_context: &mut Vec<(String, C)>) -> (r: Result<
        (),
        JsonDiffPatchError,
    >)
        requires
            exists|before: C, emitted: Seq<(String, C)>|
                {
                    &&& #[trigger] self.processed(before, *old(context), emitted)
                    &&& emitted.len() == old(children_context)@.len()
                    &&& forall|i: int|
                        0 <= i < emitted.len() ==> (#[trigger] emitted[i]).0 == old(
                            children_context,
                        )@[i].0 && self.done(emitted[i].1, old(children_context)@[i].1)
                },
        ensures
            forall|before: C, emitted: Seq<(String, C)>|
                {
                    &&& #[trigger] self.processed(before, *old(context), emitted)
                    &&& emitted.len() == old(children_context)@.len()
                    &&& forall|i: int|
                        0 <= i < emitted.len() ==> (#[trigger] emitted[i]).0 == old(
                            children_context,
                        )@[i].0 && self.done(emitted[i].1, old(children_context)@[i].1)
                } ==> (r is Ok ==> self.done(before, *final(context))) && (r matches Err(e)
                    ==> self.failed(before, e)),
    ;
}

/// The runtime, with the options that it was made with.
#[derive(Debug)]
pub struct Processor {
    pub options: Options,
}

impl Processor {
    /// A runtime with `options`, or with the defaults where there are none.
    pub fn new(options: Option<Options>) -> (r: Self)
        ensures
            r.options == (match options {
                Some(o) => o,
                None => Options::spec_default(),
            }),
    {
        match options {
            Some(o) => Processor { options: o },
            None => Processor { options: Options::default() },
        }
    }

    /// Runs `pipeline` on `context` and on all the contexts below it.
    pub fn process<TContext: FilterContext, P: Pipeline<TContext>>(
        &self,
        context: &mut TContext,
        pipeline: &mut P,
    ) -> (r: Result<(), JsonDiffPatchError>)
        requires
            old(pipeline).ready(*old(context)),
        ensures
            *final(pipeline) == *old(pipeline),
            r is Ok ==> old(pipeline).done(*old(context), *final(context)),
            r matches Err(e) ==> old(pipeline).failed(*old(context), e),
    {
        process_pipeline(context, pipeline)
    }
}

/// One run: `process`, then a run on each child in order, then
/// `post_process`. The first error ends the run.
pub fn process_pipeline<TContext: FilterContext, P: Pipeline<TContext>>(
    context: &mut TContext,
    pipeline: &P,
) -> (r: Result<(), JsonDiffPatchError>)
    requires
        pipeline.ready(*old(context)),
    ensures
        r is Ok ==> pipeline.done(*old(context), *final(context)),
        r matches Err(e) ==> pipeline.failed(*old(context), e),
    decreases pipeline.rank(*old(context)),
{
    let mut new_children_context: Vec<(String, TContext)> = Vec::new();
    match pipeline.process(context, &mut new_children_context) {
        Ok(()) => {},
        Err(e) => {
            return Err(e);
        },
    }
    let ghost emitted = new_children_context@;
    let ghost now = *context;
    let n = new_children_context.len();
    let mut i: usize = 0;
    while i < n
        invariant
            n == new_children_context@.len(),
            emitted.len() == n,
            0 <= i <= n,
            *context == now,
            pipeline.processed(*old(context), now, emitted),
            forall|j: int| 0 <= j < n ==> (#[trigger] emitted[j]).0 == new_children_context@[j].0,
            forall|j: int|
                0 <= j < i ==> pipeline.done((#[trigger] emitted[j]).1, new_children_context@[j].1),
            forall|j: int| i <= j < n ==> #[trigger] emitted[j] == new_children_context@[j],
            forall|j: int|
                0 <= j < n ==> pipeline.ready((#[trigger] emitted[j]).1) && pipeline.rank(
                    emitted[j].1,
                ) < pipeline.rank(*old(context)),
        decreases n - i,
    {
        assert(emitted[i as int] == new_children_context@[i as int]);
        let child = &mut new_children_context[i].1;
        match process_pipeline(child, pipeline) {
            Ok(()) => {},
            Err(e) => {
                proof {
                    pipeline.child_failure(
                        *old(context),
                        now,
                        emitted,
                        new_children_context@,
                        i as int,
                        e,
                    );
                }
                return Err(e);
            },
        }
        i += 1;
    }
    assert(pipeline.processed(*old(context), now, emitted));
    pipeline.post_process(context, &mut new_children_context)
}

} // verus!
