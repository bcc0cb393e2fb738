//! The context of a reversal: the delta to invert.

use crate::context::patch::{DeltaIndicator, DeltaWithLeftover};
use crate::context::{ContextData, FilterContext};
use crate::semantics::reverse::reverse_spec;
use crate::types::{Delta, DeltaView, Options};
use vstd::prelude::*;

verus! {

pub struct ReverseContext {
    pub context_data: ContextData<Delta>,
    pub delta: DeltaWithLeftover,
    /// The model of the delta that the context was made for.
    pub given: Ghost<DeltaView>,
}

impl FilterContext for ReverseContext {
    type Result = Delta;

    open spec fn data(&self) -> ContextData<Delta> {
        self.context_data
    }

    open spec fn with_data(&self, data: ContextData<Delta>) -> Self {
        ReverseContext { context_data: data, delta: self.delta, given: self.given }
    }

    /// Every result is stored.
    open spec fn skips(&self, result: &Delta) -> bool {
        false
    }

    fn skip_set_result_filter(&mut self, result: &Delta) -> (r: bool) {
        false
    }

    fn inner_data(&self) -> (r: &ContextData<Delta>) {
        &self.context_data
    }

    fn inner_data_mut(&mut self) -> (r: &mut ContextData<Delta>) {
        &mut self.context_data
    }
}

impl ReverseContext {
    pub fn new(delta: Delta, options: Options) -> (r: Self)
        ensures
            r.context_data == (ContextData::<Delta> { result: None, exiting: false, options }),
            r.delta == DeltaWithLeftover::Delta(delta),
            r.given@ == delta@,
    {
        let ghost given = delta@;
        ReverseContext {
            delta: DeltaWithLeftover::Delta(delta),
            context_data: ContextData::new(options),
            given: Ghost(given),
        }
    }

    /// Takes the delta out of the context and leaves its kind behind. The
    /// delta can be taken once.
    pub fn take_delta(&mut self) -> (r: Delta)
        requires
            old(self).delta is Delta,
        ensures
            old(self).delta == DeltaWithLeftover::Delta(r),
            final(self).delta == DeltaWithLeftover::Leftover(DeltaIndicator::of(r)),
            final(self).context_data == old(self).context_data,
            final(self).given == old(self).given,
    {
        let mut taken = DeltaWithLeftover::Leftover(self.delta.peek());
        std::mem::swap(&mut self.delta, &mut taken);
        match taken {
            DeltaWithLeftover::Delta(delta) => delta,
            DeltaWithLeftover::Leftover(_) => {
                proof {
                    assert(false);
                }
                Delta::Unchanged
            },
        }
    }

    /// The kind of the delta that the context holds or held.
    pub fn peek_delta(&self) -> (r: DeltaIndicator)
        ensures
            r == self.delta.spec_peek(),
    {
        self.delta.peek()
    }
}

/// A context on which nothing has worked yet, with a well-formed delta.
pub open spec fn fresh_reverse(ctx: ReverseContext) -> bool {
    &&& ctx.context_data.result is None
    &&& !ctx.context_data.exiting
    &&& ctx.delta is Delta
    &&& ctx.delta->Delta_0.wf()
    &&& ctx.given@ == ctx.delta->Delta_0@
}

/// The slot holds a well-formed delta whose model is `d`.
pub open spec fn holds_delta(result: Option<Delta>, d: DeltaView) -> bool {
    result matches Some(found) && found@ == d && found.wf()
}

/// The slot holds the reversal of the delta that the context was made for.
pub open spec fn holds_reverse(ctx: ReverseContext) -> bool {
    match reverse_spec(ctx.given@) {
        Some(r) => holds_delta(ctx.context_data.result, r),
        None => false,
    }
}

/// Two contexts were made for the same delta under the same options.
pub open spec fn same_delta(a: ReverseContext, b: ReverseContext) -> bool {
    a.given@ == b.given@ && a.context_data.options == b.context_data.options
}

/// A child context that nothing has worked on, under the options of its
/// parent, made for the delta `d`, which is smaller than that of its
/// parent.
pub open spec fn is_reverse_child(child: ReverseContext, parent: ReverseContext, d: DeltaView) -> bool {
    &&& fresh_reverse(child)
    &&& child.given@ == d
    &&& child.context_data.options == parent.context_data.options
    &&& child.delta->Delta_0.size() < parent.delta->Delta_0.size()
}

} // verus!
