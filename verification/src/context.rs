//! Contexts: what one step of a pipeline works on.
//!
//! A context holds the inputs of an operation, a slot for its result, and a
//! flag by which a stage says that the step is settled.

pub mod diff;
pub mod patch;
pub mod reverse;

use crate::types::Options;
use vstd::prelude::*;

verus! {

/// The part that every context has: the result slot, the exit flag and the
/// options in force.
#[derive(Debug)]
pub struct ContextData<R> {
    pub result: Option<R>,
    pub exiting: bool,
    pub options: Options,
}

impl<R> ContextData<R> {
    /// An empty slot, with the flag down.
    pub fn new(options: Options) -> (r: Self)
        ensures
            r == (ContextData::<R> { result: None, exiting: false, options }),
    {
        ContextData { result: None, exiting: false, options }
    }

    pub fn is_exiting(&self) -> (r: bool)
        ensures
            r == self.exiting,
    {
        self.exiting
    }

    /// Fills the slot; what it held is dropped.
    pub fn set_result(&mut self, result: R)
        ensures
            *final(self) == (ContextData { result: Some(result), ..*old(self) }),
    {
        self.result = Some(result);
    }

    /// Raises the flag.
    pub fn exit(&mut self)
        ensures
            *final(self) == (ContextData { exiting: true, ..*old(self) }),
    {
        self.exiting = true;
    }

    /// Takes the result and leaves the slot empty.
    pub fn pop_result(&mut self) -> (r: Option<R>)
        ensures
            r == old(self).result,
            *final(self) == (ContextData { result: None, ..*old(self) }),
    {
        self.result.take()
    }
}

/// A context of some operation.
pub trait FilterContext: Sized {
    /// What the operation yields.
    type Result;

    /// The part shared by all contexts.
    spec fn data(&self) -> ContextData<Self::Result>;

    /// The same context with that part replaced.
    spec fn with_data(&self, data: ContextData<Self::Result>) -> Self;

    /// The results that `set_result` does not store.
    spec fn skips(&self, result: &Self::Result) -> bool;

    /// Whether `set_result` leaves `result` out.
    fn skip_set_result_filter(&mut self, result: &Self::Result) -> (r: bool)
        ensures
            r == old(self).skips(result),
            *final(self) == *old(self),
    ;

    /// Stores `result`, unless it is one that the context skips.
    fn set_result(&mut self, result: Self::Result) -> (r: &mut Self)
        ensures
            *r == (if old(self).skips(&result) {
                *old(self)
            } else {
                old(self).with_data(ContextData { result: Some(result), ..old(self).data() })
            }),
            *final(self) == *final(r),
    {
        if self.skip_set_result_filter(&result) {
            return self;
        }
        self.inner_data_mut().set_result(result);
        self
    }

    fn get_result(&self) -> (r: Option<&Self::Result>)
        ensures
            match r {
                Some(v) => self.data().result == Some(*v),
                None => self.data().result is None,
            },
    {
        self.inner_data().result.as_ref()
    }

    /// Takes the result and leaves the slot empty.
    fn pop_result(&mut self) -> (r: Option<Self::Result>)
        ensures
            r == old(self).data().result,
            *final(self) == old(self).with_data(ContextData { result: None, ..old(self).data() }),
    {
        self.inner_data_mut().pop_result()
    }

    /// Says that the step is settled. This is a signal between the stages of
    /// a pipeline; the children and the post-processing still run.
    fn exit(&mut self) -> (r: &mut Self)
        ensures
            *r == old(self).with_data(ContextData { exiting: true, ..old(self).data() }),
            *final(self) == *final(r),
    {
        self.inner_data_mut().exit();
        self
    }

    fn is_exiting(&self) -> (r: bool)
        ensures
            r == self.data().exiting,
    {
        self.inner_data().is_exiting()
    }

    fn options(&self) -> (r: &Options)
        ensures
            *r == self.data().options,
    {
        &self.inner_data().options
    }

    fn inner_data(&self) -> (r: &ContextData<Self::Result>)
        ensures
            *r == self.data(),
    ;

    fn inner_data_mut(&mut self) -> (r: &mut ContextData<Self::Result>)
        ensures
            *r == old(self).data(),
            *final(self) == old(self).with_data(*final(r)),
    ;
}

} // verus!
