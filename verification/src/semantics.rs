//! What the operations compute, as functions on the models of values and
//! deltas.

pub mod diff;
pub mod patch;
pub mod reverse;
pub mod wire;
