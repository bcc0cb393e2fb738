//! The lemmas behind the laws.

pub mod array_diff;
pub mod rearrange;
pub mod sequences;
pub mod shape;
