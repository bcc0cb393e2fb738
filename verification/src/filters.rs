//! The stages that the pipelines are made of. Each stage settles the cases
//! that are its own and leaves the others alone.

pub mod arrays;
pub mod nested;
pub mod objects;
pub mod texts;
pub mod trivial;
