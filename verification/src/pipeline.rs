//! The three pipelines, diff, patch and reverse, and what they are made of.

pub mod arrays;
pub mod diff_pipeline;
pub mod patch_pipeline;
pub mod reverse_pipeline;
pub mod texts;
