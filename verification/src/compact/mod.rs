//! Compaction: what a compaction merges, and how it rewrites entries.
pub mod executor;
pub mod picker;
pub mod plan;
pub mod task;
