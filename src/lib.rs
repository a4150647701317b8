//! Aggregation of n-gram counts: raw corpus lines are counted into sorted,
//! deduplicated runs, and runs are merged two at a time until one is left.
pub mod cascade;
pub mod counter;
pub mod entry;
pub mod ingest;
pub mod merge;
pub mod order;
pub mod pipeline;
pub mod run;
pub mod schedule;
pub mod text;

pub use crate::pipeline::run;
