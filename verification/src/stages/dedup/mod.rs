//! The deduplication stage: planning which duplicates to remove.

pub mod golden_model;
pub mod incremental_golden_model;
pub mod output;
