//! The output of the deduplication stage.

pub mod actions;

pub use actions::{DeduplicationAction, DeduplicationActionVersion, DeduplicationActions};
