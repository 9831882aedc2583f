//! The incremental golden model variant of the deduplication stage.

pub mod cmd;
