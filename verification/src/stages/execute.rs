//! The execute stage: carrying out the planned deduplication actions.

pub mod cmd;
