//! The build stage: hashing file trees into hash tree files.

pub mod cmd;
pub mod intermediary_build_data;
pub mod output;
