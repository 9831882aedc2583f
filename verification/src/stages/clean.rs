//! The clean stage: removing from a hash tree file the entries of files that no longer exist
//! or whose type changed.

pub mod cmd;
