//! The stages of the tool: building hash trees, cleaning them of vanished files, analysing
//! them for duplicates, planning the removal of duplicates and carrying it out.

pub mod analyze;
pub mod build;
pub mod clean;
pub mod dedup;
pub mod execute;
