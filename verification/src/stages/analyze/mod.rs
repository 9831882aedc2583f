//! The analysis stage: finding the duplicated files and directories of a hash tree file.

pub mod cmd;
pub mod intermediary_analysis_data;
pub mod output;
pub mod worker;
