//! The build command: the jobs of the build, the archive trees found inside files, and the
//! planner that schedules the jobs.

pub mod archive;
pub mod job;
pub mod job_tree;
pub mod planner;
pub mod worker;
#[allow(clippy::module_inception)]
pub mod cmd;

pub use cmd::{
    BuildJob, BuildJobData, BuildSettings, DirectoryEntry, FileType, JobIdCounter, JobResult,
    JobResultBuilder, JobResultData, NodeId,
};
