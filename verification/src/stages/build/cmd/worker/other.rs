//! A worker's analysis of a file that is not a regular file, directory or symlink.

use crate::stages::build::cmd::job::{BuildJob, JobResult};
use crate::stages::build::cmd::worker::{job_result, saved_matches, spec_job_result, spec_saved_matches};
use crate::stages::build::intermediary_build_data::{BuildFile, BuildOtherInformation};
use crate::stages::build::output::{HashTreeFileEntry, HashTreeFileEntryType};
use vstd::prelude::*;

verus! {

/// What a worker knows of a file that is not a regular file, directory or symlink.
pub struct WorkerRunOtherArguments {
    /// The path to the file in the file system.
    pub path: Vec<String>,
    /// The last modified time of the file.
    pub modified: u64,
    /// The size of the file (given by its metadata).
    pub size: u64,
    /// The id of the worker.
    pub id: usize,
    /// The job to process.
    pub job: BuildJob,
    /// The entry of the file in an earlier hash tree file, if any.
    pub saved: Option<HashTreeFileEntry>,
}

/// Analyzes a file that is not a regular file, directory or symlink: it is reported as an
/// other file, taken from the earlier hash tree file if the entry there still describes it.
pub fn worker_run_other(arguments: WorkerRunOtherArguments) -> (r: JobResult)
    ensures
        spec_job_result(
            r,
            arguments.job.parent is Some,
            arguments.saved matches Some(found) && spec_saved_matches(
                found,
                HashTreeFileEntryType::Other,
                arguments.modified,
                arguments.size,
            ),
            BuildFile::Other(
                BuildOtherInformation {
                    path: arguments.job.target_path,
                    modified: arguments.modified,
                    content_size: arguments.size,
                },
            ),
        ),
{
    let WorkerRunOtherArguments { path: _, modified, size, id: _, job, saved } = arguments;
    let cached = match &saved {
        Some(found) => saved_matches(found, HashTreeFileEntryType::Other, modified, size),
        None => false,
    };
    let has_parent = job.parent.is_some();
    let file = BuildFile::Other(
        BuildOtherInformation { path: job.target_path, content_size: size, modified },
    );
    job_result(has_parent, cached, file)
}

} // verus!
