//! Jobs of a worker that hashes a tree of files bottom-up: a directory's job waits for the
//! files of its children, which its child jobs report to it.

use crate::path::FilePath;
use crate::stages::build::intermediary_build_data::BuildFile;
use std::sync::Arc;
use vstd::prelude::*;

verus! {

/// The source of job identifiers: each new identifier is one more than the last one.
pub struct JobCounter {
    /// The last identifier handed out; 0 before the first.
    pub last: usize,
}

impl JobCounter {
    /// A counter that has handed out no identifier yet.
    pub fn new() -> (r: JobCounter)
        ensures
            r.last == 0,
    {
        JobCounter { last: 0 }
    }

    /// A new job identifier: one more than the last one.
    pub fn new_job_counter_id(&mut self) -> (r: usize)
        requires
            old(self).last < usize::MAX,
        ensures
            r == old(self).last + 1,
            final(self).last == r,
    {
        self.last = self.last + 1;
        self.last
    }
}

/// The state of a build job: a directory's job is first expanded into its children, then
/// analyzed once they are done.
#[derive(Debug, Clone, Copy, PartialEq, Eq, Structural)]
pub enum BuildJobState {
    /// The job has not been processed yet.
    NotProcessed,
    /// The directory has been expanded and can be analyzed further.
    Analyzed,
}

/// A job to hash a file or directory.
pub struct BuildJob {
    /// The job identifier.
    pub id: usize,
    /// The job of the directory that holds the file, if any.
    pub parent: Option<Arc<BuildJob>>,
    /// The files of the children that are done.
    pub finished_children: Vec<BuildFile>,
    /// The path of the file or directory to hash.
    pub target_path: FilePath,
    /// The state of the job.
    pub state: BuildJobState,
}

impl BuildJob {
    /// A new job for `target_path` below `parent`, with a new identifier from `counter`, not
    /// processed yet and with no finished children.
    pub fn new(parent: Option<Arc<BuildJob>>, target_path: FilePath, counter: &mut JobCounter) -> (r: BuildJob)
        requires
            old(counter).last < usize::MAX,
        ensures
            final(counter).last == old(counter).last + 1,
            r.id == final(counter).last,
            r.parent == parent,
            r.target_path == target_path,
            r.state == BuildJobState::NotProcessed,
            r.finished_children@.len() == 0,
    {
        BuildJob {
            id: counter.new_job_counter_id(),
            parent,
            target_path,
            state: BuildJobState::NotProcessed,
            finished_children: Vec::new(),
        }
    }

    /// The job identifier.
    pub fn job_id(&self) -> (r: usize)
        ensures
            r == self.id,
    {
        self.id
    }

    /// The job with a new identifier from `counter`.
    pub fn new_job_id(self, counter: &mut JobCounter) -> (r: BuildJob)
        requires
            old(counter).last < usize::MAX,
        ensures
            final(counter).last == old(counter).last + 1,
            r.id == final(counter).last,
            r.parent == self.parent,
            r.target_path == self.target_path,
            r.state == self.state,
            r.finished_children == self.finished_children,
    {
        let mut job = self;
        job.id = counter.new_job_counter_id();
        job
    }
}

/// The result of a build job.
pub struct JobResultContent {
    /// Whether the content was taken from an earlier hash tree file.
    pub already_cached: bool,
    /// The file the job produced.
    pub content: BuildFile,
}

/// A job result: final for a job without a parent, intermediate otherwise.
pub enum JobResult {
    /// The final result of the command. Returned if the job has no parent.
    Final(JobResultContent),
    /// An intermediate result of the command. Returned if the job has a parent.
    Intermediate(JobResultContent),
}


/// The identifiers that a counter hands out one after the other (`new_job_counter_id`, where
/// each one is the one before plus one) grow: a later one is greater than every earlier one,
/// so no identifier is handed out twice.
pub proof fn law_job_ids_grow(ids: Seq<usize>)
    requires
        forall|k: int| 0 < k < ids.len() ==> #[trigger] ids[k] == ids[k - 1] + 1,
    ensures
        forall|i: int, j: int| 0 <= i < j < ids.len() ==> ids[i] < ids[j],
    decreases ids.len(),
{
    if ids.len() > 0 {
        law_job_ids_grow(ids.drop_last());
        assert forall|i: int, j: int| 0 <= i < j < ids.len() implies ids[i] < ids[j] by {
            if j < ids.len() - 1 {
                assert(ids.drop_last()[i] == ids[i] && ids.drop_last()[j] == ids[j]);
            } else if i < j - 1 {
                assert(ids.drop_last()[i] == ids[i] && ids.drop_last()[j - 1] == ids[j - 1]);
                assert(ids[j] == ids[j - 1] + 1);
            } else {
                assert(ids[j] == ids[j - 1] + 1);
            }
        }
    }
}

/// A job that gets a new identifier from the counter that issued its old one (so the old
/// one is at most the counter's last) gets an identifier unlike the old one and unlike every
/// identifier the counter issued before.
pub proof fn law_new_job_id_is_fresh(old_id: usize, issued: Seq<usize>, last: usize)
    requires
        old_id <= last,
        forall|k: int| 0 <= k < issued.len() ==> #[trigger] issued[k] <= last,
        last < usize::MAX,
    ensures
        last + 1 != old_id,
        forall|k: int| 0 <= k < issued.len() ==> #[trigger] issued[k] != last + 1,
{
}

} // verus!
