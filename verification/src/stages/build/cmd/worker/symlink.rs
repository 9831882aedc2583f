//! A worker's analysis of a symlink.

use crate::hash::{GeneralHash, GeneralHashType};
use crate::stages::build::cmd::job::{BuildJob, JobResult};
use crate::stages::build::cmd::worker::{
    job_result, saved_matches, spec_job_result, spec_saved_matches, worker_create_error,
};
use crate::stages::build::intermediary_build_data::{BuildFile, BuildOtherInformation, BuildSymlinkInformation};
use crate::stages::build::output::{HashTreeFileEntry, HashTreeFileEntryType};
use vstd::prelude::*;

verus! {

/// Analyzes a symlink at `path` whose target was read as `target` (or could not be read). If
/// the entry `saved` of an earlier hash tree file still describes the symlink, it is reported
/// with that entry's hash, as taken from the earlier file; otherwise with the hash `hasher`
/// gives for the target's path. A symlink whose target cannot be read, or whose target's path
/// cannot be hashed, is reported as an other file.
pub fn worker_run_symlink<P: Fn(GeneralHashType, &Vec<String>) -> Option<GeneralHash>>(
    path: Vec<String>,
    modified: u64,
    size: u64,
    id: usize,
    job: BuildJob,
    saved: Option<HashTreeFileEntry>,
    target: Result<Vec<String>, String>,
    hash_type: GeneralHashType,
    hasher: &P,
) -> (r: JobResult)
    requires
        forall|t: GeneralHashType, p: &Vec<String>| hasher.requires((t, p)),
    ensures
        ({
            let has_parent = job.parent is Some;
            let cached = saved matches Some(found) && spec_saved_matches(
                found,
                HashTreeFileEntryType::Symlink,
                modified,
                size,
            );
            let failed = BuildFile::Other(
                BuildOtherInformation { path: job.target_path, modified, content_size: size },
            );
            match target {
                Err(_) => spec_job_result(r, has_parent, false, failed),
                Ok(t) => if cached {
                    exists|h: GeneralHash|
                        h@ == saved->0.hash@ && #[trigger] spec_job_result(
                            r,
                            has_parent,
                            true,
                            BuildFile::Symlink(
                                BuildSymlinkInformation {
                                    path: job.target_path,
                                    modified,
                                    content_hash: h,
                                    target: t,
                                    content_size: size,
                                },
                            ),
                        )
                } else {
                    spec_job_result(r, has_parent, false, failed) && hasher.ensures((hash_type, &t), None)
                    || exists|h: GeneralHash|
                        hasher.ensures((hash_type, &t), Some(h)) && #[trigger] spec_job_result(
                            r,
                            has_parent,
                            false,
                            BuildFile::Symlink(
                                BuildSymlinkInformation {
                                    path: job.target_path,
                                    modified,
                                    content_hash: h,
                                    target: t,
                                    content_size: size,
                                },
                            ),
                        )
                },
            }
        }),
{
    let has_parent = job.parent.is_some();
    let target_path = job.target_path;
    let t = match target {
        Err(_) => {
            return job_result(has_parent, false, worker_create_error(target_path, modified, size));
        },
        Ok(t) => t,
    };
    match saved {
        Some(found) => {
            if saved_matches(&found, HashTreeFileEntryType::Symlink, modified, size) {
                let content_hash = found.hash.duplicate();
                return job_result(
                    has_parent,
                    true,
                    BuildFile::Symlink(
                        BuildSymlinkInformation { path: target_path, modified, content_hash, target: t, content_size: size },
                    ),
                );
            }
        },
        None => {},
    }
    match hasher(hash_type, &t) {
        Some(content_hash) => job_result(
            has_parent,
            false,
            BuildFile::Symlink(
                BuildSymlinkInformation { path: target_path, modified, content_hash, target: t, content_size: size },
            ),
        ),
        None => job_result(has_parent, false, worker_create_error(target_path, modified, size)),
    }
}

} // verus!
