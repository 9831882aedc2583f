//! A worker's analysis of a regular file.

use crate::hash::{hash_lt, lemma_hash_lt_order, GeneralHash, HashView};
use crate::order::{sort_by_key, sorted_by_key, SortKey};
use crate::stages::build::cmd::job::{BuildJob, JobResult};
use crate::stages::build::cmd::worker::{
    job_result, saved_matches, spec_job_result, spec_saved_matches, worker_create_error,
};
use crate::stages::build::intermediary_build_data::{
    BuildArchiveFileInformation, BuildFile, BuildFileInformation, BuildOtherInformation,
};
use crate::stages::build::output::{HashTreeFileEntry, HashTreeFileEntryType};
use vstd::prelude::*;

verus! {

impl SortKey for BuildFile {
    type Key = HashView;

    open spec fn sort_key(&self) -> HashView {
        self.spec_content_hash()
    }

    open spec fn key_lt(a: HashView, b: HashView) -> bool {
        hash_lt(a, b)
    }

    proof fn lemma_key_order(a: HashView, b: HashView, c: HashView) {
        lemma_hash_lt_order(a, b, c);
    }

    fn comes_before(&self, other: &Self) -> (r: bool) {
        let a = self.get_content_hash();
        let b = other.get_content_hash();
        a.less_than(&b)
    }
}

/// What reading a file gave: the hash and size of its content and, where archives are
/// looked into and the file is one, the files found in it or why probing it failed.
pub struct FileReading {
    pub hash: GeneralHash,
    pub content_size: u64,
    pub archive: Option<Result<Vec<BuildFile>, String>>,
}

/// What a worker knows of a regular file.
pub struct WorkerRunFileArguments {
    /// The path to the file in the file system.
    pub path: Vec<String>,
    /// The last modified time of the file.
    pub modified: u64,
    /// The size of the file (given by its metadata).
    pub size: u64,
    /// The id of the worker.
    pub id: usize,
    /// The job to process.
    pub job: BuildJob,
    /// The entry of the file in an earlier hash tree file, if any.
    pub saved: Option<HashTreeFileEntry>,
    /// What reading the file gave, or why it failed; not looked at when the earlier entry
    /// still describes the file.
    pub reading: Result<FileReading, String>,
}

/// Analyzes a regular file. If the entry of an earlier hash tree file still describes it, the
/// file is reported with that entry's hash, as taken from the earlier file. Otherwise a file
/// that could not be read, or whose probing for an archive failed, is reported as an other
/// file; an archive is reported with the files found in it, in ascending order of their
/// hashes; any other file with the hash and size read.
pub fn worker_run_file(arguments: WorkerRunFileArguments) -> (r: JobResult)
    ensures
        ({
            let WorkerRunFileArguments { path: _, modified, size, id: _, job, saved, reading } = arguments;
            let has_parent = job.parent is Some;
            if saved matches Some(found) && spec_saved_matches(found, HashTreeFileEntryType::File, modified, size) {
                exists|h: GeneralHash|
                    h@ == saved->0.hash@ && #[trigger] spec_job_result(
                        r,
                        has_parent,
                        true,
                        BuildFile::File(
                            BuildFileInformation {
                                path: job.target_path,
                                modified,
                                content_hash: h,
                                content_size: size,
                            },
                        ),
                    )
            } else {
                match reading {
                    Ok(FileReading { hash, content_size, archive }) => match archive {
                        None => spec_job_result(
                            r,
                            has_parent,
                            false,
                            BuildFile::File(
                                BuildFileInformation {
                                    path: job.target_path,
                                    modified,
                                    content_hash: hash,
                                    content_size,
                                },
                            ),
                        ),
                        Some(Ok(files)) => exists|children: Vec<BuildFile>|
                            children@.to_multiset() == files@.to_multiset() && sorted_by_key(
                                children@,
                            ) && #[trigger] spec_job_result(
                                r,
                                has_parent,
                                false,
                                BuildFile::ArchiveFile(
                                    BuildArchiveFileInformation {
                                        path: job.target_path,
                                        modified,
                                        content_hash: hash,
                                        content_size,
                                        children,
                                    },
                                ),
                            ),
                        Some(Err(_)) => spec_job_result(
                            r,
                            has_parent,
                            false,
                            BuildFile::Other(
                                BuildOtherInformation {
                                    path: job.target_path,
                                    modified,
                                    content_size: size,
                                },
                            ),
                        ),
                    },
                    Err(_) => spec_job_result(
                        r,
                        has_parent,
                        false,
                        BuildFile::Other(
                            BuildOtherInformation { path: job.target_path, modified, content_size: size },
                        ),
                    ),
                }
            }
        }),
{
    let WorkerRunFileArguments { path: _, modified, size, id: _, job, saved, reading } = arguments;
    let has_parent = job.parent.is_some();
    let target_path = job.target_path;
    match saved {
        Some(found) => {
            if saved_matches(&found, HashTreeFileEntryType::File, modified, size) {
                let content_hash = found.hash.duplicate();
                return job_result(
                    has_parent,
                    true,
                    BuildFile::File(BuildFileInformation { path: target_path, modified, content_hash, content_size: size }),
                );
            }
        },
        None => {},
    }
    match reading {
        Err(_) => job_result(has_parent, false, worker_create_error(target_path, modified, size)),
        Ok(FileReading { hash, content_size, archive }) => match archive {
            None => job_result(
                has_parent,
                false,
                BuildFile::File(BuildFileInformation { path: target_path, modified, content_hash: hash, content_size }),
            ),
            Some(Err(_)) => job_result(has_parent, false, worker_create_error(target_path, modified, size)),
            Some(Ok(files)) => {
                let mut children = files;
                sort_by_key(&mut children);
                job_result(
                    has_parent,
                    false,
                    BuildFile::ArchiveFile(
                        BuildArchiveFileInformation { path: target_path, modified, content_hash: hash, content_size, children },
                    ),
                )
            },
        },
    }
}

} // verus!
