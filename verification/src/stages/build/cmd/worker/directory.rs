//! A worker's analysis of a directory: first it is expanded into jobs for its children, then,
//! once their files are in, it is hashed.

use crate::hash::{GeneralHash, GeneralHashType, HashView};
use crate::order::{sort_by_key, sorted_by_key, SortKey};
use crate::path::{chars_lt, lemma_chars_lt_order, name_before, spec_join, FilePath};
use crate::stages::build::cmd::job::{BuildJob, BuildJobState, JobCounter, JobResult};
use crate::stages::build::cmd::worker::{job_result, spec_job_result, worker_create_error};
use crate::stages::build::intermediary_build_data::{BuildDirectoryInformation, BuildFile, BuildOtherInformation};
use crate::stages::build::output::{HashTreeFileEntry, HashTreeFileEntryType};
use std::sync::Arc;
use vstd::prelude::*;

verus! {

impl SortKey for String {
    type Key = Seq<char>;

    open spec fn sort_key(&self) -> Seq<char> {
        self@
    }

    open spec fn key_lt(a: Seq<char>, b: Seq<char>) -> bool {
        chars_lt(a, b)
    }

    proof fn lemma_key_order(a: Seq<char>, b: Seq<char>, c: Seq<char>) {
        lemma_chars_lt_order(a, b, c);
    }

    fn comes_before(&self, other: &Self) -> (r: bool) {
        name_before(self, other)
    }
}

/// What came of a directory's job.
pub enum DirectoryOutcome {
    /// The directory was expanded: the jobs of its children, below the directory's job.
    Expanded(Vec<BuildJob>),
    /// The directory was analyzed, or could not be.
    Finished(JobResult),
}

/// The hashes of files, in order.
pub open spec fn content_hashes(s: Seq<BuildFile>) -> Seq<HashView> {
    s.map_values(|f: BuildFile| f.spec_content_hash())
}

/// Whether the entry `found` of an earlier hash tree file still describes a directory
/// modified at `modified` whose children, in ascending order of their hashes, are
/// `children`: a directory entry with that modification time, as many children, and the
/// same children's hashes in the same order.
pub open spec fn spec_saved_directory_matches(found: HashTreeFileEntry, modified: u64, children: Seq<BuildFile>) -> bool {
    &&& found.file_type == HashTreeFileEntryType::Directory
    &&& found.modified == modified
    &&& found.size == children.len()
    &&& found.children.deep_view() == content_hashes(children)
}

/// Whether the entry `found` still describes the directory (see
/// `spec_saved_directory_matches`).
fn saved_directory_matches(found: &HashTreeFileEntry, modified: u64, children: &Vec<BuildFile>) -> (r: bool)
    ensures
        r == spec_saved_directory_matches(*found, modified, children@),
{
    if !(found.file_type == HashTreeFileEntryType::Directory && found.modified == modified
        && found.size == children.len() as u64) {
        return false;
    }
    if found.children.len() != children.len() {
        assert(found.children.deep_view().len() != content_hashes(children@).len());
        return false;
    }
    let mut i: usize = 0;
    while i < children.len()
        invariant
            i <= children@.len(),
            found.children@.len() == children@.len(),
            forall|k: int| 0 <= k < i ==> found.children.deep_view()[k] == content_hashes(children@)[k],
        decreases children@.len() - i,
    {
        let h = children[i].get_content_hash();
        if !found.children[i].same_as(&h) {
            assert(found.children.deep_view()[i as int] != content_hashes(children@)[i as int]);
            return false;
        }
        i = i + 1;
    }
    assert(found.children.deep_view() =~= content_hashes(children@));
    true
}

/// Analyzes a directory at `path`. A directory that was not processed yet is expanded: the
/// names of its files, read as `listing`, are taken in ascending order, and each gets a job
/// for the directory's path joined with the name, below the directory's job, which is now
/// analyzed; a directory that cannot be listed is reported as an other file. An analyzed
/// directory takes its children's files in ascending order of their hashes: if the entry
/// `saved` of an earlier hash tree file still describes it, it is reported with that entry's
/// hash, as taken from the earlier file; otherwise with the hash `hasher` gives for its
/// children's hashes, or as an other file if that fails.
pub fn worker_run_directory<F: Fn(GeneralHashType, &Vec<GeneralHash>) -> Option<GeneralHash>>(
    path: Vec<String>,
    modified: u64,
    size: u64,
    id: usize,
    job: BuildJob,
    saved: Option<HashTreeFileEntry>,
    listing: Result<Vec<String>, String>,
    hash_type: GeneralHashType,
    hasher: &F,
    counter: &mut JobCounter,
) -> (r: DirectoryOutcome)
    requires
        forall|t: GeneralHashType, h: &Vec<GeneralHash>| hasher.requires((t, h)),
        listing matches Ok(names) ==> old(counter).last + names@.len() < usize::MAX,
    ensures
        ({
            let has_parent = job.parent is Some;
            let failed = BuildFile::Other(
                BuildOtherInformation { path: job.target_path, modified, content_size: size },
            );
            match job.state {
                BuildJobState::NotProcessed => match listing {
                    Err(_) => r matches DirectoryOutcome::Finished(res) && spec_job_result(res, has_parent, false, failed)
                        && final(counter).last == old(counter).last,
                    Ok(names) => r matches DirectoryOutcome::Expanded(jobs) && jobs@.len() == names@.len()
                        && final(counter).last == old(counter).last + names@.len()
                        && exists|sorted: Seq<String>|
                        sorted.to_multiset() == names@.to_multiset() && sorted_by_key(sorted)
                            && forall|k: int|
                            0 <= k < jobs@.len() ==> {
                                &&& (#[trigger] jobs@[k]).target_path@ == spec_join(job.target_path@, sorted[k]@)
                                &&& jobs@[k].id == old(counter).last + k + 1
                                &&& jobs@[k].state == BuildJobState::NotProcessed
                                &&& jobs@[k].finished_children@.len() == 0
                                &&& jobs@[k].parent matches Some(p) && p.target_path == job.target_path
                                    && p.state == BuildJobState::Analyzed && p.id == job.id
                            },
                },
                BuildJobState::Analyzed => {
                    &&& final(counter).last == old(counter).last
                    &&& r matches DirectoryOutcome::Finished(res) && exists|children: Vec<BuildFile>|
                        children@.to_multiset() == job.finished_children@.to_multiset() && sorted_by_key(children@)
                            && #[trigger] spec_directory_result(res, has_parent, job.target_path, modified, size, saved, children, hash_type, *hasher)
                },
            }
        }),
{
    let has_parent = job.parent.is_some();
    let BuildJob { id: job_id, parent, finished_children, target_path, state } = job;
    match state {
        BuildJobState::NotProcessed => {
            let mut names = match listing {
                Err(_) => {
                    return DirectoryOutcome::Finished(
                        job_result(has_parent, false, worker_create_error(target_path, modified, size)),
                    );
                },
                Ok(names) => names,
            };
            let ghost initial = names@;
            sort_by_key(&mut names);
            let ghost sorted = names@;
            proof {
                broadcast use vstd::seq_lib::group_to_multiset_ensures;
                vstd::seq_lib::to_multiset_len(initial);
                vstd::seq_lib::to_multiset_len(sorted);
            }
            let mut paths: Vec<FilePath> = Vec::new();
            let mut i: usize = 0;
            while i < names.len()
                invariant
                    i <= names@.len(),
                    paths@.len() == i,
                    forall|k: int| 0 <= k < i ==> (#[trigger] paths@[k])@ == spec_join(target_path@, names@[k]@),
                decreases names@.len() - i,
            {
                paths.push(target_path.join(&names[i]));
                i = i + 1;
            }
            let ghost parent_path = target_path;
            let analyzed = Arc::new(
                BuildJob { id: job_id, parent, finished_children, target_path, state: BuildJobState::Analyzed },
            );
            let ghost base = counter.last;
            let mut jobs: Vec<BuildJob> = Vec::new();
            let mut rest = paths;
            let ghost all = rest@;
            proof {
                broadcast use vstd::seq_lib::group_to_multiset_ensures;
                assert(all.skip(0) =~= all);
                assert(sorted.len() == names@.len());
            }
            while rest.len() > 0
                invariant
                    all.len() == sorted.len(),
                    forall|k: int| 0 <= k < all.len() ==> (#[trigger] all[k])@ == spec_join(parent_path@, sorted[k]@),
                    jobs@.len() + rest@.len() == all.len(),
                    rest@ == all.skip(jobs@.len() as int),
                    counter.last == base + jobs@.len(),
                    base + all.len() < usize::MAX,
                    analyzed.target_path == parent_path,
                    analyzed.state == BuildJobState::Analyzed,
                    analyzed.id == job_id,
                    forall|k: int|
                        0 <= k < jobs@.len() ==> {
                            &&& (#[trigger] jobs@[k]).target_path == all[k]
                            &&& jobs@[k].id == base + k + 1
                            &&& jobs@[k].state == BuildJobState::NotProcessed
                            &&& jobs@[k].finished_children@.len() == 0
                            &&& jobs@[k].parent == Some(analyzed)
                        },
                decreases rest@.len(),
            {
                let child = rest.remove(0);
                assert(rest@ =~= all.skip(jobs@.len() as int + 1));
                let job = BuildJob::new(Some(Arc::clone(&analyzed)), child, counter);
                jobs.push(job);
            }
            DirectoryOutcome::Expanded(jobs)
        },
        BuildJobState::Analyzed => {
            let mut children = finished_children;
            sort_by_key(&mut children);
            let ghost sorted = children;
            let res = analyzed_directory_result(has_parent, target_path, modified, size, saved, children, hash_type, hasher);
            DirectoryOutcome::Finished(res)
        },
    }
}

/// `r` is the result of analyzing a directory at `path` whose children, in ascending order
/// of their hashes, are `children` (see `worker_run_directory`).
pub open spec fn spec_directory_result<F: Fn(GeneralHashType, &Vec<GeneralHash>) -> Option<GeneralHash>>(
    r: JobResult,
    has_parent: bool,
    path: FilePath,
    modified: u64,
    size: u64,
    saved: Option<HashTreeFileEntry>,
    children: Vec<BuildFile>,
    hash_type: GeneralHashType,
    hasher: F,
) -> bool {
    if saved matches Some(found) && spec_saved_directory_matches(found, modified, children@) {
        exists|h: GeneralHash|
            h@ == saved->0.hash@ && #[trigger] spec_job_result(
                r,
                has_parent,
                true,
                BuildFile::Directory(
                    BuildDirectoryInformation {
                        path,
                        modified,
                        content_hash: h,
                        number_of_children: children@.len() as u64,
                        children,
                    },
                ),
            )
    } else {
        exists|hashes: Vec<GeneralHash>|
            hashes.deep_view() == content_hashes(children@) && {
                ||| hasher.ensures((hash_type, &hashes), None) && spec_job_result(
                    r,
                    has_parent,
                    false,
                    BuildFile::Other(BuildOtherInformation { path, modified, content_size: size }),
                )
                ||| exists|h: GeneralHash|
                    hasher.ensures((hash_type, &hashes), Some(h)) && #[trigger] spec_job_result(
                        r,
                        has_parent,
                        false,
                        BuildFile::Directory(
                            BuildDirectoryInformation {
                                path,
                                modified,
                                content_hash: h,
                                number_of_children: children@.len() as u64,
                                children,
                            },
                        ),
                    )
            }
    }
}

/// The result of analyzing a directory whose children are `children` (see
/// `spec_directory_result`).
fn analyzed_directory_result<F: Fn(GeneralHashType, &Vec<GeneralHash>) -> Option<GeneralHash>>(
    has_parent: bool,
    path: FilePath,
    modified: u64,
    size: u64,
    saved: Option<HashTreeFileEntry>,
    children: Vec<BuildFile>,
    hash_type: GeneralHashType,
    hasher: &F,
) -> (r: JobResult)
    requires
        forall|t: GeneralHashType, h: &Vec<GeneralHash>| hasher.requires((t, h)),
    ensures
        spec_directory_result(r, has_parent, path, modified, size, saved, children, hash_type, *hasher),
{
    match &saved {
        Some(found) => {
            if saved_directory_matches(found, modified, &children) {
                let content_hash = found.hash.duplicate();
                let number_of_children = children.len() as u64;
                return job_result(
                    has_parent,
                    true,
                    BuildFile::Directory(
                        BuildDirectoryInformation { path, modified, content_hash, number_of_children, children },
                    ),
                );
            }
        },
        None => {},
    }
    let mut hashes: Vec<GeneralHash> = Vec::new();
    let mut i: usize = 0;
    while i < children.len()
        invariant
            i <= children@.len(),
            hashes@.len() == i,
            forall|k: int| 0 <= k < i ==> (#[trigger] hashes@[k])@ == children@[k].spec_content_hash(),
        decreases children@.len() - i,
    {
        hashes.push(children[i].get_content_hash());
        i = i + 1;
    }
    assert(hashes.deep_view() =~= content_hashes(children@));
    match hasher(hash_type, &hashes) {
        Some(content_hash) => {
            let number_of_children = children.len() as u64;
            job_result(
                has_parent,
                false,
                BuildFile::Directory(BuildDirectoryInformation { path, modified, content_hash, number_of_children, children }),
            )
        },
        None => job_result(has_parent, false, worker_create_error(path, modified, size)),
    }
}

} // verus!
