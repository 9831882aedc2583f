//! The planner of the build: it keeps the tree of jobs, decides which jobs run next and
//! folds the results of finished jobs into the tree. Running the jobs is left to the caller.

use crate::hash::{copy_hashes, null_hash, GeneralHash, HashView};
use crate::path::{copy_names, FilePath};
use crate::stages::build::cmd::archive::{inner_hashes, ArchiveFile};
use crate::stages::build::cmd::cmd::{
    BuildJob, BuildJobData, DirectoryEntry, FileType, JobIdCounter, JobResult, JobResultData,
    NodeId,
};
use crate::stages::build::cmd::job_tree::{JobTree, TreeNode};
use crate::stages::build::output::{HashTreeFileEntry, HashTreeFileEntryType, HashTreeFileEntryView};
use crate::stages::build::output::entry_index::paths_distinct;
use std::collections::{BTreeMap, BTreeSet};
use vstd::std_specs::btree::{increasing_seq, spec_btree_keys_iter};
use vstd::std_specs::cmp::OrdSpec;
use vstd::std_specs::iter::IteratorSpec;
use vstd::prelude::*;

verus! {

broadcast use vstd::laws_cmp::group_laws_cmp;

/// The state of a node of the job tree.
#[derive(Debug)]
pub enum JobTreeData {
    /// The root of the tree.
    Root,
    /// A job that is to be scheduled.
    NotScheduled(BuildJobData),
    /// A directory waiting for its children.
    BlockedByChildren(BuildJobData),
    /// A job handed to a worker.
    Running(BuildJobData),
    /// The result of a finished job.
    Finished(JobResultData),
}

impl JobTreeData {
    /// The job of the node, if it has one that has not finished.
    pub open spec fn spec_job(&self) -> Option<BuildJobData> {
        match self {
            JobTreeData::BlockedByChildren(job) => Some(*job),
            JobTreeData::Running(job) => Some(*job),
            JobTreeData::NotScheduled(job) => Some(*job),
            _ => None,
        }
    }

    /// The result of the node, if it has finished.
    pub open spec fn spec_result(&self) -> Option<JobResultData> {
        match self {
            JobTreeData::Finished(result) => Some(*result),
            _ => None,
        }
    }

    /// The path of the node; none for the root.
    pub open spec fn spec_path(&self) -> Option<Seq<Seq<char>>> {
        match self {
            JobTreeData::Root => None,
            JobTreeData::Finished(result) => Some(result.spec_path()),
            JobTreeData::BlockedByChildren(job) => Some(job.spec_path()),
            JobTreeData::Running(job) => Some(job.spec_path()),
            JobTreeData::NotScheduled(job) => Some(job.spec_path()),
        }
    }

    /// A job that was not scheduled or was waiting for its children is marked as running.
    pub fn mark_running(&mut self)
        ensures
            match *old(self) {
                JobTreeData::BlockedByChildren(job) => *final(self) == JobTreeData::Running(job),
                JobTreeData::NotScheduled(job) => *final(self) == JobTreeData::Running(job),
                _ => *final(self) == *old(self),
            },
    {
        let mut previous = JobTreeData::Root;
        std::mem::swap(self, &mut previous);
        *self = match previous {
            JobTreeData::BlockedByChildren(job) => JobTreeData::Running(job),
            JobTreeData::NotScheduled(job) => JobTreeData::Running(job),
            other => other,
        };
    }

    /// The path of the node: that of its job or of its result; none for the root.
    pub fn path(&self) -> (r: Option<&Vec<String>>)
        ensures
            match r {
                Some(p) => self.spec_path() == Some(p.deep_view()),
                None => self.spec_path() is None,
            },
    {
        match self {
            JobTreeData::BlockedByChildren(job) => Some(job.path()),
            JobTreeData::Running(job) => Some(job.path()),
            JobTreeData::NotScheduled(job) => Some(job.path()),
            JobTreeData::Finished(result) => Some(result.path()),
            JobTreeData::Root => None,
        }
    }

    /// The entry of the node: that of its job or of its result, if any.
    pub fn entry(&self) -> (r: Option<&DirectoryEntry>)
        ensures
            match r {
                Some(e) => (self.spec_job() matches Some(j) && j.spec_entry() == Some(*e)) || (
                self.spec_result() matches Some(res) && res.spec_entry() == Some(*e)),
                None => (self.spec_job() matches Some(j) ==> j.spec_entry() is None) && (
                self.spec_result() matches Some(res) ==> res.spec_entry() is None),
            },
    {
        match self {
            JobTreeData::BlockedByChildren(job) => job.entry(),
            JobTreeData::Running(job) => job.entry(),
            JobTreeData::NotScheduled(job) => job.entry(),
            JobTreeData::Finished(result) => result.entry(),
            JobTreeData::Root => None,
        }
    }

    /// The job of the node, if it has one that has not finished.
    pub fn job(&self) -> (r: Option<&BuildJobData>)
        ensures
            match r {
                Some(j) => self.spec_job() == Some(*j),
                None => self.spec_job() is None,
            },
    {
        match self {
            JobTreeData::BlockedByChildren(job) => Some(job),
            JobTreeData::Running(job) => Some(job),
            JobTreeData::NotScheduled(job) => Some(job),
            JobTreeData::Root | JobTreeData::Finished(..) => None,
        }
    }

    /// The job of the node, if it has one that has not finished, to be changed in place.
    pub fn job_mut(&mut self) -> (r: Option<&mut BuildJobData>)
        ensures
            old(self).spec_job() is None ==> r is None && *final(self) == *old(self),
            old(self).spec_job() is Some ==> (r matches Some(j) && *j == old(self).spec_job()->0 && match *old(self) {
                JobTreeData::BlockedByChildren(_) => *final(self) == JobTreeData::BlockedByChildren(*final(j)),
                JobTreeData::Running(_) => *final(self) == JobTreeData::Running(*final(j)),
                _ => *final(self) == JobTreeData::NotScheduled(*final(j)),
            }),
    {
        match self {
            JobTreeData::BlockedByChildren(job) => Some(job),
            JobTreeData::Running(job) => Some(job),
            JobTreeData::NotScheduled(job) => Some(job),
            JobTreeData::Root | JobTreeData::Finished(..) => None,
        }
    }

    /// The result of the node, if it has finished.
    pub fn result(&self) -> (r: Option<&JobResultData>)
        ensures
            match r {
                Some(res) => self.spec_result() == Some(*res),
                None => self.spec_result() is None,
            },
    {
        match self {
            JobTreeData::Finished(result) => Some(result),
            JobTreeData::Running(_)
            | JobTreeData::BlockedByChildren(_)
            | JobTreeData::Root
            | JobTreeData::NotScheduled(_) => None,
        }
    }

    /// Whether the node has finished.
    pub fn is_finished(&self) -> (r: bool)
        ensures
            r == (self is Finished),
    {
        matches!(self, JobTreeData::Finished(_))
    }
}

/// The outcome of a round of scheduling.
#[derive(Debug)]
pub enum ScheduleJobsResult {
    /// All top-level jobs have finished.
    Finished,
    /// A top-level job failed.
    Error { occurred_at: Vec<String>, reason: String },
    /// Work remains.
    Pending,
}

/// The entries of an earlier hash tree file of the same tree, by path; used to skip hashing
/// files that did not change.
pub struct FileCache {
    /// The cached entries, at most one per path (`wf`).
    pub entries: Vec<HashTreeFileEntry>,
}

/// The position of the first cached entry of path `p`, if any.
pub open spec fn spec_cache_position(c: Seq<HashTreeFileEntryView>, p: Seq<Seq<Seq<char>>>) -> Option<int> {
    if exists|i: int| 0 <= i < c.len() && c[i].path == p {
        Some(choose|i: int| 0 <= i < c.len() && c[i].path == p && forall|j: int| 0 <= j < i ==> c[j].path != p)
    } else {
        None
    }
}

/// Whether a cached entry still describes the file `info`: a regular file with the same
/// modification time and size.
pub open spec fn spec_cache_valid(cached: HashTreeFileEntryView, info: DirectoryEntry) -> bool {
    cached.modified == info.modified && cached.size == info.file_size && cached.file_type
        == HashTreeFileEntryType::File
}

impl FileCache {
    /// A cache of the given entries, which have distinct paths.
    pub fn new(entries: Vec<HashTreeFileEntry>) -> (r: FileCache)
        requires
            paths_distinct::<HashTreeFileEntry>(entries.deep_view()),
        ensures
            r.entries == entries,
            r.wf(),
    {
        FileCache { entries }
    }

    /// The entries of the cache.
    pub open spec fn view_entries(&self) -> Seq<HashTreeFileEntryView> {
        self.entries.deep_view()
    }

    /// No two entries of the cache have the same path.
    pub open spec fn wf(&self) -> bool {
        forall|i: int, j: int|
            0 <= i < self.view_entries().len() && 0 <= j < self.view_entries().len() && i != j
                ==> #[trigger] self.view_entries()[i].path != #[trigger] self.view_entries()[j].path
    }

    /// The position of the first entry of path `path`, if any.
    pub fn lookup(&self, path: &FilePath) -> (r: Option<usize>)
        ensures
            r matches Some(i) ==> spec_cache_position(self.view_entries(), path@) == Some(i as int)
                && i < self.entries@.len(),
            r is None ==> spec_cache_position(self.view_entries(), path@) is None,
    {
        let mut i: usize = 0;
        while i < self.entries.len()
            invariant
                i <= self.entries@.len(),
                forall|j: int| 0 <= j < i ==> #[trigger] self.view_entries()[j].path != path@,
            decreases self.entries@.len() - i,
        {
            if self.entries[i].path.same_as(path) {
                assert(self.view_entries()[i as int].path == path@);
                let ghost c = self.view_entries();
                assert(forall|j: int| 0 <= j < i ==> c[j].path != path@);
                assert(exists|k: int| 0 <= k < c.len() && c[k].path == path@);
                assert(spec_cache_position(c, path@) == Some(i as int)) by {
                    let k = choose|k: int| 0 <= k < c.len() && c[k].path == path@ && forall|j: int| 0 <= j < k ==> c[j].path != path@;
                    assert(0 <= 0 < c.len());
                    if k < i {
                    } else if k > i {
                        assert(c[i as int].path == path@);
                    }
                }
                return Some(i);
            }
            i = i + 1;
        }
        None
    }
}

/// The position of the cached entry that still describes the file `info`, if any: the
/// first entry of its path, if that entry is still valid.
pub open spec fn spec_cache_hit(c: Seq<HashTreeFileEntryView>, info: DirectoryEntry) -> Option<int> {
    match spec_cache_position(c, seq![info.path.deep_view()]) {
        Some(i) => if spec_cache_valid(c[i], info) {
            Some(i)
        } else {
            None
        },
        None => None,
    }
}

/// The cache after looking up the file `info`: an entry that was used is removed.
pub open spec fn spec_cache_step(c: Seq<HashTreeFileEntryView>, info: DirectoryEntry) -> Seq<HashTreeFileEntryView> {
    match spec_cache_hit(c, info) {
        Some(i) => c.remove(i),
        None => c,
    }
}

/// `d` is the result of the file `info` taken from its still valid cached entry `cached`: an
/// archive hash with the cached archive children if the entry has an inner archive hash, a
/// file hash otherwise.
pub open spec fn spec_is_cached_result(d: JobResultData, cached: HashTreeFileEntryView, info: DirectoryEntry) -> bool {
    match cached.archive_inner_hash {
        Some(h) => d matches JobResultData::CachedArchiveHash {
            info: i,
            size,
            file_hash,
            children,
            content_directory_hash,
        } && i == info && size == cached.size && file_hash@ == cached.hash && children.deep_view()
            == cached.archive_children && content_directory_hash@ == h,
        None => d matches JobResultData::FileHash { info: i, hash, size } && i == info && size
            == cached.size && hash@ == cached.hash,
    }
}

/// The result of the file `info` from the cache, if the cache holds a still valid entry of
/// its path; with `consume`, that entry is then removed. Otherwise the entry is handed back.
#[verifier::spinoff_prover]
#[verifier::rlimit(30)]
fn use_cache(cache: &mut FileCache, info: DirectoryEntry, consume: bool) -> (r: Result<JobResultData, DirectoryEntry>)
    requires
        old(cache).wf(),
    ensures
        final(cache).wf(),
        consume ==> final(cache).view_entries() == spec_cache_step(old(cache).view_entries(), info),
        !consume ==> final(cache).view_entries() == old(cache).view_entries(),
        match spec_cache_hit(old(cache).view_entries(), info) {
            Some(i) => r matches Ok(d) && spec_is_cached_result(d, old(cache).view_entries()[i], info),
            None => r == Err::<JobResultData, DirectoryEntry>(info),
        },
{
    let key = FilePath::from_realpath(&info.path);
    match cache.lookup(&key) {
        Some(i) => {
            let cached = &cache.entries[i];
            if cached.modified == info.modified && cached.size == info.file_size
                && cached.file_type == HashTreeFileEntryType::File {
                let data = match &cached.archive_inner_hash {
                    Some(archive_inner_hash) => JobResultData::CachedArchiveHash {
                        size: cached.size,
                        children: copy_hashes(&cached.archive_children),
                        file_hash: cached.hash.duplicate(),
                        content_directory_hash: archive_inner_hash.duplicate(),
                        info,
                    },
                    None => JobResultData::FileHash { size: cached.size, hash: cached.hash.duplicate(), info },
                };
                if consume {
                    let ghost before: Seq<HashTreeFileEntry> = cache.entries@;
                    cache.entries.remove(i);
                    proof {
                        let c0 = before.map_values(|e: HashTreeFileEntry| e.deep_view());
                        assert(cache.entries@ == before.remove(i as int));
                        assert(cache.view_entries() =~= c0.remove(i as int));
                        let c1 = cache.view_entries();
                        assert(old(cache).view_entries() =~= c0);
                        assert forall|a: int, b: int| 0 <= a < c1.len() && 0 <= b < c1.len() && a != b
                            implies #[trigger] c1[a].path != #[trigger] c1[b].path by {
                            let a0 = if a < i { a } else { a + 1 };
                            let b0 = if b < i { b } else { b + 1 };
                            assert(c1[a] == c0[a0] && c1[b] == c0[b0]);
                            assert(old(cache).view_entries()[a0].path != old(cache).view_entries()[b0].path);
                        }
                    }
                }
                Ok(data)
            } else {
                Err(info)
            }
        },
        None => Err(info),
    }
}

/// `d` is what a finished node keeps of the result `data`: an archive hash keeps only the
/// inner hashes of the trees found in the archive; any other result is kept as it is.
pub open spec fn spec_compacted(data: JobResultData, d: JobResultData) -> bool {
    match data {
        JobResultData::ArchiveHash { info, size, file_hash, children, content_directory_hash } => d matches JobResultData::CachedArchiveHash {
            info: i,
            size: s,
            file_hash: f,
            children: c,
            content_directory_hash: h,
        } && i == info && s == size && f == file_hash && h == content_directory_hash && c.deep_view()
            == inner_hashes(children@),
        _ => d == data,
    }
}

/// What a finished node keeps of the result `data` (see `spec_compacted`).
fn compact_result(data: JobResultData) -> (r: JobResultData)
    ensures
        spec_compacted(data, r),
{
    match data {
        JobResultData::ArchiveHash { info, size, file_hash, children, content_directory_hash } => {
            let mut hashes: Vec<GeneralHash> = Vec::with_capacity(children.len());
            let mut i: usize = 0;
            while i < children.len()
                invariant
                    i <= children@.len(),
                    hashes@.len() == i,
                    forall|k: int| 0 <= k < i ==> #[trigger] hashes@[k]@ == children@[k].spec_inner_hash(),
                decreases children@.len() - i,
            {
                hashes.push(children[i].get_inner_hash());
                i = i + 1;
            }
            assert(hashes.deep_view() =~= inner_hashes(children@));
            JobResultData::CachedArchiveHash {
                info,
                size,
                file_hash,
                children: hashes,
                content_directory_hash,
            }
        },
        other => other,
    }
}

/// The content of the node made for the file `info` found on disk, given the cache: a job
/// to list a directory or hash a symlink; for a regular file, its result from a still valid
/// cached entry, or else a job to hash it; for any other file, a finished result with the
/// `NULL` hash.
#[verifier::opaque]
pub open spec fn spec_entry_content(c: Seq<HashTreeFileEntryView>, info: DirectoryEntry, content: JobTreeData) -> bool {
    match info.file_type {
        FileType::Directory => content == JobTreeData::NotScheduled(BuildJobData::DiscoverDirectory(info)),
        FileType::File => match spec_cache_hit(c, info) {
            Some(i) => content matches JobTreeData::Finished(d) && spec_is_cached_result(d, c[i], info),
            None => content == JobTreeData::NotScheduled(BuildJobData::HashFile(info)),
        },
        FileType::Symlink => content == JobTreeData::NotScheduled(BuildJobData::HashSymlink(info)),
        FileType::Other => content matches JobTreeData::Finished(JobResultData::Other { info: i, hash })
            && i == info && hash@ == null_hash(),
    }
}

/// No node but the root holds the root's content.
pub open spec fn spec_no_stray_root(t: JobTree<JobTreeData>) -> bool {
    forall|i: NodeId| #![trigger t.at(i)] t.live(i) && i != 0 ==> !(t.at(i).content is Root)
}

/// Adding a child that does not hold the root's content keeps the root the only one that
/// does.
proof fn lemma_no_stray_root_child(t: JobTree<JobTreeData>, after: JobTree<JobTreeData>, parent: NodeId, content: JobTreeData)
    requires
        spec_no_stray_root(t),
        t.live(parent),
        t.with_child(after, parent, content),
        !(content is Root),
    ensures
        spec_no_stray_root(after),
{
    assert forall|i: NodeId| #![trigger after.at(i)] after.live(i) && i != 0 implies !(after.at(i).content is Root) by {
        if i < t.nodes@.len() && i != parent {
            assert(after.nodes@[i as int] == t.nodes@[i as int]);
            assert(t.live(i));
            assert(!(t.at(i).content is Root));
        } else if i == parent {
            assert(!(t.at(parent).content is Root));
        } else {
            assert(i == t.nodes@.len());
        }
    }
}

/// The node made for a file does not hold the root's content.
proof fn lemma_entry_content_not_root(c: Seq<HashTreeFileEntryView>, info: DirectoryEntry, content: JobTreeData)
    requires
        spec_entry_content(c, info, content),
    ensures
        !(content is Root),
{
    reveal(spec_entry_content);
}

/// Whether the node made for the file `info` is finished right away: a file that is not a
/// regular file, directory or symlink, or a regular file with a still valid cached entry.
pub open spec fn spec_entry_finished(c: Seq<HashTreeFileEntryView>, info: DirectoryEntry) -> bool {
    match info.file_type {
        FileType::File => spec_cache_hit(c, info) is Some,
        FileType::Other => true,
        _ => false,
    }
}

/// The cache after making the node for the file `info`.
pub open spec fn spec_entry_cache(c: Seq<HashTreeFileEntryView>, info: DirectoryEntry) -> Seq<HashTreeFileEntryView> {
    match info.file_type {
        FileType::File => spec_cache_step(c, info),
        _ => c,
    }
}

/// The cache after making the nodes for the files `entries`, one after the other.
#[verifier::opaque]
pub open spec fn spec_entries_cache(c: Seq<HashTreeFileEntryView>, entries: Seq<DirectoryEntry>) -> Seq<HashTreeFileEntryView>
    decreases entries.len(),
{
    if entries.len() == 0 {
        c
    } else {
        spec_entry_cache(spec_entries_cache(c, entries.drop_last()), entries.last())
    }
}

/// The nodes among those made for the files `entries`, numbered from `n0` on, that are jobs
/// to run.
pub open spec fn spec_listing_jobs(n0: int, c: Seq<HashTreeFileEntryView>, entries: Seq<DirectoryEntry>) -> Set<NodeId>
    decreases entries.len(),
{
    if entries.len() == 0 {
        Set::empty()
    } else {
        let prev = entries.drop_last();
        let s = spec_listing_jobs(n0, c, prev);
        if spec_entry_finished(spec_entries_cache(c, prev), entries.last()) {
            s
        } else {
            s.insert((n0 + prev.len()) as NodeId)
        }
    }
}

/// Whether one of the nodes made for the files `entries` is a job to run.
pub open spec fn spec_listing_blocks(c: Seq<HashTreeFileEntryView>, entries: Seq<DirectoryEntry>) -> bool
    decreases entries.len(),
{
    if entries.len() == 0 {
        false
    } else {
        let prev = entries.drop_last();
        spec_listing_blocks(c, prev) || !spec_entry_finished(spec_entries_cache(c, prev), entries.last())
    }
}

/// The content of the node made for the file `info`, and whether it is finished right away;
/// with `consume`, a cached entry that is used is removed from the cache.
fn entry_content(cache: &mut FileCache, info: DirectoryEntry, consume: bool) -> (r: (JobTreeData, bool))
    requires
        old(cache).wf(),
    ensures
        final(cache).wf(),
        spec_entry_content(old(cache).view_entries(), info, r.0),
        r.1 == spec_entry_finished(old(cache).view_entries(), info),
        consume ==> final(cache).view_entries() == spec_entry_cache(old(cache).view_entries(), info),
        !consume ==> final(cache).view_entries() == old(cache).view_entries(),
{
    reveal(spec_entry_content);
    match info.file_type {
        FileType::Directory => (JobTreeData::NotScheduled(BuildJobData::DiscoverDirectory(info)), false),
        FileType::File => match use_cache(cache, info, consume) {
            Ok(data) => (JobTreeData::Finished(data), true),
            Err(info) => (JobTreeData::NotScheduled(BuildJobData::HashFile(info)), false),
        },
        FileType::Symlink => (JobTreeData::NotScheduled(BuildJobData::HashSymlink(info)), false),
        FileType::Other => (
            JobTreeData::Finished(JobResultData::Other { info, hash: GeneralHash::null() }),
            true,
        ),
    }
}

/// The planner of the build.
pub struct JobPlanner {
    /// The tree of jobs.
    pub tree: JobTree<JobTreeData>,
    /// The nodes to look at in the next round of scheduling.
    pub scheduled_jobs: BTreeSet<NodeId>,
    /// The jobs handed to workers, by identifier, with their nodes.
    pub running_jobs: BTreeMap<u64, NodeId>,
    /// The entries of an earlier run.
    pub cache: FileCache,
    /// The source of job identifiers.
    pub job_ids: JobIdCounter,
}

impl JobPlanner {
    /// The nodes to look at in the next round of scheduling.
    pub open spec fn scheduled(&self) -> Set<NodeId> {
        self.scheduled_jobs@
    }

    /// The running jobs and their nodes.
    pub open spec fn running(&self) -> Map<u64, NodeId> {
        self.running_jobs@
    }

    /// The planner is well formed: its tree is, and no node but the root holds the root's
    /// content.
    pub open spec fn wf(&self) -> bool {
        &&& self.tree.wf()
        &&& spec_no_stray_root(self.tree)
        &&& self.cache.wf()
    }

    /// A planner with an empty tree, nothing scheduled or running, and the given cache.
    pub fn new(cache: FileCache) -> (r: JobPlanner)
        requires
            cache.wf(),
        ensures
            r.wf(),
            r.tree.nodes@.len() == 1,
            r.tree.at(0).content == JobTreeData::Root,
            r.tree.at(0).children@.len() == 0,
            r.scheduled() == Set::<NodeId>::empty(),
            r.running() == Map::<u64, NodeId>::empty(),
            r.cache == cache,
            r.job_ids.last == 0,
    {
        JobPlanner {
            tree: JobTree::new(JobTreeData::Root),
            scheduled_jobs: BTreeSet::new(),
            running_jobs: BTreeMap::new(),
            cache,
            job_ids: JobIdCounter::new(),
        }
    }

    /// Adds a node to the nodes to look at in the next round of scheduling.
    pub fn schedule(&mut self, node: NodeId)
        ensures
            final(self).scheduled() == old(self).scheduled().insert(node),
            final(self).tree == old(self).tree,
            final(self).running() == old(self).running(),
            final(self).cache == old(self).cache,
            final(self).job_ids == old(self).job_ids,
    {
        self.scheduled_jobs.insert(node);
    }

    /// Records that the job `job_id` of node `node_id` was handed to a worker.
    pub fn mark_published(&mut self, job_id: u64, node_id: NodeId)
        ensures
            final(self).running() == old(self).running().insert(job_id, node_id),
            final(self).tree == old(self).tree,
            final(self).scheduled() == old(self).scheduled(),
            final(self).cache == old(self).cache,
            final(self).job_ids == old(self).job_ids,
    {
        self.running_jobs.insert(job_id, node_id);
    }

    /// Whether a job is running.
    pub fn has_running_jobs(&self) -> (r: bool)
        ensures
            r == !self.running().is_empty(),
    {
        !self.running_jobs.is_empty()
    }

    /// Whether a node is scheduled for the next round.
    pub fn has_scheduled_jobs(&self) -> (r: bool)
        ensures
            r == !self.scheduled().is_empty(),
    {
        !self.scheduled_jobs.is_empty()
    }
}

impl JobPlanner {
    /// `after` is this planner once the node `node` has finished with the result `data`: the
    /// node keeps what `spec_compacted` says of the result and loses its descendants, and its
    /// parent is scheduled unless it has finished too.
    #[verifier::opaque]
    pub open spec fn finished(&self, after: Self, node: NodeId, data: JobResultData) -> bool {
        &&& after.tree.nodes@.len() == self.tree.nodes@.len()
        &&& after.tree.live(node)
        &&& after.tree.at(node).content matches JobTreeData::Finished(d) && spec_compacted(data, d)
        &&& after.tree.at(node).children@.len() == 0
        &&& after.tree.at(node).parent == self.tree.at(node).parent
        &&& forall|i: NodeId| #[trigger] after.tree.live(i) ==> self.tree.live(i)
        &&& forall|i: NodeId| #[trigger] after.tree.live(i) == (self.tree.live(i) && !self.tree.is_below(i, node))
        &&& forall|i: NodeId|
            #![trigger after.tree.at(i)]
            after.tree.live(i) && i != node ==> after.tree.at(i) == self.tree.at(i)
        &&& after.scheduled() == match self.tree.at(node).parent {
            Some(p) => if self.tree.at(p).content is Finished {
                self.scheduled()
            } else {
                self.scheduled().insert(p)
            },
            None => self.scheduled(),
        }
        &&& after.cache == self.cache
    }

    /// `after` is this planner once the initial job of the node `node` found the file `info`:
    /// the node gets the content `spec_entry_content` gives, and is scheduled if it is a job
    /// to run; otherwise the root is scheduled. The cache is left as it is.
    #[verifier::opaque]
    pub open spec fn evaluated(&self, after: Self, node: NodeId, info: DirectoryEntry) -> bool {
        let c = self.cache.view_entries();
        &&& after.tree.nodes@.len() == self.tree.nodes@.len()
        &&& forall|i: NodeId| #[trigger] after.tree.live(i) == self.tree.live(i)
        &&& forall|i: NodeId|
            #![trigger after.tree.nodes@[i as int]]
            i < self.tree.nodes@.len() && i != node ==> after.tree.nodes@[i as int]
                == self.tree.nodes@[i as int]
        &&& after.tree.at(node).parent == self.tree.at(node).parent
        &&& after.tree.at(node).children == self.tree.at(node).children
        &&& spec_entry_content(c, info, after.tree.at(node).content)
        &&& after.cache.view_entries() == c
        &&& after.scheduled() == self.scheduled().insert(
            if spec_entry_finished(c, info) {
                0
            } else {
                node
            },
        )
    }

    /// `after` is this planner once the node `node` listed the directory `info` with the files
    /// `entries`: one new child per file, in order, with the content `spec_entry_content`
    /// gives; the children that are jobs to run are scheduled; the node waits for its
    /// children, and is scheduled itself if none of them is a job to run.
    #[verifier::opaque]
    pub open spec fn listed(&self, after: Self, node: NodeId, info: DirectoryEntry, entries: Seq<DirectoryEntry>) -> bool {
        let n0 = self.tree.nodes@.len();
        let c = self.cache.view_entries();
        let k = entries.len();
        let jobs = spec_listing_jobs(n0 as int, c, entries);
        &&& after.tree.nodes@.len() == n0 + k
        &&& after.tree.live(node)
        &&& after.tree.at(node).content == JobTreeData::BlockedByChildren(BuildJobData::DirectoryStub(info))
        &&& after.tree.at(node).parent == self.tree.at(node).parent
        &&& after.tree.at(node).children@ == self.tree.at(node).children@ + Seq::new(
            k,
            |j: int| (n0 + j) as NodeId,
        )
        &&& forall|i: NodeId|
            #![trigger after.tree.nodes@[i as int]]
            i < n0 && i != node ==> after.tree.nodes@[i as int] == self.tree.nodes@[i as int]
        &&& forall|i: NodeId|
            n0 <= i < n0 + k ==> #[trigger] spec_listing_child(after.tree, n0, node, c, entries, i)
        &&& after.cache.view_entries() == spec_entries_cache(c, entries)
        &&& after.scheduled() == if spec_listing_blocks(c, entries) {
            self.scheduled().union(jobs)
        } else {
            self.scheduled().union(jobs).insert(node)
        }
    }

    /// `after` is this planner once the result `data` of a job of the node `node` was
    /// processed; nothing changes if the node does not exist.
    #[verifier::opaque]
    pub open spec fn processed(&self, after: Self, node: NodeId, data: JobResultData) -> bool {
        if !self.tree.live(node) {
            after.tree == self.tree && after.scheduled() == self.scheduled() && after.cache
                == self.cache
        } else {
            match data {
                JobResultData::DirectoryListing { info, children } => self.listed(
                    after,
                    node,
                    info,
                    children@,
                ),
                JobResultData::InitialEvaluation { info } => self.evaluated(after, node, info),
                _ => self.finished(after, node, data),
            }
        }
    }

    /// Adds a child with the job `job` to the node `parent` and schedules it; returns the new
    /// node, or none if the parent does not exist.
    pub fn schedule_child(&mut self, parent: NodeId, job: BuildJobData) -> (r: Option<NodeId>)
        requires
            old(self).wf(),
        ensures
            final(self).wf(),
            final(self).running() == old(self).running(),
            final(self).cache == old(self).cache,
            final(self).job_ids == old(self).job_ids,
            old(self).tree.live(parent) ==> r == Some(old(self).tree.nodes@.len() as NodeId)
                && old(self).tree.with_child(final(self).tree, parent, JobTreeData::NotScheduled(job))
                && final(self).scheduled() == old(self).scheduled().insert(
                old(self).tree.nodes@.len() as NodeId,
            ),
            !old(self).tree.live(parent) ==> r is None && final(self).tree == old(self).tree
                && final(self).scheduled() == old(self).scheduled(),
    {
        let ghost t0 = self.tree;
        let added = self.tree.add_child(parent, JobTreeData::NotScheduled(job));
        proof {
            if t0.live(parent) {
                lemma_no_stray_root_child(t0, self.tree, parent, JobTreeData::NotScheduled(job));
            }
        }
        match added {
            Some(node) => {
                self.scheduled_jobs.insert(node);
                Some(node)
            },
            None => None,
        }
    }

    /// Adds an initial job for the path `path` below the root and schedules it; returns the
    /// new node.
    pub fn schedule_initial_job(&mut self, path: Vec<String>) -> (r: Option<NodeId>)
        requires
            old(self).wf(),
        ensures
            final(self).wf(),
            final(self).running() == old(self).running(),
            final(self).cache == old(self).cache,
            final(self).job_ids == old(self).job_ids,
            r == Some(old(self).tree.nodes@.len() as NodeId),
            old(self).tree.with_child(
                final(self).tree,
                0,
                JobTreeData::NotScheduled(BuildJobData::Initial(path)),
            ),
            final(self).scheduled() == old(self).scheduled().insert(
                old(self).tree.nodes@.len() as NodeId,
            ),
    {
        let root = self.tree.root_id();
        self.schedule_child(root, BuildJobData::Initial(path))
    }

    /// The node `node_id` has finished with the result `data` (see `finished`).
    fn finish_node(&mut self, node_id: NodeId, data: JobResultData)
        requires
            old(self).wf(),
        ensures
            final(self).wf(),
            final(self).running() == old(self).running(),
            final(self).job_ids == old(self).job_ids,
            old(self).tree.live(node_id) ==> old(self).finished(*final(self), node_id, data),
            !old(self).tree.live(node_id) ==> final(self).tree == old(self).tree
                && final(self).scheduled() == old(self).scheduled() && final(self).cache
                == old(self).cache,
    {
        reveal(JobPlanner::finished);
        let content = compact_result(data);
        if self.tree.replace_content(node_id, JobTreeData::Finished(content)).is_none() {
            return;
        }
        match self.tree.parent(node_id) {
            Some(p) => {
                let parent_finished = match self.tree.node(p) {
                    Some(parent) => parent.content.is_finished(),
                    None => true,
                };
                if !parent_finished {
                    self.scheduled_jobs.insert(p);
                }
            },
            None => {},
        }
        let ghost mid = self.tree;
        self.tree.remove_children(node_id);
        proof {
            assert forall|i: NodeId| #[trigger] self.tree.live(i) == (old(self).tree.live(i) && !old(self).tree.is_below(i, node_id)) by {
                assert(mid.live(i) == old(self).tree.live(i));
                lemma_is_below_same_shape(mid, old(self).tree, i, node_id);
            }
            assert forall|i: NodeId| #![trigger self.tree.at(i)] self.tree.live(i) && i != node_id implies self.tree.at(i) == old(self).tree.at(i) by {
                assert(mid.live(i));
                assert(mid.nodes@[i as int] == old(self).tree.nodes@[i as int]);
            }
        }
    }

    /// The initial job of the node `node_id` found the file `info` (see `evaluated`).
    fn evaluate_initial(&mut self, node_id: NodeId, info: DirectoryEntry)
        requires
            old(self).wf(),
        ensures
            final(self).wf(),
            final(self).running() == old(self).running(),
            final(self).job_ids == old(self).job_ids,
            old(self).tree.live(node_id) ==> old(self).evaluated(*final(self), node_id, info),
            !old(self).tree.live(node_id) ==> final(self).tree == old(self).tree
                && final(self).scheduled() == old(self).scheduled() && final(self).cache
                == old(self).cache,
    {
        if !self.tree.contains_node(node_id) {
            return;
        }
        reveal(JobPlanner::evaluated);
        let ghost c0 = self.cache.view_entries();
        let (content, finished) = entry_content(&mut self.cache, info, false);
        proof {
            lemma_entry_content_not_root(c0, info, content);
        }
        self.tree.replace_content(node_id, content);
        if finished {
            let root = self.tree.root_id();
            self.scheduled_jobs.insert(root);
        } else {
            self.scheduled_jobs.insert(node_id);
        }
    }
}

impl JobPlanner {
    /// The node `node_id` listed the directory `info` with the files `children` (see
    /// `listed`).
    fn add_listing(&mut self, node_id: NodeId, info: DirectoryEntry, children: Vec<DirectoryEntry>)
        requires
            old(self).wf(),
        ensures
            final(self).wf(),
            final(self).running() == old(self).running(),
            final(self).job_ids == old(self).job_ids,
            old(self).tree.live(node_id) ==> old(self).listed(*final(self), node_id, info, children@),
            !old(self).tree.live(node_id) ==> final(self).tree == old(self).tree
                && final(self).scheduled() == old(self).scheduled() && final(self).cache
                == old(self).cache,
    {
        if !self.tree.contains_node(node_id) {
            return;
        }
        let ghost p0 = *self;
        let ghost entries = children@;
        let ghost mut j: int = 0;
        let mut rest = children;
        let mut blocking = false;
        proof {
            lemma_listing_start(p0, node_id, entries);
        }
        while rest.len() > 0
            invariant
                self.wf(),
                0 <= j <= entries.len(),
                rest@ == entries.skip(j),
                listing_progress(p0, *self, node_id, entries, j, blocking),
            decreases rest@.len(),
        {
            let entry = rest.remove(0);
            assert(entry == entries[j]);
            assert(rest@ =~= entries.skip(j + 1));
            let ghost prev = *self;
            let ghost prev_blocking = blocking;
            let (content, finished) = entry_content(&mut self.cache, entry, true);
            proof {
                lemma_listing_live(p0, prev, node_id, entries, j, blocking);
                lemma_entry_content_not_root(prev.cache.view_entries(), entries[j], content);
            }
            let ghost tree_before = self.tree;
            let added = self.tree.add_child(node_id, content);
            if !finished {
                match added {
                    Some(id) => {
                        self.scheduled_jobs.insert(id);
                    },
                    None => {},
                }
                blocking = true;
            }
            proof {
                lemma_no_stray_root_child(tree_before, self.tree, node_id, content);
                lemma_listing_tree_step(p0, prev, *self, node_id, entries, j, content);
                lemma_listing_state_step(p0, prev, *self, entries, j, prev_blocking, blocking, finished);
                j = j + 1;
            }
        }
        let ghost before_stub = *self;
        proof {
            lemma_listing_live(p0, before_stub, node_id, entries, j, blocking);
        }
        self.tree.replace_content(node_id, JobTreeData::BlockedByChildren(BuildJobData::DirectoryStub(info)));
        if !blocking {
            self.scheduled_jobs.insert(node_id);
        }
        proof {
            lemma_listing_end(p0, before_stub, *self, node_id, info, entries, j, blocking);
        }
    }

    /// Processes the result of a job: the job is no longer running, and the result is folded
    /// into the tree (see `processed`). Returns the hash tree file entries the result gives,
    /// to be written out. A result of a job that is not running is ignored.
    pub fn process_result(&mut self, result: JobResult) -> (r: Vec<HashTreeFileEntry>)
        requires
            old(self).wf(),
        ensures
            final(self).wf(),
            final(self).job_ids == old(self).job_ids,
            !old(self).running().contains_key(result.job_id) ==> r@.len() == 0 && final(self).tree
                == old(self).tree && final(self).scheduled() == old(self).scheduled()
                && final(self).running() == old(self).running() && final(self).cache
                == old(self).cache,
            old(self).running().contains_key(result.job_id) ==> {
                &&& final(self).running() == old(self).running().remove(result.job_id)
                &&& r.deep_view() == result.result.spec_hash_tree_file_entry()
                &&& old(self).processed(*final(self), result.node_id, result.result)
            },
    {
        if self.running_jobs.remove(&result.job_id).is_none() {
            assert(self.running_jobs@ =~= old(self).running_jobs@);
            return Vec::new();
        }
        reveal(JobPlanner::processed);
        reveal(JobPlanner::listed);
        reveal(JobPlanner::evaluated);
        reveal(JobPlanner::finished);
        let entries = result.result.hash_tree_file_entry();
        let JobResult { job_id: _, node_id, result: data } = result;
        match data {
            JobResultData::DirectoryListing { info, children } => {
                self.add_listing(node_id, info, children);
            },
            JobResultData::InitialEvaluation { info } => {
                self.evaluate_initial(node_id, info);
            },
            other => {
                self.finish_node(node_id, other);
            },
        }
        entries
    }
}

/// The node `i`, made for the file `entries[i - n0]` by a listing of the node `node` that
/// started with `n0` nodes and the cache `c`, is a childless child of `node` with the
/// content `spec_entry_content` gives for that file and the cache at that point.
pub open spec fn spec_listing_child(
    t: JobTree<JobTreeData>,
    n0: nat,
    node: NodeId,
    c: Seq<HashTreeFileEntryView>,
    entries: Seq<DirectoryEntry>,
    i: NodeId,
) -> bool {
    let x = i - n0;
    &&& t.live(i)
    &&& t.at(i).parent == Some(node)
    &&& t.at(i).children@.len() == 0
    &&& spec_entry_content(spec_entries_cache(c, entries.take(x)), entries[x], t.at(i).content)
}

/// The tree of a listing after its first `j` files: the node `node` is as it was but for
/// one new child per file, each with the content `spec_entry_content` gives.
pub open spec fn listing_tree_progress(p0: JobPlanner, cur: JobPlanner, node: NodeId, entries: Seq<DirectoryEntry>, j: int) -> bool {
    let n0 = p0.tree.nodes@.len();
    let c0 = p0.cache.view_entries();
    &&& p0.tree.live(node)
    &&& cur.tree.nodes@.len() == n0 + j
    &&& cur.tree.live(node)
    &&& cur.tree.at(node).content == p0.tree.at(node).content
    &&& cur.tree.at(node).parent == p0.tree.at(node).parent
    &&& cur.tree.at(node).children@ == p0.tree.at(node).children@ + Seq::new(
        j as nat,
        |x: int| (n0 + x) as NodeId,
    )
    &&& forall|i: NodeId|
        #![trigger cur.tree.nodes@[i as int]]
        i < n0 && i != node ==> cur.tree.nodes@[i as int] == p0.tree.nodes@[i as int]
    &&& forall|i: NodeId|
        n0 <= i < n0 + j ==> #[trigger] spec_listing_child(cur.tree, n0, node, c0, entries, i)
}

/// The cache, the scheduled nodes and the running jobs of a listing after its first `j`
/// files.
pub open spec fn listing_state_progress(p0: JobPlanner, cur: JobPlanner, entries: Seq<DirectoryEntry>, j: int, blocking: bool) -> bool {
    let n0 = p0.tree.nodes@.len();
    let c0 = p0.cache.view_entries();
    &&& cur.cache.view_entries() == spec_entries_cache(c0, entries.take(j))
    &&& cur.scheduled() == p0.scheduled().union(spec_listing_jobs(n0 as int, c0, entries.take(j)))
    &&& blocking == spec_listing_blocks(c0, entries.take(j))
    &&& cur.running() == p0.running()
    &&& cur.job_ids == p0.job_ids
}

/// The state of a listing after its first `j` files.
pub open spec fn listing_progress(p0: JobPlanner, cur: JobPlanner, node: NodeId, entries: Seq<DirectoryEntry>, j: int, blocking: bool) -> bool {
    &&& listing_tree_progress(p0, cur, node, entries, j)
    &&& listing_state_progress(p0, cur, entries, j, blocking)
}

/// A listing starts with no file done.
proof fn lemma_listing_start(p0: JobPlanner, node: NodeId, entries: Seq<DirectoryEntry>)
    requires
        p0.tree.live(node),
    ensures
        listing_progress(p0, p0, node, entries, 0, false),
{
    let n0 = p0.tree.nodes@.len();
    assert(entries.take(0) =~= Seq::<DirectoryEntry>::empty());
    reveal(spec_entries_cache);
    assert(p0.tree.at(node).children@ + Seq::new(0, |x: int| (n0 + x) as NodeId) =~= p0.tree.at(node).children@);
    assert(p0.scheduled().union(Set::<NodeId>::empty()) =~= p0.scheduled());
}

/// During a listing, the node and its parent stay as they were.
proof fn lemma_listing_live(p0: JobPlanner, cur: JobPlanner, node: NodeId, entries: Seq<DirectoryEntry>, j: int, blocking: bool)
    requires
        listing_progress(p0, cur, node, entries, j, blocking),
    ensures
        cur.tree.live(node),
        cur.cache.view_entries() == spec_entries_cache(p0.cache.view_entries(), entries.take(j)),
{
}

/// One more file of a listing is done: the cache and the scheduled nodes.
#[verifier::spinoff_prover]
proof fn lemma_listing_state_step(
    p0: JobPlanner,
    prev: JobPlanner,
    cur: JobPlanner,
    entries: Seq<DirectoryEntry>,
    j: int,
    prev_blocking: bool,
    blocking: bool,
    finished: bool,
)
    requires
        0 <= j < entries.len(),
        prev.tree.nodes@.len() == p0.tree.nodes@.len() + j,
        listing_state_progress(p0, prev, entries, j, prev_blocking),
        finished == spec_entry_finished(prev.cache.view_entries(), entries[j]),
        cur.cache.view_entries() == spec_entry_cache(prev.cache.view_entries(), entries[j]),
        cur.scheduled() == if finished {
            prev.scheduled()
        } else {
            prev.scheduled().insert(prev.tree.nodes@.len() as NodeId)
        },
        blocking == (prev_blocking || !finished),
        cur.running() == prev.running(),
        cur.job_ids == prev.job_ids,
    ensures
        listing_state_progress(p0, cur, entries, j + 1, blocking),
{
    let n0 = p0.tree.nodes@.len();
    let c0 = p0.cache.view_entries();
    let t = entries.take(j + 1);
    assert(t.drop_last() =~= entries.take(j));
    assert(t.last() == entries[j]);
    reveal(spec_entries_cache);
    assert(cur.scheduled() =~= p0.scheduled().union(spec_listing_jobs(n0 as int, c0, t)));
}

/// One more file of a listing is done: the tree.
#[verifier::spinoff_prover]
proof fn lemma_listing_tree_step(
    p0: JobPlanner,
    prev: JobPlanner,
    cur: JobPlanner,
    node: NodeId,
    entries: Seq<DirectoryEntry>,
    j: int,
    content: JobTreeData,
)
    requires
        0 <= j < entries.len(),
        listing_tree_progress(p0, prev, node, entries, j),
        prev.cache.view_entries() == spec_entries_cache(p0.cache.view_entries(), entries.take(j)),
        spec_entry_content(prev.cache.view_entries(), entries[j], content),
        prev.tree.with_child(cur.tree, node, content),
    ensures
        listing_tree_progress(p0, cur, node, entries, j + 1),
{
    let n0 = p0.tree.nodes@.len();
    let c0 = p0.cache.view_entries();
    let id = (n0 + j) as NodeId;
    assert(cur.tree.nodes@.len() == cur.tree.nodes.len());
    assert(prev.tree.live(node));
    assert(Seq::new((j + 1) as nat, |x: int| (n0 + x) as NodeId) =~= Seq::new(j as nat, |x: int| (n0 + x) as NodeId).push(id));
    assert(cur.tree.at(node).children@ =~= p0.tree.at(node).children@ + Seq::new((j + 1) as nat, |x: int| (n0 + x) as NodeId));
    assert forall|i: NodeId| #![trigger cur.tree.nodes@[i as int]] i < n0 && i != node implies cur.tree.nodes@[i as int] == p0.tree.nodes@[i as int] by {
        assert(cur.tree.nodes@[i as int] == prev.tree.nodes@[i as int]);
    }
    assert forall|i: NodeId| n0 <= i < n0 + j + 1 implies #[trigger] spec_listing_child(cur.tree, n0, node, c0, entries, i) by {
        if i < n0 + j {
            assert(spec_listing_child(prev.tree, n0, node, c0, entries, i));
            assert(cur.tree.nodes@[i as int] == prev.tree.nodes@[i as int]);
        } else {
            assert(i == prev.tree.nodes@.len() as NodeId);
            assert(i - n0 == j);
        }
    }
}

/// A listing ends with the node waiting for its children.
proof fn lemma_listing_end(
    p0: JobPlanner,
    before: JobPlanner,
    after: JobPlanner,
    node: NodeId,
    info: DirectoryEntry,
    entries: Seq<DirectoryEntry>,
    j: int,
    blocking: bool,
)
    requires
        j == entries.len(),
        listing_progress(p0, before, node, entries, j, blocking),
        after.tree.nodes@.len() == before.tree.nodes@.len(),
        forall|i: NodeId|
            #![trigger after.tree.nodes@[i as int]]
            i < before.tree.nodes@.len() && i != node ==> after.tree.nodes@[i as int]
                == before.tree.nodes@[i as int],
        after.tree.live(node),
        after.tree.at(node).content == JobTreeData::BlockedByChildren(BuildJobData::DirectoryStub(info)),
        after.tree.at(node).parent == before.tree.at(node).parent,
        after.tree.at(node).children == before.tree.at(node).children,
        after.cache == before.cache,
        after.scheduled() == if blocking {
            before.scheduled()
        } else {
            before.scheduled().insert(node)
        },
    ensures
        p0.listed(after, node, info, entries),
{
    reveal(JobPlanner::listed);
    let n0 = p0.tree.nodes@.len();
    assert(entries.take(j) =~= entries);
    assert(after.tree.nodes@.len() == after.tree.nodes.len());
    assert forall|i: NodeId| #![trigger after.tree.nodes@[i as int]] i < n0 && i != node implies after.tree.nodes@[i as int] == p0.tree.nodes@[i as int] by {
        assert(before.tree.nodes@[i as int] == p0.tree.nodes@[i as int]);
    }
    assert forall|i: NodeId| n0 <= i < n0 + entries.len() implies #[trigger] spec_listing_child(after.tree, n0, node, p0.cache.view_entries(), entries, i) by {
        assert(spec_listing_child(before.tree, n0, node, p0.cache.view_entries(), entries, i));
        assert(after.tree.nodes@[i as int] == before.tree.nodes@[i as int]);
    }
}

/// The contents of the children of the node `node` of `t`, in order.
pub open spec fn spec_child_contents(t: JobTree<JobTreeData>, node: NodeId) -> Seq<JobTreeData> {
    t.at(node).children@.map_values(|c: NodeId| t.at(c).content)
}

/// Whether a directory waiting for its children can go on: a child failed, or all have
/// finished.
pub open spec fn spec_children_ready(s: Seq<JobTreeData>) -> bool {
    ||| exists|i: int| 0 <= i < s.len() && (#[trigger] s[i]) matches JobTreeData::Finished(JobResultData::Error { .. })
    ||| forall|i: int| 0 <= i < s.len() ==> (#[trigger] s[i]) is Finished
}

/// The hash a finished child contributes to its directory, if it has one.
pub open spec fn spec_content_hash(c: JobTreeData) -> Option<HashView> {
    match c {
        JobTreeData::Finished(d) => match d {
            JobResultData::ArchiveHash { file_hash, .. } => Some(file_hash@),
            JobResultData::CachedArchiveHash { file_hash, .. } => Some(file_hash@),
            JobResultData::SymlinkHash { hash, .. } => Some(hash@),
            JobResultData::DirectoryHash { hash, .. } => Some(hash@),
            JobResultData::FileHash { hash, .. } => Some(hash@),
            JobResultData::Other { hash, .. } => Some(hash@),
            _ => None,
        },
        _ => None,
    }
}

/// The failure a finished child passes on to its directory, if any: the place and reason of
/// an error; a listing or an initial evaluation where a hash was due.
pub open spec fn spec_content_problem(c: JobTreeData) -> Option<(Seq<Seq<char>>, Seq<char>)> {
    match c {
        JobTreeData::Finished(d) => match d {
            JobResultData::Error { occurred_at, reason, .. } => Some((occurred_at.deep_view(), reason@)),
            JobResultData::DirectoryListing { info, .. } => Some(
                (info.path.deep_view(), "Parent was evaluated and child did not hash properly"@),
            ),
            JobResultData::InitialEvaluation { info } => Some(
                (info.path.deep_view(), "Parent was evaluated and child was of initial eval type"@),
            ),
            _ => None,
        },
        _ => None,
    }
}

/// The hashes of the finished children, in order.
pub open spec fn spec_child_hashes(s: Seq<JobTreeData>) -> Seq<HashView>
    decreases s.len(),
{
    if s.len() == 0 {
        Seq::empty()
    } else {
        let prev = spec_child_hashes(s.drop_last());
        match spec_content_hash(s.last()) {
            Some(h) => prev.push(h),
            None => prev,
        }
    }
}

/// The failure of the first child that passes one on, if any.
pub open spec fn spec_child_problem(s: Seq<JobTreeData>) -> Option<(Seq<Seq<char>>, Seq<char>)>
    decreases s.len(),
{
    if s.len() == 0 {
        None
    } else {
        match spec_child_problem(s.drop_last()) {
            Some(p) => Some(p),
            None => spec_content_problem(s.last()),
        }
    }
}

/// Whether the node `a` is the node `from` or one of its ancestors in `t`.
pub open spec fn spec_on_chain(t: JobTree<JobTreeData>, from: NodeId, a: NodeId) -> bool
    decreases from,
{
    if a == from {
        true
    } else if !t.live(from) {
        false
    } else {
        match t.at(from).parent {
            Some(p) => if p < from {
                spec_on_chain(t, p, a)
            } else {
                false
            },
            None => false,
        }
    }
}

/// A node on a chain is at most the node the chain starts from.
proof fn lemma_on_chain_below(t: JobTree<JobTreeData>, from: NodeId, a: NodeId)
    requires
        spec_on_chain(t, from, a),
    ensures
        a <= from,
    decreases from,
{
    if a != from {
        let p = t.at(from).parent->Some_0;
        lemma_on_chain_below(t, p, a);
    }
}

/// `after` is the tree `t` with a failure passed up from the node `node` to the root: every
/// node on the way but the root becomes an error at its own path, with the place and reason
/// `problem`; nothing else changes.
pub open spec fn spec_bubbled(t: JobTree<JobTreeData>, after: JobTree<JobTreeData>, node: NodeId, problem: (Seq<Seq<char>>, Seq<char>)) -> bool {
    &&& after.nodes@.len() == t.nodes@.len()
    &&& forall|i: NodeId| #[trigger] after.live(i) == t.live(i)
    &&& forall|i: NodeId|
        #![trigger after.at(i)]
        t.live(i) ==> {
            &&& after.at(i).parent == t.at(i).parent
            &&& after.at(i).children == t.at(i).children
            &&& if spec_on_chain(t, node, i) && t.at(i).content.spec_path() is Some {
                after.at(i).content matches JobTreeData::Finished(JobResultData::Error { path, occurred_at, reason })
                    && Some(path.deep_view()) == t.at(i).content.spec_path()
                    && occurred_at.deep_view() == problem.0 && reason@ == problem.1
            } else {
                after.at(i).content == t.at(i).content
            }
        }
}

/// What the scheduler makes of the root's children: the first error among them ends the
/// build with that error; a child that has not finished keeps it going (none); all finished
/// ends it.
pub open spec fn spec_root_result(s: Seq<JobTreeData>, r: Option<ScheduleJobsResult>) -> bool
    decreases s.len(),
{
    if s.len() == 0 {
        r matches Some(ScheduleJobsResult::Finished)
    } else {
        match s[0] {
            JobTreeData::Finished(JobResultData::Error { occurred_at, reason, .. }) => r matches Some(
                ScheduleJobsResult::Error { occurred_at: o, reason: why },
            ) && o.deep_view() == occurred_at.deep_view() && why@ == reason@,
            JobTreeData::Finished(_) => spec_root_result(s.drop_first(), r),
            _ => r is None,
        }
    }
}

/// A node on the chain of a node's ancestors leads on to its parent.
proof fn lemma_on_chain_step(t: JobTree<JobTreeData>, from: NodeId, a: NodeId, p: NodeId)
    requires
        spec_on_chain(t, from, a),
        t.live(a),
        t.at(a).parent == Some(p),
        p < a,
    ensures
        spec_on_chain(t, from, p),
    decreases from,
{
    lemma_on_chain_below(t, from, a);
    if a != from {
        let q = t.at(from).parent->Some_0;
        lemma_on_chain_step(t, q, a, p);
    } else {
        assert(spec_on_chain(t, p, p));
    }
}

/// Once a child passes a failure on, the first failure among all children is known.
proof fn lemma_child_problem_extends(s: Seq<JobTreeData>, k: int)
    requires
        0 <= k <= s.len(),
        spec_child_problem(s.take(k)) is Some,
    ensures
        spec_child_problem(s) == spec_child_problem(s.take(k)),
    decreases s.len() - k,
{
    if k == s.len() {
        assert(s.take(k) =~= s);
    } else {
        assert(s.take(k + 1).drop_last() =~= s.take(k));
        lemma_child_problem_extends(s, k + 1);
    }
}

/// Scanning the root's children past the first `i`, which all finished without error,
/// decides as scanning them all.
proof fn lemma_root_result_skip(s: Seq<JobTreeData>, i: int, r: Option<ScheduleJobsResult>)
    requires
        0 <= i <= s.len(),
        forall|j: int| 0 <= j < i ==> (#[trigger] s[j]) is Finished && !(s[j] matches JobTreeData::Finished(JobResultData::Error { .. })),
    ensures
        spec_root_result(s, r) == spec_root_result(s.skip(i), r),
    decreases i,
{
    if i == 0 {
        assert(s.skip(0) =~= s);
    } else {
        assert(s[0] is Finished);
        lemma_root_result_skip(s.drop_first(), i - 1, r);
        assert(s.drop_first().skip(i - 1) =~= s.skip(i));
    }
}

/// The root's children either end the build or keep it going, not both.
proof fn lemma_root_result_exclusive(s: Seq<JobTreeData>, r: Option<ScheduleJobsResult>)
    requires
        spec_root_result(s, r),
        r is Some,
    ensures
        !spec_root_result(s, None),
    decreases s.len(),
{
    if s.len() > 0 {
        match s[0] {
            JobTreeData::Finished(JobResultData::Error { .. }) => {},
            JobTreeData::Finished(_) => {
                lemma_root_result_exclusive(s.drop_first(), r);
            },
            _ => {},
        }
    }
}

/// `t1` is `t0` with only the content of the node `node` replaced by `content`.
pub open spec fn spec_content_replaced(t0: JobTree<JobTreeData>, t1: JobTree<JobTreeData>, node: NodeId, content: JobTreeData) -> bool {
    &&& t1.nodes@.len() == t0.nodes@.len()
    &&& forall|i: NodeId| #[trigger] t1.live(i) == t0.live(i)
    &&& forall|i: NodeId|
        #![trigger t1.nodes@[i as int]]
        i < t0.nodes@.len() && i != node ==> t1.nodes@[i as int] == t0.nodes@[i as int]
    &&& t1.at(node).content == content
    &&& t1.at(node).parent == t0.at(node).parent
    &&& t1.at(node).children == t0.at(node).children
}

/// `jobs` is `before` with one more job, for the node `node`, with the identifier `id`,
/// doing the same work as `data`.
pub open spec fn spec_published(before: Seq<BuildJob>, jobs: Seq<BuildJob>, node: NodeId, id: u64, data: BuildJobData) -> bool {
    &&& jobs.len() == before.len() + 1
    &&& jobs.drop_last() == before
    &&& jobs.last().node_id == node
    &&& jobs.last().job_id == id
    &&& jobs.last().data.spec_same(&data)
}

impl JobPlanner {
    /// `after` is this planner, and `jobs` the jobs `before`, unchanged.
    pub open spec fn unchanged_by_scheduling(&self, after: Self, before: Seq<BuildJob>, jobs: Seq<BuildJob>) -> bool {
        &&& after.tree == self.tree
        &&& after.scheduled() == self.scheduled()
        &&& after.job_ids == self.job_ids
        &&& jobs == before
    }

    /// `after` is this planner once it started the job `data` of the node `node`, which now
    /// holds `content`; `jobs` is `before` with the job added.
    pub open spec fn started(&self, after: Self, node: NodeId, content: JobTreeData, data: BuildJobData, before: Seq<BuildJob>, jobs: Seq<BuildJob>) -> bool {
        &&& spec_content_replaced(self.tree, after.tree, node, content)
        &&& after.scheduled() == self.scheduled()
        &&& after.job_ids.last == (self.job_ids.last + 1) % 0x1_0000_0000_0000_0000
        &&& spec_published(before, jobs, node, after.job_ids.last, data)
    }

    /// `after` is this planner, and `jobs` the jobs `before` with those it started, once it
    /// looked at the node `node` in a round of scheduling; `r` is what ends the round, if
    /// anything. A job that was not started is started. A directory waiting for its
    /// children goes on once one failed or all finished: the first failure is passed up to
    /// the root, which is scheduled; otherwise the directory is hashed from its children's
    /// hashes. The root decides whether the build is over (`spec_root_result`). Anything
    /// else is left as it is.
    #[verifier::opaque]
    pub open spec fn scheduled_node(&self, after: Self, node: NodeId, before: Seq<BuildJob>, jobs: Seq<BuildJob>, r: Option<ScheduleJobsResult>) -> bool {
        if !self.tree.live(node) {
            r is None && self.unchanged_by_scheduling(after, before, jobs)
        } else {
            match self.tree.at(node).content {
                JobTreeData::Root => spec_root_result(spec_child_contents(self.tree, 0), r)
                    && self.unchanged_by_scheduling(after, before, jobs),
                JobTreeData::NotScheduled(job) => r is None && self.started(
                    after,
                    node,
                    JobTreeData::Running(job),
                    job,
                    before,
                    jobs,
                ),
                JobTreeData::BlockedByChildren(job) => {
                    let s = spec_child_contents(self.tree, node);
                    &&& r is None
                    &&& if !spec_children_ready(s) {
                        self.unchanged_by_scheduling(after, before, jobs)
                    } else {
                        match spec_child_problem(s) {
                            Some(problem) => {
                                &&& spec_bubbled(self.tree, after.tree, node, problem)
                                &&& after.scheduled() == self.scheduled().insert(0)
                                &&& after.job_ids == self.job_ids
                                &&& jobs == before
                            },
                            None => match job.spec_entry() {
                                Some(info) => after.tree.at(node).content matches JobTreeData::Running(
                                    BuildJobData::HashDirectory { info: i, children: c },
                                ) && i.spec_same(&info) && c.deep_view() == spec_child_hashes(s)
                                    && self.started(
                                    after,
                                    node,
                                    after.tree.at(node).content,
                                    BuildJobData::HashDirectory { info: i, children: c },
                                    before,
                                    jobs,
                                ),
                                None => self.unchanged_by_scheduling(after, before, jobs),
                            },
                        }
                    }
                },
                _ => r is None && self.unchanged_by_scheduling(after, before, jobs),
            }
        }
    }

    /// `states` are the states of this planner in a round of scheduling that took the
    /// scheduled nodes and looked at the nodes `order` one after the other
    /// (`scheduled_node`), passing over the root; `jobs` are the jobs started so far in each
    /// state.
    pub open spec fn scheduling_steps(&self, order: Seq<NodeId>, states: Seq<Self>, jobs: Seq<Seq<BuildJob>>) -> bool {
        &&& states.len() == order.len() + 1
        &&& jobs.len() == order.len() + 1
        &&& states[0].tree == self.tree
        &&& states[0].scheduled() == Set::<NodeId>::empty()
        &&& states[0].job_ids == self.job_ids
        &&& jobs[0].len() == 0
        &&& forall|k: int|
            0 <= k < order.len() ==> if #[trigger] order[k] == 0 {
                states[k + 1] == states[k] && jobs[k + 1] == jobs[k]
            } else {
                states[k].scheduled_node(states[k + 1], order[k], jobs[k], jobs[k + 1], None)
            }
    }

    /// `after` is this planner once a round of scheduling took the scheduled nodes and
    /// looked at the nodes `order` one after the other (`scheduling_steps`); `jobs` are the
    /// jobs it started, in the order in which they were started.
    pub open spec fn scheduling_round(&self, after: Self, order: Seq<NodeId>, jobs: Seq<BuildJob>) -> bool {
        exists|states: Seq<Self>, started: Seq<Seq<BuildJob>>|
            #[trigger] self.scheduling_steps(order, states, started) && states.last() == after && started.last() == jobs
    }

    /// Whether the children of the node `node_id`, which exists, let it go on
    /// (`spec_children_ready`).
    fn children_ready(&self, node_id: NodeId) -> (r: bool)
        requires
            self.wf(),
            self.tree.live(node_id),
        ensures
            r == spec_children_ready(spec_child_contents(self.tree, node_id)),
    {
        let ghost s = spec_child_contents(self.tree, node_id);
        let node = match self.tree.node(node_id) {
            Some(node) => node,
            None => {
                return false;
            },
        };
        let mut any_error = false;
        let mut all_finished = true;
        let mut i: usize = 0;
        while i < node.children.len()
            invariant
                self.wf(),
                self.tree.live(node_id),
                *node == self.tree.at(node_id),
                s == spec_child_contents(self.tree, node_id),
                i <= s.len(),
                s.len() == node.children@.len(),
                any_error == exists|j: int| 0 <= j < i && (#[trigger] s[j]) matches JobTreeData::Finished(JobResultData::Error { .. }),
                all_finished == forall|j: int| 0 <= j < i ==> (#[trigger] s[j]) is Finished,
            decreases node.children@.len() - i,
        {
            let c = node.children[i];
            assert(self.tree.at(node_id).children@[i as int] == c);
            assert(s[i as int] == self.tree.at(c).content);
            match self.tree.node(c) {
                Some(child) => {
                    match &child.content {
                        JobTreeData::Finished(JobResultData::Error { .. }) => {
                            any_error = true;
                        },
                        JobTreeData::Finished(_) => {},
                        _ => {
                            all_finished = false;
                        },
                    }
                },
                None => {
                    all_finished = false;
                },
            }
            i = i + 1;
        }
        any_error || all_finished
    }

    /// The hashes of the finished children of the node `node_id`, which exists, in order; or
    /// the first failure one of them passes on.
    fn collect_children(&self, node_id: NodeId) -> (r: Result<Vec<GeneralHash>, (Vec<String>, String)>)
        requires
            self.wf(),
            self.tree.live(node_id),
        ensures
            match r {
                Ok(hashes) => spec_child_problem(spec_child_contents(self.tree, node_id)) is None
                    && hashes.deep_view() == spec_child_hashes(spec_child_contents(self.tree, node_id)),
                Err((place, reason)) => spec_child_problem(spec_child_contents(self.tree, node_id))
                    == Some((place.deep_view(), reason@)),
            },
    {
        let ghost s = spec_child_contents(self.tree, node_id);
        let node = match self.tree.node(node_id) {
            Some(node) => node,
            None => {
                return Ok(Vec::new());
            },
        };
        let mut hashes: Vec<GeneralHash> = Vec::new();
        let mut i: usize = 0;
        assert(s.take(0) =~= Seq::<JobTreeData>::empty());
        assert(hashes.deep_view() =~= Seq::<HashView>::empty());
        while i < node.children.len()
            invariant
                self.wf(),
                self.tree.live(node_id),
                *node == self.tree.at(node_id),
                s == spec_child_contents(self.tree, node_id),
                i <= s.len(),
                s.len() == node.children@.len(),
                hashes.deep_view() == spec_child_hashes(s.take(i as int)),
                spec_child_problem(s.take(i as int)) is None,
            decreases node.children@.len() - i,
        {
            let c = node.children[i];
            assert(self.tree.at(node_id).children@[i as int] == c);
            assert(s[i as int] == self.tree.at(c).content);
            let ghost t = s.take(i + 1);
            assert(t.drop_last() =~= s.take(i as int));
            assert(t.last() == s[i as int]);
            let ghost h0 = hashes.deep_view();
            match self.tree.node(c) {
                Some(child) => {
                    match &child.content {
                        JobTreeData::Finished(data) => match data {
                            JobResultData::ArchiveHash { file_hash, .. } => {
                                hashes.push(file_hash.duplicate());
                            },
                            JobResultData::CachedArchiveHash { file_hash, .. } => {
                                hashes.push(file_hash.duplicate());
                            },
                            JobResultData::SymlinkHash { hash, .. } => {
                                hashes.push(hash.duplicate());
                            },
                            JobResultData::DirectoryHash { hash, .. } => {
                                hashes.push(hash.duplicate());
                            },
                            JobResultData::FileHash { hash, .. } => {
                                hashes.push(hash.duplicate());
                            },
                            JobResultData::Other { hash, .. } => {
                                hashes.push(hash.duplicate());
                            },
                            JobResultData::Error { occurred_at, reason, .. } => {
                                let r = Err((copy_names(occurred_at), reason.clone()));
                                proof {
                                    lemma_child_problem_extends(s, i + 1);
                                }
                                return r;
                            },
                            JobResultData::DirectoryListing { info, .. } => {
                                let r = Err(
                                    (
                                        copy_names(&info.path),
                                        "Parent was evaluated and child did not hash properly".to_owned(),
                                    ),
                                );
                                proof {
                                    lemma_child_problem_extends(s, i + 1);
                                }
                                return r;
                            },
                            JobResultData::InitialEvaluation { info } => {
                                let r = Err(
                                    (
                                        copy_names(&info.path),
                                        "Parent was evaluated and child was of initial eval type".to_owned(),
                                    ),
                                );
                                proof {
                                    lemma_child_problem_extends(s, i + 1);
                                }
                                return r;
                            },
                        },
                        _ => {},
                    }
                },
                None => {},
            }
            assert(hashes.deep_view() =~= spec_child_hashes(t));
            i = i + 1;
        }
        assert(s.take(i as int) =~= s);
        Ok(hashes)
    }

    /// What the root's children say of the build (`spec_root_result`).
    fn root_result(&self) -> (r: Option<ScheduleJobsResult>)
        requires
            self.wf(),
        ensures
            spec_root_result(spec_child_contents(self.tree, 0), r),
    {
        let ghost s = spec_child_contents(self.tree, 0);
        let node = match self.tree.node(0) {
            Some(node) => node,
            None => {
                return None;
            },
        };
        let mut i: usize = 0;
        while i < node.children.len()
            invariant
                self.wf(),
                *node == self.tree.at(0),
                s == spec_child_contents(self.tree, 0),
                i <= s.len(),
                s.len() == node.children@.len(),
                forall|j: int| 0 <= j < i ==> (#[trigger] s[j]) is Finished && !(s[j] matches JobTreeData::Finished(JobResultData::Error { .. })),
            decreases node.children@.len() - i,
        {
            let c = node.children[i];
            assert(self.tree.at(0).children@[i as int] == c);
            assert(s[i as int] == self.tree.at(c).content);
            let ghost rest = s.skip(i as int);
            assert(rest[0] == s[i as int]);
            match self.tree.node(c) {
                Some(child) => {
                    match &child.content {
                        JobTreeData::Finished(JobResultData::Error { occurred_at, reason, .. }) => {
                            let r = Some(ScheduleJobsResult::Error { occurred_at: copy_names(occurred_at), reason: reason.clone() });
                            proof {
                                lemma_root_result_skip(s, i as int, r);
                            }
                            return r;
                        },
                        JobTreeData::Finished(_) => {},
                        _ => {
                            proof {
                                lemma_root_result_skip(s, i as int, None);
                            }
                            return None;
                        },
                    }
                },
                None => {
                    proof {
                        assert(false);
                    }
                    return None;
                },
            }
            i = i + 1;
        }
        proof {
            lemma_root_result_skip(s, i as int, Some(ScheduleJobsResult::Finished));
            assert(s.skip(i as int) =~= Seq::<JobTreeData>::empty());
        }
        Some(ScheduleJobsResult::Finished)
    }
}

impl JobPlanner {
    /// Passes the failure at `occurred_at` for `reason` up from the node `node_id` to the
    /// root (see `spec_bubbled`).
    fn bubble_error(&mut self, node_id: NodeId, occurred_at: &Vec<String>, reason: &String)
        requires
            old(self).wf(),
            old(self).tree.live(node_id),
        ensures
            final(self).wf(),
            spec_bubbled(old(self).tree, final(self).tree, node_id, (occurred_at.deep_view(), reason@)),
            final(self).scheduled() == old(self).scheduled(),
            final(self).running() == old(self).running(),
            final(self).cache == old(self).cache,
            final(self).job_ids == old(self).job_ids,
    {
        let ghost t0 = self.tree;
        let ghost problem = (occurred_at.deep_view(), reason@);
        let mut cur = node_id;
        loop
            invariant_except_break
                self.tree.wf(),
                t0.wf(),
                problem == (occurred_at.deep_view(), reason@),
                t0.live(cur),
                spec_on_chain(t0, node_id, cur),
                self.tree.nodes@.len() == t0.nodes@.len(),
                forall|i: NodeId| #[trigger] self.tree.live(i) == t0.live(i),
                forall|i: NodeId|
                    #![trigger self.tree.at(i)]
                    t0.live(i) ==> {
                        &&& self.tree.at(i).parent == t0.at(i).parent
                        &&& self.tree.at(i).children == t0.at(i).children
                        &&& if spec_on_chain(t0, node_id, i) && !spec_on_chain(t0, cur, i) && t0.at(i).content.spec_path() is Some {
                            self.tree.at(i).content matches JobTreeData::Finished(JobResultData::Error { path, occurred_at: o, reason: why })
                                && Some(path.deep_view()) == t0.at(i).content.spec_path()
                                && o.deep_view() == problem.0 && why@ == problem.1
                        } else {
                            self.tree.at(i).content == t0.at(i).content
                        }
                    },
                self.scheduled() == old(self).scheduled(),
                self.running() == old(self).running(),
                self.cache == old(self).cache,
                self.job_ids == old(self).job_ids,
            ensures
                self.tree.wf(),
                spec_bubbled(t0, self.tree, node_id, problem),
                self.scheduled() == old(self).scheduled(),
                self.running() == old(self).running(),
                self.cache == old(self).cache,
                self.job_ids == old(self).job_ids,
            decreases cur,
        {
            let ghost before = self.tree;
            assert(self.tree.at(cur).content == t0.at(cur).content);
            let path = match self.tree.node(cur) {
                Some(node) => match node.content.path() {
                    Some(p) => Some(copy_names(p)),
                    None => None,
                },
                None => None,
            };
            match path {
                Some(path) => {
                    self.tree.replace_content(
                        cur,
                        JobTreeData::Finished(
                            JobResultData::Error { path, occurred_at: copy_names(occurred_at), reason: reason.clone() },
                        ),
                    );
                },
                None => {},
            }
            let parent = self.tree.parent(cur);
            assert(self.tree.at(cur).parent == t0.at(cur).parent);
            match parent {
                Some(p) => {
                    proof {
                        lemma_on_chain_step(t0, node_id, cur, p);
                        assert forall|i: NodeId| #![trigger self.tree.at(i)] t0.live(i) implies {
                            &&& self.tree.at(i).parent == t0.at(i).parent
                            &&& self.tree.at(i).children == t0.at(i).children
                            &&& if spec_on_chain(t0, node_id, i) && !spec_on_chain(t0, p, i) && t0.at(i).content.spec_path() is Some {
                                self.tree.at(i).content matches JobTreeData::Finished(JobResultData::Error { path, occurred_at: o, reason: why })
                                    && Some(path.deep_view()) == t0.at(i).content.spec_path()
                                    && o.deep_view() == problem.0 && why@ == problem.1
                            } else {
                                self.tree.at(i).content == t0.at(i).content
                            }
                        } by {
                            if i != cur {
                                assert(self.tree.nodes@[i as int] == before.nodes@[i as int]);
                                assert(before.at(i) == self.tree.at(i));
                                if spec_on_chain(t0, p, i) {
                                    assert(spec_on_chain(t0, cur, i));
                                } else if spec_on_chain(t0, cur, i) {
                                    assert(false);
                                }
                            } else {
                                if spec_on_chain(t0, p, i) {
                                    lemma_on_chain_below(t0, p, i);
                                }
                            }
                        }
                    }
                    cur = p;
                },
                None => {
                    proof {
                        assert forall|i: NodeId| #![trigger self.tree.at(i)] t0.live(i) implies {
                            &&& self.tree.at(i).parent == t0.at(i).parent
                            &&& self.tree.at(i).children == t0.at(i).children
                            &&& if spec_on_chain(t0, node_id, i) && t0.at(i).content.spec_path() is Some {
                                self.tree.at(i).content matches JobTreeData::Finished(JobResultData::Error { path, occurred_at: o, reason: why })
                                    && Some(path.deep_view()) == t0.at(i).content.spec_path()
                                    && o.deep_view() == problem.0 && why@ == problem.1
                            } else {
                                self.tree.at(i).content == t0.at(i).content
                            }
                        } by {
                            if i != cur {
                                assert(self.tree.nodes@[i as int] == before.nodes@[i as int]);
                                assert(before.at(i) == self.tree.at(i));
                                if spec_on_chain(t0, cur, i) {
                                    assert(false);
                                }
                            }
                        }
                    }
                    break;
                },
            }
        }
    }
}

impl JobPlanner {
    /// Looks at the node `node_id` in a round of scheduling (see `scheduled_node`); the jobs
    /// it starts are added to `published`.
    fn schedule_node(&mut self, node_id: NodeId, published: &mut Vec<BuildJob>) -> (r: Option<ScheduleJobsResult>)
        requires
            old(self).wf(),
        ensures
            final(self).wf(),
            final(self).running() == old(self).running(),
            final(self).cache == old(self).cache,
            old(self).scheduled_node(*final(self), node_id, old(published)@, final(published)@, r),
    {
        proof {
            reveal(JobPlanner::scheduled_node);
        }
        let (is_root, is_new, is_blocked) = match self.tree.node(node_id) {
            Some(node) => (
                matches!(node.content, JobTreeData::Root),
                matches!(node.content, JobTreeData::NotScheduled(_)),
                matches!(node.content, JobTreeData::BlockedByChildren(_)),
            ),
            None => {
                return None;
            },
        };
        if is_root {
            return self.root_result();
        }
        if is_new {
            let ghost t0 = self.tree;
            let taken = self.tree.replace_content(node_id, JobTreeData::Root);
            match taken {
                Some(JobTreeData::NotScheduled(job)) => {
                    let data = job.duplicate();
                    let ghost t1 = self.tree;
                    self.tree.replace_content(node_id, JobTreeData::Running(job));
                    let new_job = BuildJob::new(data, node_id, &mut self.job_ids);
                    let ghost before = published@;
                    published.push(new_job);
                    proof {
                        assert(published@.drop_last() =~= before);
                        assert forall|i: NodeId| #![trigger self.tree.nodes@[i as int]] i < t0.nodes@.len() && i != node_id implies self.tree.nodes@[i as int] == t0.nodes@[i as int] by {
                            assert(t1.nodes@[i as int] == t0.nodes@[i as int]);
                        }
                    }
                },
                _ => {
                    proof {
                        assert(false);
                    }
                },
            }
            return None;
        }
        if is_blocked {
            if !self.children_ready(node_id) {
                return None;
            }
            match self.collect_children(node_id) {
                Err((occurred_at, reason)) => {
                    self.bubble_error(node_id, &occurred_at, &reason);
                    self.scheduled_jobs.insert(0);
                    return None;
                },
                Ok(hashes) => {
                    let info = match self.tree.node(node_id) {
                        Some(node) => match node.content.entry() {
                            Some(info) => Some(info.duplicate()),
                            None => None,
                        },
                        None => None,
                    };
                    match info {
                        Some(info) => {
                            let data = BuildJobData::HashDirectory { info: info.duplicate(), children: copy_hashes(&hashes) };
                            self.tree.replace_content(
                                node_id,
                                JobTreeData::Running(BuildJobData::HashDirectory { info, children: hashes }),
                            );
                            let new_job = BuildJob::new(data, node_id, &mut self.job_ids);
                            let ghost before = published@;
                            published.push(new_job);
                            proof {
                                assert(published@.drop_last() =~= before);
                            }
                        },
                        None => {},
                    }
                    return None;
                },
            }
        }
        None
    }
}

/// `t1` has the nodes, parents and children of `t0`.
pub open spec fn spec_same_shape(t0: JobTree<JobTreeData>, t1: JobTree<JobTreeData>) -> bool {
    &&& t1.nodes@.len() == t0.nodes@.len()
    &&& forall|i: NodeId| #[trigger] t1.live(i) == t0.live(i)
    &&& forall|i: NodeId|
        #![trigger t1.at(i)]
        t0.live(i) ==> t1.at(i).parent == t0.at(i).parent && t1.at(i).children == t0.at(i).children
}

/// Looking at a node other than the root keeps the tree's shape, schedules nothing but the
/// root, starts at most one job, for that node, with the next identifier, and does not end
/// the round.
proof fn lemma_scheduled_node_facts(
    p: JobPlanner,
    after: JobPlanner,
    node: NodeId,
    before: Seq<BuildJob>,
    jobs: Seq<BuildJob>,
    r: Option<ScheduleJobsResult>,
)
    requires
        p.wf(),
        p.scheduled_node(after, node, before, jobs, r),
        node != 0,
    ensures
        spec_same_shape(p.tree, after.tree),
        r is None,
        forall|x: NodeId| #[trigger] after.scheduled().contains(x) ==> p.scheduled().contains(x) || x == 0,
        (jobs == before && after.job_ids == p.job_ids) || (jobs.len() == before.len() + 1
            && jobs.drop_last() == before && jobs.last().node_id == node && jobs.last().job_id
            == after.job_ids.last && after.job_ids.last == (p.job_ids.last + 1) % 0x1_0000_0000_0000_0000),
{
    reveal(JobPlanner::scheduled_node);
    if p.tree.live(node) {
        assert(!(p.tree.at(node).content is Root));
        match p.tree.at(node).content {
            JobTreeData::NotScheduled(job) => {
                assert forall|i: NodeId| #![trigger after.tree.at(i)] p.tree.live(i) implies after.tree.at(i).parent == p.tree.at(i).parent && after.tree.at(i).children == p.tree.at(i).children by {
                    if i != node {
                        assert(after.tree.nodes@[i as int] == p.tree.nodes@[i as int]);
                    }
                }
            },
            JobTreeData::BlockedByChildren(job) => {
                let s = spec_child_contents(p.tree, node);
                if spec_children_ready(s) && spec_child_problem(s) is None && job.spec_entry() is Some {
                    assert forall|i: NodeId| #![trigger after.tree.at(i)] p.tree.live(i) implies after.tree.at(i).parent == p.tree.at(i).parent && after.tree.at(i).children == p.tree.at(i).children by {
                        if i != node {
                            assert(after.tree.nodes@[i as int] == p.tree.nodes@[i as int]);
                        }
                    }
                }
            },
            _ => {},
        }
    }
}

impl JobPlanner {
    /// A round of scheduling: looks at every scheduled node, the root first and the others in
    /// ascending order (see `scheduling_round`), and returns the jobs it started, to be handed
    /// to workers, with how the round ended. The round ends early when the root decides that
    /// the build is over (`spec_root_result`); then the tree is unchanged and no job is
    /// started. Afterwards, at most the root is scheduled.
    pub fn schedule_jobs(&mut self) -> (r: (ScheduleJobsResult, Vec<BuildJob>))
        requires
            old(self).wf(),
        ensures
            final(self).wf(),
            final(self).running() == old(self).running(),
            final(self).cache == old(self).cache,
            spec_same_shape(old(self).tree, final(self).tree),
            forall|x: NodeId| #[trigger] final(self).scheduled().contains(x) ==> x == 0,
            old(self).scheduled().contains(0) && !spec_root_result(spec_child_contents(old(self).tree, 0), None)
                ==> spec_root_result(spec_child_contents(old(self).tree, 0), Some(r.0))
                && r.1@.len() == 0 && final(self).tree == old(self).tree,
            !(old(self).scheduled().contains(0) && !spec_root_result(spec_child_contents(old(self).tree, 0), None))
                ==> r.0 is Pending && exists|order: Seq<NodeId>|
                #![trigger old(self).scheduling_round(*final(self), order, r.1@)]
                old(self).scheduling_round(*final(self), order, r.1@) && order.to_set() == old(self).scheduled()
                    && forall|i: int, j: int| 0 <= i < j < order.len() ==> order[i] < order[j],
            final(self).job_ids.last == (old(self).job_ids.last + r.1@.len()) % 0x1_0000_0000_0000_0000,
            forall|k: int|
                0 <= k < r.1@.len() ==> (#[trigger] r.1@[k]).job_id == (old(self).job_ids.last + k + 1)
                    % 0x1_0000_0000_0000_0000 && old(self).scheduled().contains(r.1@[k].node_id),
    {
        let mut taken: BTreeSet<NodeId> = BTreeSet::new();
        std::mem::swap(&mut taken, &mut self.scheduled_jobs);
        let mut published: Vec<BuildJob> = Vec::new();
        if taken.contains(&0) {
            match self.root_result() {
                Some(res) => {
                    proof {
                        lemma_root_result_exclusive(spec_child_contents(self.tree, 0), Some(res));
                    }
                    return (res, published);
                },
                None => {},
            }
        }
        let ghost p0 = *old(self);
        let ghost first = *self;
        let ghost all = spec_btree_keys_iter(&taken).remaining();
        let ghost mut seen: Seq<NodeId> = Seq::empty();
        let ghost mut states: Seq<JobPlanner> = seq![*self];
        let ghost mut started: Seq<Seq<BuildJob>> = seq![Seq::empty()];
        for node_id in it: taken.iter()
            invariant
                self.wf(),
                taken@ == p0.scheduled(),
                self.running() == p0.running(),
                self.cache == p0.cache,
                spec_same_shape(p0.tree, self.tree),
                forall|x: NodeId| #[trigger] self.scheduled().contains(x) ==> x == 0,
                it.seq() == all,
                seen == all.take(it.index()).unref(),
                p0.scheduling_steps(seen, states, started),
                states.last() == *self,
                started.last() == published@,
                self.job_ids.last == (p0.job_ids.last + published@.len()) % 0x1_0000_0000_0000_0000,
                forall|k: int|
                    0 <= k < published@.len() ==> (#[trigger] published@[k]).job_id == (p0.job_ids.last + k + 1)
                        % 0x1_0000_0000_0000_0000 && p0.scheduled().contains(published@[k].node_id),
        {
            let id = *node_id;
            assert(taken@.contains(id));
            let ghost prefix = seen;
            let ghost start = *self;
            let ghost start_jobs = published@;
            if id != 0 {
                let ghost prev = *self;
                let ghost before = published@;
                let res = self.schedule_node(id, &mut published);
                proof {
                    lemma_scheduled_node_facts(prev, *self, id, before, published@, res);
                    vstd::arithmetic::div_mod::lemma_add_mod_noop(p0.job_ids.last + before.len(), 1, 0x1_0000_0000_0000_0000);
                    assert(1int % 0x1_0000_0000_0000_0000 == 1);
                    assert(forall|x: NodeId| #[trigger] self.scheduled().contains(x) ==> x == 0);
                    if published@.len() > before.len() {
                        assert(published@.drop_last() == before);
                        assert forall|k: int| 0 <= k < published@.len() implies (#[trigger] published@[k]).job_id == (p0.job_ids.last + k + 1)
                            % 0x1_0000_0000_0000_0000 && p0.scheduled().contains(published@[k].node_id) by {
                            if k < before.len() {
                                assert(published@[k] == before[k]);
                            }
                        }
                    }
                }
            }
            proof {
                assert(all.take(it.index() + 1).unref() =~= prefix.push(id));
                let ghost states0 = states;
                let ghost started0 = started;
                seen = prefix.push(id);
                states = states.push(*self);
                started = started.push(published@);
                assert forall|k: int| 0 <= k < seen.len() implies if #[trigger] seen[k] == 0 {
                    states[k + 1] == states[k] && started[k + 1] == started[k]
                } else {
                    states[k].scheduled_node(states[k + 1], seen[k], started[k], started[k + 1], None)
                } by {
                    if k < prefix.len() {
                        assert(seen[k] == prefix[k]);
                        assert(states[k] == states0[k] && states[k + 1] == states0[k + 1]);
                        assert(started[k] == started0[k] && started[k + 1] == started0[k + 1]);
                    }
                }
            }
        }
        proof {
            assert(seen =~= all.unref());
            assert(seen.to_set() == p0.scheduled());
            lemma_increasing_nodes(all);
            assert(p0.scheduling_steps(seen, states, started));
            assert(p0.scheduling_round(*self, seen, published@));
        }
        (ScheduleJobsResult::Pending, published)
    }
}

/// The nodes of a sequence in increasing order are increasing numbers.
proof fn lemma_increasing_nodes(s: Seq<&NodeId>)
    requires
        increasing_seq(s),
    ensures
        forall|i: int, j: int| 0 <= i < j < s.len() ==> *s[i] < *s[j],
{
    assert(vstd::laws_cmp::obeys_cmp::<NodeId>());
    assert(vstd::laws_cmp::obeys_cmp::<&NodeId>());
    vstd::std_specs::btree::axiom_increasing_seq_meaning(s);
    assert forall|i: int, j: int| 0 <= i < j < s.len() implies *s[i] < *s[j] by {
        assert(OrdSpec::cmp_spec(&s[i], &s[j]) is Less);
    }
}

/// What the driver of the planner does after a round of scheduling.
#[derive(Debug)]
pub enum PlannerStep {
    /// Stop scheduling: wait for the running jobs and process their results, then end the
    /// build with this outcome (the place and reason of a failure).
    Drain(Result<(), (Vec<String>, String)>),
    /// End the build at once with this failure.
    Fail(Vec<String>, String),
    /// Schedule again without waiting.
    Schedule,
    /// Wait for the result of a running job, process it, and schedule again.
    Receive,
}

impl JobPlanner {
    /// What the driver does after a round of scheduling that ended with `outcome`: a
    /// finished build or a failure stops scheduling; with nothing running, the round goes on
    /// if nodes are scheduled and the build fails as a premature exit otherwise; with jobs
    /// running, the driver waits for a result.
    pub fn next_step(&self, outcome: ScheduleJobsResult) -> (r: PlannerStep)
        ensures
            match outcome {
                ScheduleJobsResult::Error { occurred_at, reason } => r matches PlannerStep::Drain(
                    Err((o, why)),
                ) && o == occurred_at && why == reason,
                ScheduleJobsResult::Finished => r matches PlannerStep::Drain(Ok(())),
                ScheduleJobsResult::Pending => if !self.running().is_empty() {
                    r is Receive
                } else if !self.scheduled().is_empty() {
                    r is Schedule
                } else {
                    r matches PlannerStep::Fail(place, why) && place@.len() == 0 && why@
                        == "Premature exit!"@
                },
            },
    {
        match outcome {
            ScheduleJobsResult::Error { occurred_at, reason } => PlannerStep::Drain(Err((occurred_at, reason))),
            ScheduleJobsResult::Finished => PlannerStep::Drain(Ok(())),
            ScheduleJobsResult::Pending => {
                if self.has_running_jobs() {
                    PlannerStep::Receive
                } else if self.has_scheduled_jobs() {
                    PlannerStep::Schedule
                } else {
                    PlannerStep::Fail(Vec::new(), "Premature exit!".to_owned())
                }
            },
        }
    }
}


/// Publishing a job and then processing its result leaves the running jobs as they were:
/// `mark_published` adds the job, `process_result` removes it again.
pub proof fn law_publish_then_result_restores(running: Map<u64, NodeId>, job_id: u64, node_id: NodeId)
    requires
        !running.contains_key(job_id),
    ensures
        running.insert(job_id, node_id).contains_key(job_id),
        running.insert(job_id, node_id).remove(job_id) == running,
{
    assert(running.insert(job_id, node_id).remove(job_id) =~= running);
}


/// An entry of an earlier run is reused only if it still describes the file: it is the first
/// entry of the file's path, a regular file with the same modification time and size; and it
/// is used up, so each cached entry serves at most once.
pub proof fn law_cache_hits_are_current(c: Seq<HashTreeFileEntryView>, info: DirectoryEntry)
    ensures
        spec_cache_hit(c, info) matches Some(i) ==> {
            &&& 0 <= i < c.len()
            &&& c[i].path == seq![info.path.deep_view()]
            &&& forall|j: int| 0 <= j < i ==> c[j].path != seq![info.path.deep_view()]
            &&& c[i].modified == info.modified
            &&& c[i].size == info.file_size
            &&& c[i].file_type == HashTreeFileEntryType::File
            &&& spec_cache_step(c, info).len() == c.len() - 1
        },
        spec_cache_hit(c, info) is None ==> spec_cache_step(c, info) == c,
{
    let p = seq![info.path.deep_view()];
    if exists|i: int| 0 <= i < c.len() && c[i].path == p {
        let i = choose|i: int| 0 <= i < c.len() && c[i].path == p && forall|j: int| 0 <= j < i ==> c[j].path != p;
        assert(0 <= i < c.len() && c[i].path == p && forall|j: int| 0 <= j < i ==> c[j].path != p) by {
            let w = choose|w: int| 0 <= w < c.len() && c[w].path == p;
            lemma_first_position(c, p, w);
        }
    }
}

/// Where a path occurs, it has a first occurrence.
proof fn lemma_first_position(c: Seq<HashTreeFileEntryView>, p: Seq<Seq<Seq<char>>>, w: int)
    requires
        0 <= w < c.len(),
        c[w].path == p,
    ensures
        exists|i: int| 0 <= i < c.len() && c[i].path == p && forall|j: int| 0 <= j < i ==> c[j].path != p,
    decreases w,
{
    if exists|j: int| 0 <= j < w && c[j].path == p {
        let j = choose|j: int| 0 <= j < w && c[j].path == p;
        lemma_first_position(c, p, j);
    } else {
        assert(forall|j: int| 0 <= j < w ==> c[j].path != p);
    }
}


/// Trees with the same nodes and the same parents agree on which node lies below which.
proof fn lemma_is_below_same_shape(t1: JobTree<JobTreeData>, t2: JobTree<JobTreeData>, i: NodeId, a: NodeId)
    requires
        forall|j: NodeId| #[trigger] t1.live(j) == t2.live(j),
        forall|j: NodeId| t1.live(j) ==> #[trigger] t1.at(j).parent == t2.at(j).parent,
    ensures
        t1.is_below(i, a) == t2.is_below(i, a),
    decreases i,
{
    if t1.live(i) {
        assert(t1.at(i).parent == t2.at(i).parent);
        match t1.at(i).parent {
            Some(p) => {
                if p < i {
                    lemma_is_below_same_shape(t1, t2, p, a);
                }
            },
            None => {},
        }
    }
}

} // verus!
