//! The jobs of the build command and their results.

use crate::hash::{copy_hashes, GeneralHash, GeneralHashType, HashView};
use crate::path::{copy_names, FilePath};
use crate::stages::build::cmd::archive::{spec_bfs, spec_node_entry, ArchiveFile};
use crate::stages::build::output::{HashTreeFileEntry, HashTreeFileEntryType, HashTreeFileEntryView};
use vstd::prelude::*;

verus! {

/// The settings for the build command.
pub struct BuildSettings {
    /// The directories to build hash trees for, each a list of names.
    pub directory: Vec<Vec<String>>,
    /// Whether to traverse into archives.
    pub into_archives: bool,
    /// Whether to follow symlinks when traversing the file system.
    pub follow_symlinks: bool,
    /// The output file to write the hash tree to.
    pub output: Vec<String>,
    /// The number of threads to use for building the hash tree. None = number of logical CPUs.
    pub threads: Option<usize>,
    /// The hash algorithm to use for hashing files.
    pub hash_type: GeneralHashType,
    /// Whether to continue an existing hash tree file.
    pub continue_file: bool,
}

impl BuildSettings {
    /// Whether the build fails when the header of the result file cannot be read: when the
    /// file existed before and is to be continued. Otherwise a new header is written.
    pub fn fails_on_unreadable_header(&self, existed: bool) -> (r: bool)
        ensures
            r == (self.continue_file && existed),
    {
        self.continue_file && existed
    }
}

/// The identifier of a node of the job tree.
pub type NodeId = usize;

/// The source of job identifiers: each new identifier is one more than the last one.
pub struct JobIdCounter {
    /// The last identifier handed out; 0 before the first.
    pub last: u64,
}

impl JobIdCounter {
    /// A counter that has handed out no identifier yet.
    pub fn new() -> (r: JobIdCounter)
        ensures
            r.last == 0,
    {
        JobIdCounter { last: 0 }
    }

    /// A new job identifier: one more than the last one (wrapping around at the end of the
    /// range of `u64`).
    pub fn new_job_id(&mut self) -> (r: u64)
        ensures
            r == final(self).last,
            final(self).last == (old(self).last + 1) % 0x1_0000_0000_0000_0000,
    {
        self.last = self.last.wrapping_add(1);
        self.last
    }
}

/// The kind of a file found in the file system.
#[derive(Debug, Clone, Copy, PartialEq, Eq, Structural)]
pub enum FileType {
    File,
    Directory,
    Symlink,
    Other,
}

/// A file found in the file system, with its metadata.
#[derive(Debug)]
pub struct DirectoryEntry {
    /// The path of the file, as a list of names.
    pub path: Vec<String>,
    /// The last modification time in seconds since the Unix epoch.
    pub modified: u64,
    /// The kind of file.
    pub file_type: FileType,
    /// The size of the file in bytes.
    pub file_size: u64,
}

impl DirectoryEntry {
    /// The two entries describe the same file in the same way.
    pub open spec fn spec_same(&self, other: &DirectoryEntry) -> bool {
        &&& self.path.deep_view() == other.path.deep_view()
        &&& self.modified == other.modified
        &&& self.file_type == other.file_type
        &&& self.file_size == other.file_size
    }

    /// A copy of the entry.
    pub fn duplicate(&self) -> (r: DirectoryEntry)
        ensures
            r.spec_same(self),
            r.path.deep_view() == self.path.deep_view(),
            r.modified == self.modified,
            r.file_type == self.file_type,
            r.file_size == self.file_size,
    {
        DirectoryEntry {
            path: copy_names(&self.path),
            modified: self.modified,
            file_type: self.file_type,
            file_size: self.file_size,
        }
    }
}

/// The work a job does.
#[derive(Debug)]
pub enum BuildJobData {
    /// List the files of a directory.
    DiscoverDirectory(DirectoryEntry),
    /// Hash a file.
    HashFile(DirectoryEntry),
    /// Hash a symlink.
    HashSymlink(DirectoryEntry),
    /// A directory waiting for its children.
    DirectoryStub(DirectoryEntry),
    /// Hash a directory from the hashes of its children.
    HashDirectory { info: DirectoryEntry, children: Vec<GeneralHash> },
    /// Find out what kind of file a path names.
    Initial(Vec<String>),
}

impl BuildJobData {
    /// The entry the job is about, if any.
    pub open spec fn spec_entry(&self) -> Option<DirectoryEntry> {
        match self {
            BuildJobData::DiscoverDirectory(info) => Some(*info),
            BuildJobData::DirectoryStub(info) => Some(*info),
            BuildJobData::HashFile(info) => Some(*info),
            BuildJobData::HashSymlink(info) => Some(*info),
            BuildJobData::HashDirectory { info, .. } => Some(*info),
            BuildJobData::Initial(_) => None,
        }
    }

    /// The path the job is about.
    pub open spec fn spec_path(&self) -> Seq<Seq<char>> {
        match self {
            BuildJobData::Initial(path) => path.deep_view(),
            _ => self.spec_entry().unwrap().path.deep_view(),
        }
    }

    /// The path the job is about.
    pub fn path(&self) -> (r: &Vec<String>)
        ensures
            r.deep_view() == self.spec_path(),
    {
        match self {
            BuildJobData::DiscoverDirectory(info) => &info.path,
            BuildJobData::DirectoryStub(info) => &info.path,
            BuildJobData::HashFile(info) => &info.path,
            BuildJobData::HashSymlink(info) => &info.path,
            BuildJobData::HashDirectory { info, .. } => &info.path,
            BuildJobData::Initial(path) => path,
        }
    }

    /// The entry the job is about; none for the initial evaluation of a path.
    pub fn entry(&self) -> (r: Option<&DirectoryEntry>)
        ensures
            match r {
                Some(e) => self.spec_entry() == Some(*e),
                None => self.spec_entry() is None,
            },
    {
        match self {
            BuildJobData::DiscoverDirectory(info) => Some(info),
            BuildJobData::DirectoryStub(info) => Some(info),
            BuildJobData::HashFile(info) => Some(info),
            BuildJobData::HashSymlink(info) => Some(info),
            BuildJobData::HashDirectory { info, .. } => Some(info),
            BuildJobData::Initial(_) => None,
        }
    }

    /// The two jobs do the same work.
    pub open spec fn spec_same(&self, other: &BuildJobData) -> bool {
        match (*self, *other) {
            (BuildJobData::DiscoverDirectory(a), BuildJobData::DiscoverDirectory(b)) => a.spec_same(&b),
            (BuildJobData::HashFile(a), BuildJobData::HashFile(b)) => a.spec_same(&b),
            (BuildJobData::HashSymlink(a), BuildJobData::HashSymlink(b)) => a.spec_same(&b),
            (BuildJobData::DirectoryStub(a), BuildJobData::DirectoryStub(b)) => a.spec_same(&b),
            (
                BuildJobData::HashDirectory { info: a, children: ca },
                BuildJobData::HashDirectory { info: b, children: cb },
            ) => a.spec_same(&b) && ca.deep_view() == cb.deep_view(),
            (BuildJobData::Initial(a), BuildJobData::Initial(b)) => a.deep_view() == b.deep_view(),
            _ => false,
        }
    }

    /// A copy of the job data.
    pub fn duplicate(&self) -> (r: BuildJobData)
        ensures
            r.spec_same(self),
            r.spec_path() == self.spec_path(),
            r.spec_entry() is Some == self.spec_entry() is Some,
            self.spec_entry() matches Some(e) ==> r.spec_entry()->0.modified == e.modified
                && r.spec_entry()->0.file_type == e.file_type && r.spec_entry()->0.file_size
                == e.file_size,
            r is DiscoverDirectory == self is DiscoverDirectory,
            r is HashFile == self is HashFile,
            r is HashSymlink == self is HashSymlink,
            r is DirectoryStub == self is DirectoryStub,
            r is HashDirectory == self is HashDirectory,
            r is Initial == self is Initial,
            self is HashDirectory ==> r->children.deep_view() == self->children.deep_view(),
    {
        match self {
            BuildJobData::DiscoverDirectory(info) => BuildJobData::DiscoverDirectory(info.duplicate()),
            BuildJobData::DirectoryStub(info) => BuildJobData::DirectoryStub(info.duplicate()),
            BuildJobData::HashFile(info) => BuildJobData::HashFile(info.duplicate()),
            BuildJobData::HashSymlink(info) => BuildJobData::HashSymlink(info.duplicate()),
            BuildJobData::HashDirectory { info, children } => BuildJobData::HashDirectory {
                info: info.duplicate(),
                children: copy_hashes(children),
            },
            BuildJobData::Initial(path) => BuildJobData::Initial(copy_names(path)),
        }
    }
}

/// A job for a worker: what to do, for which node of the job tree.
#[derive(Debug)]
pub struct BuildJob {
    /// The identifier of the job.
    pub job_id: u64,
    /// The node of the job tree the job belongs to.
    pub node_id: NodeId,
    /// What to do.
    pub data: BuildJobData,
}

impl BuildJob {
    /// A new job with a new identifier from `counter`.
    pub fn new(data: BuildJobData, owning_node: NodeId, counter: &mut JobIdCounter) -> (r: BuildJob)
        ensures
            final(counter).last == (old(counter).last + 1) % 0x1_0000_0000_0000_0000,
            r.job_id == final(counter).last,
            r.node_id == owning_node,
            r.data == data,
    {
        BuildJob { job_id: counter.new_job_id(), node_id: owning_node, data }
    }

    /// The builder of the result of this job.
    pub fn result(&self) -> (r: JobResultBuilder)
        ensures
            r.job_id == self.job_id,
            r.node_id == self.node_id,
    {
        JobResultBuilder { job_id: self.job_id, node_id: self.node_id }
    }
}

/// Builds the result of a job: it carries the job's identifier and node.
pub struct JobResultBuilder {
    pub job_id: u64,
    pub node_id: NodeId,
}

impl JobResultBuilder {
    /// The result of the job with the given data.
    pub fn build(self, result: JobResultData) -> (r: JobResult)
        ensures
            r.job_id == self.job_id,
            r.node_id == self.node_id,
            r.result == result,
    {
        JobResult { job_id: self.job_id, node_id: self.node_id, result }
    }
}

/// The result of a job.
#[derive(Debug)]
pub struct JobResult {
    pub job_id: u64,
    pub node_id: NodeId,
    pub result: JobResultData,
}

/// What a job found out.
#[derive(Debug)]
pub enum JobResultData {
    /// The files of a directory.
    DirectoryListing { info: DirectoryEntry, children: Vec<DirectoryEntry> },
    /// The hash and size of a file.
    FileHash { info: DirectoryEntry, hash: GeneralHash, size: u64 },
    /// The hash and size of an archive file and the trees found inside it.
    ArchiveHash {
        info: DirectoryEntry,
        size: u64,
        file_hash: GeneralHash,
        children: Vec<ArchiveFile>,
        content_directory_hash: GeneralHash,
    },
    /// The hash and size of an archive file known from an earlier run, with the hashes of the
    /// trees found inside it.
    CachedArchiveHash {
        info: DirectoryEntry,
        size: u64,
        file_hash: GeneralHash,
        children: Vec<GeneralHash>,
        content_directory_hash: GeneralHash,
    },
    /// The hash of a directory and the hashes of its children.
    DirectoryHash { info: DirectoryEntry, hash: GeneralHash, children: Vec<GeneralHash> },
    /// The hash of a symlink.
    SymlinkHash { info: DirectoryEntry, hash: GeneralHash },
    /// The job failed at `occurred_at` for `reason`.
    Error { path: Vec<String>, occurred_at: Vec<String>, reason: String },
    /// A file that is not a regular file, directory or symlink.
    Other { info: DirectoryEntry, hash: GeneralHash },
    /// What kind of file a path names.
    InitialEvaluation { info: DirectoryEntry },
}

/// The entries of a list of archive trees: the entries of each tree in breadth-first order,
/// one tree after the other.
pub open spec fn spec_forest_entries(s: Seq<ArchiveFile>) -> Seq<HashTreeFileEntryView>
    decreases s.len(),
{
    if s.len() == 0 {
        Seq::empty()
    } else {
        spec_bfs(seq![s[0]]).map_values(|f: ArchiveFile| spec_node_entry(f)) + spec_forest_entries(
            s.drop_first(),
        )
    }
}

/// An entry of a hash tree file with the given fields.
pub open spec fn entry_view(
    file_type: HashTreeFileEntryType,
    modified: u64,
    size: u64,
    hash: HashView,
    path: Seq<Seq<char>>,
    children: Seq<HashView>,
    archive_children: Seq<HashView>,
    archive_inner_hash: Option<HashView>,
) -> HashTreeFileEntryView {
    HashTreeFileEntryView {
        file_type,
        modified,
        size,
        hash,
        path: seq![path],
        children,
        archive_children,
        archive_inner_hash,
    }
}

impl JobResultData {
    /// The entry the result is about; none for an error.
    pub open spec fn spec_entry(&self) -> Option<DirectoryEntry> {
        match self {
            JobResultData::DirectoryListing { info, .. } => Some(*info),
            JobResultData::FileHash { info, .. } => Some(*info),
            JobResultData::ArchiveHash { info, .. } => Some(*info),
            JobResultData::CachedArchiveHash { info, .. } => Some(*info),
            JobResultData::DirectoryHash { info, .. } => Some(*info),
            JobResultData::SymlinkHash { info, .. } => Some(*info),
            JobResultData::Error { .. } => None,
            JobResultData::Other { info, .. } => Some(*info),
            JobResultData::InitialEvaluation { info } => Some(*info),
        }
    }

    /// The path the result is about.
    pub open spec fn spec_path(&self) -> Seq<Seq<char>> {
        match self {
            JobResultData::Error { path, .. } => path.deep_view(),
            _ => self.spec_entry().unwrap().path.deep_view(),
        }
    }

    /// The hash tree file entries the result gives.
    pub open spec fn spec_hash_tree_file_entry(&self) -> Seq<HashTreeFileEntryView> {
        match self {
            JobResultData::DirectoryHash { info, hash, children } => seq![
                entry_view(
                    HashTreeFileEntryType::Directory,
                    info.modified,
                    children@.len() as u64,
                    hash@,
                    info.path.deep_view(),
                    children.deep_view(),
                    Seq::empty(),
                    None,
                ),
            ],
            JobResultData::ArchiveHash {
                info,
                file_hash,
                children,
                size,
                content_directory_hash,
            } => seq![
                entry_view(
                    HashTreeFileEntryType::File,
                    info.modified,
                    *size,
                    file_hash@,
                    info.path.deep_view(),
                    Seq::empty(),
                    children@.map_values(|c: ArchiveFile| c.spec_file_hash()),
                    Some(content_directory_hash@),
                ),
            ] + spec_forest_entries(children@),
            JobResultData::CachedArchiveHash {
                info,
                file_hash,
                children,
                size,
                content_directory_hash,
            } => seq![
                entry_view(
                    HashTreeFileEntryType::File,
                    info.modified,
                    *size,
                    file_hash@,
                    info.path.deep_view(),
                    Seq::empty(),
                    children.deep_view(),
                    Some(content_directory_hash@),
                ),
            ],
            JobResultData::FileHash { info, hash, size } => seq![
                entry_view(
                    HashTreeFileEntryType::File,
                    info.modified,
                    *size,
                    hash@,
                    info.path.deep_view(),
                    Seq::empty(),
                    Seq::empty(),
                    None,
                ),
            ],
            JobResultData::SymlinkHash { info, hash } => seq![
                entry_view(
                    HashTreeFileEntryType::Symlink,
                    info.modified,
                    info.file_size,
                    hash@,
                    info.path.deep_view(),
                    Seq::empty(),
                    Seq::empty(),
                    None,
                ),
            ],
            JobResultData::Other { info, hash } => seq![
                entry_view(
                    HashTreeFileEntryType::Other,
                    info.modified,
                    info.file_size,
                    hash@,
                    info.path.deep_view(),
                    Seq::empty(),
                    Seq::empty(),
                    None,
                ),
            ],
            _ => Seq::empty(),
        }
    }

    /// The path the result is about.
    pub fn path(&self) -> (r: &Vec<String>)
        ensures
            r.deep_view() == self.spec_path(),
    {
        match self {
            JobResultData::DirectoryListing { info, .. } => &info.path,
            JobResultData::FileHash { info, .. } => &info.path,
            JobResultData::ArchiveHash { info, .. } => &info.path,
            JobResultData::CachedArchiveHash { info, .. } => &info.path,
            JobResultData::DirectoryHash { info, .. } => &info.path,
            JobResultData::SymlinkHash { info, .. } => &info.path,
            JobResultData::Error { path, .. } => path,
            JobResultData::Other { info, .. } => &info.path,
            JobResultData::InitialEvaluation { info } => &info.path,
        }
    }

    /// The entry the result is about; none for an error.
    pub fn entry(&self) -> (r: Option<&DirectoryEntry>)
        ensures
            match r {
                Some(e) => self.spec_entry() == Some(*e),
                None => self.spec_entry() is None,
            },
    {
        match self {
            JobResultData::DirectoryListing { info, .. } => Some(info),
            JobResultData::FileHash { info, .. } => Some(info),
            JobResultData::ArchiveHash { info, .. } => Some(info),
            JobResultData::CachedArchiveHash { info, .. } => Some(info),
            JobResultData::DirectoryHash { info, .. } => Some(info),
            JobResultData::SymlinkHash { info, .. } => Some(info),
            JobResultData::Error { .. } => None,
            JobResultData::Other { info, .. } => Some(info),
            JobResultData::InitialEvaluation { info, .. } => Some(info),
        }
    }

    /// The hash tree file entries the result gives: one for a hashed file, directory, symlink
    /// or other file; for an archive file, also the entries of the trees found inside it; none
    /// for listings, initial evaluations and errors.
    pub fn hash_tree_file_entry(&self) -> (r: Vec<HashTreeFileEntry>)
        ensures
            r.deep_view() == self.spec_hash_tree_file_entry(),
    {
        match self {
            JobResultData::DirectoryHash { info, hash, children } => {
                let mut r: Vec<HashTreeFileEntry> = Vec::new();
                r.push(
                    HashTreeFileEntry {
                        children: copy_hashes(children),
                        file_type: HashTreeFileEntryType::Directory,
                        modified: info.modified,
                        size: children.len() as u64,
                        path: FilePath::from_realpath(&info.path),
                        hash: hash.duplicate(),
                        archive_inner_hash: None,
                        archive_children: Vec::new(),
                    },
                );
                assert(r.deep_view() =~~= self.spec_hash_tree_file_entry());
                r
            },
            JobResultData::ArchiveHash {
                info,
                file_hash,
                children,
                size,
                content_directory_hash,
            } => {
                let mut archive_children: Vec<GeneralHash> = Vec::with_capacity(children.len());
                let mut i: usize = 0;
                while i < children.len()
                    invariant
                        i <= children@.len(),
                        archive_children@.len() == i,
                        forall|k: int| 0 <= k < i ==> #[trigger] archive_children@[k]@ == children@[k].spec_file_hash(),
                    decreases children@.len() - i,
                {
                    archive_children.push(children[i].get_file_hash());
                    i = i + 1;
                }
                assert(archive_children.deep_view() =~= children@.map_values(|c: ArchiveFile| c.spec_file_hash()));
                let mut result: Vec<HashTreeFileEntry> = Vec::new();
                result.push(
                    HashTreeFileEntry {
                        archive_children,
                        file_type: HashTreeFileEntryType::File,
                        size: *size,
                        modified: info.modified,
                        children: Vec::new(),
                        archive_inner_hash: Some(content_directory_hash.duplicate()),
                        hash: file_hash.duplicate(),
                        path: FilePath::from_realpath(&info.path),
                    },
                );
                let ghost head = result.deep_view();
                assert(children@.skip(0) =~= children@);
                let mut i: usize = 0;
                while i < children.len()
                    invariant
                        i <= children@.len(),
                        result.deep_view() + spec_forest_entries(children@.skip(i as int)) == head + spec_forest_entries(children@),
                    decreases children@.len() - i,
                {
                    assert(children@.skip(i as int).drop_first() =~= children@.skip(i + 1));
                    assert(children@.skip(i as int)[0] == children@[i as int]);
                    let mut more = children[i].to_hash_file_entry();
                    let ghost before = result.deep_view();
                    let ghost added = more.deep_view();
                    result.append(&mut more);
                    assert(result.deep_view() =~= before + added);
                    i = i + 1;
                }
                assert(children@.skip(i as int) =~= Seq::<ArchiveFile>::empty());
                assert(result.deep_view() =~= head + spec_forest_entries(children@));
                assert(head =~~= self.spec_hash_tree_file_entry().subrange(0, 1));
                assert(result.deep_view() =~~= self.spec_hash_tree_file_entry());
                result
            },
            JobResultData::CachedArchiveHash {
                info,
                file_hash,
                children,
                size,
                content_directory_hash,
            } => {
                let mut r: Vec<HashTreeFileEntry> = Vec::new();
                r.push(
                    HashTreeFileEntry {
                        archive_children: copy_hashes(children),
                        file_type: HashTreeFileEntryType::File,
                        size: *size,
                        modified: info.modified,
                        children: Vec::new(),
                        archive_inner_hash: Some(content_directory_hash.duplicate()),
                        hash: file_hash.duplicate(),
                        path: FilePath::from_realpath(&info.path),
                    },
                );
                assert(r.deep_view() =~~= self.spec_hash_tree_file_entry());
                r
            },
            JobResultData::FileHash { info, hash, size } => {
                let mut r: Vec<HashTreeFileEntry> = Vec::new();
                r.push(
                    HashTreeFileEntry {
                        children: Vec::new(),
                        file_type: HashTreeFileEntryType::File,
                        modified: info.modified,
                        size: *size,
                        path: FilePath::from_realpath(&info.path),
                        hash: hash.duplicate(),
                        archive_inner_hash: None,
                        archive_children: Vec::new(),
                    },
                );
                assert(r.deep_view() =~~= self.spec_hash_tree_file_entry());
                r
            },
            JobResultData::SymlinkHash { info, hash } => {
                let mut r: Vec<HashTreeFileEntry> = Vec::new();
                r.push(
                    HashTreeFileEntry {
                        children: Vec::new(),
                        file_type: HashTreeFileEntryType::Symlink,
                        modified: info.modified,
                        size: info.file_size,
                        path: FilePath::from_realpath(&info.path),
                        hash: hash.duplicate(),
                        archive_inner_hash: None,
                        archive_children: Vec::new(),
                    },
                );
                assert(r.deep_view() =~~= self.spec_hash_tree_file_entry());
                r
            },
            JobResultData::Other { info, hash } => {
                let mut r: Vec<HashTreeFileEntry> = Vec::new();
                r.push(
                    HashTreeFileEntry {
                        children: Vec::new(),
                        file_type: HashTreeFileEntryType::Other,
                        modified: info.modified,
                        size: info.file_size,
                        archive_inner_hash: None,
                        archive_children: Vec::new(),
                        path: FilePath::from_realpath(&info.path),
                        hash: hash.duplicate(),
                    },
                );
                assert(r.deep_view() =~~= self.spec_hash_tree_file_entry());
                r
            },
            JobResultData::InitialEvaluation { .. } => {
                let r: Vec<HashTreeFileEntry> = Vec::new();
                assert(r.deep_view() =~~= self.spec_hash_tree_file_entry());
                r
            },
            JobResultData::DirectoryListing { .. } => {
                let r: Vec<HashTreeFileEntry> = Vec::new();
                assert(r.deep_view() =~~= self.spec_hash_tree_file_entry());
                r
            },
            JobResultData::Error { .. } => {
                let r: Vec<HashTreeFileEntry> = Vec::new();
                assert(r.deep_view() =~~= self.spec_hash_tree_file_entry());
                r
            },
        }
    }
}


/// The hash tree file entry of a hashed directory is one directory entry at the directory's
/// path whose size is its number of children, and whose children are the hashes of the
/// children of the result, in the same order.
pub proof fn law_directory_entry_counts_children(d: JobResultData)
    requires
        d is DirectoryHash,
    ensures
        d.spec_hash_tree_file_entry().len() == 1,
        d.spec_hash_tree_file_entry()[0].file_type == HashTreeFileEntryType::Directory,
        d.spec_hash_tree_file_entry()[0].size == d.spec_hash_tree_file_entry()[0].children.len(),
        d.spec_hash_tree_file_entry()[0].children == d->DirectoryHash_children.deep_view(),
        d.spec_hash_tree_file_entry()[0].path == seq![d->DirectoryHash_info.path.deep_view()],
{
    let c = d->DirectoryHash_children;
    assert(c@.len() == c.len());
}

/// The hash tree file entries of a result describe the file it is about: none for a listing,
/// an initial evaluation or an error; otherwise the first one is at the result's path, with
/// its modification time, of the kind of file hashed (a regular file for file and archive
/// hashes), with the hash and size found (the size read from the file system for symlinks
/// and other files, the number of children for directories).
pub proof fn law_entries_describe_the_result(d: JobResultData)
    ensures
        (d is DirectoryListing || d is InitialEvaluation || d is Error) ==> d.spec_hash_tree_file_entry().len() == 0,
        !(d is DirectoryListing || d is InitialEvaluation || d is Error) ==> {
            let e = d.spec_hash_tree_file_entry()[0];
            let info = d.spec_entry()->0;
            &&& d.spec_hash_tree_file_entry().len() >= 1
            &&& e.path == seq![info.path.deep_view()]
            &&& e.modified == info.modified
        },
        d matches JobResultData::FileHash { hash, size, .. } ==> d.spec_hash_tree_file_entry()[0].file_type
            == HashTreeFileEntryType::File && d.spec_hash_tree_file_entry()[0].size == size
            && d.spec_hash_tree_file_entry()[0].hash == hash@,
        d matches JobResultData::ArchiveHash { file_hash, size, content_directory_hash, .. }
            ==> d.spec_hash_tree_file_entry()[0].file_type == HashTreeFileEntryType::File
            && d.spec_hash_tree_file_entry()[0].size == size && d.spec_hash_tree_file_entry()[0].hash == file_hash@
            && d.spec_hash_tree_file_entry()[0].archive_inner_hash == Some(content_directory_hash@),
        d matches JobResultData::CachedArchiveHash { file_hash, size, content_directory_hash, .. }
            ==> d.spec_hash_tree_file_entry()[0].file_type == HashTreeFileEntryType::File
            && d.spec_hash_tree_file_entry()[0].size == size && d.spec_hash_tree_file_entry()[0].hash == file_hash@
            && d.spec_hash_tree_file_entry()[0].archive_inner_hash == Some(content_directory_hash@),
        d matches JobResultData::SymlinkHash { info, hash } ==> d.spec_hash_tree_file_entry()[0].file_type
            == HashTreeFileEntryType::Symlink && d.spec_hash_tree_file_entry()[0].size == info.file_size
            && d.spec_hash_tree_file_entry()[0].hash == hash@,
        d matches JobResultData::Other { info, hash } ==> d.spec_hash_tree_file_entry()[0].file_type
            == HashTreeFileEntryType::Other && d.spec_hash_tree_file_entry()[0].size == info.file_size
            && d.spec_hash_tree_file_entry()[0].hash == hash@,
        d matches JobResultData::DirectoryHash { hash, .. } ==> d.spec_hash_tree_file_entry()[0].file_type
            == HashTreeFileEntryType::Directory && d.spec_hash_tree_file_entry()[0].hash == hash@,
{
    if let JobResultData::DirectoryHash { children, .. } = d {
        assert(children@.len() == children.len());
    }
}

} // verus!
