//! What a worker makes of a job once the file system has been read and the files hashed: the
//! result that goes back to the planner.

use crate::hash::{copy_hashes, hash_lt, hashes_sorted, GeneralHash, GeneralHashType, HashView};
use crate::order::{lemma_multiset_map, sort_by_key, sorted_by_key, SortKey};
use crate::path::{copy_names, lemma_names_lt_order, names_before, names_lt};
use crate::stages::build::cmd::archive::{calculate_dir_hash, digest_of, inner_hashes, ArchiveFile};
use crate::stages::build::cmd::cmd::{DirectoryEntry, FileType, JobResultData};
use crate::path::FilePath;
use crate::stages::build::cmd::job::{JobResult, JobResultContent};
use crate::stages::build::intermediary_build_data::{BuildFile, BuildOtherInformation};
use crate::stages::build::output::{HashTreeFileEntry, HashTreeFileEntryType};
use vstd::prelude::*;

pub mod directory;
pub mod file;
pub mod other;
pub mod symlink;

verus! {

/// The settings of a worker.
pub struct WorkerArgument {
    /// Whether to follow symlinks when traversing the file system.
    pub follow_symlinks: bool,
    /// Whether to traverse into archives.
    pub archives: bool,
    /// The hash algorithm to use for hashing files.
    pub hash_type: GeneralHashType,
}

impl SortKey for DirectoryEntry {
    type Key = Seq<Seq<char>>;

    open spec fn sort_key(&self) -> Seq<Seq<char>> {
        self.path.deep_view()
    }

    open spec fn key_lt(a: Seq<Seq<char>>, b: Seq<Seq<char>>) -> bool {
        names_lt(a, b)
    }

    proof fn lemma_key_order(a: Seq<Seq<char>>, b: Seq<Seq<char>>, c: Seq<Seq<char>>) {
        lemma_names_lt_order(a, b, c);
    }

    fn comes_before(&self, other: &Self) -> (r: bool) {
        names_before(&self.path, &other.path)
    }
}

/// The kind of a file from its metadata: a directory, else a regular file, else a symlink,
/// else something other.
pub open spec fn spec_file_type(is_dir: bool, is_file: bool, is_symlink: bool) -> FileType {
    if is_dir {
        FileType::Directory
    } else if is_file {
        FileType::File
    } else if is_symlink {
        FileType::Symlink
    } else {
        FileType::Other
    }
}

/// The entry of the file at `path` from its metadata: its modification time in seconds since
/// the Unix epoch (0 where it cannot be had), its kind and its size.
pub fn evaluate_file(path: Vec<String>, modified: Option<u64>, is_dir: bool, is_file: bool, is_symlink: bool, len: u64) -> (r: DirectoryEntry)
    ensures
        r.path == path,
        r.modified == match modified {
            Some(m) => m,
            None => 0,
        },
        r.file_type == spec_file_type(is_dir, is_file, is_symlink),
        r.file_size == len,
{
    let file_type = if is_dir {
        FileType::Directory
    } else if is_file {
        FileType::File
    } else if is_symlink {
        FileType::Symlink
    } else {
        FileType::Other
    };
    DirectoryEntry {
        path,
        modified: match modified {
            Some(m) => m,
            None => 0,
        },
        file_size: len,
        file_type,
    }
}

/// The entry of a file of a listed directory whose metadata cannot be read: an other file,
/// modified at 0, of size 0.
pub fn unreadable_entry(path: Vec<String>) -> (r: DirectoryEntry)
    ensures
        r.path == path,
        r.modified == 0,
        r.file_type == FileType::Other,
        r.file_size == 0,
{
    DirectoryEntry { path, modified: 0, file_size: 0, file_type: FileType::Other }
}

/// `r` is the failure of the job on the file at `path` for `reason`: an error at that path,
/// which also is where it occurred.
pub open spec fn spec_failed_at(r: JobResultData, path: Vec<String>, reason: Seq<char>) -> bool {
    r matches JobResultData::Error { path: p, occurred_at, reason: why } && p.deep_view()
        == path.deep_view() && occurred_at == path && why@ == reason
}

/// The failure of the job on the file at `path` for `reason`.
pub fn failure_at(path: Vec<String>, reason: String) -> (r: JobResultData)
    ensures
        spec_failed_at(r, path, reason@),
{
    JobResultData::Error { path: copy_names(&path), occurred_at: path, reason }
}

/// The result of listing the directory `info`: its files in ascending order of their paths,
/// or the failure to list it.
pub fn listing_result(info: DirectoryEntry, listing: Result<Vec<DirectoryEntry>, String>) -> (r: JobResultData)
    ensures
        match listing {
            Ok(children) => r matches JobResultData::DirectoryListing { info: i, children: c } && i
                == info && c@.to_multiset() == children@.to_multiset() && sorted_by_key(c@),
            Err(reason) => spec_failed_at(r, info.path, reason@),
        },
{
    match listing {
        Ok(children) => {
            let mut children = children;
            sort_by_key(&mut children);
            JobResultData::DirectoryListing { children, info }
        },
        Err(reason) => failure_at(info.path, reason),
    }
}

/// What reading a file gave: the hash and size of its content and, where archives are looked
/// into and the file is one, the trees found in it or why reading them failed.
pub struct FileContent {
    pub hash: GeneralHash,
    pub size: u64,
    pub archive: Option<Result<Vec<ArchiveFile>, String>>,
}

/// The result of hashing the file `info`: the failure to read it; its hash and size; or, for
/// an archive whose trees could be read, also those trees in ascending order of their inner
/// hashes, with the hash `hasher` gives for their inner hashes. An archive whose trees could
/// not be read counts as a plain file.
pub fn file_hash_result<F: Fn(GeneralHashType, &Vec<GeneralHash>) -> GeneralHash>(
    info: DirectoryEntry,
    content: Result<FileContent, String>,
    hash_type: GeneralHashType,
    hasher: &F,
) -> (r: JobResultData)
    requires
        forall|t: GeneralHashType, h: &Vec<GeneralHash>| hasher.requires((t, h)),
    ensures
        match content {
            Err(reason) => spec_failed_at(r, info.path, reason@),
            Ok(FileContent { hash, size, archive }) => match archive {
                Some(Ok(trees)) => r matches JobResultData::ArchiveHash {
                    info: i,
                    size: s,
                    file_hash,
                    children,
                    content_directory_hash,
                } && i == info && s == size && file_hash == hash && children@.to_multiset()
                    == trees@.to_multiset() && sorted_by_key(children@) && digest_of(
                    *hasher,
                    hash_type,
                    inner_hashes(children@),
                    content_directory_hash,
                ),
                _ => r == JobResultData::FileHash { info, hash, size },
            },
        },
{
    match content {
        Err(reason) => failure_at(info.path, reason),
        Ok(FileContent { hash, size, archive }) => match archive {
            Some(Ok(trees)) => {
                let mut children = trees;
                let content_directory_hash = calculate_dir_hash(hash_type, &mut children, hasher);
                JobResultData::ArchiveHash { children, content_directory_hash, file_hash: hash, size, info }
            },
            _ => JobResultData::FileHash { hash, info, size },
        },
    }
}

/// The result of hashing the directory `info` from the hashes of its children: the hash
/// `hasher` gives for those hashes in ascending order; the children's hashes are kept in the
/// order given.
pub fn directory_hash_result<F: Fn(GeneralHashType, &Vec<GeneralHash>) -> GeneralHash>(
    info: DirectoryEntry,
    children: Vec<GeneralHash>,
    hash_type: GeneralHashType,
    hasher: &F,
) -> (r: JobResultData)
    requires
        forall|t: GeneralHashType, h: &Vec<GeneralHash>| hasher.requires((t, h)),
    ensures
        r matches JobResultData::DirectoryHash { info: i, hash, children: c } && i == info && c
            == children && exists|s: Seq<HashView>|
            s.to_multiset() == children.deep_view().to_multiset() && hashes_sorted(s)
                && #[trigger] digest_of(*hasher, hash_type, s, hash),
{
    let mut sorted = copy_hashes(&children);
    let ghost copied = sorted@;
    sort_by_key(&mut sorted);
    let hash = hasher(hash_type, &sorted);
    proof {
        let s = sorted.deep_view();
        assert(digest_of(*hasher, hash_type, s, hash));
        lemma_multiset_map(sorted@, copied, |h: GeneralHash| h.deep_view());
        assert(s =~= sorted@.map_values(|h: GeneralHash| h.deep_view()));
        assert(copied.map_values(|h: GeneralHash| h.deep_view()) =~= children.deep_view());
        assert forall|i: int, j: int| 0 <= i < j < s.len() implies !hash_lt(#[trigger] s[j], #[trigger] s[i]) by {
            assert(s[i] == sorted@[i].sort_key());
            assert(s[j] == sorted@[j].sort_key());
        }
        assert(hashes_sorted(s));
    }
    JobResultData::DirectoryHash { info, hash, children }
}

/// The result of hashing the symlink `info`: the hash `hasher` gives for its path.
pub fn symlink_result<P: Fn(GeneralHashType, &Vec<String>) -> GeneralHash>(
    info: DirectoryEntry,
    hash_type: GeneralHashType,
    hasher: &P,
) -> (r: JobResultData)
    requires
        forall|t: GeneralHashType, p: &Vec<String>| hasher.requires((t, p)),
    ensures
        r matches JobResultData::SymlinkHash { info: i, hash } && i == info && hasher.ensures(
            (hash_type, &info.path),
            hash,
        ),
{
    let hash = hasher(hash_type, &info.path);
    JobResultData::SymlinkHash { hash, info }
}

/// The result of looking at a path given by the user: the entry of the file there, or the
/// failure to read its metadata.
pub fn initial_result(path: Vec<String>, metadata: Result<DirectoryEntry, String>) -> (r: JobResultData)
    ensures
        match metadata {
            Ok(info) => r == JobResultData::InitialEvaluation { info },
            Err(reason) => spec_failed_at(r, path, reason@),
        },
{
    match metadata {
        Ok(info) => JobResultData::InitialEvaluation { info },
        Err(reason) => failure_at(path, reason),
    }
}

/// The result of a job for a directory waiting for its children, which no worker should
/// get: a failure at the directory.
pub fn stub_result(info: DirectoryEntry) -> (r: JobResultData)
    ensures
        spec_failed_at(r, info.path, "Unexpected DirectoryStub job"@),
{
    failure_at(info.path, "Unexpected DirectoryStub job".to_owned())
}

/// Whether an entry of an earlier hash tree file still describes the file: it is of the kind
/// `kind`, with the same modification time and size.
pub open spec fn spec_saved_matches(found: HashTreeFileEntry, kind: HashTreeFileEntryType, modified: u64, size: u64) -> bool {
    found.file_type == kind && found.modified == modified && found.size == size
}

/// Whether an entry of an earlier hash tree file still describes the file (see
/// `spec_saved_matches`).
pub fn saved_matches(found: &HashTreeFileEntry, kind: HashTreeFileEntryType, modified: u64, size: u64) -> (r: bool)
    ensures
        r == spec_saved_matches(*found, kind, modified, size),
{
    found.file_type == kind && found.modified == modified && found.size == size
}

/// The file reported for a file that could not be analyzed: an other file with the path,
/// modification time and size known.
pub fn worker_create_error(path: FilePath, modified: u64, size: u64) -> (r: BuildFile)
    ensures
        r == BuildFile::Other(BuildOtherInformation { path, modified, content_size: size }),
{
    BuildFile::Other(BuildOtherInformation { path, modified, content_size: size })
}

/// `r` is the result of a job with the file `content`: intermediate for a job with a parent,
/// final otherwise.
pub open spec fn spec_job_result(r: JobResult, has_parent: bool, already_cached: bool, content: BuildFile) -> bool {
    match r {
        JobResult::Final(c) => !has_parent && c.already_cached == already_cached && c.content == content,
        JobResult::Intermediate(c) => has_parent && c.already_cached == already_cached && c.content == content,
    }
}

/// The result of a job with the file `content` (see `spec_job_result`).
pub fn job_result(has_parent: bool, already_cached: bool, content: BuildFile) -> (r: JobResult)
    ensures
        spec_job_result(r, has_parent, already_cached, content),
{
    let c = JobResultContent { already_cached, content };
    if has_parent {
        JobResult::Intermediate(c)
    } else {
        JobResult::Final(c)
    }
}


/// A stream that counts the bytes read through it.
pub struct LengthCountingStream<R> {
    inner: R,
    length: u64,
}

impl<R> LengthCountingStream<R> {
    /// The wrapped stream.
    pub closed spec fn stream(&self) -> R {
        self.inner
    }

    /// The number of bytes read through the stream so far.
    pub closed spec fn counted(&self) -> u64 {
        self.length
    }

    /// A stream over `inner` that has counted nothing yet.
    pub fn new(inner: R) -> (r: LengthCountingStream<R>)
        ensures
            r.stream() == inner,
            r.counted() == 0,
    {
        LengthCountingStream { inner, length: 0 }
    }

    /// The number of bytes read so far.
    pub fn length(&self) -> (r: u64)
        ensures
            r == self.counted(),
    {
        self.length
    }

    /// The wrapped stream.
    pub fn inner(self) -> (r: R)
        ensures
            r == self.stream(),
    {
        self.inner
    }

    /// The wrapped stream, to read from.
    pub fn inner_mut(&mut self) -> (r: &mut R)
        ensures
            *r == old(self).stream(),
            final(self).stream() == *final(r),
            final(self).counted() == old(self).counted(),
    {
        &mut self.inner
    }

    /// Counts `bytes_read` more bytes read through the stream.
    pub fn record_read(&mut self, bytes_read: usize)
        requires
            old(self).counted() + bytes_read <= u64::MAX,
        ensures
            final(self).counted() == old(self).counted() + bytes_read,
            final(self).stream() == old(self).stream(),
    {
        self.length = self.length + bytes_read as u64;
    }
}


/// The sum of the byte counts `reads`.
pub open spec fn spec_sum_of_reads(reads: Seq<usize>) -> int
    decreases reads.len(),
{
    if reads.len() == 0 {
        0
    } else {
        spec_sum_of_reads(reads.drop_last()) + reads.last()
    }
}

/// A stream that starts counting at 0 (`new`) and then counts the reads `reads` one after
/// the other (`record_read`) has counted their sum: `states` are its states, the first one
/// new and each next one after one more read.
pub proof fn law_counted_is_sum_of_reads<R>(states: Seq<LengthCountingStream<R>>, reads: Seq<usize>)
    requires
        states.len() == reads.len() + 1,
        states[0].counted() == 0,
        forall|k: int| 0 <= k < reads.len() ==> #[trigger] states[k + 1].counted() == states[k].counted() + reads[k],
    ensures
        states.last().counted() == spec_sum_of_reads(reads),
    decreases reads.len(),
{
    if reads.len() > 0 {
        let n = reads.len() - 1;
        law_counted_is_sum_of_reads(states.drop_last(), reads.drop_last());
        assert(states.drop_last().last() == states[n]);
        assert(states[n + 1].counted() == states[n].counted() + reads[n]);
    }
}


/// The hash of a directory does not depend on the order in which its children's hashes are
/// given: two results of `directory_hash_result` for the same children in any two orders
/// carry the same hash, when the hasher gives one hash for one list of hashes. Here `s1` and
/// `s2` are the sorted hashes that the two results were computed from.
pub proof fn law_directory_hash_ignores_order<F: Fn(GeneralHashType, &Vec<GeneralHash>) -> GeneralHash>(
    hasher: F,
    t: GeneralHashType,
    c1: Seq<HashView>,
    c2: Seq<HashView>,
    s1: Seq<HashView>,
    s2: Seq<HashView>,
    h1: GeneralHash,
    h2: GeneralHash,
)
    requires
        c1.to_multiset() == c2.to_multiset(),
        s1.to_multiset() == c1.to_multiset(),
        hashes_sorted(s1),
        digest_of(hasher, t, s1, h1),
        s2.to_multiset() == c2.to_multiset(),
        hashes_sorted(s2),
        digest_of(hasher, t, s2, h2),
        forall|a: &Vec<GeneralHash>, b: &Vec<GeneralHash>, r1: GeneralHash, r2: GeneralHash|
            a.deep_view() == b.deep_view() && #[trigger] hasher.ensures((t, a), r1) && #[trigger] hasher.ensures((t, b), r2)
                ==> r1 == r2,
    ensures
        h1 == h2,
{
    crate::hash::law_sorted_hashes_determined(s1, s2);
    let a = choose|h: Vec<GeneralHash>| h.deep_view() == s1 && #[trigger] hasher.ensures((t, &h), h1);
    let b = choose|h: Vec<GeneralHash>| h.deep_view() == s2 && #[trigger] hasher.ensures((t, &h), h2);
    assert(hasher.ensures((t, &a), h1) && hasher.ensures((t, &b), h2));
}

} // verus!
