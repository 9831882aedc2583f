//! The file trees found inside archives.

use crate::hash::{
    hash_lt, lemma_hash_lt_order, null_hash, GeneralHash, GeneralHashType,
    HashView,
};
use crate::path::{spec_join, spec_join_all, spec_relative_to_last, FilePath, PathView};
use crate::utils::random_name;
use crate::stages::build::cmd::worker::WorkerArgument;
use crate::stages::build::output::{
    HashTreeFileEntry, HashTreeFileEntryType, HashTreeFileEntryView,
};
use std::collections::VecDeque;
use crate::order::{sort_by_key, sorted_by_key, SortKey};
use vstd::prelude::*;

verus! {

/// A file found inside an archive.
#[derive(Debug)]
pub enum ArchiveFile {
    /// A regular file.
    File {
        /// The path of the file.
        path: FilePath,
        /// The last modification time of the file.
        modified: u64,
        /// The hash of the file content.
        content_hash: GeneralHash,
        /// The size of the file content.
        content_size: u64,
    },
    /// An archive file (special variant of file, including subtree).
    ArchiveFile {
        /// The path of the archive file.
        path: FilePath,
        /// The last modification time of the archive file.
        modified: u64,
        /// The hash of the archive file content.
        file_hash: GeneralHash,
        /// The hash of the archive directory structure. Used to find duplicate file structures.
        directory_hash: GeneralHash,
        /// The size of the archive file content.
        content_size: u64,
        /// The children of the archive file.
        children: Vec<ArchiveFile>,
    },
    /// A directory.
    Directory {
        /// The path of the directory.
        path: FilePath,
        /// The last modification time of the directory.
        modified: u64,
        /// The hash of the directory content.
        content_hash: GeneralHash,
        /// The number of children in the directory.
        number_of_children: u64,
        /// The children of the directory.
        children: Vec<ArchiveFile>,
    },
    /// A symlink.
    Symlink {
        /// The path of the symlink.
        path: FilePath,
        /// The last modification time of the symlink.
        modified: u64,
        /// The hash of the symlink content.
        content_hash: GeneralHash,
        /// The target of the symlink.
        target: Vec<String>,
        /// The size of the symlink content.
        content_size: u64,
    },
    /// A file that is not a regular file, directory, or symlink, or a file for which
    /// permissions are missing.
    Other {
        /// The path of the file.
        path: FilePath,
        /// The last modification time of the file.
        modified: u64,
        /// The size of the file content.
        content_size: u64,
    },
}

impl ArchiveFile {
    /// The path of the file.
    pub open spec fn spec_path(&self) -> PathView {
        match self {
            ArchiveFile::File { path, .. } => path@,
            ArchiveFile::ArchiveFile { path, .. } => path@,
            ArchiveFile::Directory { path, .. } => path@,
            ArchiveFile::Symlink { path, .. } => path@,
            ArchiveFile::Other { path, .. } => path@,
        }
    }

    /// The hash of the file content: the file hash of an archive file, `NULL` for other files.
    pub open spec fn spec_file_hash(&self) -> HashView {
        match self {
            ArchiveFile::File { content_hash, .. } => content_hash@,
            ArchiveFile::ArchiveFile { file_hash, .. } => file_hash@,
            ArchiveFile::Directory { content_hash, .. } => content_hash@,
            ArchiveFile::Symlink { content_hash, .. } => content_hash@,
            ArchiveFile::Other { .. } => null_hash(),
        }
    }

    /// The hash of the file content, or of the directory structure for archive files; `NULL`
    /// for other files.
    pub open spec fn spec_inner_hash(&self) -> HashView {
        match self {
            ArchiveFile::File { content_hash, .. } => content_hash@,
            ArchiveFile::ArchiveFile { directory_hash, .. } => directory_hash@,
            ArchiveFile::Directory { content_hash, .. } => content_hash@,
            ArchiveFile::Symlink { content_hash, .. } => content_hash@,
            ArchiveFile::Other { .. } => null_hash(),
        }
    }

    /// The last modification time.
    pub open spec fn spec_modified(&self) -> u64 {
        match self {
            ArchiveFile::File { modified, .. } => *modified,
            ArchiveFile::ArchiveFile { modified, .. } => *modified,
            ArchiveFile::Directory { modified, .. } => *modified,
            ArchiveFile::Symlink { modified, .. } => *modified,
            ArchiveFile::Other { modified, .. } => *modified,
        }
    }

    /// The children of a directory or archive file; none for other files.
    pub open spec fn spec_children(&self) -> Seq<ArchiveFile> {
        match self {
            ArchiveFile::ArchiveFile { children, .. } => children@,
            ArchiveFile::Directory { children, .. } => children@,
            _ => Seq::empty(),
        }
    }
}

/// The number of files in a tree.
pub open spec fn tree_size(f: ArchiveFile) -> nat
    decreases f, 1nat,
{
    match f {
        ArchiveFile::ArchiveFile { children, .. } => 1 + forest_size(children@),
        ArchiveFile::Directory { children, .. } => 1 + forest_size(children@),
        _ => 1,
    }
}

/// The number of files in a list of trees.
pub open spec fn forest_size(s: Seq<ArchiveFile>) -> nat
    decreases s, 0nat,
{
    if s.len() == 0 {
        0
    } else {
        tree_size(s[0]) + forest_size(s.drop_first())
    }
}

/// The paths of the files in a tree.
pub open spec fn tree_paths(f: ArchiveFile) -> Set<PathView>
    decreases f, 1nat,
{
    match f {
        ArchiveFile::ArchiveFile { children, .. } => set![f.spec_path()].union(
            forest_paths(children@),
        ),
        ArchiveFile::Directory { children, .. } => set![f.spec_path()].union(
            forest_paths(children@),
        ),
        _ => set![f.spec_path()],
    }
}

/// The paths of the files in a list of trees.
pub open spec fn forest_paths(s: Seq<ArchiveFile>) -> Set<PathView>
    decreases s, 0nat,
{
    if s.len() == 0 {
        Set::empty()
    } else {
        tree_paths(s[0]).union(forest_paths(s.drop_first()))
    }
}

/// The number of files in two lists of trees together.
pub proof fn lemma_forest_size_concat(a: Seq<ArchiveFile>, b: Seq<ArchiveFile>)
    ensures
        forest_size(a + b) == forest_size(a) + forest_size(b),
    decreases a.len(),
{
    if a.len() == 0 {
        assert(a + b =~= b);
    } else {
        lemma_forest_size_concat(a.drop_first(), b);
        assert((a + b).drop_first() =~= a.drop_first() + b);
    }
}

/// A tree holds its root and the files of its children.
pub proof fn lemma_tree_size_unfold(f: ArchiveFile)
    ensures
        tree_size(f) == 1 + forest_size(f.spec_children()),
{
}

/// The hashes of the content or directory structure of a list of files.
pub open spec fn inner_hashes(s: Seq<ArchiveFile>) -> Seq<HashView> {
    s.map_values(|c: ArchiveFile| c.spec_inner_hash())
}

/// The files of a queue of trees in breadth-first order: the first tree's root, then the
/// rest of the queue followed by the children of that root.
pub open spec fn spec_bfs(queue: Seq<ArchiveFile>) -> Seq<ArchiveFile>
    decreases forest_size(queue),
{
    if queue.len() == 0 {
        Seq::empty()
    } else {
        proof {
            lemma_forest_size_concat(queue.drop_first(), queue[0].spec_children());
            lemma_tree_size_unfold(queue[0]);
        }
        seq![queue[0]] + spec_bfs(queue.drop_first() + queue[0].spec_children())
    }
}

/// The hash tree file entry that describes a single file of an archive tree.
pub open spec fn spec_node_entry(f: ArchiveFile) -> HashTreeFileEntryView {
    match f {
        ArchiveFile::File { path, modified, content_hash, content_size } => HashTreeFileEntryView {
            file_type: HashTreeFileEntryType::File,
            modified,
            size: content_size,
            hash: content_hash@,
            path: path@,
            children: Seq::empty(),
            archive_children: Seq::empty(),
            archive_inner_hash: None,
        },
        ArchiveFile::Other { path, modified, content_size } => HashTreeFileEntryView {
            file_type: HashTreeFileEntryType::Other,
            modified,
            size: content_size,
            hash: null_hash(),
            path: path@,
            children: Seq::empty(),
            archive_children: Seq::empty(),
            archive_inner_hash: None,
        },
        ArchiveFile::Symlink { path, modified, content_hash, content_size, .. } =>
            HashTreeFileEntryView {
            file_type: HashTreeFileEntryType::Symlink,
            modified,
            size: content_size,
            hash: content_hash@,
            path: path@,
            children: Seq::empty(),
            archive_children: Seq::empty(),
            archive_inner_hash: None,
        },
        ArchiveFile::Directory { path, modified, content_hash, children, .. } =>
            HashTreeFileEntryView {
            file_type: HashTreeFileEntryType::Directory,
            modified,
            size: children@.len() as u64,
            hash: content_hash@,
            path: path@,
            children: inner_hashes(children@),
            archive_children: Seq::empty(),
            archive_inner_hash: None,
        },
        ArchiveFile::ArchiveFile {
            path,
            modified,
            file_hash,
            directory_hash,
            content_size,
            children,
        } => HashTreeFileEntryView {
            file_type: HashTreeFileEntryType::File,
            modified,
            size: content_size,
            hash: file_hash@,
            path: path@,
            children: Seq::empty(),
            archive_children: inner_hashes(children@),
            archive_inner_hash: Some(directory_hash@),
        },
    }
}

/// The hashes of the content or directory structure of a list of files.
fn collect_inner_hashes(children: &Vec<ArchiveFile>) -> (r: Vec<GeneralHash>)
    ensures
        r.deep_view() == inner_hashes(children@),
{
    let mut r: Vec<GeneralHash> = Vec::with_capacity(children.len());
    let mut i: usize = 0;
    while i < children.len()
        invariant
            i <= children@.len(),
            r@.len() == i,
            forall|k: int| 0 <= k < i ==> #[trigger] r@[k]@ == children@[k].spec_inner_hash(),
        decreases children@.len() - i,
    {
        r.push(children[i].get_inner_hash());
        i = i + 1;
    }
    assert(r.deep_view() =~= inner_hashes(children@));
    r
}

impl SortKey for ArchiveFile {
    type Key = HashView;

    open spec fn sort_key(&self) -> HashView {
        self.spec_inner_hash()
    }

    open spec fn key_lt(a: HashView, b: HashView) -> bool {
        hash_lt(a, b)
    }

    proof fn lemma_key_order(a: HashView, b: HashView, c: HashView) {
        lemma_hash_lt_order(a, b, c);
    }

    fn comes_before(&self, other: &Self) -> (r: bool) {
        let a = self.get_inner_hash();
        let b = other.get_inner_hash();
        a.less_than(&b)
    }
}

impl ArchiveFile {
    /// The hash of the file content: the file hash of an archive file, `NULL` for other files.
    pub fn get_file_hash(&self) -> (r: GeneralHash)
        ensures
            r@ == self.spec_file_hash(),
    {
        match self {
            ArchiveFile::File { content_hash, .. } => content_hash.duplicate(),
            ArchiveFile::ArchiveFile { file_hash, .. } => file_hash.duplicate(),
            ArchiveFile::Directory { content_hash, .. } => content_hash.duplicate(),
            ArchiveFile::Symlink { content_hash, .. } => content_hash.duplicate(),
            ArchiveFile::Other { .. } => GeneralHash::null(),
        }
    }

    /// The hash of the file content, or of the directory structure for archive files; `NULL`
    /// for other files.
    pub fn get_inner_hash(&self) -> (r: GeneralHash)
        ensures
            r@ == self.spec_inner_hash(),
    {
        match self {
            ArchiveFile::File { content_hash, .. } => content_hash.duplicate(),
            ArchiveFile::ArchiveFile { directory_hash, .. } => directory_hash.duplicate(),
            ArchiveFile::Directory { content_hash, .. } => content_hash.duplicate(),
            ArchiveFile::Symlink { content_hash, .. } => content_hash.duplicate(),
            ArchiveFile::Other { .. } => GeneralHash::null(),
        }
    }

    /// The path of the file.
    pub fn get_path(&self) -> (r: &FilePath)
        ensures
            r@ == self.spec_path(),
    {
        match self {
            ArchiveFile::File { path, .. } => path,
            ArchiveFile::ArchiveFile { path, .. } => path,
            ArchiveFile::Directory { path, .. } => path,
            ArchiveFile::Symlink { path, .. } => path,
            ArchiveFile::Other { path, .. } => path,
        }
    }

    /// Whether this is a directory.
    pub fn is_directory(&self) -> (r: bool)
        ensures
            r == (self is Directory),
    {
        matches!(self, ArchiveFile::Directory { .. })
    }

    /// Whether this is a symlink.
    pub fn is_symlink(&self) -> (r: bool)
        ensures
            r == (self is Symlink),
    {
        matches!(self, ArchiveFile::Symlink { .. })
    }

    /// Whether this is a file: a regular file or an archive file.
    pub fn is_file(&self) -> (r: bool)
        ensures
            r == (self is File || self is ArchiveFile),
    {
        matches!(self, ArchiveFile::File { .. } | ArchiveFile::ArchiveFile { .. })
    }

    /// Whether this is an archive file.
    pub fn is_archive(&self) -> (r: bool)
        ensures
            r == (self is ArchiveFile),
    {
        matches!(self, ArchiveFile::ArchiveFile { .. })
    }

    /// Whether this is an "other" file.
    pub fn is_other(&self) -> (r: bool)
        ensures
            r == (self is Other),
    {
        matches!(self, ArchiveFile::Other { .. })
    }

    /// The last modification time of the file.
    pub fn modified(&self) -> (r: u64)
        ensures
            r == self.spec_modified(),
    {
        match self {
            ArchiveFile::File { modified, .. } => *modified,
            ArchiveFile::ArchiveFile { modified, .. } => *modified,
            ArchiveFile::Directory { modified, .. } => *modified,
            ArchiveFile::Symlink { modified, .. } => *modified,
            ArchiveFile::Other { modified, .. } => *modified,
        }
    }

    /// The hash tree file entry that describes this file alone.
    fn node_entry(&self) -> (r: HashTreeFileEntry)
        ensures
            r.deep_view() == spec_node_entry(*self),
    {
        match self {
            ArchiveFile::File { path, modified, content_hash, content_size } => {
                let r = HashTreeFileEntry {
                    archive_children: Vec::new(),
                    modified: *modified,
                    path: path.duplicate(),
                    hash: content_hash.duplicate(),
                    file_type: HashTreeFileEntryType::File,
                    children: Vec::new(),
                    archive_inner_hash: None,
                    size: *content_size,
                };
                assert(r.deep_view() =~= spec_node_entry(*self));
                r
            },
            ArchiveFile::Other { path, content_size, modified } => {
                let r = HashTreeFileEntry {
                    archive_children: Vec::new(),
                    modified: *modified,
                    path: path.duplicate(),
                    hash: GeneralHash::null(),
                    file_type: HashTreeFileEntryType::Other,
                    children: Vec::new(),
                    archive_inner_hash: None,
                    size: *content_size,
                };
                assert(r.deep_view() =~= spec_node_entry(*self));
                r
            },
            ArchiveFile::Symlink { path, modified, content_hash, content_size, .. } => {
                let r = HashTreeFileEntry {
                    archive_children: Vec::new(),
                    modified: *modified,
                    path: path.duplicate(),
                    hash: content_hash.duplicate(),
                    file_type: HashTreeFileEntryType::Symlink,
                    children: Vec::new(),
                    archive_inner_hash: None,
                    size: *content_size,
                };
                assert(r.deep_view() =~= spec_node_entry(*self));
                r
            },
            ArchiveFile::Directory { path, modified, content_hash, children, .. } => {
                let r = HashTreeFileEntry {
                    archive_children: Vec::new(),
                    modified: *modified,
                    path: path.duplicate(),
                    hash: content_hash.duplicate(),
                    file_type: HashTreeFileEntryType::Directory,
                    children: collect_inner_hashes(children),
                    archive_inner_hash: None,
                    size: children.len() as u64,
                };
                assert(r.deep_view() =~= spec_node_entry(*self));
                r
            },
            ArchiveFile::ArchiveFile {
                path,
                modified,
                file_hash,
                directory_hash,
                children,
                content_size,
            } => {
                let r = HashTreeFileEntry {
                    archive_children: collect_inner_hashes(children),
                    modified: *modified,
                    path: path.duplicate(),
                    hash: file_hash.duplicate(),
                    file_type: HashTreeFileEntryType::File,
                    children: Vec::new(),
                    archive_inner_hash: Some(directory_hash.duplicate()),
                    size: *content_size,
                };
                assert(r.deep_view() =~= spec_node_entry(*self));
                r
            },
        }
    }

    /// The hash tree file entries of all files of this tree, in breadth-first order.
    pub fn to_hash_file_entry(&self) -> (r: Vec<HashTreeFileEntry>)
        ensures
            r.deep_view() == spec_bfs(seq![*self]).map_values(|f: ArchiveFile| spec_node_entry(f)),
    {
        let mut queue: VecDeque<&ArchiveFile> = VecDeque::new();
        queue.push_back(self);
        let mut result: Vec<HashTreeFileEntry> = Vec::new();
        let ghost goal = spec_bfs(seq![*self]).map_values(|f: ArchiveFile| spec_node_entry(f));
        assert(queue@.map_values(|f: &ArchiveFile| *f) =~= seq![*self]);
        while queue.len() > 0
            invariant
                goal == result.deep_view() + spec_bfs(queue@.map_values(|f: &ArchiveFile| *f)).map_values(
                    |f: ArchiveFile| spec_node_entry(f),
                ),
            decreases forest_size(queue@.map_values(|f: &ArchiveFile| *f)),
        {
            let ghost q0 = queue@.map_values(|f: &ArchiveFile| *f);
            let file = queue.pop_front().unwrap();
            let ghost rest = queue@.map_values(|f: &ArchiveFile| *f);
            assert(rest =~= q0.drop_first());
            let ghost r0 = result.deep_view();
            result.push(file.node_entry());
            assert(result.deep_view() =~= r0.push(spec_node_entry(*file)));
            match file {
                ArchiveFile::Directory { children, .. } | ArchiveFile::ArchiveFile { children, .. } => {
                    let mut i: usize = 0;
                    while i < children.len()
                        invariant
                            i <= children@.len(),
                            queue@.map_values(|f: &ArchiveFile| *f) == rest + children@.subrange(0, i as int),
                        decreases children@.len() - i,
                    {
                        let ghost qb = queue@;
                        let child = &children[i];
                        queue.push_back(child);
                        assert(queue@ == qb.push(child));
                        assert(queue@.map_values(|f: &ArchiveFile| *f) =~= qb.map_values(|f: &ArchiveFile| *f).push(*child));
                        i = i + 1;
                        assert(children@.subrange(0, i as int) =~= children@.subrange(0, i - 1).push(*child));
                        assert(queue@.map_values(|f: &ArchiveFile| *f) =~= rest + children@.subrange(0, i as int));
                    }
                    assert(children@.subrange(0, i as int) =~= children@);
                },
                _ => {
                    assert(rest + file.spec_children() =~= rest);
                },
            }
            proof {
                let q1 = queue@.map_values(|f: &ArchiveFile| *f);
                assert(q1 == q0.drop_first() + q0[0].spec_children());
                assert(spec_bfs(q0) == seq![q0[0]] + spec_bfs(q1));
                assert(spec_bfs(q0).map_values(|f: ArchiveFile| spec_node_entry(f)) =~= seq![spec_node_entry(q0[0])] + spec_bfs(q1).map_values(|f: ArchiveFile| spec_node_entry(f)));
                assert(goal =~= result.deep_view() + spec_bfs(q1).map_values(|f: ArchiveFile| spec_node_entry(f)));
                lemma_forest_size_concat(q0.drop_first(), q0[0].spec_children());
                lemma_tree_size_unfold(q0[0]);
            }
        }
        assert(spec_bfs(queue@.map_values(|f: &ArchiveFile| *f)) =~= Seq::<ArchiveFile>::empty());
        assert(result.deep_view() =~= goal);
        result
    }
}

/// Whether a tree holds the file `x`.
pub open spec fn tree_contains(f: ArchiveFile, x: ArchiveFile) -> bool
    decreases f, 1nat,
{
    f == x || match f {
        ArchiveFile::ArchiveFile { children, .. } => forest_contains(children@, x),
        ArchiveFile::Directory { children, .. } => forest_contains(children@, x),
        _ => false,
    }
}

/// Whether a list of trees holds the file `x`.
pub open spec fn forest_contains(s: Seq<ArchiveFile>, x: ArchiveFile) -> bool
    decreases s, 0nat,
{
    s.len() > 0 && (tree_contains(s[0], x) || forest_contains(s.drop_first(), x))
}

/// A list of trees holds a file exactly when one of its trees does.
pub proof fn lemma_forest_contains(s: Seq<ArchiveFile>, x: ArchiveFile)
    ensures
        forest_contains(s, x) <==> exists|i: int| 0 <= i < s.len() && #[trigger] tree_contains(s[i], x),
    decreases s.len(),
{
    if s.len() > 0 {
        lemma_forest_contains(s.drop_first(), x);
        if tree_contains(s[0], x) {
            assert(0 <= 0 < s.len() && tree_contains(s[0], x));
        }
        if forest_contains(s.drop_first(), x) {
            let i = choose|i: int| 0 <= i < s.drop_first().len() && #[trigger] tree_contains(s.drop_first()[i], x);
            assert(tree_contains(s[i + 1], x));
        }
        if exists|i: int| 0 <= i < s.len() && #[trigger] tree_contains(s[i], x) {
            let i = choose|i: int| 0 <= i < s.len() && #[trigger] tree_contains(s[i], x);
            if i > 0 {
                assert(tree_contains(s.drop_first()[i - 1], x));
            }
        }
    }
}

/// The paths of a list of trees are the paths of its trees.
pub proof fn lemma_forest_paths(s: Seq<ArchiveFile>, p: PathView)
    ensures
        forest_paths(s).contains(p) <==> exists|i: int| 0 <= i < s.len() && #[trigger] tree_paths(s[i]).contains(p),
    decreases s.len(),
{
    if s.len() > 0 {
        lemma_forest_paths(s.drop_first(), p);
        if tree_paths(s[0]).contains(p) {
            assert(0 <= 0 < s.len() && tree_paths(s[0]).contains(p));
        }
        if forest_paths(s.drop_first()).contains(p) {
            let i = choose|i: int| 0 <= i < s.drop_first().len() && #[trigger] tree_paths(s.drop_first()[i]).contains(p);
            assert(tree_paths(s[i + 1]).contains(p));
        }
        if exists|i: int| 0 <= i < s.len() && #[trigger] tree_paths(s[i]).contains(p) {
            let i = choose|i: int| 0 <= i < s.len() && #[trigger] tree_paths(s[i]).contains(p);
            if i > 0 {
                assert(tree_paths(s.drop_first()[i - 1]).contains(p));
            }
        }
    }
}

/// A tree that holds a file holds the path of that file.
proof fn lemma_tree_contains_paths(f: ArchiveFile, x: ArchiveFile)
    requires
        tree_contains(f, x),
    ensures
        tree_paths(f).contains(x.spec_path()),
    decreases f,
{
    if f != x {
        match f {
            ArchiveFile::ArchiveFile { children, .. } => {
                lemma_forest_contains(children@, x);
                let i = choose|i: int| 0 <= i < children@.len() && #[trigger] tree_contains(children@[i], x);
                lemma_tree_contains_paths(children@[i], x);
                lemma_forest_paths(children@, x.spec_path());
            },
            ArchiveFile::Directory { children, .. } => {
                lemma_forest_contains(children@, x);
                let i = choose|i: int| 0 <= i < children@.len() && #[trigger] tree_contains(children@[i], x);
                lemma_tree_contains_paths(children@[i], x);
                lemma_forest_paths(children@, x.spec_path());
            },
            _ => {},
        }
    }
}

/// Two lists of trees whose trees pairwise have the same paths have the same paths.
proof fn lemma_forest_paths_pointwise(a: Seq<ArchiveFile>, b: Seq<ArchiveFile>)
    requires
        a.len() == b.len(),
        forall|i: int| 0 <= i < a.len() ==> #[trigger] tree_paths(a[i]) == tree_paths(b[i]),
    ensures
        forest_paths(a) == forest_paths(b),
{
    assert forall|p: PathView| forest_paths(a).contains(p) == forest_paths(b).contains(p) by {
        lemma_forest_paths(a, p);
        lemma_forest_paths(b, p);
        if forest_paths(a).contains(p) {
            let i = choose|i: int| 0 <= i < a.len() && #[trigger] tree_paths(a[i]).contains(p);
            assert(tree_paths(b[i]).contains(p));
        }
        if forest_paths(b).contains(p) {
            let i = choose|i: int| 0 <= i < b.len() && #[trigger] tree_paths(b[i]).contains(p);
            assert(tree_paths(a[i]).contains(p));
        }
    }
    assert(forest_paths(a) =~= forest_paths(b));
}

/// A permutation of a list of trees has the same paths.
proof fn lemma_forest_paths_permutation(a: Seq<ArchiveFile>, b: Seq<ArchiveFile>)
    requires
        a.to_multiset() == b.to_multiset(),
    ensures
        forest_paths(a) == forest_paths(b),
{
    assert forall|p: PathView| forest_paths(a).contains(p) == forest_paths(b).contains(p) by {
        lemma_forest_paths(a, p);
        lemma_forest_paths(b, p);
        if forest_paths(a).contains(p) {
            let i = choose|i: int| 0 <= i < a.len() && #[trigger] tree_paths(a[i]).contains(p);
            assert(a.contains(a[i]));
            vstd::seq_lib::to_multiset_contains(a, a[i]);
            vstd::seq_lib::to_multiset_contains(b, a[i]);
            let j = choose|j: int| 0 <= j < b.len() && b[j] == a[i];
            assert(tree_paths(b[j]).contains(p));
        }
        if forest_paths(b).contains(p) {
            let i = choose|i: int| 0 <= i < b.len() && #[trigger] tree_paths(b[i]).contains(p);
            assert(b.contains(b[i]));
            vstd::seq_lib::to_multiset_contains(b, b[i]);
            vstd::seq_lib::to_multiset_contains(a, b[i]);
            let j = choose|j: int| 0 <= j < a.len() && a[j] == b[i];
            assert(tree_paths(a[j]).contains(p));
        }
    }
    assert(forest_paths(a) =~= forest_paths(b));
}

/// What a file of a tree is, apart from its children and the hashes computed from them: its
/// kind (0 a regular file, 1 an archive file, 2 a directory, 3 a symlink, 4 another file),
/// its path, its modification time, the hash and size of its content, and the target of a
/// symlink.
pub type NodeSummary = (int, PathView, u64, HashView, u64, Seq<Seq<char>>);

/// What the file `x` is, apart from its children and the hashes computed from them.
pub open spec fn spec_summary(x: ArchiveFile) -> NodeSummary {
    match x {
        ArchiveFile::File { path, modified, content_hash, content_size } => (0, path@, modified, content_hash@, content_size, Seq::empty()),
        ArchiveFile::ArchiveFile { path, modified, file_hash, content_size, .. } => (1, path@, modified, file_hash@, content_size, Seq::empty()),
        ArchiveFile::Directory { path, modified, .. } => (2, path@, modified, null_hash(), 0, Seq::empty()),
        ArchiveFile::Symlink { path, modified, content_hash, target, content_size } => (3, path@, modified, content_hash@, content_size, target.deep_view()),
        ArchiveFile::Other { path, modified, content_size } => (4, path@, modified, null_hash(), content_size, Seq::empty()),
    }
}

/// What the files of a tree are (`spec_summary`).
pub open spec fn tree_summaries(f: ArchiveFile) -> Set<NodeSummary>
    decreases f, 1nat,
{
    match f {
        ArchiveFile::ArchiveFile { children, .. } => set![spec_summary(f)].union(forest_summaries(children@)),
        ArchiveFile::Directory { children, .. } => set![spec_summary(f)].union(forest_summaries(children@)),
        _ => set![spec_summary(f)],
    }
}

/// What the files of a list of trees are (`spec_summary`).
pub open spec fn forest_summaries(s: Seq<ArchiveFile>) -> Set<NodeSummary>
    decreases s, 0nat,
{
    if s.len() == 0 {
        Set::empty()
    } else {
        tree_summaries(s[0]).union(forest_summaries(s.drop_first()))
    }
}

/// A list of trees holds a summary exactly when one of its trees does.
pub proof fn lemma_forest_summaries(s: Seq<ArchiveFile>, x: NodeSummary)
    ensures
        forest_summaries(s).contains(x) <==> exists|i: int| 0 <= i < s.len() && #[trigger] tree_summaries(s[i]).contains(x),
    decreases s.len(),
{
    if s.len() > 0 {
        lemma_forest_summaries(s.drop_first(), x);
        if tree_summaries(s[0]).contains(x) {
            assert(0 <= 0 < s.len() && tree_summaries(s[0]).contains(x));
        }
        if forest_summaries(s.drop_first()).contains(x) {
            let i = choose|i: int| 0 <= i < s.drop_first().len() && #[trigger] tree_summaries(s.drop_first()[i]).contains(x);
            assert(tree_summaries(s[i + 1]).contains(x));
        }
        if exists|i: int| 0 <= i < s.len() && #[trigger] tree_summaries(s[i]).contains(x) {
            let i = choose|i: int| 0 <= i < s.len() && #[trigger] tree_summaries(s[i]).contains(x);
            if i > 0 {
                assert(tree_summaries(s.drop_first()[i - 1]).contains(x));
            }
        }
    }
}

/// A tree that holds a file holds what that file is.
proof fn lemma_tree_contains_summary(f: ArchiveFile, x: ArchiveFile)
    requires
        tree_contains(f, x),
    ensures
        tree_summaries(f).contains(spec_summary(x)),
    decreases f,
{
    if f != x {
        match f {
            ArchiveFile::ArchiveFile { children, .. } => {
                lemma_forest_contains(children@, x);
                let i = choose|i: int| 0 <= i < children@.len() && #[trigger] tree_contains(children@[i], x);
                lemma_tree_contains_summary(children@[i], x);
                lemma_forest_summaries(children@, spec_summary(x));
            },
            ArchiveFile::Directory { children, .. } => {
                lemma_forest_contains(children@, x);
                let i = choose|i: int| 0 <= i < children@.len() && #[trigger] tree_contains(children@[i], x);
                lemma_tree_contains_summary(children@[i], x);
                lemma_forest_summaries(children@, spec_summary(x));
            },
            _ => {},
        }
    }
}

/// Two lists of trees whose trees pairwise hold the same files hold the same files.
proof fn lemma_forest_summaries_pointwise(a: Seq<ArchiveFile>, b: Seq<ArchiveFile>)
    requires
        a.len() == b.len(),
        forall|i: int| 0 <= i < a.len() ==> #[trigger] tree_summaries(a[i]) == tree_summaries(b[i]),
    ensures
        forest_summaries(a) == forest_summaries(b),
{
    assert forall|x: NodeSummary| forest_summaries(a).contains(x) == forest_summaries(b).contains(x) by {
        lemma_forest_summaries(a, x);
        lemma_forest_summaries(b, x);
        if forest_summaries(a).contains(x) {
            let i = choose|i: int| 0 <= i < a.len() && #[trigger] tree_summaries(a[i]).contains(x);
            assert(tree_summaries(b[i]).contains(x));
        }
        if forest_summaries(b).contains(x) {
            let i = choose|i: int| 0 <= i < b.len() && #[trigger] tree_summaries(b[i]).contains(x);
            assert(tree_summaries(a[i]).contains(x));
        }
    }
    assert(forest_summaries(a) =~= forest_summaries(b));
}

/// A permutation of a list of trees holds the same files.
proof fn lemma_forest_summaries_permutation(a: Seq<ArchiveFile>, b: Seq<ArchiveFile>)
    requires
        a.to_multiset() == b.to_multiset(),
    ensures
        forest_summaries(a) == forest_summaries(b),
{
    assert forall|x: NodeSummary| forest_summaries(a).contains(x) == forest_summaries(b).contains(x) by {
        lemma_forest_summaries(a, x);
        lemma_forest_summaries(b, x);
        if forest_summaries(a).contains(x) {
            let i = choose|i: int| 0 <= i < a.len() && #[trigger] tree_summaries(a[i]).contains(x);
            assert(a.contains(a[i]));
            vstd::seq_lib::to_multiset_contains(a, a[i]);
            vstd::seq_lib::to_multiset_contains(b, a[i]);
            let j = choose|j: int| 0 <= j < b.len() && b[j] == a[i];
            assert(tree_summaries(b[j]).contains(x));
        }
        if forest_summaries(b).contains(x) {
            let i = choose|i: int| 0 <= i < b.len() && #[trigger] tree_summaries(b[i]).contains(x);
            assert(b.contains(b[i]));
            vstd::seq_lib::to_multiset_contains(b, b[i]);
            vstd::seq_lib::to_multiset_contains(a, b[i]);
            let j = choose|j: int| 0 <= j < a.len() && a[j] == b[i];
            assert(tree_summaries(a[j]).contains(x));
        }
    }
    assert(forest_summaries(a) =~= forest_summaries(b));
}

/// `r` is a hash that `hasher` may give for hash type `t` and the list of hashes `s`.
pub open spec fn digest_of<F: Fn(GeneralHashType, &Vec<GeneralHash>) -> GeneralHash>(
    hasher: F,
    t: GeneralHashType,
    s: Seq<HashView>,
    r: GeneralHash,
) -> bool {
    exists|h: Vec<GeneralHash>| h.deep_view() == s && #[trigger] hasher.ensures((t, &h), r)
}

/// Every directory and archive file of the tree has its children in ascending order of their
/// inner hashes and carries a hash that `hasher` gives for the inner hashes of its children;
/// every directory counts its children.
pub open spec fn hashes_consistent<F: Fn(GeneralHashType, &Vec<GeneralHash>) -> GeneralHash>(
    f: ArchiveFile,
    t: GeneralHashType,
    hasher: F,
) -> bool
    decreases f, 1nat,
{
    match f {
        ArchiveFile::Directory { children, content_hash, number_of_children, .. } => {
            &&& number_of_children == children@.len()
            &&& sorted_by_key(children@)
            &&& digest_of(hasher, t, inner_hashes(children@), content_hash)
            &&& forest_consistent(children@, t, hasher)
        },
        ArchiveFile::ArchiveFile { children, directory_hash, .. } => {
            &&& sorted_by_key(children@)
            &&& digest_of(hasher, t, inner_hashes(children@), directory_hash)
            &&& forest_consistent(children@, t, hasher)
        },
        _ => true,
    }
}

/// Every tree of the list is consistent, see [hashes_consistent].
pub open spec fn forest_consistent<F: Fn(GeneralHashType, &Vec<GeneralHash>) -> GeneralHash>(
    s: Seq<ArchiveFile>,
    t: GeneralHashType,
    hasher: F,
) -> bool
    decreases s, 0nat,
{
    if s.len() == 0 {
        true
    } else {
        hashes_consistent(s[0], t, hasher) && forest_consistent(s.drop_first(), t, hasher)
    }
}

/// A list of trees is consistent exactly when each of its trees is.
pub proof fn lemma_forest_consistent<F: Fn(GeneralHashType, &Vec<GeneralHash>) -> GeneralHash>(
    s: Seq<ArchiveFile>,
    t: GeneralHashType,
    hasher: F,
)
    ensures
        forest_consistent(s, t, hasher) <==> forall|i: int|
            0 <= i < s.len() ==> #[trigger] hashes_consistent(s[i], t, hasher),
    decreases s.len(),
{
    if s.len() > 0 {
        lemma_forest_consistent(s.drop_first(), t, hasher);
        if forest_consistent(s, t, hasher) {
            assert forall|i: int| 0 <= i < s.len() implies #[trigger] hashes_consistent(
                s[i],
                t,
                hasher,
            ) by {
                if i > 0 {
                    assert(s[i] == s.drop_first()[i - 1]);
                }
            }
        }
        if forall|i: int| 0 <= i < s.len() ==> #[trigger] hashes_consistent(s[i], t, hasher) {
            assert forall|i: int| 0 <= i < s.drop_first().len() implies #[trigger] hashes_consistent(
                s.drop_first()[i],
                t,
                hasher,
            ) by {
                assert(s.drop_first()[i] == s[i + 1]);
            }
            assert(hashes_consistent(s[0], t, hasher));
        }
    }
}

/// Sorts files by their inner hashes and computes the hash of the directory that holds them.
pub(crate) fn calculate_dir_hash<F: Fn(GeneralHashType, &Vec<GeneralHash>) -> GeneralHash>(
    hash_type: GeneralHashType,
    files: &mut Vec<ArchiveFile>,
    hasher: &F,
) -> (r: GeneralHash)
    requires
        forall|t: GeneralHashType, h: &Vec<GeneralHash>| hasher.requires((t, h)),
    ensures
        final(files)@.to_multiset() == old(files)@.to_multiset(),
        sorted_by_key(final(files)@),
        digest_of(*hasher, hash_type, inner_hashes(final(files)@), r),
{
    sort_by_key(files);
    let hashes = collect_inner_hashes(files);
    let r = hasher(hash_type, &hashes);
    assert(hasher.ensures((hash_type, &hashes), r));
    r
}

/// A permutation of a list of consistent trees is consistent.
proof fn lemma_consistent_permutation<F: Fn(GeneralHashType, &Vec<GeneralHash>) -> GeneralHash>(
    a: Seq<ArchiveFile>,
    b: Seq<ArchiveFile>,
    t: GeneralHashType,
    hasher: F,
)
    requires
        a.to_multiset() == b.to_multiset(),
        forall|i: int| 0 <= i < a.len() ==> #[trigger] hashes_consistent(a[i], t, hasher),
    ensures
        forest_consistent(b, t, hasher),
{
    broadcast use vstd::seq_lib::group_to_multiset_ensures;

    assert forall|i: int| 0 <= i < b.len() implies #[trigger] hashes_consistent(b[i], t, hasher) by {
        assert(b.contains(b[i]));
        vstd::seq_lib::to_multiset_contains(b, b[i]);
        vstd::seq_lib::to_multiset_contains(a, b[i]);
        assert(a.contains(b[i]));
        let j = choose|j: int| 0 <= j < a.len() && a[j] == b[i];
        assert(hashes_consistent(a[j], t, hasher));
    }
    lemma_forest_consistent(b, t, hasher);
}

/// Computes the directory hashes of the children of a directory or archive file, deepest
/// first, sorts the children by their inner hashes and returns the hash of the directory.
fn calculate_children_hash<F: Fn(GeneralHashType, &Vec<GeneralHash>) -> GeneralHash>(
    hash_type: GeneralHashType,
    children: &mut Vec<ArchiveFile>,
    hasher: &F,
    Ghost(parent): Ghost<ArchiveFile>,
) -> (r: GeneralHash)
    requires
        forall|t: GeneralHashType, h: &Vec<GeneralHash>| hasher.requires((t, h)),
        forall|i: int| 0 <= i < old(children)@.len() ==> decreases_to!(parent => #[trigger] old(children)@[i]),
    ensures
        final(children)@.len() == old(children)@.len(),
        sorted_by_key(final(children)@),
        forest_consistent(final(children)@, hash_type, *hasher),
        digest_of(*hasher, hash_type, inner_hashes(final(children)@), r),
        forest_paths(final(children)@) == forest_paths(old(children)@),
        forest_summaries(final(children)@) == forest_summaries(old(children)@),
        forall|b: PathView| #[trigger] spec_dirs_unique(old(children)@, b) ==> spec_dirs_unique(final(children)@, b),
    decreases parent, 0nat,
{
    let ghost old_children = children@;
    let mut i: usize = 0;
    while i < children.len()
        invariant
            children@.len() == old_children.len(),
            i <= children@.len(),
            forall|t: GeneralHashType, h: &Vec<GeneralHash>| hasher.requires((t, h)),
            forall|k: int| 0 <= k < i ==> #[trigger] hashes_consistent(children@[k], hash_type, *hasher),
            forall|k: int| 0 <= k < i ==> #[trigger] tree_paths(children@[k]) == tree_paths(old_children[k]),
            forall|k: int| 0 <= k < i ==> #[trigger] tree_summaries(children@[k]) == tree_summaries(old_children[k]),
            forall|k: int| 0 <= k < i ==> (#[trigger] children@[k]).spec_path() == old_children[k].spec_path()
                && (children@[k] is Directory <==> old_children[k] is Directory),
            forall|k: int, b: PathView| 0 <= k < i && tree_dirs_unique(old_children[k], b) ==> #[trigger] tree_dirs_unique(children@[k], b),
            forall|k: int| i <= k < children@.len() ==> #[trigger] children@[k] == old_children[k],
            forall|k: int| 0 <= k < old_children.len() ==> decreases_to!(parent => #[trigger] old_children[k]),
        decreases children@.len() - i,
    {
        assert(decreases_to!(parent => old_children[i as int]));
        calculate_dir_hash_recursive(hash_type, &mut children[i], hasher, Ghost(old_children[i as int]));
        i = i + 1;
    }
    let ghost computed = children@;
    proof {
        lemma_forest_paths_pointwise(computed, old_children);
        lemma_forest_summaries_pointwise(computed, old_children);
        assert forall|b: PathView| #[trigger] spec_dirs_unique(old_children, b) implies spec_dirs_unique(computed, b) by {
            lemma_dirs_below(old_children, b);
            lemma_dirs_below(computed, b);
            assert forall|k: int| 0 <= k < computed.len() implies #[trigger] spec_level_name(computed[k], b) == spec_level_name(old_children[k], b) by {
                assert(computed[k].spec_path() == old_children[k].spec_path());
            }
            assert forall|k: int| 0 <= k < computed.len() implies #[trigger] tree_dirs_unique(computed[k], b) by {
                assert(tree_dirs_unique(old_children[k], b));
            }
        }
    }
    let hash = calculate_dir_hash(hash_type, children, hasher);
    proof {
        lemma_forest_paths_permutation(computed, children@);
        lemma_forest_summaries_permutation(computed, children@);
        assert forall|b: PathView| #[trigger] spec_dirs_unique(old_children, b) implies spec_dirs_unique(children@, b) by {
            lemma_dirs_unique_permutation(computed, children@, b);
        }
        lemma_consistent_permutation(computed, children@, hash_type, *hasher);
        vstd::seq_lib::to_multiset_len(computed);
        vstd::seq_lib::to_multiset_len(children@);
    }
    hash
}

/// Computes the directory hashes of a tree, deepest first.
fn calculate_dir_hash_recursive<F: Fn(GeneralHashType, &Vec<GeneralHash>) -> GeneralHash>(
    hash_type: GeneralHashType,
    file: &mut ArchiveFile,
    hasher: &F,
    Ghost(tree): Ghost<ArchiveFile>,
)
    requires
        forall|t: GeneralHashType, h: &Vec<GeneralHash>| hasher.requires((t, h)),
        *old(file) == tree,
    ensures
        hashes_consistent(*final(file), hash_type, *hasher),
        final(file).spec_path() == old(file).spec_path(),
        final(file).spec_modified() == old(file).spec_modified(),
        (*old(file) is Directory) <==> (*final(file) is Directory),
        (*old(file) is ArchiveFile) <==> (*final(file) is ArchiveFile),
        !(*old(file) is Directory) ==> final(file).spec_file_hash() == old(file).spec_file_hash(),
        !(*old(file) is Directory || *old(file) is ArchiveFile) ==> *final(file) == *old(file),
        tree_paths(*final(file)) == tree_paths(*old(file)),
        spec_summary(*final(file)) == spec_summary(*old(file)),
        tree_summaries(*final(file)) == tree_summaries(*old(file)),
        forall|b: PathView| #[trigger] tree_dirs_unique(*old(file), b) ==> tree_dirs_unique(*final(file), b),
    decreases tree, 1nat,
{
    match file {
        ArchiveFile::Directory { children, number_of_children, content_hash, .. } => {
            let ghost old_children = children@;
            *number_of_children = children.len() as u64;
            let hash = calculate_children_hash(hash_type, children, hasher, Ghost(tree));
            *content_hash = hash;
            proof {
                assert forall|b: PathView| tree_dirs_unique(tree, b) implies spec_dirs_unique(children@, spec_sub_level(tree, b)) by {
                    assert(spec_dirs_unique(old_children, spec_sub_level(tree, b)));
                }
            }
        },
        ArchiveFile::ArchiveFile { children, directory_hash, .. } => {
            let hash = calculate_children_hash(hash_type, children, hasher, Ghost(tree));
            *directory_hash = hash;
        },
        _ => {},
    }
}

/// Whether `p` is a directory on the way from `base` down to `target`: it extends the last
/// component of `base` by at least one name and the last component of `target` starts with
/// it, the other components being those of `target`.
pub open spec fn spec_on_the_way(p: PathView, base: PathView, target: PathView) -> bool {
    &&& p.len() == target.len()
    &&& p.len() > 0
    &&& p.drop_last() == target.drop_last()
    &&& p.last().is_prefix_of(target.last())
    &&& base.last().len() < p.last().len()
}

/// The name of the directory `x` among the trees at the level `base`: the one name by which
/// its path extends `base`; none for another file or a path that is no such extension.
pub open spec fn spec_level_name(x: ArchiveFile, base: PathView) -> Option<Seq<char>> {
    match spec_relative_to_last(x.spec_path(), base) {
        Some(rel) => if x is Directory && rel.len() == 1 {
            Some(rel[0])
        } else {
            None
        },
        None => None,
    }
}

/// No two directories among the trees `s` at the level `base` have the same name there.
pub open spec fn spec_level_unique(s: Seq<ArchiveFile>, base: PathView) -> bool {
    forall|i: int, j: int|
        0 <= i < s.len() && 0 <= j < s.len() && (#[trigger] spec_level_name(s[i], base)) is Some
            && spec_level_name(s[i], base) == #[trigger] spec_level_name(s[j], base) ==> i == j
}

/// The level of the children of the directory `x` that lies at the level `base`: `base`
/// joined with the last name of the path of `x`.
pub open spec fn spec_sub_level(x: ArchiveFile, base: PathView) -> PathView {
    spec_join(base, x.spec_path().last().last())
}

/// Inside the tree `f` at the level `base`, no directory holds two directories of the same
/// name (`spec_level_unique`), at any depth.
pub open spec fn tree_dirs_unique(f: ArchiveFile, base: PathView) -> bool
    decreases f, 1nat,
{
    match f {
        ArchiveFile::Directory { children, .. } => spec_level_unique(children@, spec_sub_level(f, base))
            && forest_dirs_unique_below(children@, spec_sub_level(f, base)),
        _ => true,
    }
}

/// Each of the trees `s` at the level `base` satisfies `tree_dirs_unique`.
pub open spec fn forest_dirs_unique_below(s: Seq<ArchiveFile>, base: PathView) -> bool
    decreases s, 0nat,
{
    if s.len() == 0 {
        true
    } else {
        tree_dirs_unique(s[0], base) && forest_dirs_unique_below(s.drop_first(), base)
    }
}

/// Among the trees `s` at the level `base`, and inside each directory at any depth, no two
/// directories side by side have the same name: a directory is made once and what belongs
/// in it is put into it.
pub open spec fn spec_dirs_unique(s: Seq<ArchiveFile>, base: PathView) -> bool {
    spec_level_unique(s, base) && forest_dirs_unique_below(s, base)
}

/// The entry `e` is no directory with files in it.
pub open spec fn spec_leaf(e: ArchiveFile) -> bool {
    e is Directory ==> e.spec_children().len() == 0
}

/// The trees of a list satisfy `tree_dirs_unique` exactly when each does.
pub proof fn lemma_dirs_below(s: Seq<ArchiveFile>, base: PathView)
    ensures
        forest_dirs_unique_below(s, base) <==> forall|i: int| 0 <= i < s.len() ==> #[trigger] tree_dirs_unique(s[i], base),
    decreases s.len(),
{
    if s.len() > 0 {
        lemma_dirs_below(s.drop_first(), base);
        if forest_dirs_unique_below(s, base) {
            assert forall|i: int| 0 <= i < s.len() implies #[trigger] tree_dirs_unique(s[i], base) by {
                if i > 0 {
                    assert(s.drop_first()[i - 1] == s[i]);
                }
            }
        }
        if forall|i: int| 0 <= i < s.len() ==> #[trigger] tree_dirs_unique(s[i], base) {
            assert(tree_dirs_unique(s[0], base));
            assert forall|i: int| 0 <= i < s.drop_first().len() implies #[trigger] tree_dirs_unique(s.drop_first()[i], base) by {
                assert(s.drop_first()[i] == s[i + 1]);
            }
        }
    }
}

/// An entry with nothing in it satisfies `tree_dirs_unique` at any level.
proof fn lemma_leaf_dirs_unique(t: ArchiveFile, base: PathView)
    requires
        spec_leaf(t),
    ensures
        tree_dirs_unique(t, base),
{
    match t {
        ArchiveFile::Directory { children, .. } => {
            assert(children@.len() == 0);
        },
        _ => {},
    }
}

/// Two positions holding the same value count it twice.
proof fn lemma_two_positions_count<A>(s: Seq<A>, i: int, j: int)
    requires
        0 <= i < s.len(),
        0 <= j < s.len(),
        i != j,
        s[i] == s[j],
    ensures
        s.to_multiset().count(s[i]) >= 2,
{
    broadcast use vstd::seq_lib::group_to_multiset_ensures, vstd::multiset::group_multiset_axioms;

    vstd::seq_lib::to_multiset_remove(s, i);
    let r = s.remove(i);
    let k = if j < i { j } else { j - 1 };
    assert(r[k] == s[j]);
    assert(r.contains(s[i]));
    vstd::seq_lib::to_multiset_contains(r, s[i]);
}

/// A value counted twice stands at two positions.
proof fn lemma_count_two_positions<A>(s: Seq<A>, x: A)
    requires
        s.to_multiset().count(x) >= 2,
    ensures
        exists|p: int, q: int| 0 <= p < s.len() && 0 <= q < s.len() && p != q && s[p] == x && s[q] == x,
{
    broadcast use vstd::seq_lib::group_to_multiset_ensures, vstd::multiset::group_multiset_axioms;

    vstd::seq_lib::to_multiset_contains(s, x);
    let p = choose|p: int| 0 <= p < s.len() && s[p] == x;
    vstd::seq_lib::to_multiset_remove(s, p);
    let r = s.remove(p);
    vstd::seq_lib::to_multiset_contains(r, x);
    let k = choose|k: int| 0 <= k < r.len() && r[k] == x;
    let q = if k < p { k } else { k + 1 };
    assert(s[q] == r[k]);
}

/// A permutation of a list of trees keeps `spec_dirs_unique`.
proof fn lemma_dirs_unique_permutation(a: Seq<ArchiveFile>, b: Seq<ArchiveFile>, base: PathView)
    requires
        a.to_multiset() == b.to_multiset(),
        spec_dirs_unique(a, base),
    ensures
        spec_dirs_unique(b, base),
{
    broadcast use vstd::seq_lib::group_to_multiset_ensures, vstd::multiset::group_multiset_axioms;

    lemma_dirs_below(a, base);
    lemma_dirs_below(b, base);
    assert forall|i: int| 0 <= i < b.len() implies #[trigger] tree_dirs_unique(b[i], base) by {
        assert(b.contains(b[i]));
        vstd::seq_lib::to_multiset_contains(b, b[i]);
        vstd::seq_lib::to_multiset_contains(a, b[i]);
        let k = choose|k: int| 0 <= k < a.len() && a[k] == b[i];
        assert(tree_dirs_unique(a[k], base));
    }
    assert forall|i: int, j: int|
        0 <= i < b.len() && 0 <= j < b.len() && (#[trigger] spec_level_name(b[i], base)) is Some
            && spec_level_name(b[i], base) == #[trigger] spec_level_name(b[j], base) implies i == j by {
        if i != j {
            if b[i] == b[j] {
                lemma_two_positions_count(b, i, j);
                lemma_count_two_positions(a, b[i]);
                let (p, q) = choose|p: int, q: int| 0 <= p < a.len() && 0 <= q < a.len() && p != q && a[p] == b[i] && a[q] == b[i];
                assert(spec_level_name(a[p], base) == spec_level_name(a[q], base));
            } else {
                assert(b.contains(b[i]));
                assert(b.contains(b[j]));
                vstd::seq_lib::to_multiset_contains(b, b[i]);
                vstd::seq_lib::to_multiset_contains(a, b[i]);
                vstd::seq_lib::to_multiset_contains(b, b[j]);
                vstd::seq_lib::to_multiset_contains(a, b[j]);
                let p = choose|p: int| 0 <= p < a.len() && a[p] == b[i];
                let q = choose|q: int| 0 <= q < a.len() && a[q] == b[j];
                assert(spec_level_name(a[p], base) == spec_level_name(a[q], base));
            }
        }
    }
}

/// Whether `x` is a directory whose path ends in the name `n`: the directory that an entry
/// whose next name is `n` goes into.
pub open spec fn spec_names_dir(x: ArchiveFile, n: Seq<char>) -> bool {
    &&& x is Directory
    &&& x.spec_path().len() > 0
    &&& x.spec_path().last().len() > 0
    &&& x.spec_path().last().last() == n
}

/// A directory named `n` among the trees at the level `base` ends in the name `n`.
proof fn lemma_level_name_names_dir(x: ArchiveFile, base: PathView)
    requires
        spec_level_name(x, base) is Some,
    ensures
        spec_names_dir(x, spec_level_name(x, base)->0),
{
    let p = x.spec_path();
    let rel = spec_relative_to_last(p, base)->0;
    let n = base.last().len() as int;
    assert(rel == p.last().skip(n));
    assert(p.last().len() == n + 1);
    assert(p.last().last() == p.last().skip(n)[0]);
}

/// Replacing a directory among trees satisfying `spec_dirs_unique` by a directory with the
/// same path that satisfies `tree_dirs_unique` keeps `spec_dirs_unique`.
proof fn lemma_dirs_unique_replace(old_set: Seq<ArchiveFile>, new_set: Seq<ArchiveFile>, j: int, base: PathView)
    requires
        spec_dirs_unique(old_set, base),
        0 <= j < old_set.len(),
        new_set.len() == old_set.len(),
        forall|k: int| 0 <= k < old_set.len() && k != j ==> new_set[k] == old_set[k],
        new_set[j].spec_path() == old_set[j].spec_path(),
        new_set[j] is Directory,
        old_set[j] is Directory,
        tree_dirs_unique(new_set[j], base),
    ensures
        spec_dirs_unique(new_set, base),
{
    lemma_dirs_below(old_set, base);
    lemma_dirs_below(new_set, base);
    assert forall|k: int| 0 <= k < new_set.len() implies #[trigger] spec_level_name(new_set[k], base) == spec_level_name(old_set[k], base) by {
        if k != j {
            assert(new_set[k] == old_set[k]);
        }
    }
    assert forall|k: int| 0 <= k < new_set.len() implies #[trigger] tree_dirs_unique(new_set[k], base) by {
        if k != j {
            assert(new_set[k] == old_set[k]);
            assert(tree_dirs_unique(old_set[k], base));
        }
    }
    assert forall|i: int, k: int|
        0 <= i < new_set.len() && 0 <= k < new_set.len() && (#[trigger] spec_level_name(new_set[i], base)) is Some
            && spec_level_name(new_set[i], base) == #[trigger] spec_level_name(new_set[k], base) implies i == k by {
        assert(spec_level_name(old_set[i], base) == spec_level_name(old_set[k], base));
    }
}

/// Adding a tree satisfying `tree_dirs_unique` next to trees satisfying `spec_dirs_unique`,
/// where no directory ends in the name the new tree has at this level, keeps
/// `spec_dirs_unique`.
proof fn lemma_dirs_unique_push(old_set: Seq<ArchiveFile>, node: ArchiveFile, base: PathView, n: Seq<char>)
    requires
        spec_dirs_unique(old_set, base),
        tree_dirs_unique(node, base),
        spec_level_name(node, base) is Some ==> spec_level_name(node, base)->0 == n
            && forall|k: int| 0 <= k < old_set.len() ==> !spec_names_dir(#[trigger] old_set[k], n),
    ensures
        spec_dirs_unique(old_set.push(node), base),
{
    let new_set = old_set.push(node);
    lemma_dirs_below(old_set, base);
    lemma_dirs_below(new_set, base);
    assert forall|k: int| 0 <= k < new_set.len() implies #[trigger] tree_dirs_unique(new_set[k], base) by {
        if k < old_set.len() {
            assert(new_set[k] == old_set[k]);
            assert(tree_dirs_unique(old_set[k], base));
        }
    }
    assert forall|i: int, k: int|
        0 <= i < new_set.len() && 0 <= k < new_set.len() && (#[trigger] spec_level_name(new_set[i], base)) is Some
            && spec_level_name(new_set[i], base) == #[trigger] spec_level_name(new_set[k], base) implies i == k by {
        if i < old_set.len() && k < old_set.len() {
            assert(new_set[i] == old_set[i] && new_set[k] == old_set[k]);
        } else if i < old_set.len() {
            assert(new_set[i] == old_set[i]);
            lemma_level_name_names_dir(old_set[i], base);
        } else if k < old_set.len() {
            assert(new_set[k] == old_set[k]);
            lemma_level_name_names_dir(old_set[k], base);
        }
    }
}

/// Whether `x` is a directory made on the way from `base` down to `target`
/// (`spec_on_the_way`), with the modification time of `target`.
pub open spec fn spec_way_directory(x: NodeSummary, base: PathView, target: ArchiveFile) -> bool {
    &&& spec_on_the_way(x.1, base, target.spec_path())
    &&& x == (2int, x.1, target.spec_modified(), null_hash(), 0u64, Seq::<Seq<char>>::empty())
}

/// Inserts `target` into the trees of `root_set`, whose root paths lie under `path_prefix`: it
/// goes below the directory that is named by the first name of its path relative to the
/// prefix, or becomes a new tree wrapped in the missing directories. A target whose path does
/// not lie under the prefix is handed back.
#[verifier::spinoff_prover]
#[verifier::rlimit(50)]
fn insert_into_tree(root_set: &mut Vec<ArchiveFile>, target: ArchiveFile, path_prefix: &FilePath) -> (r: Option<
    ArchiveFile,
>)
    ensures
        spec_relative_to_last(target.spec_path(), path_prefix@) is None ==> r == Some(target)
            && final(root_set)@ == old(root_set)@,
        spec_relative_to_last(target.spec_path(), path_prefix@) is Some ==> r is None
            && forest_contains(final(root_set)@, target) && forest_paths(old(root_set)@).subset_of(
            forest_paths(final(root_set)@),
        ),
        forall|p: PathView|
            #[trigger] forest_paths(final(root_set)@).contains(p) ==> forest_paths(old(root_set)@).contains(p)
                || tree_paths(target).contains(p) || spec_on_the_way(p, path_prefix@, target.spec_path()),
        forest_summaries(old(root_set)@).subset_of(forest_summaries(final(root_set)@)),
        forall|x: NodeSummary|
            #[trigger] forest_summaries(final(root_set)@).contains(x) ==> forest_summaries(old(root_set)@).contains(x)
                || tree_summaries(target).contains(x) || spec_way_directory(x, path_prefix@, target),
        spec_dirs_unique(old(root_set)@, path_prefix@) && spec_leaf(target) ==> spec_dirs_unique(
            final(root_set)@,
            path_prefix@,
        ),
    decreases target.spec_path().last().len() - path_prefix@.last().len(),
{
    let names = match target.get_path().relative_to_last(path_prefix) {
        None => return Some(target),
        Some(names) => names,
    };
    let ghost old_set = root_set@;
    proof {
        crate::path::lemma_names_view(&names);
    }
    if names.len() > 0 {
        let mut j: usize = 0;
        while j < root_set.len()
            invariant
                root_set@ == old_set,
                old_set == old(root_set)@,
                j <= root_set@.len(),
                names@.len() > 0,
                names.deep_view().len() == names@.len(),
                forall|k: int| 0 <= k < names@.len() ==> #[trigger] names.deep_view()[k] == names@[k]@,
                spec_relative_to_last(target.spec_path(), path_prefix@) == Some(names.deep_view()),
                forall|k: int| 0 <= k < j ==> !spec_names_dir(#[trigger] old_set[k], names@[0]@),
            decreases root_set@.len() - j,
        {
            let matches_first = match &root_set[j] {
                ArchiveFile::Directory { path, .. } => match path.last_component() {
                    Some(last) => last.len() > 0 && last[last.len() - 1] == names[0],
                    None => false,
                },
                _ => false,
            };
            assert(matches_first == spec_names_dir(old_set[j as int], names@[0]@));
            if matches_first {
                let sub_prefix = path_prefix.join(&names[0]);
                let ghost old_root = root_set@[j as int];
                match &mut root_set[j] {
                    ArchiveFile::Directory { children, .. } => {
                        let ghost old_children = children@;
                        assert(spec_relative_to_last(target.spec_path(), sub_prefix@) is Some) by {
                            let t = target.spec_path();
                            let b = path_prefix@;
                            assert(sub_prefix@ == b.update(b.len() - 1 as int, b.last().push(names@[0]@)));
                            let n = b.last().len() as int;
                            assert(t.last().skip(n)[0] == t.last()[n]);
                            assert(names.deep_view()[0] == names@[0]@);
                            assert(t.last().take(n + 1) =~= t.last().take(n).push(t.last()[n]));
                            assert(t.last().take(n + 1) =~= b.last().push(names@[0]@));
                            assert(sub_prefix@.drop_last() =~= b.drop_last());
                        }
                        let inserted = insert_into_tree(children, target, &sub_prefix);
                        match inserted {
                            None => {},
                            Some(t) => {
                                children.push(t);
                            },
                        }
                        proof {
                            lemma_forest_contains(children@, target);
                            assert forall|p: PathView| forest_paths(old_children).contains(p) implies forest_paths(children@).contains(p) by {
                                lemma_forest_paths(old_children, p);
                                lemma_forest_paths(children@, p);
                            }
                            assert(forest_summaries(old_children).subset_of(forest_summaries(children@)));
                            if spec_dirs_unique(old_set, path_prefix@) && spec_leaf(target) {
                                lemma_dirs_below(old_set, path_prefix@);
                                assert(tree_dirs_unique(old_root, path_prefix@));
                                assert(old_root.spec_path().last().last() == names@[0]@);
                                assert(spec_sub_level(old_root, path_prefix@) == sub_prefix@);
                                assert(spec_dirs_unique(old_children, sub_prefix@));
                                assert(spec_dirs_unique(children@, sub_prefix@));
                            }
                            assert forall|x: NodeSummary| #[trigger] forest_summaries(children@).contains(x) implies forest_summaries(old_children).contains(x)
                                || tree_summaries(target).contains(x) || spec_way_directory(x, path_prefix@, target) by {
                                if spec_way_directory(x, sub_prefix@, target) {
                                    assert(sub_prefix@.last().len() == path_prefix@.last().len() + 1);
                                }
                            }
                            assert forall|p: PathView| #[trigger] forest_paths(children@).contains(p) implies forest_paths(old_children).contains(p)
                                || tree_paths(target).contains(p) || spec_on_the_way(p, path_prefix@, target.spec_path()) by {
                                if spec_on_the_way(p, sub_prefix@, target.spec_path()) {
                                    assert(sub_prefix@.last().len() == path_prefix@.last().len() + 1);
                                }
                            }
                        }
                    },
                    _ => {},
                }
                proof {
                    let new_set = root_set@;
                    assert(new_set == old_set.update(j as int, new_set[j as int]));
                    assert(tree_contains(new_set[j as int], target));
                    lemma_forest_contains(new_set, target);
                    assert(tree_paths(old_root).subset_of(tree_paths(new_set[j as int])));
                    assert forall|p: PathView| forest_paths(old_set).contains(p) implies forest_paths(new_set).contains(p) by {
                        lemma_forest_paths(old_set, p);
                        lemma_forest_paths(new_set, p);
                        let i = choose|i: int| 0 <= i < old_set.len() && #[trigger] tree_paths(old_set[i]).contains(p);
                        if i != j {
                            assert(tree_paths(new_set[i]).contains(p));
                        } else {
                            assert(tree_paths(new_set[j as int]).contains(p));
                        }
                    }
                    assert(forest_paths(old_set).subset_of(forest_paths(new_set)));
                    assert(tree_summaries(old_root).subset_of(tree_summaries(new_set[j as int])));
                    if spec_dirs_unique(old_set, path_prefix@) && spec_leaf(target) {
                        assert(spec_sub_level(new_set[j as int], path_prefix@) == spec_sub_level(old_root, path_prefix@));
                        assert(tree_dirs_unique(new_set[j as int], path_prefix@));
                        lemma_dirs_unique_replace(old_set, new_set, j as int, path_prefix@);
                    }
                    assert forall|x: NodeSummary| forest_summaries(old_set).contains(x) implies forest_summaries(new_set).contains(x) by {
                        lemma_forest_summaries(old_set, x);
                        lemma_forest_summaries(new_set, x);
                        let i = choose|i: int| 0 <= i < old_set.len() && #[trigger] tree_summaries(old_set[i]).contains(x);
                        if i != j {
                            assert(tree_summaries(new_set[i]).contains(x));
                        } else {
                            assert(tree_summaries(new_set[j as int]).contains(x));
                        }
                    }
                    assert forall|x: NodeSummary| #[trigger] forest_summaries(new_set).contains(x) implies forest_summaries(old_set).contains(x)
                        || tree_summaries(target).contains(x) || spec_way_directory(x, path_prefix@, target) by {
                        lemma_forest_summaries(new_set, x);
                        lemma_forest_summaries(old_set, x);
                        let i = choose|i: int| 0 <= i < new_set.len() && #[trigger] tree_summaries(new_set[i]).contains(x);
                        if i != j {
                            assert(tree_summaries(old_set[i]).contains(x));
                        } else if x == spec_summary(old_root) {
                            assert(tree_summaries(old_set[i]).contains(x));
                        }
                    }
                    assert forall|p: PathView| #[trigger] forest_paths(new_set).contains(p) implies forest_paths(old_set).contains(p)
                        || tree_paths(target).contains(p) || spec_on_the_way(p, path_prefix@, target.spec_path()) by {
                        lemma_forest_paths(new_set, p);
                        lemma_forest_paths(old_set, p);
                        let i = choose|i: int| 0 <= i < new_set.len() && #[trigger] tree_paths(new_set[i]).contains(p);
                        if i != j {
                            assert(tree_paths(old_set[i]).contains(p));
                        } else if p == old_root.spec_path() {
                            assert(tree_paths(old_set[i]).contains(p));
                        }
                    }
                }
                return None;
            }
            j = j + 1;
        }
    }
    let modified = target.modified();
    let ghost b = path_prefix@;
    let ghost nd = names.deep_view();
    proof {
        assert(target.spec_path().last() =~= b.last() + nd);
    }
    let mut target_paths: Vec<FilePath> = Vec::with_capacity(names.len());
    let mut k: usize = 0;
    while k < names.len()
        invariant
            k <= names@.len(),
            target_paths@.len() == k,
            b == path_prefix@,
            b.len() > 0,
            nd == names.deep_view(),
            nd.len() == names@.len(),
            forall|i: int| 0 <= i < names@.len() ==> #[trigger] nd[i] == names@[i]@,
            forall|i: int| 0 <= i < k ==> #[trigger] target_paths@[i]@ == b.update(b.len() - 1, b.last() + nd.take(i + 1)),
        decreases names@.len() - k,
    {
        let next = if k == 0 {
            path_prefix.join(&names[k])
        } else {
            target_paths[k - 1].join(&names[k])
        };
        proof {
            if k == 0 {
                assert(b.last().push(nd[0]) =~= b.last() + nd.take(1));
            } else {
                assert((b.last() + nd.take(k - 1 + 1)).push(nd[k as int]) =~= b.last() + nd.take(k + 1));
            }
        }
        target_paths.push(next);
        k = k + 1;
    }
    let ghost t = target;
    let mut node = target;
    proof {
        assert forall|bb: PathView| spec_leaf(t) implies #[trigger] tree_dirs_unique(t, bb) by {
            lemma_leaf_dirs_unique(t, bb);
        }
    }
    if target_paths.len() > 1 {
        let mut k: usize = target_paths.len() - 1;
        while k > 0
            invariant
                k < target_paths@.len(),
                target_paths@.len() == nd.len(),
                tree_contains(node, t),
                (k == target_paths@.len() - 1 && node == t) || (node is Directory && node.spec_path()
                    == target_paths@[k as int]@),
                spec_leaf(t) ==> tree_dirs_unique(
                    node,
                    if k == 0 {
                        b
                    } else {
                        target_paths@[k - 1]@
                    },
                ),
                forall|bb: PathView| spec_leaf(t) ==> #[trigger] tree_dirs_unique(t, bb),
                b.len() > 0,
                t.spec_path().len() == b.len(),
                t.spec_path().drop_last() == b.drop_last(),
                t.spec_path().last() == b.last() + nd,
                forall|i: int| 0 <= i < target_paths@.len() ==> #[trigger] target_paths@[i]@ == b.update(b.len() - 1, b.last() + nd.take(i + 1)),
                forall|p: PathView| #[trigger] tree_paths(node).contains(p) ==> tree_paths(t).contains(p)
                    || spec_on_the_way(p, b, t.spec_path()),
                forall|x: NodeSummary| #[trigger] tree_summaries(node).contains(x) ==> tree_summaries(t).contains(x)
                    || spec_way_directory(x, b, t),
                modified == t.spec_modified(),
            decreases k,
        {
            k = k - 1;
            let mut children: Vec<ArchiveFile> = Vec::new();
            children.push(node);
            let ghost child = children@[0];
            node = ArchiveFile::Directory {
                path: target_paths[k].duplicate(),
                modified,
                content_hash: GeneralHash::null(),
                number_of_children: 1,
                children,
            };
            proof {
                assert(children@ =~= seq![child]);
                assert(tree_contains(children@[0], t));
                lemma_forest_contains(children@, t);
                let q = target_paths@[k as int]@;
                assert(q.drop_last() =~= b.drop_last());
                assert((b.last() + nd.take(k + 1)).is_prefix_of(b.last() + nd)) by {
                    assert((b.last() + nd).subrange(0, (b.last() + nd.take(k + 1)).len() as int) =~= b.last() + nd.take(k + 1));
                }
                assert(spec_on_the_way(q, b, t.spec_path()));
                assert forall|p: PathView| #[trigger] tree_paths(node).contains(p) implies tree_paths(t).contains(p)
                    || spec_on_the_way(p, b, t.spec_path()) by {
                    lemma_forest_paths(children@, p);
                }
                assert forall|x: NodeSummary| #[trigger] tree_summaries(node).contains(x) implies tree_summaries(t).contains(x)
                    || spec_way_directory(x, b, t) by {
                    lemma_forest_summaries(children@, x);
                }
                if spec_leaf(t) {
                    let base_new = if k == 0 { b } else { target_paths@[k - 1]@ };
                    let L = b.len() - 1;
                    assert(q.last() == b.last() + nd.take(k + 1));
                    assert(q.last().last() == nd[k as int]);
                    if k == 0 {
                        assert(b.last().push(nd[0]) =~= b.last() + nd.take(1));
                        assert(spec_join(base_new, nd[0]) =~= q);
                    } else {
                        assert((b.last() + nd.take(k as int)).push(nd[k as int]) =~= b.last() + nd.take(k + 1));
                        assert(base_new.last() == b.last() + nd.take(k as int));
                        assert(spec_join(base_new, nd[k as int]) =~= q);
                    }
                    assert(spec_sub_level(node, base_new) == q);
                    lemma_dirs_below(children@, q);
                    assert(tree_dirs_unique(children@[0], q));
                    assert(tree_dirs_unique(node, base_new));
                }
            }
        }
    }
    proof {
        if spec_dirs_unique(old_set, path_prefix@) && spec_leaf(target) {
            assert(tree_dirs_unique(node, b));
            let n = if nd.len() > 0 { nd[0] } else { Seq::<char>::empty() };
            if spec_level_name(node, b) is Some {
                assert(nd.len() > 0);
                if target_paths@.len() > 1 {
                    let q = target_paths@[0]@;
                    assert(q.last() == b.last() + nd.take(1));
                    assert(q.last().take(b.last().len() as int) =~= b.last());
                    assert(q.last().skip(b.last().len() as int) =~= nd.take(1));
                    assert(q.drop_last() =~= b.drop_last());
                }
                assert(spec_level_name(node, b)->0 == n);
                assert(names@[0]@ == n);
            }
            lemma_dirs_unique_push(old_set, node, b, n);
        }
    }
    root_set.push(node);
    proof {
        let new_set = root_set@;
        assert(new_set[new_set.len() - 1] == node);
        assert(tree_contains(new_set[new_set.len() - 1], t));
        lemma_forest_contains(new_set, t);
        assert forall|p: PathView| forest_paths(old_set).contains(p) implies forest_paths(new_set).contains(p) by {
            lemma_forest_paths(old_set, p);
            lemma_forest_paths(new_set, p);
            let i = choose|i: int| 0 <= i < old_set.len() && #[trigger] tree_paths(old_set[i]).contains(p);
            assert(new_set[i] == old_set[i]);
        }
        assert forall|x: NodeSummary| forest_summaries(old_set).contains(x) implies forest_summaries(new_set).contains(x) by {
            lemma_forest_summaries(old_set, x);
            lemma_forest_summaries(new_set, x);
            let i = choose|i: int| 0 <= i < old_set.len() && #[trigger] tree_summaries(old_set[i]).contains(x);
            assert(new_set[i] == old_set[i]);
        }
        assert forall|x: NodeSummary| #[trigger] forest_summaries(new_set).contains(x) implies forest_summaries(old_set).contains(x)
            || tree_summaries(target).contains(x) || spec_way_directory(x, path_prefix@, target) by {
            lemma_forest_summaries(new_set, x);
            lemma_forest_summaries(old_set, x);
            let i = choose|i: int| 0 <= i < new_set.len() && #[trigger] tree_summaries(new_set[i]).contains(x);
            if i < old_set.len() {
                assert(new_set[i] == old_set[i]);
            }
        }
        assert forall|p: PathView| #[trigger] forest_paths(new_set).contains(p) implies forest_paths(old_set).contains(p)
            || tree_paths(target).contains(p) || spec_on_the_way(p, path_prefix@, target.spec_path()) by {
            lemma_forest_paths(new_set, p);
            lemma_forest_paths(old_set, p);
            let i = choose|i: int| 0 <= i < new_set.len() && #[trigger] tree_paths(new_set[i]).contains(p);
            if i < old_set.len() {
                assert(new_set[i] == old_set[i]);
            }
        }
    }
    None
}

/// What the entry `e` of an archive is in the trees built from it: a regular file without
/// content is a directory, anything else is what it is.
pub open spec fn spec_entry_summary(e: ArchiveFile) -> NodeSummary {
    match e {
        ArchiveFile::File { path, modified, content_size, .. } => if content_size == 0 {
            (2, path@, modified, null_hash(), 0, Seq::empty())
        } else {
            spec_summary(e)
        },
        _ => spec_summary(e),
    }
}

/// What the files of the tree of the entry `e` of an archive are in the trees built from it
/// (see `spec_entry_summary`).
pub open spec fn spec_entry_summaries(e: ArchiveFile) -> Set<NodeSummary> {
    match e {
        ArchiveFile::File { .. } => set![spec_entry_summary(e)],
        _ => tree_summaries(e),
    }
}

/// A regular file without content is seen as an empty directory.
fn empty_file_as_directory(value: ArchiveFile) -> (r: ArchiveFile)
    ensures
        r.spec_path() == value.spec_path(),
        tree_paths(r) == tree_paths(value),
        spec_summary(r) == spec_entry_summary(value),
        tree_summaries(r) == spec_entry_summaries(value),
        spec_leaf(value) ==> spec_leaf(r),
        match value {
            ArchiveFile::File { path, modified, content_hash, content_size } => if content_size == 0 {
                r matches ArchiveFile::Directory {
                    path: p,
                    modified: m,
                    children: c,
                    number_of_children: n,
                    content_hash: h,
                } && p == path && m == modified && c@.len() == 0 && n == 0 && h == content_hash
            } else {
                r == value
            },
            _ => r == value,
        },
{
    match value {
        ArchiveFile::File { path, modified, content_hash, content_size } => {
            if content_size == 0 {
                ArchiveFile::Directory {
                    path,
                    modified,
                    children: Vec::new(),
                    number_of_children: 0,
                    content_hash,
                }
            } else {
                ArchiveFile::File { path, modified, content_hash, content_size }
            }
        },
        other => other,
    }
}

/// Builds the file trees of an archive from the list of its entries, whose paths lie under
/// `path_prefix`, and computes the directory hashes with `hasher`. Regular files without
/// content are taken for directories. Entries whose paths do not lie under the prefix are
/// dropped. Each other entry is a file of the trees, as `spec_entry_summary` says (an
/// empty regular file as a directory). The trees hold these entries and what they contain,
/// and nothing else but directories on the way from the prefix down to them, with their
/// modification times (`spec_way_directory`).
/// An entry goes into the directory named by the first name of its path relative to the
/// prefix, if there is one, and further down in the same way; so, where no entry is a
/// directory with files in it, no two directories side by side have the same name
/// (`spec_dirs_unique`).
#[verifier::spinoff_prover]
#[verifier::rlimit(80)]
pub fn build_tree_from_list<F: Fn(GeneralHashType, &Vec<GeneralHash>) -> GeneralHash>(
    hash_type: GeneralHashType,
    entries: Vec<ArchiveFile>,
    path_prefix: &FilePath,
    hasher: &F,
) -> (r: Vec<ArchiveFile>)
    requires
        forall|t: GeneralHashType, h: &Vec<GeneralHash>| hasher.requires((t, h)),
    ensures
        forest_consistent(r@, hash_type, *hasher),
        forall|i: int|
            0 <= i < entries@.len() && spec_relative_to_last(
                #[trigger] entries@[i].spec_path(),
                path_prefix@,
            ) is Some ==> forest_paths(r@).contains(entries@[i].spec_path()),
        forall|i: int|
            0 <= i < entries@.len() && spec_relative_to_last(#[trigger] entries@[i].spec_path(), path_prefix@) is Some
                ==> forest_summaries(r@).contains(spec_entry_summary(entries@[i])),
        forall|x: NodeSummary|
            #[trigger] forest_summaries(r@).contains(x) ==> exists|i: int|
                0 <= i < entries@.len() && spec_relative_to_last(#[trigger] entries@[i].spec_path(), path_prefix@) is Some
                    && (spec_entry_summaries(entries@[i]).contains(x) || spec_way_directory(x, path_prefix@, entries@[i])),
        (forall|i: int| 0 <= i < entries@.len() ==> spec_leaf(#[trigger] entries@[i])) ==> spec_dirs_unique(r@, path_prefix@),
        forall|p: PathView|
            #[trigger] forest_paths(r@).contains(p) ==> exists|i: int|
                0 <= i < entries@.len() && spec_relative_to_last(#[trigger] entries@[i].spec_path(), path_prefix@) is Some
                    && (tree_paths(entries@[i]).contains(p) || spec_on_the_way(p, path_prefix@, entries@[i].spec_path())),
{
    let ghost es = entries@;
    let mut root_set: Vec<ArchiveFile> = Vec::with_capacity(1);
    let mut source = entries;
    let mut stack: Vec<ArchiveFile> = Vec::new();
    while source.len() > 0
        invariant
            source@.len() + stack@.len() == es.len(),
            forall|k: int| 0 <= k < source@.len() ==> #[trigger] source@[k] == es[k],
            forall|k: int| 0 <= k < stack@.len() ==> #[trigger] stack@[k] == es[es.len() - 1 - k],
        decreases source@.len(),
    {
        let e = source.pop().unwrap();
        stack.push(e);
    }
    let mut n: usize = 0;
    let total = stack.len();
    while stack.len() > 0
        invariant
            n + stack@.len() == es.len(),
            es.len() == total,
            forall|k: int| 0 <= k < stack@.len() ==> #[trigger] stack@[k] == es[es.len() - 1 - k],
            forall|k: int|
                0 <= k < n && spec_relative_to_last(#[trigger] es[k].spec_path(), path_prefix@)
                    is Some ==> forest_paths(root_set@).contains(es[k].spec_path()),
            forall|k: int|
                0 <= k < n && spec_relative_to_last(#[trigger] es[k].spec_path(), path_prefix@) is Some
                    ==> forest_summaries(root_set@).contains(spec_entry_summary(es[k])),
            forall|x: NodeSummary|
                #[trigger] forest_summaries(root_set@).contains(x) ==> exists|i: int|
                    0 <= i < n && spec_relative_to_last(#[trigger] es[i].spec_path(), path_prefix@) is Some
                        && (spec_entry_summaries(es[i]).contains(x) || spec_way_directory(x, path_prefix@, es[i])),
            (forall|i: int| 0 <= i < es.len() ==> spec_leaf(#[trigger] es[i])) ==> spec_dirs_unique(root_set@, path_prefix@),
            forall|p: PathView|
                #[trigger] forest_paths(root_set@).contains(p) ==> exists|i: int|
                    0 <= i < n && spec_relative_to_last(#[trigger] es[i].spec_path(), path_prefix@) is Some
                        && (tree_paths(es[i]).contains(p) || spec_on_the_way(p, path_prefix@, es[i].spec_path())),
        decreases stack@.len(),
    {
        let ghost before = root_set@;
        let e = stack.pop().unwrap();
        assert(e == es[n as int]);
        let e = empty_file_as_directory(e);
        let ghost converted = e;
        let _rejected = insert_into_tree(&mut root_set, e, path_prefix);
        proof {
            if spec_relative_to_last(es[n as int].spec_path(), path_prefix@) is Some {
                lemma_forest_contains(root_set@, converted);
                let i = choose|i: int| 0 <= i < root_set@.len() && #[trigger] tree_contains(root_set@[i], converted);
                lemma_tree_contains_paths(root_set@[i], converted);
                lemma_forest_paths(root_set@, converted.spec_path());
                lemma_tree_contains_summary(root_set@[i], converted);
                lemma_forest_summaries(root_set@, spec_summary(converted));
            }
            assert forall|p: PathView| forest_paths(before).contains(p) implies forest_paths(root_set@).contains(p) by {
            }
            assert forall|x: NodeSummary| #[trigger] forest_summaries(root_set@).contains(x) implies exists|i: int|
                0 <= i < n + 1 && spec_relative_to_last(#[trigger] es[i].spec_path(), path_prefix@) is Some
                    && (spec_entry_summaries(es[i]).contains(x) || spec_way_directory(x, path_prefix@, es[i])) by {
                if forest_summaries(before).contains(x) {
                    let i = choose|i: int| 0 <= i < n && spec_relative_to_last(#[trigger] es[i].spec_path(), path_prefix@) is Some
                        && (spec_entry_summaries(es[i]).contains(x) || spec_way_directory(x, path_prefix@, es[i]));
                    assert(0 <= i < n + 1);
                } else {
                    assert(spec_relative_to_last(es[n as int].spec_path(), path_prefix@) is Some);
                    assert(converted.spec_modified() == es[n as int].spec_modified());
                }
            }
            assert forall|p: PathView| #[trigger] forest_paths(root_set@).contains(p) implies exists|i: int|
                0 <= i < n + 1 && spec_relative_to_last(#[trigger] es[i].spec_path(), path_prefix@) is Some
                    && (tree_paths(es[i]).contains(p) || spec_on_the_way(p, path_prefix@, es[i].spec_path())) by {
                if forest_paths(before).contains(p) {
                    let i = choose|i: int| 0 <= i < n && spec_relative_to_last(#[trigger] es[i].spec_path(), path_prefix@) is Some
                        && (tree_paths(es[i]).contains(p) || spec_on_the_way(p, path_prefix@, es[i].spec_path()));
                    assert(0 <= i < n + 1);
                } else {
                    assert(spec_relative_to_last(es[n as int].spec_path(), path_prefix@) is Some);
                }
            }
        }
        n = n + 1;
    }
    let mut i: usize = 0;
    let ghost inserted = root_set@;
    while i < root_set.len()
        invariant
            i <= root_set@.len(),
            root_set@.len() == inserted.len(),
            forall|t: GeneralHashType, h: &Vec<GeneralHash>| hasher.requires((t, h)),
            forall|k: int| 0 <= k < i ==> #[trigger] hashes_consistent(root_set@[k], hash_type, *hasher),
            forall|k: int| 0 <= k < i ==> #[trigger] tree_paths(root_set@[k]) == tree_paths(inserted[k]),
            forall|k: int| 0 <= k < i ==> #[trigger] tree_summaries(root_set@[k]) == tree_summaries(inserted[k]),
            forall|k: int| 0 <= k < i ==> (#[trigger] root_set@[k]).spec_path() == inserted[k].spec_path()
                && (root_set@[k] is Directory <==> inserted[k] is Directory),
            forall|k: int| 0 <= k < i && tree_dirs_unique(inserted[k], path_prefix@) ==> #[trigger] tree_dirs_unique(root_set@[k], path_prefix@),
            forall|k: int| i <= k < root_set@.len() ==> #[trigger] root_set@[k] == inserted[k],
        decreases root_set@.len() - i,
    {
        calculate_dir_hash_recursive(hash_type, &mut root_set[i], hasher, Ghost(inserted[i as int]));
        i = i + 1;
    }
    proof {
        lemma_forest_consistent(root_set@, hash_type, *hasher);
        lemma_forest_paths_pointwise(root_set@, inserted);
        lemma_forest_summaries_pointwise(root_set@, inserted);
        if spec_dirs_unique(inserted, path_prefix@) {
            let done = root_set@;
            lemma_dirs_below(inserted, path_prefix@);
            lemma_dirs_below(done, path_prefix@);
            assert forall|k: int| 0 <= k < done.len() implies #[trigger] spec_level_name(done[k], path_prefix@) == spec_level_name(inserted[k], path_prefix@) by {
                assert(done[k].spec_path() == inserted[k].spec_path());
            }
            assert forall|k: int| 0 <= k < done.len() implies #[trigger] tree_dirs_unique(done[k], path_prefix@) by {
                assert(tree_dirs_unique(inserted[k], path_prefix@));
            }
            assert forall|a: int, c: int|
                0 <= a < done.len() && 0 <= c < done.len() && (#[trigger] spec_level_name(done[a], path_prefix@)) is Some
                    && spec_level_name(done[a], path_prefix@) == #[trigger] spec_level_name(done[c], path_prefix@) implies a == c by {
                assert(spec_level_name(inserted[a], path_prefix@) == spec_level_name(inserted[c], path_prefix@));
            }
        }
    }
    root_set
}

/// What reading an entry of an archive gave: the hash and size of its content, its
/// modification time and, where the entry is an archive itself, the trees found in it or why
/// reading them failed.
pub struct EntryContent {
    pub content_hash: GeneralHash,
    pub content_size: u64,
    pub modified: u64,
    pub nested: Option<Result<Vec<ArchiveFile>, String>>,
}

/// The path of an entry of an archive: the path of the archive's root joined with the
/// entry's names, or, where the entry's path cannot be read, with a single random name.
pub fn archive_entry_path(root_path: &FilePath, names: Option<Vec<String>>) -> (r: FilePath)
    ensures
        match names {
            Some(n) => r@ == spec_join_all(root_path@, n.deep_view()),
            None => exists|name: Seq<char>|
                #![trigger spec_join(root_path@, name)]
                r@ == spec_join(root_path@, name) && name.len() == 22 && name.take(12)
                    == "bdd_unknown_"@,
        },
{
    match names {
        Some(n) => root_path.join_all(&n),
        None => {
            let name = random_name("bdd_unknown_", 10);
            proof {
                reveal_strlit("bdd_unknown_");
            }
            let r = root_path.join(&name);
            assert(r@ == spec_join(root_path@, name@));
            r
        },
    }
}

/// The file an entry of an archive at `path` stands for: a plain file with the hash, size
/// and modification time read; or, where the entry is an archive whose trees could be read,
/// an archive file with those trees in ascending order of their inner hashes and the hash
/// `hasher` gives for their inner hashes. A nested archive that cannot be read counts as a
/// plain file.
pub fn archive_entry<F: Fn(GeneralHashType, &Vec<GeneralHash>) -> GeneralHash>(
    path: FilePath,
    content: EntryContent,
    hash_type: GeneralHashType,
    hasher: &F,
) -> (r: ArchiveFile)
    requires
        forall|t: GeneralHashType, h: &Vec<GeneralHash>| hasher.requires((t, h)),
    ensures
        match content.nested {
            Some(Ok(trees)) => r matches ArchiveFile::ArchiveFile {
                path: p,
                modified,
                file_hash,
                directory_hash,
                content_size,
                children,
            } && p == path && modified == content.modified && file_hash == content.content_hash
                && content_size == content.content_size && children@.to_multiset()
                == trees@.to_multiset() && sorted_by_key(children@) && digest_of(
                *hasher,
                hash_type,
                inner_hashes(children@),
                directory_hash,
            ),
            _ => r == ArchiveFile::File {
                path,
                modified: content.modified,
                content_hash: content.content_hash,
                content_size: content.content_size,
            },
        },
{
    let EntryContent { content_hash, content_size, modified, nested } = content;
    match nested {
        Some(Ok(trees)) => {
            let mut children = trees;
            let directory_hash = calculate_dir_hash(hash_type, &mut children, hasher);
            ArchiveFile::ArchiveFile {
                path,
                directory_hash,
                file_hash: content_hash,
                content_size,
                children,
                modified,
            }
        },
        _ => ArchiveFile::File { path, content_hash, content_size, modified },
    }
}


/// The settings of a worker that reads an archive.
pub struct WorkerRunArchiveArguments {
    /// The number of the worker.
    pub id: usize,
    /// The settings of the worker.
    pub arg: WorkerArgument,
}

/// The file trees of the archive at `path`, given the files its entries stand for (see
/// `archive_entry`), in the order they were read: they are arranged as trees under the root
/// of the archive, a new component after `path`, and the directory hashes are computed with
/// `hasher` (see `build_tree_from_list`).
pub fn worker_run_archive<F: Fn(GeneralHashType, &Vec<GeneralHash>) -> GeneralHash>(
    entries: Vec<ArchiveFile>,
    path: &FilePath,
    arguments: &WorkerRunArchiveArguments,
    hasher: &F,
) -> (r: Vec<ArchiveFile>)
    requires
        forall|t: GeneralHashType, h: &Vec<GeneralHash>| hasher.requires((t, h)),
    ensures
        forest_consistent(r@, arguments.arg.hash_type, *hasher),
        forall|i: int|
            0 <= i < entries@.len() && spec_relative_to_last(
                #[trigger] entries@[i].spec_path(),
                path@.push(Seq::<Seq<char>>::empty()),
            ) is Some ==> forest_paths(r@).contains(entries@[i].spec_path()),
        forall|i: int|
            0 <= i < entries@.len() && spec_relative_to_last(
                #[trigger] entries@[i].spec_path(),
                path@.push(Seq::<Seq<char>>::empty()),
            ) is Some ==> forest_summaries(r@).contains(spec_entry_summary(entries@[i])),
        forall|x: NodeSummary|
            #[trigger] forest_summaries(r@).contains(x) ==> exists|i: int|
                0 <= i < entries@.len() && spec_relative_to_last(
                    #[trigger] entries@[i].spec_path(),
                    path@.push(Seq::<Seq<char>>::empty()),
                ) is Some && (spec_entry_summaries(entries@[i]).contains(x) || spec_way_directory(
                    x,
                    path@.push(Seq::<Seq<char>>::empty()),
                    entries@[i],
                )),
        (forall|i: int| 0 <= i < entries@.len() ==> spec_leaf(#[trigger] entries@[i])) ==> spec_dirs_unique(
            r@,
            path@.push(Seq::<Seq<char>>::empty()),
        ),
        forall|p: PathView|
            #[trigger] forest_paths(r@).contains(p) ==> exists|i: int|
                0 <= i < entries@.len() && spec_relative_to_last(
                    #[trigger] entries@[i].spec_path(),
                    path@.push(Seq::<Seq<char>>::empty()),
                ) is Some && (tree_paths(entries@[i]).contains(p) || spec_on_the_way(
                    p,
                    path@.push(Seq::<Seq<char>>::empty()),
                    entries@[i].spec_path(),
                )),
{
    let root_path = path.new_archive();
    build_tree_from_list(arguments.arg.hash_type, entries, &root_path, hasher)
}

} // verus!
