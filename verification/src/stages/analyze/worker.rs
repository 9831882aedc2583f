//! The analysis worker: it marks the files of a hash tree file that the analysis looks at,
//! with all their ancestors found in the file, and links each to its parent.

use crate::path::{spec_parent, FilePath, PathView};
use crate::stages::analyze::intermediary_analysis_data::{
    AnalysisDirectoryInformation, AnalysisFile, AnalysisFileInformation, AnalysisOtherInformation,
    AnalysisSymlinkInformation,
};
use crate::stages::build::output::{HashTreeFileEntry, HashTreeFileEntryType};
use crate::stages::build::output::entry_index::paths_distinct;
use vstd::prelude::*;

verus! {

/// An entry of the hash tree file, with the file the analysis made of it once it is marked.
#[derive(Debug)]
pub struct AnalysisIntermediaryFile {
    /// The entry from the hash tree file.
    pub saved_file_entry: HashTreeFileEntry,
    /// What the analysis made of the entry, once marked.
    pub file: Option<AnalysisFile>,
}

/// The entries of the hash tree file by path, at most one per path.
pub struct AnalysisWorkerArgument {
    pub file_by_path: Vec<AnalysisIntermediaryFile>,
}

/// A job of the analysis: a file to look at.
#[derive(Debug)]
pub struct AnalysisJob {
    /// The identifier of the job.
    pub id: usize,
    /// The file to look at.
    pub file: HashTreeFileEntry,
}

/// The source of analysis job identifiers: each new identifier is one more than the last.
pub struct AnalysisJobCounter {
    /// The last identifier handed out; 0 before the first.
    pub last: usize,
}

impl AnalysisJob {
    /// A job to look at `file`, with a new identifier from `counter`.
    pub fn new(file: HashTreeFileEntry, counter: &mut AnalysisJobCounter) -> (r: AnalysisJob)
        requires
            old(counter).last < usize::MAX,
        ensures
            final(counter).last == old(counter).last + 1,
            r.id == final(counter).last,
            r.file == file,
    {
        counter.last = counter.last + 1;
        AnalysisJob { id: counter.last, file }
    }

    /// The identifier of the job.
    pub fn job_id(&self) -> (r: usize)
        ensures
            r == self.id,
    {
        self.id
    }
}

/// The result of an analysis job: the job's work is in the marks it leaves.
#[derive(Debug)]
pub struct AnalysisResult {}

/// `f` is what the analysis makes of the entry `e`: a file of the entry's kind, with its path
/// and, but for other files, its hash.
pub open spec fn spec_describes(f: AnalysisFile, e: HashTreeFileEntry) -> bool {
    &&& f.spec_path() == e.path@
    &&& match e.file_type {
        HashTreeFileEntryType::File => f is File && f.spec_hash() == Some(e.hash@),
        HashTreeFileEntryType::Directory => f is Directory && f.spec_hash() == Some(e.hash@),
        HashTreeFileEntryType::Symlink => f is Symlink && f.spec_hash() == Some(e.hash@),
        HashTreeFileEntryType::Other => f is Other,
    }
}

/// The size of a path: its components and names; a parent is smaller.
pub open spec fn path_size(p: PathView) -> nat
    decreases p.len(),
{
    if p.len() == 0 {
        0
    } else {
        path_size(p.drop_last()) + 1 + p.last().len()
    }
}

/// A parent is smaller than its child.
pub proof fn lemma_parent_smaller(p: PathView)
    requires
        spec_parent(p) is Some,
    ensures
        path_size(spec_parent(p)->0) < path_size(p),
{
    let q = spec_parent(p)->0;
    if p.last().len() == 0 || (p.last().len() == 1 && p.len() > 1) {
        assert(q == p.drop_last());
    } else {
        assert(q.drop_last() =~= p.drop_last());
        assert(q.last() == p.last().drop_last());
    }
}

impl AnalysisWorkerArgument {
    /// The path of the entry at position `i`.
    pub open spec fn path_at(&self, i: int) -> PathView {
        self.file_by_path@[i].saved_file_entry.path@
    }

    /// Whether an entry of path `p` is present.
    pub open spec fn has(&self, p: PathView) -> bool {
        exists|i: int| 0 <= i < self.file_by_path@.len() && self.path_at(i) == p
    }

    /// The position of the entry of path `p`, which is present.
    pub open spec fn index_of(&self, p: PathView) -> int {
        choose|i: int| 0 <= i < self.file_by_path@.len() && self.path_at(i) == p
    }

    /// Whether the entry at position `i` is marked.
    pub open spec fn marked(&self, i: int) -> bool {
        self.file_by_path@[i].file is Some
    }

    /// What the analysis made of the entry at position `i`, which is marked.
    pub open spec fn file_at(&self, i: int) -> AnalysisFile {
        self.file_by_path@[i].file->0
    }

    /// The parent that the entry at position `i` is linked to: the parent of its path, if an
    /// entry of that path is present.
    pub open spec fn expected_parent(&self, i: int) -> Option<PathView> {
        match spec_parent(self.path_at(i)) {
            Some(pp) => if self.has(pp) {
                Some(pp)
            } else {
                None
            },
            None => None,
        }
    }

    /// The marks are consistent: no path occurs twice; every marked entry describes its entry
    /// and is linked to its parent where one is present, which is marked too and, if it is a
    /// directory, lists the entry among its children; every child a directory lists is a
    /// marked entry linked to that directory.
    pub open spec fn wf(&self) -> bool {
        let n = self.file_by_path@.len();
        &&& forall|i: int, j: int| 0 <= i < n && 0 <= j < n && i != j ==> self.path_at(i) != self.path_at(j)
        &&& forall|i: int|
            #![trigger self.file_by_path@[i]]
            0 <= i < n && self.marked(i) ==> {
                &&& spec_describes(self.file_at(i), self.file_by_path@[i].saved_file_entry)
                &&& self.file_at(i).spec_parent() == self.expected_parent(i)
                &&& (self.expected_parent(i) matches Some(pp) ==> {
                    let j = self.index_of(pp);
                    &&& self.marked(j)
                    &&& (self.file_at(j) is Directory ==> self.file_at(j).spec_children().contains(self.path_at(i)))
                })
            }
        &&& forall|j: int, c: PathView|
            0 <= j < n && self.marked(j) && #[trigger] self.file_at(j).spec_children().contains(c)
                ==> self.has(c) && self.marked(self.index_of(c)) && spec_parent(c) == Some(self.path_at(j))
    }
}

/// `b` is `a` with possibly more children linked after those of `a`.
pub open spec fn spec_grown_file(a: AnalysisFile, b: AnalysisFile) -> bool {
    &&& (a is File) == (b is File)
    &&& (a is Directory) == (b is Directory)
    &&& (a is Symlink) == (b is Symlink)
    &&& (a is Other) == (b is Other)
    &&& a.spec_path() == b.spec_path()
    &&& a.spec_hash() == b.spec_hash()
    &&& a.spec_parent() == b.spec_parent()
    &&& a.spec_children().is_prefix_of(b.spec_children())
}

/// What the analysis makes of the entry `entry` before linking it: a file of the entry's kind,
/// with its path and hash, no parent and no children.
fn new_analysis_file(entry: &HashTreeFileEntry) -> (r: AnalysisFile)
    ensures
        spec_describes(r, *entry),
        r.spec_parent() is None,
        r.spec_children().len() == 0,
{
    match entry.file_type {
        HashTreeFileEntryType::File => AnalysisFile::File(
            AnalysisFileInformation { path: entry.path.duplicate(), content_hash: entry.hash.duplicate(), parent: None },
        ),
        HashTreeFileEntryType::Symlink => AnalysisFile::Symlink(
            AnalysisSymlinkInformation { path: entry.path.duplicate(), content_hash: entry.hash.duplicate(), parent: None },
        ),
        HashTreeFileEntryType::Other => AnalysisFile::Other(
            AnalysisOtherInformation { path: entry.path.duplicate(), parent: None },
        ),
        HashTreeFileEntryType::Directory => {
            let children: Vec<FilePath> = Vec::new();
            assert(children.deep_view() =~= Seq::<PathView>::empty());
            AnalysisFile::Directory(
                AnalysisDirectoryInformation {
                    path: entry.path.duplicate(),
                    content_hash: entry.hash.duplicate(),
                    children,
                    parent: None,
                },
            )
        },
    }
}

/// The file `f` linked to the parent `parent`.
fn with_parent(f: AnalysisFile, parent: FilePath) -> (r: AnalysisFile)
    ensures
        r.spec_parent() == Some(parent@),
        r.spec_path() == f.spec_path(),
        r.spec_hash() == f.spec_hash(),
        r.spec_children() == f.spec_children(),
        (r is File) == (f is File),
        (r is Directory) == (f is Directory),
        (r is Symlink) == (f is Symlink),
        (r is Other) == (f is Other),
{
    match f {
        AnalysisFile::File(info) => AnalysisFile::File(
            AnalysisFileInformation { path: info.path, content_hash: info.content_hash, parent: Some(parent) },
        ),
        AnalysisFile::Directory(info) => AnalysisFile::Directory(
            AnalysisDirectoryInformation {
                path: info.path,
                content_hash: info.content_hash,
                children: info.children,
                parent: Some(parent),
            },
        ),
        AnalysisFile::Symlink(info) => AnalysisFile::Symlink(
            AnalysisSymlinkInformation { path: info.path, content_hash: info.content_hash, parent: Some(parent) },
        ),
        AnalysisFile::Other(info) => AnalysisFile::Other(
            AnalysisOtherInformation { path: info.path, parent: Some(parent) },
        ),
    }
}

/// The file `f` with `child` linked as its last child, if it is a directory.
fn with_child(f: AnalysisFile, child: FilePath) -> (r: AnalysisFile)
    ensures
        spec_grown_file(f, r),
        r.spec_children() == if f is Directory {
            f.spec_children().push(child@)
        } else {
            f.spec_children()
        },
{
    match f {
        AnalysisFile::Directory(info) => {
            let mut children = info.children;
            let ghost before = children.deep_view();
            children.push(child);
            assert(children.deep_view() =~= before.push(child@));
            let r = AnalysisFile::Directory(
                AnalysisDirectoryInformation { path: info.path, content_hash: info.content_hash, children, parent: info.parent },
            );
            assert(before.is_prefix_of(r.spec_children()));
            r
        },
        other => {
            assert(other.spec_children().is_prefix_of(other.spec_children()));
            other
        },
    }
}

/// `after` is `before` with more entries marked, all with paths of size at most `bound`, and
/// the marked files of `before` kept but for more children linked.
pub open spec fn spec_grown(before: AnalysisWorkerArgument, after: AnalysisWorkerArgument, bound: nat) -> bool {
    let n = before.file_by_path@.len();
    &&& after.file_by_path@.len() == n
    &&& forall|i: int| 0 <= i < n ==> #[trigger] after.file_by_path@[i].saved_file_entry == before.file_by_path@[i].saved_file_entry
    &&& forall|i: int|
        0 <= i < n && before.marked(i) ==> after.marked(i) && spec_grown_file(#[trigger] before.file_at(i), after.file_at(i))
    &&& forall|i: int| 0 <= i < n && !before.marked(i) && #[trigger] after.marked(i) ==> path_size(before.path_at(i)) <= bound
}

impl AnalysisWorkerArgument {
    /// The entries of a hash tree file by path, none marked yet.
    pub fn new(entries: Vec<HashTreeFileEntry>) -> (r: AnalysisWorkerArgument)
        requires
            paths_distinct::<HashTreeFileEntry>(entries.deep_view()),
        ensures
            r.wf(),
            r.file_by_path@.len() == entries@.len(),
            forall|i: int| 0 <= i < entries@.len() ==> #[trigger] r.file_by_path@[i].saved_file_entry == entries@[i]
                && !r.marked(i),
    {
        let ghost es = entries@;
        let ghost ev = entries.deep_view();
        let mut file_by_path: Vec<AnalysisIntermediaryFile> = Vec::new();
        let mut source = entries;
        let mut reversed: Vec<HashTreeFileEntry> = Vec::new();
        while source.len() > 0
            invariant
                source@.len() + reversed@.len() == es.len(),
                forall|k: int| 0 <= k < source@.len() ==> #[trigger] source@[k] == es[k],
                forall|k: int| 0 <= k < reversed@.len() ==> #[trigger] reversed@[k] == es[es.len() - 1 - k],
            decreases source@.len(),
        {
            let e = source.pop().unwrap();
            reversed.push(e);
        }
        while reversed.len() > 0
            invariant
                file_by_path@.len() + reversed@.len() == es.len(),
                forall|k: int| 0 <= k < reversed@.len() ==> #[trigger] reversed@[k] == es[es.len() - 1 - k],
                forall|k: int| 0 <= k < file_by_path@.len() ==> #[trigger] file_by_path@[k].saved_file_entry == es[k]
                    && file_by_path@[k].file is None,
            decreases reversed@.len(),
        {
            let e = reversed.pop().unwrap();
            file_by_path.push(AnalysisIntermediaryFile { saved_file_entry: e, file: None });
        }
        let r = AnalysisWorkerArgument { file_by_path };
        assert forall|i: int, j: int| 0 <= i < es.len() && 0 <= j < es.len() && i != j implies r.path_at(i) != r.path_at(j) by {
            assert(r.file_by_path@[i].saved_file_entry == es[i]);
            assert(r.file_by_path@[j].saved_file_entry == es[j]);
            assert(ev[i] == es[i].deep_view());
            assert(ev[j] == es[j].deep_view());
        }
        assert forall|i: int| 0 <= i < es.len() implies !#[trigger] r.marked(i) by {
            assert(r.file_by_path@[i].saved_file_entry == es[i]);
        }
        r
    }

    /// The position of the entry of path `path`, if present.
    pub fn find(&self, path: &FilePath) -> (r: Option<usize>)
        ensures
            match r {
                Some(i) => i < self.file_by_path@.len() && self.path_at(i as int) == path@,
                None => !self.has(path@),
            },
    {
        let mut i: usize = 0;
        while i < self.file_by_path.len()
            invariant
                i <= self.file_by_path@.len(),
                forall|k: int| 0 <= k < i ==> self.path_at(k) != path@,
            decreases self.file_by_path@.len() - i,
        {
            if self.file_by_path[i].saved_file_entry.path.same_as(path) {
                return Some(i);
            }
            i = i + 1;
        }
        None
    }

    /// Replaces what the analysis made of the entry at position `i`.
    fn set_file(&mut self, i: usize, file: Option<AnalysisFile>)
        requires
            i < old(self).file_by_path@.len(),
        ensures
            final(self).file_by_path@.len() == old(self).file_by_path@.len(),
            final(self).file_by_path@[i as int].saved_file_entry == old(self).file_by_path@[i as int].saved_file_entry,
            final(self).file_by_path@[i as int].file == file,
            forall|k: int| 0 <= k < old(self).file_by_path@.len() && k != i ==> #[trigger] final(self).file_by_path@[k] == old(self).file_by_path@[k],
    {
        let entry = self.file_by_path.remove(i);
        let AnalysisIntermediaryFile { saved_file_entry, file: _ } = entry;
        self.file_by_path.insert(i, AnalysisIntermediaryFile { saved_file_entry, file });
    }

    /// Takes out what the analysis made of the entry at position `i`.
    fn take_file(&mut self, i: usize) -> (r: Option<AnalysisFile>)
        requires
            i < old(self).file_by_path@.len(),
        ensures
            r == old(self).file_by_path@[i as int].file,
            final(self).file_by_path@.len() == old(self).file_by_path@.len(),
            final(self).file_by_path@[i as int].saved_file_entry == old(self).file_by_path@[i as int].saved_file_entry,
            final(self).file_by_path@[i as int].file is None,
            forall|k: int| 0 <= k < old(self).file_by_path@.len() && k != i ==> #[trigger] final(self).file_by_path@[k] == old(self).file_by_path@[k],
    {
        let entry = self.file_by_path.remove(i);
        let AnalysisIntermediaryFile { saved_file_entry, file } = entry;
        self.file_by_path.insert(i, AnalysisIntermediaryFile { saved_file_entry, file: None });
        file
    }
}

/// Marks grow transitively.
proof fn lemma_grown_trans(a: AnalysisWorkerArgument, b: AnalysisWorkerArgument, c: AnalysisWorkerArgument, bound: nat)
    requires
        spec_grown(a, b, bound),
        spec_grown(b, c, bound),
    ensures
        spec_grown(a, c, bound),
{
    assert forall|i: int| 0 <= i < a.file_by_path@.len() && a.marked(i) implies c.marked(i) && spec_grown_file(#[trigger] a.file_at(i), c.file_at(i)) by {
        assert(spec_grown_file(a.file_at(i), b.file_at(i)));
        assert(spec_grown_file(b.file_at(i), c.file_at(i)));
    }
    assert forall|i: int| 0 <= i < a.file_by_path@.len() && !a.marked(i) && #[trigger] c.marked(i) implies path_size(a.path_at(i)) <= bound by {
        if b.marked(i) {
        } else {
            assert(b.file_by_path@[i].saved_file_entry == a.file_by_path@[i].saved_file_entry);
        }
    }
}

/// The entry at position `i`, not marked yet, gets marked with `f` and linked to the entry at
/// position `j`, marked, whose path is the parent of its own; the marks stay consistent.
proof fn lemma_attach_wf(
    before: AnalysisWorkerArgument,
    after: AnalysisWorkerArgument,
    i: int,
    j: Option<int>,
)
    requires
        before.wf(),
        0 <= i < before.file_by_path@.len(),
        !before.marked(i),
        after.file_by_path@.len() == before.file_by_path@.len(),
        forall|k: int| 0 <= k < before.file_by_path@.len() ==> #[trigger] after.file_by_path@[k].saved_file_entry == before.file_by_path@[k].saved_file_entry,
        after.marked(i),
        spec_describes(after.file_at(i), before.file_by_path@[i].saved_file_entry),
        after.file_at(i).spec_parent() == before.expected_parent(i),
        after.file_at(i).spec_children().len() == 0,
        match j {
            Some(j) => {
                &&& 0 <= j < before.file_by_path@.len()
                &&& j != i
                &&& before.expected_parent(i) == Some(before.path_at(j))
                &&& before.marked(j)
                &&& after.marked(j)
                &&& spec_grown_file(before.file_at(j), after.file_at(j))
                &&& after.file_at(j).spec_children() == if before.file_at(j) is Directory {
                    before.file_at(j).spec_children().push(before.path_at(i))
                } else {
                    before.file_at(j).spec_children()
                }
                &&& forall|k: int| 0 <= k < before.file_by_path@.len() && k != i && k != j ==> #[trigger] after.file_by_path@[k] == before.file_by_path@[k]
            },
            None => {
                &&& before.expected_parent(i) is None
                &&& forall|k: int| 0 <= k < before.file_by_path@.len() && k != i ==> #[trigger] after.file_by_path@[k] == before.file_by_path@[k]
            },
        },
    ensures
        after.wf(),
{
    let n = before.file_by_path@.len();
    assert forall|k: int| 0 <= k < n implies #[trigger] after.path_at(k) == before.path_at(k) by {
        assert(after.file_by_path@[k].saved_file_entry == before.file_by_path@[k].saved_file_entry);
    }
    assert forall|p: PathView| #[trigger] after.has(p) == before.has(p) by {
        if before.has(p) {
            let k = before.index_of(p);
            assert(after.path_at(k) == p);
        }
        if after.has(p) {
            let k = after.index_of(p);
            assert(before.path_at(k) == p);
        }
    }
    assert forall|p: PathView| before.has(p) implies #[trigger] after.index_of(p) == before.index_of(p) by {
        assert(after.has(p));
        let k1 = after.index_of(p);
        let k2 = before.index_of(p);
        assert(after.path_at(k1) == p);
        assert(before.path_at(k1) == p);
        assert(before.path_at(k2) == p);
    }
    assert forall|k: int| 0 <= k < n implies #[trigger] after.expected_parent(k) == before.expected_parent(k) by {}
    assert forall|k: int|
        #![trigger after.file_by_path@[k]]
        0 <= k < n && after.marked(k) implies {
            &&& spec_describes(after.file_at(k), after.file_by_path@[k].saved_file_entry)
            &&& after.file_at(k).spec_parent() == after.expected_parent(k)
            &&& (after.expected_parent(k) matches Some(pp) ==> {
                let m = after.index_of(pp);
                &&& after.marked(m)
                &&& (after.file_at(m) is Directory ==> after.file_at(m).spec_children().contains(after.path_at(k)))
            })
        } by {
        if k == i {
            if let Some(jj) = j {
                let m = after.index_of(before.path_at(jj));
                assert(before.has(before.path_at(jj)));
                assert(before.path_at(m) == before.path_at(jj));
                assert(m == jj);
                if after.file_at(jj) is Directory {
                    assert(after.file_at(jj).spec_children().last() == before.path_at(i));
                }
            }
        } else {
            assert(before.marked(k));
            assert(spec_describes(before.file_at(k), before.file_by_path@[k].saved_file_entry));
            if let Some(pp) = before.expected_parent(k) {
                let m = before.index_of(pp);
                assert(before.marked(m));
                assert(m != i);
                if before.file_at(m) is Directory {
                    let cs = before.file_at(m).spec_children();
                    let w = choose|w: int| 0 <= w < cs.len() && cs[w] == before.path_at(k);
                    if j == Some(m) {
                        assert(after.file_at(m).spec_children()[w] == cs[w]);
                    } else {
                        assert(after.file_by_path@[m] == before.file_by_path@[m]);
                    }
                }
            }
        }
    }
    assert forall|jj: int, c: PathView|
        0 <= jj < n && after.marked(jj) && #[trigger] after.file_at(jj).spec_children().contains(c)
            implies after.has(c) && after.marked(after.index_of(c)) && spec_parent(c) == Some(after.path_at(jj)) by {
        if jj == i {
        } else if j == Some(jj) {
            let cs = after.file_at(jj).spec_children();
            let w = choose|w: int| 0 <= w < cs.len() && cs[w] == c;
            if before.file_at(jj) is Directory && w == cs.len() - 1 {
                assert(c == before.path_at(i));
                assert(before.has(c));
                assert(before.index_of(c) == i) by {
                    let q = before.index_of(c);
                    assert(before.path_at(q) == c);
                }
            } else {
                assert(before.file_at(jj).spec_children()[w] == c);
                assert(before.file_at(jj).spec_children().contains(c));
                assert(before.index_of(c) != i);
            }
        } else {
            assert(after.file_by_path@[jj] == before.file_by_path@[jj]);
            assert(before.file_at(jj).spec_children().contains(c));
            assert(before.index_of(c) != i);
        }
    }
}

/// The positions of the entries that processing the path `p` marks, outermost first: those
/// that processing the parent's path marks, then the entry of `p` itself, if it is present
/// and not marked yet; nothing otherwise.
pub open spec fn spec_chain(a: AnalysisWorkerArgument, p: PathView) -> Seq<int>
    decreases path_size(p),
{
    if a.has(p) && !a.marked(a.index_of(p)) {
        match spec_parent(p) {
            Some(pp) => {
                proof {
                    lemma_parent_smaller(p);
                }
                spec_chain(a, pp).push(a.index_of(p))
            },
            None => seq![a.index_of(p)],
        }
    } else {
        Seq::empty()
    }
}

/// The entry at position `t` of the chain `ch` is marked in `b` with the file of its entry,
/// linked to its parent, with the next entry of the chain as its only child if it is a
/// directory and not the last.
pub open spec fn spec_new_link(a: AnalysisWorkerArgument, b: AnalysisWorkerArgument, ch: Seq<int>, t: int) -> bool {
    let k = ch[t];
    &&& spec_describes(b.file_at(k), a.file_by_path@[k].saved_file_entry)
    &&& b.file_at(k).spec_parent() == a.expected_parent(k)
    &&& b.file_at(k).spec_children() == if t + 1 < ch.len() && b.file_at(k) is Directory {
        seq![a.path_at(ch[t + 1])]
    } else {
        Seq::<PathView>::empty()
    }
}

/// The entry at position `k`, marked in `a`, is the one the chain `ch` hangs from, and gets
/// the first entry of the chain as its last child if it is a directory; or it is unchanged.
pub open spec fn spec_kept_or_linked(a: AnalysisWorkerArgument, b: AnalysisWorkerArgument, ch: Seq<int>, k: int) -> bool {
    if ch.len() > 0 && a.expected_parent(ch[0]) == Some(a.path_at(k)) {
        &&& b.marked(k)
        &&& spec_grown_file(a.file_at(k), b.file_at(k))
        &&& b.file_at(k).spec_children() == if a.file_at(k) is Directory {
            a.file_at(k).spec_children().push(a.path_at(ch[0]))
        } else {
            a.file_at(k).spec_children()
        }
    } else {
        b.file_by_path@[k] == a.file_by_path@[k]
    }
}

/// `b` is `a` after processing the path `p`: exactly the entries of the chain (see
/// `spec_chain`) get marked and linked; the entry the chain hangs from gets its first entry
/// as a child; nothing else changes.
#[verifier::opaque]
pub open spec fn spec_processed(a: AnalysisWorkerArgument, b: AnalysisWorkerArgument, p: PathView) -> bool {
    let ch = spec_chain(a, p);
    let n = a.file_by_path@.len();
    &&& b.file_by_path@.len() == n
    &&& forall|k: int| 0 <= k < n ==> #[trigger] b.file_by_path@[k].saved_file_entry == a.file_by_path@[k].saved_file_entry
    &&& forall|k: int| 0 <= k < n ==> (#[trigger] b.marked(k) <==> (a.marked(k) || ch.contains(k)))
    &&& forall|t: int| 0 <= t < ch.len() ==> #[trigger] spec_new_link(a, b, ch, t)
    &&& forall|k: int| 0 <= k < n && a.marked(k) ==> #[trigger] spec_kept_or_linked(a, b, ch, k)
    &&& forall|k: int| 0 <= k < n && !a.marked(k) && !ch.contains(k) ==> #[trigger] b.file_by_path@[k] == a.file_by_path@[k]
}

/// The chain of a path: valid positions of unmarked entries, ordered by growing path size up
/// to the path's own entry, each the child of the one before, hanging from a marked entry or
/// from none.
proof fn lemma_chain_facts(a: AnalysisWorkerArgument, p: PathView)
    requires
        a.wf(),
    ensures
        forall|t: int| 0 <= t < spec_chain(a, p).len() ==> 0 <= #[trigger] spec_chain(a, p)[t] < a.file_by_path@.len()
            && !a.marked(spec_chain(a, p)[t]) && path_size(a.path_at(spec_chain(a, p)[t])) <= path_size(p),
        forall|s: int, t: int| 0 <= s < t < spec_chain(a, p).len() ==> path_size(a.path_at(#[trigger] spec_chain(a, p)[s]))
            < path_size(a.path_at(#[trigger] spec_chain(a, p)[t])),
        spec_chain(a, p).len() > 0 ==> a.has(p) && spec_chain(a, p).last() == a.index_of(p),
        forall|t: int| 0 <= t < spec_chain(a, p).len() - 1 ==> a.expected_parent(#[trigger] spec_chain(a, p)[t + 1])
            == Some(a.path_at(spec_chain(a, p)[t])),
        spec_chain(a, p).len() > 0 ==> (a.expected_parent(spec_chain(a, p)[0]) matches Some(q) ==> a.has(q) && a.marked(a.index_of(q))),
    decreases path_size(p),
{
    let ch = spec_chain(a, p);
    if a.has(p) && !a.marked(a.index_of(p)) {
        let i = a.index_of(p);
        assert(a.path_at(i) == p);
        match spec_parent(p) {
            Some(pp) => {
                lemma_parent_smaller(p);
                lemma_chain_facts(a, pp);
                let cp = spec_chain(a, pp);
                assert(ch == cp.push(i));
                assert forall|t: int| 0 <= t < ch.len() implies 0 <= #[trigger] ch[t] < a.file_by_path@.len()
                    && !a.marked(ch[t]) && path_size(a.path_at(ch[t])) <= path_size(p) by {
                    if t < cp.len() {
                        assert(ch[t] == cp[t]);
                    }
                }
                assert forall|s: int, t: int| 0 <= s < t < ch.len() implies path_size(a.path_at(#[trigger] ch[s]))
                    < path_size(a.path_at(#[trigger] ch[t])) by {
                    assert(ch[s] == cp[s]);
                    if t < cp.len() {
                        assert(ch[t] == cp[t]);
                    }
                }
                assert forall|t: int| 0 <= t < ch.len() - 1 implies a.expected_parent(#[trigger] ch[t + 1])
                    == Some(a.path_at(ch[t])) by {
                    assert(ch[t] == cp[t]);
                    if t + 1 < cp.len() {
                        assert(ch[t + 1] == cp[t + 1]);
                    } else {
                        assert(cp.last() == a.index_of(pp));
                        assert(a.path_at(a.index_of(pp)) == pp);
                    }
                }
                if cp.len() == 0 {
                    assert(ch[0] == i);
                    if a.has(pp) {
                        assert(a.marked(a.index_of(pp)));
                    }
                } else {
                    assert(ch[0] == cp[0]);
                }
            },
            None => {
                assert(ch == seq![i]);
            },
        }
    }
}

/// Processing a path with an empty chain changes nothing.
proof fn lemma_processed_unchanged(a: AnalysisWorkerArgument, p: PathView)
    requires
        spec_chain(a, p).len() == 0,
    ensures
        spec_processed(a, a, p),
{
    reveal(spec_processed);
    let ch = spec_chain(a, p);
    assert forall|k: int| 0 <= k < a.file_by_path@.len() && a.marked(k) implies #[trigger] spec_kept_or_linked(a, a, ch, k) by {}
    assert forall|k: int| 0 <= k < a.file_by_path@.len() implies (#[trigger] a.marked(k) <==> (a.marked(k) || ch.contains(k))) by {}
}

/// Processing a path whose entry `i` is present and not marked: once its parent's path was
/// processed (giving `mid`), the entry is marked and linked to its parent `j`, if present
/// (giving `b`); then `b` is `a` after processing the path.
#[verifier::rlimit(40)]
#[verifier::spinoff_prover]
proof fn lemma_processed_step(
    a: AnalysisWorkerArgument,
    mid: AnalysisWorkerArgument,
    b: AnalysisWorkerArgument,
    p: PathView,
    i: int,
    j: Option<int>,
)
    requires
        a.wf(),
        0 <= i < a.file_by_path@.len(),
        a.path_at(i) == p,
        !a.marked(i),
        spec_parent(p) matches Some(pp) ==> spec_processed(a, mid, pp),
        spec_parent(p) is None ==> mid == a,
        b.file_by_path@.len() == a.file_by_path@.len(),
        forall|k: int| 0 <= k < a.file_by_path@.len() ==> #[trigger] b.file_by_path@[k].saved_file_entry == a.file_by_path@[k].saved_file_entry,
        b.marked(i),
        spec_describes(b.file_at(i), a.file_by_path@[i].saved_file_entry),
        b.file_at(i).spec_parent() == a.expected_parent(i),
        b.file_at(i).spec_children().len() == 0,
        match j {
            Some(j) => {
                &&& 0 <= j < a.file_by_path@.len()
                &&& j != i
                &&& a.expected_parent(i) == Some(a.path_at(j))
                &&& mid.marked(j)
                &&& b.marked(j)
                &&& spec_grown_file(mid.file_at(j), b.file_at(j))
                &&& b.file_at(j).spec_children() == if mid.file_at(j) is Directory {
                    mid.file_at(j).spec_children().push(p)
                } else {
                    mid.file_at(j).spec_children()
                }
                &&& forall|k: int| 0 <= k < a.file_by_path@.len() && k != i && k != j ==> #[trigger] b.file_by_path@[k] == mid.file_by_path@[k]
            },
            None => {
                &&& a.expected_parent(i) is None
                &&& forall|k: int| 0 <= k < a.file_by_path@.len() && k != i ==> #[trigger] b.file_by_path@[k] == mid.file_by_path@[k]
            },
        },
    ensures
        spec_processed(a, b, p),
{
    reveal(spec_processed);
    let n = a.file_by_path@.len();
    assert(a.has(p));
    assert(a.index_of(p) == i) by {
        let q = a.index_of(p);
        assert(a.path_at(q) == p);
    }
    let cp = match spec_parent(p) {
        Some(pp) => spec_chain(a, pp),
        None => Seq::<int>::empty(),
    };
    let ch = spec_chain(a, p);
    assert(ch == cp.push(i));
    lemma_chain_facts(a, p);
    match spec_parent(p) {
        Some(pp) => {
            lemma_parent_smaller(p);
            lemma_chain_facts(a, pp);
        },
        None => {},
    }
    // the mid state after the parent's path
    assert forall|k: int| 0 <= k < n implies #[trigger] mid.file_by_path@[k].saved_file_entry == a.file_by_path@[k].saved_file_entry
        && (mid.marked(k) <==> (a.marked(k) || cp.contains(k))) by {
        if spec_parent(p) is None {
            assert(cp.len() == 0);
        }
    }
    assert(mid.file_by_path@.len() == n);
    assert(!cp.contains(i)) by {
        if cp.contains(i) {
            let t = choose|t: int| 0 <= t < cp.len() && cp[t] == i;
            assert(path_size(a.path_at(cp[t])) <= path_size(spec_parent(p)->0));
        }
    }
    assert forall|k: int| 0 <= k < n implies (#[trigger] ch.contains(k) <==> (cp.contains(k) || k == i)) by {
        if cp.contains(k) {
            let t = choose|t: int| 0 <= t < cp.len() && cp[t] == k;
            assert(ch[t] == k);
        }
        if k == i {
            assert(ch[cp.len() as int] == i);
        }
        if ch.contains(k) && k != i {
            let t = choose|t: int| 0 <= t < ch.len() && ch[t] == k;
            assert(t < cp.len());
            assert(cp[t] == k);
        }
    }
    match j {
        Some(jj) => {
            let pp = spec_parent(p)->0;
            assert(a.expected_parent(i) == Some(pp));
            assert(a.path_at(jj) == pp);
            assert(a.has(pp));
            assert(a.index_of(pp) == jj) by {
                let q = a.index_of(pp);
                assert(a.path_at(q) == pp);
            }
            if cp.len() > 0 {
                assert(cp.last() == jj);
                assert(!a.marked(jj));
            } else {
                assert(a.marked(jj));
            }
        },
        None => {},
    }
    // marks
    assert forall|k: int| 0 <= k < n implies (#[trigger] b.marked(k) <==> (a.marked(k) || ch.contains(k))) by {
        assert(ch.contains(k) <==> (cp.contains(k) || k == i));
        assert(mid.marked(k) <==> (a.marked(k) || cp.contains(k)));
        if k != i && j != Some(k) {
            assert(b.file_by_path@[k] == mid.file_by_path@[k]);
        }
    }
    // the new links
    assert forall|t: int| 0 <= t < ch.len() implies #[trigger] spec_new_link(a, b, ch, t) by {
        if t < cp.len() {
            let k = cp[t];
            assert(ch[t] == k);
            assert(spec_new_link(a, mid, cp, t));
            assert(k != i);
            if j == Some(k) {
                assert(t == cp.len() - 1) by {
                    if t < cp.len() - 1 {
                        assert(path_size(a.path_at(cp[t])) < path_size(a.path_at(cp[cp.len() - 1])));
                    }
                }
                assert(ch[t + 1] == i);
                assert(mid.file_at(k).spec_children() == Seq::<PathView>::empty());
                assert(spec_grown_file(mid.file_at(k), b.file_at(k)));
                assert(spec_describes(mid.file_at(k), a.file_by_path@[k].saved_file_entry));
                assert(spec_describes(b.file_at(k), a.file_by_path@[k].saved_file_entry));
                assert(b.file_at(k).spec_parent() == a.expected_parent(k));
                if b.file_at(k) is Directory {
                    assert(b.file_at(k).spec_children() =~= seq![a.path_at(ch[t + 1])]);
                } else {
                    assert(b.file_at(k).spec_children() =~= Seq::<PathView>::empty());
                }
                assert(spec_new_link(a, b, ch, t));
            } else {
                assert(b.file_by_path@[k] == mid.file_by_path@[k]);
                if t + 1 < cp.len() {
                    assert(ch[t + 1] == cp[t + 1]);
                } else {
                    assert(cp.last() == k);
                    assert(j == Some(k)) by {
                        let pp = spec_parent(p)->0;
                        assert(a.has(pp));
                        assert(a.expected_parent(i) == Some(pp));
                    }
                }
            }
        } else {
            assert(ch[t] == i);
            assert(b.file_at(i).spec_children() =~= Seq::<PathView>::empty());
            assert(spec_new_link(a, b, ch, t));
        }
    }
    // the marked entries
    assert forall|k: int| 0 <= k < n && a.marked(k) implies #[trigger] spec_kept_or_linked(a, b, ch, k) by {
        assert(k != i);
        assert(!cp.contains(k)) by {
            if cp.contains(k) {
                let t = choose|t: int| 0 <= t < cp.len() && cp[t] == k;
            }
        }
        if cp.len() > 0 {
            assert(ch[0] == cp[0]);
            assert(spec_kept_or_linked(a, mid, cp, k));
            assert(j != Some(k));
            assert(b.file_by_path@[k] == mid.file_by_path@[k]);
        } else {
            assert(ch[0] == i);
            assert(spec_kept_or_linked(a, mid, cp, k));
            assert(mid.file_by_path@[k] == a.file_by_path@[k]);
            if j == Some(k) {
            } else {
                assert(b.file_by_path@[k] == mid.file_by_path@[k]);
                if a.expected_parent(i) == Some(a.path_at(k)) {
                    let pp = spec_parent(p)->0;
                    assert(a.path_at(k) == pp);
                    assert(a.has(pp));
                    assert(a.index_of(pp) == k) by {
                        let q = a.index_of(pp);
                        assert(a.path_at(q) == pp);
                    }
                }
            }
        }
    }
    // the untouched entries
    assert forall|k: int| 0 <= k < n && !a.marked(k) && !ch.contains(k) implies #[trigger] b.file_by_path@[k] == a.file_by_path@[k] by {
        assert(k != i);
        assert(!cp.contains(k));
        assert(mid.file_by_path@[k] == a.file_by_path@[k]) by {
            if spec_parent(p) is Some {
            }
        }
        assert(j != Some(k));
    }
}

impl AnalysisWorkerArgument {
    /// Marks the entry of path `path`, if it is present and not marked yet: first the entries
    /// of its ancestors that are present, then the entry itself, linked to its parent. The
    /// marks stay consistent (see `wf`).
    pub fn recursive_process_file(&mut self, id: usize, path: &FilePath)
        requires
            old(self).wf(),
        ensures
            final(self).wf(),
            spec_grown(*old(self), *final(self), path_size(path@)),
            spec_processed(*old(self), *final(self), path@),
            final(self).has(path@) ==> final(self).marked(final(self).index_of(path@)),
        decreases path_size(path@),
    {
        let i = match self.find(path) {
            Some(i) => i,
            None => {
                proof {
                    lemma_processed_unchanged(*self, path@);
                }
                return;
            },
        };
        if self.file_by_path[i].file.is_some() {
            assert(self.index_of(path@) == i) by {
                let q = self.index_of(path@);
                assert(self.path_at(q) == path@);
            }
            proof {
                lemma_processed_unchanged(*self, path@);
            }
            return;
        }
        let ghost start = *self;
        let parent = self.parent_file(i);
        match &parent {
            Some((_, pp)) => {
                proof {
                    lemma_parent_smaller(path@);
                }
                self.recursive_process_file(id, pp);
            },
            None => {
                proof {
                    if let Some(pp) = spec_parent(path@) {
                        assert(!start.has(pp));
                        lemma_processed_unchanged(start, pp);
                    }
                }
            },
        }
        let ghost mid = *self;
        assert(!mid.marked(i as int)) by {
            reveal(spec_processed);
            if let Some(pp) = spec_parent(path@) {
                lemma_chain_facts(start, pp);
                lemma_parent_smaller(path@);
                if spec_chain(start, pp).contains(i as int) {
                    let t = choose|t: int| 0 <= t < spec_chain(start, pp).len() && spec_chain(start, pp)[t] == i as int;
                    assert(path_size(start.path_at(spec_chain(start, pp)[t])) <= path_size(pp));
                }
                assert(mid.file_by_path@[i as int].saved_file_entry == start.file_by_path@[i as int].saved_file_entry);
            }
        }
        assert(mid.path_at(i as int) == path@);
        let f = new_analysis_file(&self.file_by_path[i].saved_file_entry);
        match parent {
            Some((j, pp)) => {
                assert(mid.has(pp@));
                assert(mid.marked(mid.index_of(pp@)));
                assert(mid.index_of(pp@) == j) by {
                    let q = mid.index_of(pp@);
                    assert(mid.path_at(q) == pp@);
                }
                let f = with_parent(f, pp);
                self.set_file(i, Some(f));
                self.add_to_parent_as_child(j, path);
                proof {
                    lemma_attach_wf(mid, *self, i as int, Some(j as int));
                    lemma_processed_step(start, mid, *self, path@, i as int, Some(j as int));
                }
            },
            None => {
                self.set_file(i, Some(f));
                proof {
                    lemma_attach_wf(mid, *self, i as int, None);
                    lemma_processed_step(start, mid, *self, path@, i as int, None);
                }
            },
        }
        proof {
            assert(spec_grown(start, mid, path_size(path@)));
            assert(spec_grown(mid, *self, path_size(path@)));
            lemma_grown_trans(*old(self), mid, *self, path_size(path@));
            assert(self.index_of(path@) == i) by {
                let q = self.index_of(path@);
                assert(self.path_at(q) == path@);
            }
        }
    }
}

impl AnalysisWorkerArgument {
    /// The position and path of the parent of the entry at position `i`, if an entry of that
    /// path is present.
    fn parent_file(&self, i: usize) -> (r: Option<(usize, FilePath)>)
        requires
            i < self.file_by_path@.len(),
        ensures
            match r {
                Some((j, pp)) => self.expected_parent(i as int) == Some(pp@) && j < self.file_by_path@.len()
                    && self.path_at(j as int) == pp@ && j != i,
                None => self.expected_parent(i as int) is None,
            },
    {
        match self.file_by_path[i].saved_file_entry.path.parent() {
            None => None,
            Some(parent_path) => match self.find(&parent_path) {
                Some(j) => {
                    proof {
                        lemma_parent_smaller(self.path_at(i as int));
                    }
                    Some((j, parent_path))
                },
                None => None,
            },
        }
    }

    /// Links the file of path `child` as the last child of the marked entry at position `j`,
    /// if that entry is a directory.
    fn add_to_parent_as_child(&mut self, j: usize, child: &FilePath)
        requires
            j < old(self).file_by_path@.len(),
            old(self).marked(j as int),
        ensures
            final(self).file_by_path@.len() == old(self).file_by_path@.len(),
            final(self).file_by_path@[j as int].saved_file_entry == old(self).file_by_path@[j as int].saved_file_entry,
            final(self).marked(j as int),
            spec_grown_file(old(self).file_at(j as int), final(self).file_at(j as int)),
            final(self).file_at(j as int).spec_children() == if old(self).file_at(j as int) is Directory {
                old(self).file_at(j as int).spec_children().push(child@)
            } else {
                old(self).file_at(j as int).spec_children()
            },
            forall|k: int| 0 <= k < old(self).file_by_path@.len() && k != j ==> #[trigger] final(self).file_by_path@[k] == old(self).file_by_path@[k],
    {
        let pf = self.take_file(j);
        match pf {
            Some(pf) => {
                let linked = with_child(pf, child.duplicate());
                self.set_file(j, Some(linked));
            },
            None => {
                proof {
                    assert(false);
                }
            },
        }
    }
}

/// Runs an analysis job: marks the job's file and its ancestors, linked to their parents.
pub fn worker_run(id: usize, job: AnalysisJob, arg: &mut AnalysisWorkerArgument) -> (r: AnalysisResult)
    requires
        old(arg).wf(),
    ensures
        final(arg).wf(),
        spec_grown(*old(arg), *final(arg), path_size(job.file.path@)),
        spec_processed(*old(arg), *final(arg), job.file.path@),
        final(arg).has(job.file.path@) ==> final(arg).marked(final(arg).index_of(job.file.path@)),
{
    arg.recursive_process_file(id, &job.file.path);
    AnalysisResult {}
}


/// The marks are closed under parents: the parent of a marked entry, where an entry of that
/// path is present, is marked too, and a directory parent lists the entry among its children.
pub proof fn law_marks_closed_under_parents(arg: AnalysisWorkerArgument, i: int)
    requires
        arg.wf(),
        0 <= i < arg.file_by_path@.len(),
        arg.marked(i),
        arg.expected_parent(i) is Some,
    ensures
        arg.marked(arg.index_of(arg.expected_parent(i)->0)),
        arg.file_at(arg.index_of(arg.expected_parent(i)->0)) is Directory ==> arg.file_at(
            arg.index_of(arg.expected_parent(i)->0),
        ).spec_children().contains(arg.path_at(i)),
{
    assert(arg.file_by_path@[i] == arg.file_by_path@[i]);
}


/// Processing a path a second time changes nothing: once processed, the path's entry, if
/// present, is marked.
pub proof fn law_processing_is_idempotent(a: AnalysisWorkerArgument, b: AnalysisWorkerArgument, p: PathView)
    requires
        a.wf(),
        spec_processed(a, b, p),
    ensures
        spec_processed(b, b, p),
{
    reveal(spec_processed);
    let n = a.file_by_path@.len();
    assert forall|k: int| 0 <= k < n implies #[trigger] b.path_at(k) == a.path_at(k) by {
        assert(b.file_by_path@[k].saved_file_entry == a.file_by_path@[k].saved_file_entry);
    }
    if b.has(p) {
        let kb = b.index_of(p);
        assert(a.path_at(kb) == p);
        assert(a.has(p));
        let i = a.index_of(p);
        assert(i == kb) by {
            assert(a.path_at(i) == p);
        }
        lemma_chain_facts(a, p);
        if !a.marked(i) {
            assert(spec_chain(a, p).last() == i);
            assert(spec_chain(a, p).contains(i)) by {
                assert(spec_chain(a, p)[spec_chain(a, p).len() - 1] == i);
            }
        }
        assert(b.marked(i));
    }
    assert(spec_chain(b, p).len() == 0);
    lemma_processed_unchanged(b, p);
}

} // verus!
