//! The analysis: which files of a hash tree file are duplicated, grouped into sets of files of
//! equal hash, kind, size and children, and how many bytes the duplicates take.

use crate::hash::{hashes_equal, GeneralHash, HashView};
use crate::stages::analyze::intermediary_analysis_data::AnalysisFile;
use crate::stages::analyze::output::dupset_file::{ConflictingEntry, ConflictingView, DupSetEntry, DupSetView};
use crate::stages::build::output::{HashTreeFileEntry, HashTreeFileEntryType, HashTreeFileEntryView};
use crate::path::{FilePath, PathView};
use crate::stages::analyze::worker::AnalysisWorkerArgument;
use crate::stages::build::output::entry_index::EntryIndex;
use vstd::prelude::*;

verus! {

/// The settings of the analysis.
pub struct AnalysisSettings {
    /// The hash tree file to analyze.
    pub input: Vec<String>,
    /// The file to write the sets of duplicates to.
    pub output: Vec<String>,
    /// The number of threads to use; the number of CPUs if none.
    pub threads: Option<usize>,
}

/// What makes entries of equal hash duplicates of each other: their size, kind and children.
pub type SetKey = (u64, HashTreeFileEntryType, Seq<HashView>);

/// The key of an entry.
pub open spec fn entry_key(e: HashTreeFileEntryView) -> SetKey {
    (e.size, e.file_type, e.children)
}

/// The entries of `s` with the key `k`, in order.
pub open spec fn spec_members(s: Seq<HashTreeFileEntryView>, k: SetKey) -> Seq<HashTreeFileEntryView>
    decreases s.len(),
{
    if s.len() == 0 {
        Seq::empty()
    } else {
        let prev = spec_members(s.drop_last(), k);
        if entry_key(s.last()) == k {
            prev.push(s.last())
        } else {
            prev
        }
    }
}

/// Whether the entry at position `i` of `s` starts a set of duplicates that is reported for
/// the file at path `p`: it is the first entry of its key, there are at least two, and it is
/// at path `p`.
pub open spec fn spec_reported_head(s: Seq<HashTreeFileEntryView>, i: int, p: PathView) -> bool {
    &&& s[i].path == p
    &&& forall|t: int| 0 <= t < i ==> entry_key(#[trigger] s[t]) != entry_key(s[i])
    &&& spec_members(s, entry_key(s[i])).len() >= 2
}

/// The set of duplicates that starts at position `i` of `s`, with the hash `h`.
pub open spec fn spec_set_at(s: Seq<HashTreeFileEntryView>, i: int, h: HashView) -> DupSetView {
    let m = spec_members(s, entry_key(s[i]));
    (s[i].file_type, s[i].size, h, m.map_values(|e: HashTreeFileEntryView| (e.path, e.modified)))
}

/// The sets of duplicates reported for the file at path `p` among the first `n` entries of
/// `s`, which all have the hash `h`, in the order of their first entries.
pub open spec fn spec_reported_sets(s: Seq<HashTreeFileEntryView>, n: int, p: PathView, h: HashView) -> Seq<DupSetView>
    decreases n,
{
    if n <= 0 {
        Seq::empty()
    } else {
        let prev = spec_reported_sets(s, n - 1, p, h);
        if spec_reported_head(s, n - 1, p) {
            prev.push(spec_set_at(s, n - 1, h))
        } else {
            prev
        }
    }
}

/// The bytes taken by the duplicates of the sets reported among the first `n` entries: for
/// each set, its size for every file but one.
pub open spec fn spec_reported_bytes(s: Seq<HashTreeFileEntryView>, n: int, p: PathView) -> nat
    decreases n,
{
    if n <= 0 {
        0
    } else {
        let prev = spec_reported_bytes(s, n - 1, p);
        if spec_reported_head(s, n - 1, p) {
            prev + (s[n - 1].size as nat) * ((spec_members(s, entry_key(s[n - 1])).len() - 1) as nat)
        } else {
            prev
        }
    }
}

/// The bytes reported grow with the entries looked at.
proof fn lemma_reported_bytes_grow(s: Seq<HashTreeFileEntryView>, m: int, n: int, p: PathView)
    requires
        m <= n,
    ensures
        spec_reported_bytes(s, m, p) <= spec_reported_bytes(s, n, p),
    decreases n - m,
{
    if m < n {
        lemma_reported_bytes_grow(s, m, n - 1, p);
    }
}

/// Whether two entries have the same key.
fn same_key(a: &HashTreeFileEntry, b: &HashTreeFileEntry) -> (r: bool)
    ensures
        r == (entry_key(a.deep_view()) == entry_key(b.deep_view())),
{
    a.size == b.size && a.file_type == b.file_type && hashes_equal(&a.children, &b.children)
}

/// The files of the entries of `group` with the same key as the entry at position `i`, in
/// order.
fn collect_members(group: &Vec<HashTreeFileEntry>, i: usize) -> (r: Vec<ConflictingEntry>)
    requires
        i < group@.len(),
    ensures
        r.deep_view() == spec_members(group.deep_view(), entry_key(group.deep_view()[i as int])).map_values(
            |e: HashTreeFileEntryView| (e.path, e.modified),
        ),
{
    let ghost s = group.deep_view();
    let ghost k = entry_key(s[i as int]);
    let mut r: Vec<ConflictingEntry> = Vec::new();
    let mut t: usize = 0;
    assert(s.take(0) =~= Seq::<HashTreeFileEntryView>::empty());
    assert(r.deep_view() =~= Seq::<ConflictingView>::empty());
    while t < group.len()
        invariant
            s == group.deep_view(),
            k == entry_key(s[i as int]),
            i < s.len(),
            t <= s.len(),
            r.deep_view() == spec_members(s.take(t as int), k).map_values(
                |e: HashTreeFileEntryView| (e.path, e.modified),
            ),
        decreases s.len() - t,
    {
        let ghost before = r.deep_view();
        assert(s.take(t + 1).drop_last() =~= s.take(t as int));
        assert(s.take(t + 1).last() == s[t as int]);
        if same_key(&group[t], &group[i]) {
            r.push(ConflictingEntry { path: group[t].path.duplicate(), modified: group[t].modified });
            assert(r.deep_view() =~= before.push((s[t as int].path, s[t as int].modified)));
        }
        assert(r.deep_view() =~= spec_members(s.take(t + 1), k).map_values(
            |e: HashTreeFileEntryView| (e.path, e.modified),
        ));
        t = t + 1;
    }
    assert(s.take(t as int) =~= s);
    r
}

/// Whether the entry at position `i` of `group` is the first of its key.
fn first_of_key(group: &Vec<HashTreeFileEntry>, i: usize) -> (r: bool)
    requires
        i < group@.len(),
    ensures
        r == forall|t: int| 0 <= t < i ==> entry_key(#[trigger] group.deep_view()[t]) != entry_key(group.deep_view()[i as int]),
{
    let mut t: usize = 0;
    while t < i
        invariant
            t <= i,
            i < group@.len(),
            forall|u: int| 0 <= u < t ==> entry_key(#[trigger] group.deep_view()[u]) != entry_key(group.deep_view()[i as int]),
        decreases i - t,
    {
        if same_key(&group[t], &group[i]) {
            assert(entry_key(group.deep_view()[t as int]) == entry_key(group.deep_view()[i as int]));
            return false;
        }
        t = t + 1;
    }
    true
}

/// The bytes the duplicates of the sets reported at path `p` among `group` take, if they fit
/// in 64 bits.
fn reported_bytes_checked(group: &Vec<HashTreeFileEntry>, path: &FilePath) -> (r: Option<u64>)
    ensures
        spec_reported_bytes(group.deep_view(), group@.len() as int, path@) <= u64::MAX ==> r == Some(
            spec_reported_bytes(group.deep_view(), group@.len() as int, path@) as u64,
        ),
        spec_reported_bytes(group.deep_view(), group@.len() as int, path@) > u64::MAX ==> r is None,
{
    let ghost s = group.deep_view();
    let ghost p = path@;
    let mut total: u64 = 0;
    let mut i: usize = 0;
    while i < group.len()
        invariant
            s == group.deep_view(),
            p == path@,
            i <= s.len(),
            total == spec_reported_bytes(s, i as int, p),
        decreases s.len() - i,
    {
        if group[i].path.same_as(path) && first_of_key(group, i) {
            let members = collect_members(group, i);
            proof {
                assert(members.deep_view().len() == members@.len());
                assert(spec_members(s, entry_key(s[i as int])).len() == members@.len());
            }
            if members.len() >= 2 {
                let count = (members.len() - 1) as u64;
                let size = group[i].size;
                let product = match size.checked_mul(count) {
                    Some(v) => v,
                    None => {
                        proof {
                            lemma_reported_bytes_grow(s, i + 1, s.len() as int, p);
                        }
                        return None;
                    },
                };
                total = match total.checked_add(product) {
                    Some(v) => v,
                    None => {
                        proof {
                            lemma_reported_bytes_grow(s, i + 1, s.len() as int, p);
                        }
                        return None;
                    },
                };
            }
        }
        i = i + 1;
    }
    Some(total)
}

/// The sets of duplicates reported for the analyzed file `file`, among the entries `group` of
/// the hash tree file that share its hash, with the bytes their duplicates take: the entries
/// are grouped by size, kind and children; a group of at least two whose first entry is the
/// file is reported. Nothing is reported for an other file. Reporting every file this way
/// reports each set once.
pub fn write_result_entry(file: &AnalysisFile, group: &Vec<HashTreeFileEntry>) -> (r: (Vec<DupSetEntry>, u64))
    requires
        file.spec_hash() is Some ==> spec_reported_bytes(group.deep_view(), group@.len() as int, file.spec_path()) <= u64::MAX,
    ensures
        match file.spec_hash() {
            Some(h) => r.0.deep_view() == spec_reported_sets(group.deep_view(), group@.len() as int, file.spec_path(), h)
                && r.1 == spec_reported_bytes(group.deep_view(), group@.len() as int, file.spec_path()),
            None => r.0@.len() == 0 && r.1 == 0,
        },
{
    let hash = match file {
        AnalysisFile::File(info) => &info.content_hash,
        AnalysisFile::Directory(info) => &info.content_hash,
        AnalysisFile::Symlink(info) => &info.content_hash,
        AnalysisFile::Other(_) => {
            return (Vec::new(), 0);
        },
    };
    let path = file.path();
    let ghost s = group.deep_view();
    let ghost p = file.spec_path();
    let ghost h = hash@;
    let mut sets: Vec<DupSetEntry> = Vec::new();
    let mut result_size: u64 = 0;
    let mut i: usize = 0;
    assert(sets.deep_view() =~= Seq::<DupSetView>::empty());
    while i < group.len()
        invariant
            s == group.deep_view(),
            p == path@,
            h == hash@,
            i <= s.len(),
            spec_reported_bytes(s, s.len() as int, p) <= u64::MAX,
            sets.deep_view() == spec_reported_sets(s, i as int, p, h),
            result_size == spec_reported_bytes(s, i as int, p),
        decreases s.len() - i,
    {
        let ghost before = sets.deep_view();
        if group[i].path.same_as(path) && first_of_key(group, i) {
            let conflicting = collect_members(group, i);
            if conflicting.len() >= 2 {
                proof {
                    lemma_reported_bytes_grow(s, i + 1, s.len() as int, p);
                    assert(conflicting.deep_view().len() == conflicting@.len());
                    assert(spec_members(s, entry_key(s[i as int])).len() == conflicting@.len());
                }
                let size = group[i].size;
                let count = (conflicting.len() - 1) as u64;
                assert(size * count <= u64::MAX) by {
                    assert(spec_reported_bytes(s, i + 1, p) == result_size + size * count);
                }
                result_size = result_size + size * count;
                sets.push(DupSetEntry { ftype: group[i].file_type, size, hash: hash.duplicate(), conflicting });
                assert(sets.deep_view() =~= before.push(spec_set_at(s, i as int, h)));
            } else {
                assert(conflicting.deep_view().len() == conflicting@.len());
                assert(spec_members(s, entry_key(s[i as int])).len() == conflicting@.len());
            }
        }
        i = i + 1;
    }
    (sets, result_size)
}

/// Whether a hash is shared by at least two entries of the index.
pub open spec fn spec_duplicated_hash(index: EntryIndex<HashTreeFileEntry>, h: HashView) -> bool {
    index.by_hash().contains_key(h) && index.by_hash()[h].len() >= 2
}

/// Whether a hash is shared by at least two entries of the index.
pub fn duplicated_hash(index: &EntryIndex<HashTreeFileEntry>, h: &GeneralHash) -> (r: bool)
    requires
        index.wf(),
    ensures
        r == spec_duplicated_hash(*index, h@),
{
    match index.with_hash(h) {
        Some(entries) => entries.len() >= 2,
        None => false,
    }
}

/// The entries of the index whose hash at least one other entry shares, in load order.
pub fn conflicting_entries(index: &EntryIndex<HashTreeFileEntry>) -> (r: Vec<HashTreeFileEntry>)
    requires
        index.wf(),
    ensures
        r.deep_view() == index.all().filter(|e: HashTreeFileEntryView| spec_duplicated_hash(*index, e.hash)),
{
    let ghost all = index.all();
    let ghost pred = |e: HashTreeFileEntryView| spec_duplicated_hash(*index, e.hash);
    let mut r: Vec<HashTreeFileEntry> = Vec::new();
    let mut i: usize = 0;
    assert(all.take(0) =~= Seq::<HashTreeFileEntryView>::empty());
    assert(r.deep_view() =~= all.take(0).filter(pred));
    while i < index.all_entries.len()
        invariant
            index.wf(),
            all == index.all(),
            all == index.all_entries.deep_view(),
            pred == (|e: HashTreeFileEntryView| spec_duplicated_hash(*index, e.hash)),
            i <= all.len(),
            r.deep_view() == all.take(i as int).filter(pred),
        decreases all.len() - i,
    {
        let ghost before = r.deep_view();
        let e = &index.all_entries[i];
        assert(all.take(i + 1) =~= all.take(i as int).push(e.deep_view()));
        proof {
            all.take(i as int).lemma_filter_push(e.deep_view(), pred);
        }
        if duplicated_hash(index, &e.hash) {
            r.push(e.duplicate());
            assert(r.deep_view() =~= before.push(e.deep_view()));
        }
        i = i + 1;
    }
    assert(all.take(i as int) =~= all);
    r
}

/// Whether the analyzed file at position `i` sits in a directory that is itself a
/// duplicated file: it is linked to a parent whose hash at least two entries share.
pub open spec fn spec_parent_duplicated(arg: AnalysisWorkerArgument, index: EntryIndex<HashTreeFileEntry>, i: int) -> bool {
    match arg.file_at(i).spec_parent() {
        Some(pp) => match arg.file_at(arg.index_of(pp)).spec_hash() {
            Some(ph) => spec_duplicated_hash(index, ph),
            None => false,
        },
        None => false,
    }
}

/// Whether the analyzed file at position `i`, which is marked, sits in a directory that is
/// itself a duplicated file (see `spec_parent_duplicated`).
pub fn parent_duplicated(arg: &AnalysisWorkerArgument, index: &EntryIndex<HashTreeFileEntry>, i: usize) -> (r: bool)
    requires
        arg.wf(),
        index.wf(),
        i < arg.file_by_path@.len(),
        arg.marked(i as int),
    ensures
        r == spec_parent_duplicated(*arg, *index, i as int),
{
    let file = match &arg.file_by_path[i].file {
        Some(file) => file,
        None => {
            return false;
        },
    };
    match file.parent() {
        None => false,
        Some(parent_path) => match arg.find(parent_path) {
            Some(j) => {
                assert(arg.index_of(parent_path@) == j) by {
                    let q = arg.index_of(parent_path@);
                    assert(arg.path_at(q) == parent_path@);
                }
                match &arg.file_by_path[j].file {
                    Some(parent) => match parent {
                        AnalysisFile::File(info) => duplicated_hash(index, &info.content_hash),
                        AnalysisFile::Directory(info) => duplicated_hash(index, &info.content_hash),
                        AnalysisFile::Symlink(info) => duplicated_hash(index, &info.content_hash),
                        AnalysisFile::Other(_) => false,
                    },
                    None => false,
                }
            },
            None => false,
        },
    }
}

/// The sets of duplicates and their bytes reported for the conflicting entry `e`: those of
/// its analyzed file (see `write_result_entry`), if it is marked and does not sit in a
/// duplicated directory; none otherwise.
pub open spec fn spec_entry_report(
    arg: AnalysisWorkerArgument,
    index: EntryIndex<HashTreeFileEntry>,
    e: HashTreeFileEntryView,
) -> (Seq<DupSetView>, nat) {
    let i = arg.index_of(e.path);
    if arg.has(e.path) && arg.marked(i) && !spec_parent_duplicated(arg, index, i) {
        let f = arg.file_at(i);
        match f.spec_hash() {
            Some(h) => if index.by_hash().contains_key(h) {
                let g = index.by_hash()[h];
                (spec_reported_sets(g, g.len() as int, f.spec_path(), h), spec_reported_bytes(g, g.len() as int, f.spec_path()))
            } else {
                (Seq::empty(), 0)
            },
            None => (Seq::empty(), 0),
        }
    } else {
        (Seq::empty(), 0)
    }
}

/// The sets of duplicates and their bytes reported for the first `n` conflicting entries.
pub open spec fn spec_report(
    arg: AnalysisWorkerArgument,
    index: EntryIndex<HashTreeFileEntry>,
    s: Seq<HashTreeFileEntryView>,
    n: int,
) -> (Seq<DupSetView>, nat)
    decreases n,
{
    if n <= 0 {
        (Seq::empty(), 0)
    } else {
        let prev = spec_report(arg, index, s, n - 1);
        let cur = spec_entry_report(arg, index, s[n - 1]);
        (prev.0 + cur.0, prev.1 + cur.1)
    }
}

/// The bytes reported grow with the entries looked at.
proof fn lemma_report_grows(
    arg: AnalysisWorkerArgument,
    index: EntryIndex<HashTreeFileEntry>,
    s: Seq<HashTreeFileEntryView>,
    m: int,
    n: int,
)
    requires
        m <= n,
    ensures
        spec_report(arg, index, s, m).1 <= spec_report(arg, index, s, n).1,
    decreases n - m,
{
    if m < n {
        lemma_report_grows(arg, index, s, m, n - 1);
    }
}

/// The report of the analysis: for each conflicting entry in order, the sets of duplicates of
/// its analyzed file (see `spec_entry_report`), with the bytes the duplicates take in all;
/// none if those bytes do not fit in 64 bits.
pub fn analysis_report(
    arg: &AnalysisWorkerArgument,
    index: &EntryIndex<HashTreeFileEntry>,
    conflicting: &Vec<HashTreeFileEntry>,
) -> (r: Option<(Vec<DupSetEntry>, u64)>)
    requires
        arg.wf(),
        index.wf(),
    ensures
        spec_report(*arg, *index, conflicting.deep_view(), conflicting@.len() as int).1 > u64::MAX ==> r is None,
        spec_report(*arg, *index, conflicting.deep_view(), conflicting@.len() as int).1 <= u64::MAX ==> (r matches Some(
            res,
        ) && res.0.deep_view() == spec_report(*arg, *index, conflicting.deep_view(), conflicting@.len() as int).0
            && res.1 == spec_report(*arg, *index, conflicting.deep_view(), conflicting@.len() as int).1),
{
    let ghost s = conflicting.deep_view();
    let mut sets: Vec<DupSetEntry> = Vec::new();
    let mut duplicated_bytes: u64 = 0;
    let mut i: usize = 0;
    assert(sets.deep_view() =~= Seq::<DupSetView>::empty());
    while i < conflicting.len()
        invariant
            arg.wf(),
            index.wf(),
            s == conflicting.deep_view(),
            i <= s.len(),
            sets.deep_view() == spec_report(*arg, *index, s, i as int).0,
            duplicated_bytes == spec_report(*arg, *index, s, i as int).1,
        decreases s.len() - i,
    {
        proof {
            lemma_report_grows(*arg, *index, s, i + 1, s.len() as int);
        }
        let e = &conflicting[i];
        let ghost ev = s[i as int];
        assert(ev == e.deep_view());
        let found = arg.find(&e.path);
        let mut reported = false;
        match found {
            Some(j) => {
                assert(arg.index_of(ev.path) == j) by {
                    let q = arg.index_of(ev.path);
                    assert(arg.path_at(q) == ev.path);
                }
                match &arg.file_by_path[j].file {
                    Some(file) => {
                        if !parent_duplicated(arg, index, j) {
                            let group = match file {
                                AnalysisFile::File(info) => index.with_hash(&info.content_hash),
                                AnalysisFile::Directory(info) => index.with_hash(&info.content_hash),
                                AnalysisFile::Symlink(info) => index.with_hash(&info.content_hash),
                                AnalysisFile::Other(_) => None,
                            };
                            match group {
                                Some(group) => {
                                    let bytes = match reported_bytes_checked(group, file.path()) {
                                        Some(b) => b,
                                        None => {
                                            return None;
                                        },
                                    };
                                    let total = match duplicated_bytes.checked_add(bytes) {
                                        Some(t) => t,
                                        None => {
                                            return None;
                                        },
                                    };
                                    let (found_sets, _) = write_result_entry(file, group);
                                    let ghost before = sets.deep_view();
                                    let mut found_sets = found_sets;
                                    let ghost added = found_sets.deep_view();
                                    sets.append(&mut found_sets);
                                    assert(sets.deep_view() =~= before + added);
                                    duplicated_bytes = total;
                                    reported = true;
                                },
                                None => {},
                            }
                        }
                    },
                    None => {},
                }
            },
            None => {},
        }
        if !reported {
            assert(spec_entry_report(*arg, *index, ev).0 =~= Seq::<DupSetView>::empty());
            assert(sets.deep_view() =~= spec_report(*arg, *index, s, i + 1).0);
        }
        i = i + 1;
    }
    Some((sets, duplicated_bytes))
}

/// All members of a set share its key: the same size, kind and children.
pub proof fn law_set_members_share_key(s: Seq<HashTreeFileEntryView>, k: SetKey)
    ensures
        forall|j: int| 0 <= j < spec_members(s, k).len() ==> entry_key(#[trigger] spec_members(s, k)[j]) == k,
    decreases s.len(),
{
    if s.len() > 0 {
        law_set_members_share_key(s.drop_last(), k);
        let prev = spec_members(s.drop_last(), k);
        assert forall|j: int| 0 <= j < spec_members(s, k).len() implies entry_key(#[trigger] spec_members(s, k)[j]) == k by {
            if j < prev.len() {
                assert(spec_members(s, k)[j] == prev[j]);
            }
        }
    }
}

/// Every reported set holds at least two files: only duplicates are reported.
pub proof fn law_reported_sets_are_duplicates(s: Seq<HashTreeFileEntryView>, n: int, p: PathView, h: HashView)
    ensures
        forall|k: int| 0 <= k < spec_reported_sets(s, n, p, h).len() ==> (#[trigger] spec_reported_sets(s, n, p, h)[k]).3.len() >= 2,
    decreases n,
{
    if n > 0 {
        law_reported_sets_are_duplicates(s, n - 1, p, h);
        let prev = spec_reported_sets(s, n - 1, p, h);
        assert forall|k: int| 0 <= k < spec_reported_sets(s, n, p, h).len() implies (#[trigger] spec_reported_sets(s, n, p, h)[k]).3.len() >= 2 by {
            if k < prev.len() {
                assert(spec_reported_sets(s, n, p, h)[k] == prev[k]);
            }
        }
    }
}

/// Only minimal duplicated structures are reported: nothing is reported for a file that sits
/// in a directory which is itself a duplicated file.
pub proof fn law_nested_duplicates_not_reported(
    arg: AnalysisWorkerArgument,
    index: EntryIndex<HashTreeFileEntry>,
    e: HashTreeFileEntryView,
)
    requires
        spec_parent_duplicated(arg, index, arg.index_of(e.path)),
    ensures
        spec_entry_report(arg, index, e).0.len() == 0,
        spec_entry_report(arg, index, e).1 == 0,
{
}


/// The bytes that the duplicates of the sets `sets` take: for each set, its size times the
/// number of its files but one.
pub open spec fn spec_sets_bytes(sets: Seq<DupSetView>) -> nat
    decreases sets.len(),
{
    if sets.len() == 0 {
        0
    } else {
        spec_sets_bytes(sets.drop_last()) + (sets.last().1 as nat) * (if sets.last().3.len() > 0 {
            (sets.last().3.len() - 1) as nat
        } else {
            0nat
        })
    }
}

/// The bytes of two lists of sets together are the bytes of each.
proof fn lemma_sets_bytes_concat(a: Seq<DupSetView>, b: Seq<DupSetView>)
    ensures
        spec_sets_bytes(a + b) == spec_sets_bytes(a) + spec_sets_bytes(b),
    decreases b.len(),
{
    if b.len() == 0 {
        assert(a + b =~= a);
    } else {
        lemma_sets_bytes_concat(a, b.drop_last());
        assert((a + b).drop_last() =~= a + b.drop_last());
        assert((a + b).last() == b.last());
    }
}

/// The bytes reported for the file at path `p` are those its reported sets take: for a set
/// of `k` files of size `s`, `s * (k - 1)`, whatever the number of copies.
pub proof fn law_reported_bytes_count_copies(s: Seq<HashTreeFileEntryView>, n: int, p: PathView, h: HashView)
    ensures
        spec_reported_bytes(s, n, p) == spec_sets_bytes(spec_reported_sets(s, n, p, h)),
    decreases n,
{
    if n > 0 {
        law_reported_bytes_count_copies(s, n - 1, p, h);
        let prev = spec_reported_sets(s, n - 1, p, h);
        if spec_reported_head(s, n - 1, p) {
            let set = spec_set_at(s, n - 1, h);
            assert(prev.push(set).drop_last() =~= prev);
            assert(set.3.len() == spec_members(s, entry_key(s[n - 1])).len());
        }
    }
}

/// The bytes in the report of an analysis are those its sets take: for each reported set of
/// `k` files of size `s`, `s * (k - 1)`.
pub proof fn law_report_bytes_count_copies(
    arg: AnalysisWorkerArgument,
    index: EntryIndex<HashTreeFileEntry>,
    s: Seq<HashTreeFileEntryView>,
    n: int,
)
    ensures
        spec_report(arg, index, s, n).1 == spec_sets_bytes(spec_report(arg, index, s, n).0),
    decreases n,
{
    if n > 0 {
        law_report_bytes_count_copies(arg, index, s, n - 1);
        let prev = spec_report(arg, index, s, n - 1);
        let cur = spec_entry_report(arg, index, s[n - 1]);
        lemma_sets_bytes_concat(prev.0, cur.0);
        let e = s[n - 1];
        let i = arg.index_of(e.path);
        if arg.has(e.path) && arg.marked(i) && !spec_parent_duplicated(arg, index, i) {
            let f = arg.file_at(i);
            match f.spec_hash() {
                Some(h) => if index.by_hash().contains_key(h) {
                    let g = index.by_hash()[h];
                    law_reported_bytes_count_copies(g, g.len() as int, f.spec_path(), h);
                } else {
                    assert(spec_sets_bytes(Seq::<DupSetView>::empty()) == 0);
                },
                None => {
                    assert(spec_sets_bytes(Seq::<DupSetView>::empty()) == 0);
                },
            }
        } else {
            assert(spec_sets_bytes(Seq::<DupSetView>::empty()) == 0);
        }
    }
}

} // verus!
