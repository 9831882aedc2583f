//! Hash tree files: a header followed by one entry per analysed file, directory, symlink or
//! other file. This module holds the entries and the in-memory index of a loaded file; reading
//! and writing the lines of the file is left to the caller.

use crate::hash::{
    copy_hashes, copy_optional_hash, hashes_equal, optional_hashes_equal, GeneralHash,
    GeneralHashType, HashView,
};
use crate::path::{FilePath, PathView};
use crate::stages::build::output::entry_index::{
    path_map, paths_distinct, spec_hash_type_accepted, spec_insert, spec_insert_all, spec_select, EntryIndex, IndexState, TreeEntry,
};
use crate::utils::get_time;
use vstd::prelude::*;

verus! {

/// Version of the hash tree file format. Currently only one version exists.
#[derive(Debug, Clone, Copy, PartialEq, Eq, Structural)]
pub enum HashTreeFileVersion {
    /// Version 1 of the file format.
    V1,
}

/// Header of a hash tree file: the first line of the file.
#[derive(Debug, Clone, Copy, PartialEq, Eq, Structural)]
pub struct HashTreeFileHeader {
    /// The version of the file.
    pub version: HashTreeFileVersion,
    /// The hash type used to hash the files.
    pub hash_type: GeneralHashType,
    /// The creation date of the file in unix time.
    pub creation_date: u64,
}

/// The type of an analysed file.
#[derive(Debug, Clone, Copy, PartialEq, Eq, Hash, Structural)]
pub enum HashTreeFileEntryTypeV1 {
    /// A file.
    File,
    /// A directory.
    Directory,
    /// A symlink.
    Symlink,
    /// Other file type.
    Other,
}

/// The current entry type.
pub type HashTreeFileEntryType = HashTreeFileEntryTypeV1;

/// An analysed file.
#[derive(Debug, Clone, PartialEq, Eq, Hash)]
pub struct HashTreeFileEntryV1 {
    /// The type of the file.
    pub file_type: HashTreeFileEntryTypeV1,
    /// The last modified date of the file in unix time.
    pub modified: u64,
    /// The size of the file in bytes for files, number of children for folders.
    pub size: u64,
    /// The hash of the file content.
    pub hash: GeneralHash,
    /// The path of the file.
    pub path: FilePath,
    /// The hashes of the children of a directory.
    pub children: Vec<GeneralHash>,
    /// The hashes of the children of an archive file.
    pub archive_children: Vec<GeneralHash>,
    /// The hash of the directory structure inside an archive file.
    pub archive_inner_hash: Option<GeneralHash>,
}

/// The current entry.
pub type HashTreeFileEntry = HashTreeFileEntryV1;

/// The mathematical value of an entry.
#[verifier::ext_equal]
pub struct HashTreeFileEntryView {
    pub file_type: HashTreeFileEntryTypeV1,
    pub modified: u64,
    pub size: u64,
    pub hash: HashView,
    pub path: PathView,
    pub children: Seq<HashView>,
    pub archive_children: Seq<HashView>,
    pub archive_inner_hash: Option<HashView>,
}

impl DeepView for HashTreeFileEntryV1 {
    type V = HashTreeFileEntryView;

    open spec fn deep_view(&self) -> HashTreeFileEntryView {
        HashTreeFileEntryView {
            file_type: self.file_type,
            modified: self.modified,
            size: self.size,
            hash: self.hash@,
            path: self.path@,
            children: self.children.deep_view(),
            archive_children: self.archive_children.deep_view(),
            archive_inner_hash: self.archive_inner_hash.deep_view(),
        }
    }
}

impl View for HashTreeFileEntryV1 {
    type V = HashTreeFileEntryView;

    open spec fn view(&self) -> HashTreeFileEntryView {
        self.deep_view()
    }
}

/// A borrowed view of an entry, written to hash tree files without copying the entry.
pub struct HashTreeFileEntryV1Ref<'a> {
    /// The type of the file.
    pub file_type: &'a HashTreeFileEntryTypeV1,
    /// The last modified date of the file in unix time.
    pub modified: &'a u64,
    /// The size of the file in bytes for files, number of children for folders.
    pub size: &'a u64,
    /// The hash of the file content.
    pub hash: &'a GeneralHash,
    /// The path of the file.
    pub path: &'a FilePath,
    /// The hashes of the children of a directory.
    pub children: Vec<&'a GeneralHash>,
}

/// The current reference entry.
pub type HashTreeFileEntryRef<'a> = HashTreeFileEntryV1Ref<'a>;

impl HashTreeFileEntryV1 {
    /// A copy of the entry.
    pub fn duplicate(&self) -> (r: HashTreeFileEntryV1)
        ensures
            r.deep_view() == self.deep_view(),
    {
        HashTreeFileEntryV1 {
            file_type: self.file_type,
            modified: self.modified,
            size: self.size,
            hash: self.hash.duplicate(),
            path: self.path.duplicate(),
            children: copy_hashes(&self.children),
            archive_children: copy_hashes(&self.archive_children),
            archive_inner_hash: copy_optional_hash(&self.archive_inner_hash),
        }
    }

    /// Whether two entries are equal in every field.
    pub fn same_as(&self, other: &HashTreeFileEntryV1) -> (r: bool)
        ensures
            r == (self.deep_view() == other.deep_view()),
    {
        self.file_type == other.file_type && self.modified == other.modified && self.size
            == other.size && self.hash.same_as(&other.hash) && self.path.same_as(&other.path)
            && hashes_equal(&self.children, &other.children) && hashes_equal(
            &self.archive_children,
            &other.archive_children,
        ) && optional_hashes_equal(&self.archive_inner_hash, &other.archive_inner_hash)
    }
}

impl TreeEntry for HashTreeFileEntryV1 {
    open spec fn view_path(v: HashTreeFileEntryView) -> PathView {
        v.path
    }

    open spec fn view_hash(v: HashTreeFileEntryView) -> HashView {
        v.hash
    }

    open spec fn view_is_other(v: HashTreeFileEntryView) -> bool {
        v.file_type == HashTreeFileEntryTypeV1::Other
    }

    fn entry_path(&self) -> (r: &FilePath) {
        &self.path
    }

    fn entry_hash(&self) -> (r: &GeneralHash) {
        &self.hash
    }

    fn entry_is_other(&self) -> (r: bool) {
        self.file_type == HashTreeFileEntryTypeV1::Other
    }

    fn same_entry(&self, other: &Self) -> (r: bool) {
        self.same_as(other)
    }

    fn duplicate(&self) -> (r: Self) {
        HashTreeFileEntryV1::duplicate(self)
    }
}

/// The in-memory state of a hash tree file: its header, the index of the loaded entries and
/// the number of bytes written to it.
pub struct HashTreeFile {
    /// The header of the file.
    pub header: HashTreeFileHeader,
    /// The loaded entries.
    pub index: EntryIndex<HashTreeFileEntry>,
    /// The number of bytes written to the file.
    pub written_bytes: usize,
}

/// What loading the entry `e` with `filter` may have decided: an entry is kept only if it is
/// accepted and `filter` kept it; an accepted entry is dropped only if `filter` dropped it.
pub open spec fn spec_filter_outcome<F: Fn(&HashTreeFileEntry) -> bool>(e: HashTreeFileEntry, keep: bool, hash_type: GeneralHashType, filter: F) -> bool {
    let accepted = spec_hash_type_accepted(hash_type, e.hash@.0, e.file_type == HashTreeFileEntryTypeV1::Other);
    &&& keep ==> accepted && filter.ensures((&e,), true)
    &&& !keep && accepted ==> filter.ensures((&e,), false)
}

/// What loading the entries `es` with `filter` may have decided, entry by entry.
pub open spec fn spec_filter_outcomes<F: Fn(&HashTreeFileEntry) -> bool>(es: Seq<HashTreeFileEntry>, keep: Seq<bool>, hash_type: GeneralHashType, filter: F) -> bool {
    &&& keep.len() == es.len()
    &&& forall|k: int| 0 <= k < es.len() ==> #[trigger] spec_filter_outcome(es[k], keep[k], hash_type, filter)
}

/// Flags past the first `n` do not change what is selected among the first `n`.
proof fn lemma_select_prefix<V>(s: Seq<V>, a: Seq<bool>, b: Seq<bool>, n: int)
    requires
        0 <= n <= a.len(),
        n <= b.len(),
        forall|k: int| 0 <= k < n ==> a[k] == b[k],
    ensures
        spec_select(s, a, n) == spec_select(s, b, n),
    decreases n,
{
    if n > 0 {
        lemma_select_prefix(s, a, b, n - 1);
    }
}

impl HashTreeFile {
    /// The file is well formed.
    pub open spec fn wf(&self) -> bool {
        self.index.wf()
    }

    /// The number of bytes written so far.
    pub open spec fn written(&self) -> usize {
        self.written_bytes
    }

    /// A new hash tree file of version 1 with the given hash type, created at `creation_date` (seconds
    /// since the Unix epoch), with no entries loaded and the given views of the index enabled.
    pub fn created_at(
        hash_type: GeneralHashType,
        enable_file_by_hash: bool,
        enable_file_by_path: bool,
        enable_all_entry_list: bool,
        creation_date: u64,
    ) -> (r: HashTreeFile)
        ensures
            r.wf(),
            r.header.version == HashTreeFileVersion::V1,
            r.header.hash_type == hash_type,
            r.index.by_path() == Map::<PathView, HashTreeFileEntryView>::empty(),
            r.index.by_hash() == Map::<HashView, Seq<HashTreeFileEntryView>>::empty(),
            r.index.all() == Seq::<HashTreeFileEntryView>::empty(),
            r.index.enable_file_by_hash == enable_file_by_hash,
            r.index.enable_file_by_path == enable_file_by_path,
            r.index.enable_all_entry_list == enable_all_entry_list,
            r.written() == 0,
            r.header.creation_date == creation_date,
    {
        HashTreeFile {
            header: HashTreeFileHeader {
                version: HashTreeFileVersion::V1,
                hash_type: hash_type,
                creation_date,
            },
            index: EntryIndex::new(enable_file_by_hash, enable_file_by_path, enable_all_entry_list),
            written_bytes: 0,
        }
    }

    /// A new hash tree file of version 1 with the given hash type, created now (`created_at` with the
    /// current time, `get_time`), with no entries loaded and the given views of the index
    /// enabled.
    pub fn new(
        hash_type: GeneralHashType,
        enable_file_by_hash: bool,
        enable_file_by_path: bool,
        enable_all_entry_list: bool,
    ) -> (r: HashTreeFile)
        ensures
            r.wf(),
            r.header.version == HashTreeFileVersion::V1,
            r.header.hash_type == hash_type,
            r.index.by_path() == Map::<PathView, HashTreeFileEntryView>::empty(),
            r.index.by_hash() == Map::<HashView, Seq<HashTreeFileEntryView>>::empty(),
            r.index.all() == Seq::<HashTreeFileEntryView>::empty(),
            r.index.enable_file_by_hash == enable_file_by_hash,
            r.index.enable_file_by_path == enable_file_by_path,
            r.index.enable_all_entry_list == enable_all_entry_list,
            r.written() == 0,
    {
        HashTreeFile::created_at(hash_type, enable_file_by_hash, enable_file_by_path, enable_all_entry_list, get_time())
    }

    /// Replaces the header by one read from a file.
    pub fn load_header(&mut self, header: HashTreeFileHeader)
        ensures
            final(self).header == header,
            final(self).index == old(self).index,
            final(self).written() == old(self).written(),
    {
        self.header = header;
    }

    /// Whether an entry read from the file is kept: its hash must be of the header's hash
    /// type, or it must be an entry of type "other" with the `NULL` hash.
    pub fn accepts(&self, entry: &HashTreeFileEntry) -> (r: bool)
        ensures
            r == spec_hash_type_accepted(
                self.header.hash_type,
                entry.hash@.0,
                entry.file_type == HashTreeFileEntryTypeV1::Other,
            ),
    {
        entry.hash.hash_type == self.header.hash_type || (entry.file_type
            == HashTreeFileEntryTypeV1::Other && entry.hash.hash_type == GeneralHashType::NULL)
    }

    /// Loads an entry read from the file: an entry that is not accepted (see
    /// [HashTreeFile::accepts]) or that `filter` rejects is ignored; any other entry is added to
    /// the index. Returns whether the entry was added.
    pub fn load_entry<F: Fn(&HashTreeFileEntry) -> bool>(
        &mut self,
        entry: HashTreeFileEntry,
        filter: &F,
    ) -> (r: bool)
        requires
            old(self).wf(),
            forall|e: &HashTreeFileEntry| filter.requires((e,)),
        ensures
            final(self).wf(),
            final(self).header == old(self).header,
            final(self).written() == old(self).written(),
            r ==> spec_hash_type_accepted(
                old(self).header.hash_type,
                entry.hash@.0,
                entry.file_type == HashTreeFileEntryTypeV1::Other,
            ) && filter.ensures((&entry,), true) && final(self).index.state() == spec_insert::<
                HashTreeFileEntry,
            >(old(self).index.state(), entry.deep_view()),
            !r ==> (!spec_hash_type_accepted(
                old(self).header.hash_type,
                entry.hash@.0,
                entry.file_type == HashTreeFileEntryTypeV1::Other,
            ) || filter.ensures((&entry,), false)) && final(self).index.state() == old(
                self,
            ).index.state(),
    {
        if !self.accepts(&entry) {
            return false;
        }
        if !filter(&entry) {
            return false;
        }
        self.index.insert(entry);
        true
    }

    /// Loads an entry read from the file without a filter, see [HashTreeFile::load_entry].
    pub fn load_entry_no_filter(&mut self, entry: HashTreeFileEntry) -> (r: bool)
        requires
            old(self).wf(),
        ensures
            final(self).wf(),
            final(self).header == old(self).header,
            final(self).written() == old(self).written(),
            r == spec_hash_type_accepted(
                old(self).header.hash_type,
                entry.hash@.0,
                entry.file_type == HashTreeFileEntryTypeV1::Other,
            ),
            r ==> final(self).index.state() == spec_insert::<HashTreeFileEntry>(
                old(self).index.state(),
                entry.deep_view(),
            ),
            !r ==> final(self).index.state() == old(self).index.state(),
    {
        if !self.accepts(&entry) {
            return false;
        }
        self.index.insert(entry);
        true
    }

    /// Loads all entries read from the file, in order, see [HashTreeFile::load_entry]: the entries
    /// that are accepted and that `filter` keeps are added to the index in order. `filter` is
    /// asked only about accepted entries; what it answers is whatever its contract allows.
    pub fn load_all_entries<F: Fn(&HashTreeFileEntry) -> bool>(
        &mut self,
        entries: Vec<HashTreeFileEntry>,
        filter: &F,
    )
        requires
            old(self).wf(),
            forall|e: &HashTreeFileEntry| filter.requires((e,)),
        ensures
            final(self).wf(),
            final(self).header == old(self).header,
            final(self).written() == old(self).written(),
            exists|keep: Seq<bool>|
                #[trigger] spec_filter_outcomes(entries@, keep, old(self).header.hash_type, *filter)
                && final(self).index.state() == spec_insert_all::<HashTreeFileEntry>(
                    old(self).index.state(),
                    spec_select(entries.deep_view(), keep, entries@.len() as int),
                ),
    {
        let ghost es = entries.deep_view();
        let mut kept: Vec<HashTreeFileEntry> = Vec::new();
        let ghost mut keep: Seq<bool> = Seq::empty();
        let mut i: usize = 0;
        while i < entries.len()
            invariant
                es == entries.deep_view(),
                i <= entries@.len(),
                keep.len() == i,
                forall|e: &HashTreeFileEntry| filter.requires((e,)),
                forall|k: int| 0 <= k < i ==> #[trigger] spec_filter_outcome(entries@[k], keep[k], self.header.hash_type, *filter),
                kept.deep_view() == spec_select(es, keep, i as int),
            decreases entries@.len() - i,
        {
            let e = &entries[i];
            let take = self.accepts(e) && filter(e);
            let ghost before = kept.deep_view();
            if take {
                kept.push(e.duplicate());
                assert(kept.deep_view() =~= before.push(es[i as int]));
            }
            proof {
                let old_keep = keep;
                keep = keep.push(take);
                assert(spec_select(es, keep, i as int) =~= spec_select(es, old_keep, i as int)) by {
                    lemma_select_prefix(es, old_keep, keep, i as int);
                }
                assert forall|k: int| 0 <= k < i + 1 implies #[trigger] spec_filter_outcome(entries@[k], keep[k], self.header.hash_type, *filter) by {
                    if k < i {
                        assert(keep[k] == old_keep[k]);
                    }
                }
            }
            i = i + 1;
        }
        assert(spec_filter_outcomes(entries@, keep, self.header.hash_type, *filter));
        self.index.insert_all(kept);
    }

    /// Loads all entries read from the file, in order, without a filter: the entries that are
    /// accepted (see [HashTreeFile::accepts]) are added to the index in order.
    pub fn load_all_entries_no_filter(&mut self, entries: Vec<HashTreeFileEntry>)
        requires
            old(self).wf(),
        ensures
            final(self).wf(),
            final(self).header == old(self).header,
            final(self).written() == old(self).written(),
            final(self).index.state() == spec_insert_all::<HashTreeFileEntry>(
                old(self).index.state(),
                entries.deep_view().filter(spec_loaded_without_filter(old(self).header.hash_type)),
            ),
    {
        let ghost pred = spec_loaded_without_filter(self.header.hash_type);
        let ghost es = entries.deep_view();
        let mut kept: Vec<HashTreeFileEntry> = Vec::new();
        let mut source = entries;
        let mut reversed: Vec<HashTreeFileEntry> = Vec::new();
        let total = source.len();
        while source.len() > 0
            invariant
                source@.len() + reversed@.len() == es.len(),
                forall|k: int| 0 <= k < source@.len() ==> #[trigger] source.deep_view()[k] == es[k],
                forall|k: int|
                    0 <= k < reversed@.len() ==> #[trigger] reversed.deep_view()[k] == es[es.len()
                        - 1 - k],
            decreases source@.len(),
        {
            let ghost src0 = source@;
            let ghost rev0 = reversed@;
            let ghost srcdv = source.deep_view();
            let ghost revdv = reversed.deep_view();
            assert(source.deep_view()[source@.len() - 1] == es[source@.len() - 1]);
            let e = source.pop().unwrap();
            assert(e == src0.last());
            reversed.push(e);
            assert forall|k: int| 0 <= k < reversed@.len() implies #[trigger] reversed.deep_view()[k]
                == es[es.len() - 1 - k] by {
                if k < reversed@.len() - 1 {
                    assert(reversed@[k] == rev0[k]);
                    assert(revdv[k] == rev0[k].deep_view());
                }
            }
            assert forall|k: int| 0 <= k < source@.len() implies #[trigger] source.deep_view()[k]
                == es[k] by {
                assert(source@[k] == src0[k]);
                assert(srcdv[k] == src0[k].deep_view());
            }
        }
        let mut n: usize = 0;
        assert(es.subrange(0, 0).filter(pred) =~= Seq::<HashTreeFileEntryView>::empty()) by {
            reveal(Seq::filter);
        }
        while reversed.len() > 0
            invariant
                n + reversed@.len() == es.len(),
                es.len() == total,
                pred == (|e: HashTreeFileEntryView|
                    spec_hash_type_accepted(
                        self.header.hash_type,
                        e.hash.0,
                        e.file_type == HashTreeFileEntryTypeV1::Other,
                    )),
                forall|k: int|
                    0 <= k < reversed@.len() ==> #[trigger] reversed.deep_view()[k] == es[es.len()
                        - 1 - k],
                kept.deep_view() == es.subrange(0, n as int).filter(pred),
            decreases reversed@.len(),
        {
            let ghost rev0 = reversed@;
            let ghost revdv = reversed.deep_view();
            let ghost before = kept.deep_view();
            assert(reversed.deep_view()[reversed@.len() - 1] == es[n as int]);
            let e = reversed.pop().unwrap();
            assert(e == rev0.last());
            proof {
                es.subrange(0, n as int).lemma_filter_push(es[n as int], pred);
                assert(es.subrange(0, n + 1) =~= es.subrange(0, n as int).push(es[n as int]));
            }
            if self.accepts(&e) {
                kept.push(e);
                assert(kept.deep_view() =~= before.push(es[n as int]));
            }
            n = n + 1;
            assert forall|k: int| 0 <= k < reversed@.len() implies #[trigger] reversed.deep_view()[k]
                == es[es.len() - 1 - k] by {
                assert(reversed@[k] == rev0[k]);
                assert(revdv[k] == rev0[k].deep_view());
            }
        }
        assert(es.subrange(0, n as int) =~= es);
        self.index.insert_all(kept);
    }

    /// Drops the entries grouped by hash.
    pub fn empty_file_by_hash(&mut self)
        requires
            old(self).wf(),
        ensures
            final(self).wf(),
            final(self).index.by_hash() == Map::<HashView, Seq<HashTreeFileEntryView>>::empty(),
            final(self).index.by_path() == old(self).index.by_path(),
            final(self).index.all() == old(self).index.all(),
            final(self).header == old(self).header,
            final(self).written() == old(self).written(),
    {
        self.index.empty_file_by_hash();
    }

    /// Takes out the entries by path, leaving none: the entries taken have distinct paths and
    /// map them as the index did.
    pub fn take_file_by_path(&mut self) -> (r: Vec<HashTreeFileEntry>)
        requires
            old(self).wf(),
        ensures
            final(self).wf(),
            final(self).index.by_path() == Map::<PathView, HashTreeFileEntryView>::empty(),
            paths_distinct::<HashTreeFileEntry>(r.deep_view()),
            path_map::<HashTreeFileEntry>(r.deep_view()) == old(self).index.by_path(),
            final(self).index.by_hash() == old(self).index.by_hash(),
            final(self).index.all() == old(self).index.all(),
            final(self).header == old(self).header,
            final(self).written() == old(self).written(),
    {
        self.index.take_file_by_path()
    }

    /// Drops the entries by path.
    pub fn empty_file_by_path(&mut self)
        requires
            old(self).wf(),
        ensures
            final(self).wf(),
            final(self).index.by_path() == Map::<PathView, HashTreeFileEntryView>::empty(),
            final(self).index.by_hash() == old(self).index.by_hash(),
            final(self).index.all() == old(self).index.all(),
            final(self).header == old(self).header,
            final(self).written() == old(self).written(),
    {
        self.index.empty_file_by_path();
    }

    /// Drops the list of all entries.
    pub fn empty_entry_list(&mut self)
        requires
            old(self).wf(),
        ensures
            final(self).wf(),
            final(self).index.all() == Seq::<HashTreeFileEntryView>::empty(),
            final(self).index.by_hash() == old(self).index.by_hash(),
            final(self).index.by_path() == old(self).index.by_path(),
            final(self).header == old(self).header,
            final(self).written() == old(self).written(),
    {
        self.index.empty_entry_list();
    }

    /// The number of bytes written to the file.
    pub fn get_written_bytes(&self) -> (r: usize)
        ensures
            r == self.written(),
    {
        self.written_bytes
    }

    /// Records that `count` more bytes were written to the file.
    pub fn add_written_bytes(&mut self, count: usize)
        requires
            old(self).written() + count <= usize::MAX,
        ensures
            final(self).written() == old(self).written() + count,
            final(self).header == old(self).header,
            final(self).index == old(self).index,
    {
        self.written_bytes = self.written_bytes + count;
    }
}

/// Whether loading keeps the entry `e` when no filter is given: its hash type is accepted.
pub open spec fn spec_loaded_without_filter(hash_type: GeneralHashType) -> spec_fn(HashTreeFileEntryView) -> bool {
    |e: HashTreeFileEntryView| spec_hash_type_accepted(hash_type, e.hash.0, e.file_type == HashTreeFileEntryTypeV1::Other)
}

/// Selecting the entries whose flags say whether they are loaded without a filter is
/// filtering them.
proof fn lemma_select_is_filter(s: Seq<HashTreeFileEntryView>, keep: Seq<bool>, hash_type: GeneralHashType, n: int)
    requires
        0 <= n <= s.len(),
        n <= keep.len(),
        forall|k: int| 0 <= k < n ==> #[trigger] keep[k] == spec_loaded_without_filter(hash_type)(s[k]),
    ensures
        spec_select(s, keep, n) == s.take(n).filter(spec_loaded_without_filter(hash_type)),
    decreases n,
{
    reveal_with_fuel(Seq::filter, 1);
    if n > 0 {
        lemma_select_is_filter(s, keep, hash_type, n - 1);
        assert(s.take(n).drop_last() =~= s.take(n - 1));
        assert(s.take(n).last() == s[n - 1]);
    } else {
        assert(s.take(0) =~= Seq::<HashTreeFileEntryView>::empty());
    }
}

/// Loading with a filter that keeps every entry selects the entries that loading without a
/// filter keeps: those whose hash type is accepted, in order.
pub proof fn law_accepting_filter_loads_as_no_filter<F: Fn(&HashTreeFileEntry) -> bool>(
    es: Seq<HashTreeFileEntry>,
    keep: Seq<bool>,
    hash_type: GeneralHashType,
    filter: F,
)
    requires
        spec_filter_outcomes(es, keep, hash_type, filter),
        forall|e: &HashTreeFileEntry, r: bool| #[trigger] filter.ensures((e,), r) ==> r,
    ensures
        spec_select(es.map_values(|e: HashTreeFileEntry| e.deep_view()), keep, es.len() as int)
            == es.map_values(|e: HashTreeFileEntry| e.deep_view()).filter(spec_loaded_without_filter(hash_type)),
{
    let s = es.map_values(|e: HashTreeFileEntry| e.deep_view());
    assert forall|k: int| 0 <= k < es.len() implies #[trigger] keep[k] == spec_loaded_without_filter(hash_type)(s[k]) by {
        assert(spec_filter_outcome(es[k], keep[k], hash_type, filter));
        if !keep[k] && spec_loaded_without_filter(hash_type)(s[k]) {
            assert(filter.ensures((&es[k],), false));
        }
    }
    lemma_select_is_filter(s, keep, hash_type, es.len() as int);
    assert(s.take(es.len() as int) =~= s);
}

/// The sum of the byte counts `writes`.
pub open spec fn spec_total_written(writes: Seq<usize>) -> int
    decreases writes.len(),
{
    if writes.len() == 0 {
        0
    } else {
        spec_total_written(writes.drop_last()) + writes.last()
    }
}

/// A hash tree file that starts with no bytes written (`new`, `created_at`) and then records
/// the writes `writes` one after the other (`add_written_bytes`) counts their sum: `states`
/// are its states, the first one new and each next one after one more write.
pub proof fn law_written_is_sum_of_writes(states: Seq<HashTreeFile>, writes: Seq<usize>)
    requires
        states.len() == writes.len() + 1,
        states[0].written() == 0,
        forall|k: int| 0 <= k < writes.len() ==> #[trigger] states[k + 1].written() == states[k].written() + writes[k],
    ensures
        states.last().written() == spec_total_written(writes),
    decreases writes.len(),
{
    if writes.len() > 0 {
        let n = writes.len() - 1;
        law_written_is_sum_of_writes(states.drop_last(), writes.drop_last());
        assert(states.drop_last().last() == states[n]);
        assert(states[n + 1].written() == states[n].written() + writes[n]);
    }
}

} // verus!
