//! Save files, the first format of hash tree files: a header followed by one entry per
//! analysed file, directory, symlink or other file. This module holds the entries and the
//! in-memory index of a loaded file; reading and writing the lines of the file is left to the
//! caller.

use crate::hash::{
    copy_hashes, hashes_equal, GeneralHash,
    GeneralHashType, HashView,
};
use crate::path::{FilePath, PathView};
use crate::stages::build::output::entry_index::{
    spec_hash_type_accepted, spec_insert, spec_insert_all, spec_select, EntryIndex, IndexState, TreeEntry,
};
use crate::utils::get_time;
use vstd::prelude::*;

verus! {

/// Version of the save file format. Currently only one version exists.
#[derive(Debug, Clone, Copy, PartialEq, Eq, Structural)]
pub enum SaveFileVersion {
    /// Version 1 of the file format.
    V1,
}

/// Header of a save file: the first line of the file.
#[derive(Debug, Clone, Copy, PartialEq, Eq, Structural)]
pub struct SaveFileHeaders {
    /// The version of the file.
    pub version: SaveFileVersion,
    /// The hash type used to hash the files.
    pub hash_type: GeneralHashType,
    /// The creation date of the file in unix time.
    pub creation_date: u64,
}

/// The type of an analysed file.
#[derive(Debug, Clone, Copy, PartialEq, Eq, Hash, Structural)]
pub enum SaveFileEntryTypeV1 {
    /// A file.
    File,
    /// A directory.
    Directory,
    /// A symlink.
    Symlink,
    /// Other file type.
    Other,
}

/// The current entry type.
pub type SaveFileEntryType = SaveFileEntryTypeV1;

/// An analysed file.
#[derive(Debug, Clone, PartialEq, Eq, Hash)]
pub struct SaveFileEntryV1 {
    /// The type of the file.
    pub file_type: SaveFileEntryTypeV1,
    /// The last modified date of the file in unix time.
    pub modified: u64,
    /// The size of the file in bytes for files, number of children for folders.
    pub size: u64,
    /// The hash of the file content.
    pub hash: GeneralHash,
    /// The path of the file.
    pub path: FilePath,
    /// The hashes of the children of a directory.
    pub children: Vec<GeneralHash>,
}

/// The current entry.
pub type SaveFileEntry = SaveFileEntryV1;

/// The mathematical value of an entry.
#[verifier::ext_equal]
pub struct SaveFileEntryView {
    pub file_type: SaveFileEntryTypeV1,
    pub modified: u64,
    pub size: u64,
    pub hash: HashView,
    pub path: PathView,
    pub children: Seq<HashView>,
}

impl DeepView for SaveFileEntryV1 {
    type V = SaveFileEntryView;

    open spec fn deep_view(&self) -> SaveFileEntryView {
        SaveFileEntryView {
            file_type: self.file_type,
            modified: self.modified,
            size: self.size,
            hash: self.hash@,
            path: self.path@,
            children: self.children.deep_view(),
        }
    }
}

impl View for SaveFileEntryV1 {
    type V = SaveFileEntryView;

    open spec fn view(&self) -> SaveFileEntryView {
        self.deep_view()
    }
}

/// A borrowed view of an entry, written to save files without copying the entry.
pub struct SaveFileEntryV1Ref<'a> {
    /// The type of the file.
    pub file_type: &'a SaveFileEntryTypeV1,
    /// The last modified date of the file in unix time.
    pub modified: &'a u64,
    /// The size of the file in bytes for files, number of children for folders.
    pub size: &'a u64,
    /// The hash of the file content.
    pub hash: &'a GeneralHash,
    /// The path of the file.
    pub path: &'a FilePath,
    /// The hashes of the children of a directory.
    pub children: Vec<&'a GeneralHash>,
}

/// The current reference entry.
pub type SaveFileEntryRef<'a> = SaveFileEntryV1Ref<'a>;

impl SaveFileEntryV1 {
    /// A copy of the entry.
    pub fn duplicate(&self) -> (r: SaveFileEntryV1)
        ensures
            r.deep_view() == self.deep_view(),
    {
        SaveFileEntryV1 {
            file_type: self.file_type,
            modified: self.modified,
            size: self.size,
            hash: self.hash.duplicate(),
            path: self.path.duplicate(),
            children: copy_hashes(&self.children),
        }
    }

    /// Whether two entries are equal in every field.
    pub fn same_as(&self, other: &SaveFileEntryV1) -> (r: bool)
        ensures
            r == (self.deep_view() == other.deep_view()),
    {
        self.file_type == other.file_type && self.modified == other.modified && self.size
            == other.size && self.hash.same_as(&other.hash) && self.path.same_as(&other.path)
            && hashes_equal(&self.children, &other.children)
    }
}

impl TreeEntry for SaveFileEntryV1 {
    open spec fn view_path(v: SaveFileEntryView) -> PathView {
        v.path
    }

    open spec fn view_hash(v: SaveFileEntryView) -> HashView {
        v.hash
    }

    open spec fn view_is_other(v: SaveFileEntryView) -> bool {
        v.file_type == SaveFileEntryTypeV1::Other
    }

    fn entry_path(&self) -> (r: &FilePath) {
        &self.path
    }

    fn entry_hash(&self) -> (r: &GeneralHash) {
        &self.hash
    }

    fn entry_is_other(&self) -> (r: bool) {
        self.file_type == SaveFileEntryTypeV1::Other
    }

    fn same_entry(&self, other: &Self) -> (r: bool) {
        self.same_as(other)
    }

    fn duplicate(&self) -> (r: Self) {
        SaveFileEntryV1::duplicate(self)
    }
}

/// The in-memory state of a save file: its header, the index of the loaded entries and
/// the number of bytes written to it.
pub struct SaveFile {
    /// The header of the file.
    pub header: SaveFileHeaders,
    /// The loaded entries.
    pub index: EntryIndex<SaveFileEntry>,
    /// The number of bytes written to the file.
    pub written_bytes: usize,
}

/// What loading the entry `e` with `filter` may have decided: an entry is kept only if it is
/// accepted and `filter` kept it; an accepted entry is dropped only if `filter` dropped it.
pub open spec fn spec_filter_outcome<F: Fn(&SaveFileEntry) -> bool>(e: SaveFileEntry, keep: bool, hash_type: GeneralHashType, filter: F) -> bool {
    let accepted = spec_hash_type_accepted(hash_type, e.hash@.0, e.file_type == SaveFileEntryTypeV1::Other);
    &&& keep ==> accepted && filter.ensures((&e,), true)
    &&& !keep && accepted ==> filter.ensures((&e,), false)
}

/// What loading the entries `es` with `filter` may have decided, entry by entry.
pub open spec fn spec_filter_outcomes<F: Fn(&SaveFileEntry) -> bool>(es: Seq<SaveFileEntry>, keep: Seq<bool>, hash_type: GeneralHashType, filter: F) -> bool {
    &&& keep.len() == es.len()
    &&& forall|k: int| 0 <= k < es.len() ==> #[trigger] spec_filter_outcome(es[k], keep[k], hash_type, filter)
}

/// Flags past the first `n` do not change what is selected among the first `n`.
proof fn lemma_select_prefix<V>(s: Seq<V>, a: Seq<bool>, b: Seq<bool>, n: int)
    requires
        0 <= n <= a.len(),
        n <= b.len(),
        forall|k: int| 0 <= k < n ==> a[k] == b[k],
    ensures
        spec_select(s, a, n) == spec_select(s, b, n),
    decreases n,
{
    if n > 0 {
        lemma_select_prefix(s, a, b, n - 1);
    }
}

impl SaveFile {
    /// The file is well formed.
    pub open spec fn wf(&self) -> bool {
        self.index.wf()
    }

    /// The number of bytes written so far.
    pub open spec fn written(&self) -> usize {
        self.written_bytes
    }

    /// A new save file of version 1 with the SHA-256 hash type, created at `creation_date` (seconds
    /// since the Unix epoch), with no entries loaded and the given views of the index enabled.
    pub fn created_at(
        enable_file_by_hash: bool,
        enable_file_by_path: bool,
        enable_all_entry_list: bool,
        creation_date: u64,
    ) -> (r: SaveFile)
        ensures
            r.wf(),
            r.header.version == SaveFileVersion::V1,
            r.header.hash_type == GeneralHashType::SHA256,
            r.index.by_path() == Map::<PathView, SaveFileEntryView>::empty(),
            r.index.by_hash() == Map::<HashView, Seq<SaveFileEntryView>>::empty(),
            r.index.all() == Seq::<SaveFileEntryView>::empty(),
            r.index.enable_file_by_hash == enable_file_by_hash,
            r.index.enable_file_by_path == enable_file_by_path,
            r.index.enable_all_entry_list == enable_all_entry_list,
            r.written() == 0,
            r.header.creation_date == creation_date,
    {
        SaveFile {
            header: SaveFileHeaders {
                version: SaveFileVersion::V1,
                hash_type: GeneralHashType::SHA256,
                creation_date,
            },
            index: EntryIndex::new(enable_file_by_hash, enable_file_by_path, enable_all_entry_list),
            written_bytes: 0,
        }
    }

    /// A new save file of version 1 with the SHA-256 hash type, created now (`created_at` with the
    /// current time, `get_time`), with no entries loaded and the given views of the index
    /// enabled.
    pub fn new(
        enable_file_by_hash: bool,
        enable_file_by_path: bool,
        enable_all_entry_list: bool,
    ) -> (r: SaveFile)
        ensures
            r.wf(),
            r.header.version == SaveFileVersion::V1,
            r.header.hash_type == GeneralHashType::SHA256,
            r.index.by_path() == Map::<PathView, SaveFileEntryView>::empty(),
            r.index.by_hash() == Map::<HashView, Seq<SaveFileEntryView>>::empty(),
            r.index.all() == Seq::<SaveFileEntryView>::empty(),
            r.index.enable_file_by_hash == enable_file_by_hash,
            r.index.enable_file_by_path == enable_file_by_path,
            r.index.enable_all_entry_list == enable_all_entry_list,
            r.written() == 0,
    {
        SaveFile::created_at(enable_file_by_hash, enable_file_by_path, enable_all_entry_list, get_time())
    }

    /// Replaces the header by one read from a file.
    pub fn load_header(&mut self, header: SaveFileHeaders)
        ensures
            final(self).header == header,
            final(self).index == old(self).index,
            final(self).written() == old(self).written(),
    {
        self.header = header;
    }

    /// Whether an entry read from the file is kept: its hash must be of the header's hash
    /// type, or it must be an entry of type "other" with the `NULL` hash.
    pub fn accepts(&self, entry: &SaveFileEntry) -> (r: bool)
        ensures
            r == spec_hash_type_accepted(
                self.header.hash_type,
                entry.hash@.0,
                entry.file_type == SaveFileEntryTypeV1::Other,
            ),
    {
        entry.hash.hash_type == self.header.hash_type || (entry.file_type
            == SaveFileEntryTypeV1::Other && entry.hash.hash_type == GeneralHashType::NULL)
    }

    /// Loads an entry read from the file: an entry that is not accepted (see
    /// [SaveFile::accepts]) or that `filter` rejects is ignored; any other entry is added to
    /// the index. Returns whether the entry was added.
    pub fn load_entry<F: Fn(&SaveFileEntry) -> bool>(
        &mut self,
        entry: SaveFileEntry,
        filter: &F,
    ) -> (r: bool)
        requires
            old(self).wf(),
            forall|e: &SaveFileEntry| filter.requires((e,)),
        ensures
            final(self).wf(),
            final(self).header == old(self).header,
            final(self).written() == old(self).written(),
            r ==> spec_hash_type_accepted(
                old(self).header.hash_type,
                entry.hash@.0,
                entry.file_type == SaveFileEntryTypeV1::Other,
            ) && filter.ensures((&entry,), true) && final(self).index.state() == spec_insert::<
                SaveFileEntry,
            >(old(self).index.state(), entry.deep_view()),
            !r ==> (!spec_hash_type_accepted(
                old(self).header.hash_type,
                entry.hash@.0,
                entry.file_type == SaveFileEntryTypeV1::Other,
            ) || filter.ensures((&entry,), false)) && final(self).index.state() == old(
                self,
            ).index.state(),
    {
        if !self.accepts(&entry) {
            return false;
        }
        if !filter(&entry) {
            return false;
        }
        self.index.insert(entry);
        true
    }

    /// Loads an entry read from the file without a filter, see [SaveFile::load_entry].
    pub fn load_entry_no_filter(&mut self, entry: SaveFileEntry) -> (r: bool)
        requires
            old(self).wf(),
        ensures
            final(self).wf(),
            final(self).header == old(self).header,
            final(self).written() == old(self).written(),
            r == spec_hash_type_accepted(
                old(self).header.hash_type,
                entry.hash@.0,
                entry.file_type == SaveFileEntryTypeV1::Other,
            ),
            r ==> final(self).index.state() == spec_insert::<SaveFileEntry>(
                old(self).index.state(),
                entry.deep_view(),
            ),
            !r ==> final(self).index.state() == old(self).index.state(),
    {
        if !self.accepts(&entry) {
            return false;
        }
        self.index.insert(entry);
        true
    }

    /// Loads all entries read from the file, in order, see [SaveFile::load_entry]: the entries
    /// that are accepted and that `filter` keeps are added to the index in order. `filter` is
    /// asked only about accepted entries; what it answers is whatever its contract allows.
    pub fn load_all_entries<F: Fn(&SaveFileEntry) -> bool>(
        &mut self,
        entries: Vec<SaveFileEntry>,
        filter: &F,
    )
        requires
            old(self).wf(),
            forall|e: &SaveFileEntry| filter.requires((e,)),
        ensures
            final(self).wf(),
            final(self).header == old(self).header,
            final(self).written() == old(self).written(),
            exists|keep: Seq<bool>|
                #[trigger] spec_filter_outcomes(entries@, keep, old(self).header.hash_type, *filter)
                && final(self).index.state() == spec_insert_all::<SaveFileEntry>(
                    old(self).index.state(),
                    spec_select(entries.deep_view(), keep, entries@.len() as int),
                ),
    {
        let ghost es = entries.deep_view();
        let mut kept: Vec<SaveFileEntry> = Vec::new();
        let ghost mut keep: Seq<bool> = Seq::empty();
        let mut i: usize = 0;
        while i < entries.len()
            invariant
                es == entries.deep_view(),
                i <= entries@.len(),
                keep.len() == i,
                forall|e: &SaveFileEntry| filter.requires((e,)),
                forall|k: int| 0 <= k < i ==> #[trigger] spec_filter_outcome(entries@[k], keep[k], self.header.hash_type, *filter),
                kept.deep_view() == spec_select(es, keep, i as int),
            decreases entries@.len() - i,
        {
            let e = &entries[i];
            let take = self.accepts(e) && filter(e);
            let ghost before = kept.deep_view();
            if take {
                kept.push(e.duplicate());
                assert(kept.deep_view() =~= before.push(es[i as int]));
            }
            proof {
                let old_keep = keep;
                keep = keep.push(take);
                assert(spec_select(es, keep, i as int) =~= spec_select(es, old_keep, i as int)) by {
                    lemma_select_prefix(es, old_keep, keep, i as int);
                }
                assert forall|k: int| 0 <= k < i + 1 implies #[trigger] spec_filter_outcome(entries@[k], keep[k], self.header.hash_type, *filter) by {
                    if k < i {
                        assert(keep[k] == old_keep[k]);
                    }
                }
            }
            i = i + 1;
        }
        assert(spec_filter_outcomes(entries@, keep, self.header.hash_type, *filter));
        self.index.insert_all(kept);
    }

    /// Loads all entries read from the file, in order, without a filter: the entries that are
    /// accepted (see [SaveFile::accepts]) are added to the index in order.
    pub fn load_all_entries_no_filter(&mut self, entries: Vec<SaveFileEntry>)
        requires
            old(self).wf(),
        ensures
            final(self).wf(),
            final(self).header == old(self).header,
            final(self).written() == old(self).written(),
            final(self).index.state() == spec_insert_all::<SaveFileEntry>(
                old(self).index.state(),
                entries.deep_view().filter(
                    |e: SaveFileEntryView|
                        spec_hash_type_accepted(
                            old(self).header.hash_type,
                            e.hash.0,
                            e.file_type == SaveFileEntryTypeV1::Other,
                        ),
                ),
            ),
    {
        let ghost pred = |e: SaveFileEntryView|
            spec_hash_type_accepted(
                self.header.hash_type,
                e.hash.0,
                e.file_type == SaveFileEntryTypeV1::Other,
            );
        let ghost es = entries.deep_view();
        let mut kept: Vec<SaveFileEntry> = Vec::new();
        let mut source = entries;
        let mut reversed: Vec<SaveFileEntry> = Vec::new();
        let total = source.len();
        while source.len() > 0
            invariant
                source@.len() + reversed@.len() == es.len(),
                forall|k: int| 0 <= k < source@.len() ==> #[trigger] source.deep_view()[k] == es[k],
                forall|k: int|
                    0 <= k < reversed@.len() ==> #[trigger] reversed.deep_view()[k] == es[es.len()
                        - 1 - k],
            decreases source@.len(),
        {
            let ghost src0 = source@;
            let ghost rev0 = reversed@;
            let ghost srcdv = source.deep_view();
            let ghost revdv = reversed.deep_view();
            assert(source.deep_view()[source@.len() - 1] == es[source@.len() - 1]);
            let e = source.pop().unwrap();
            assert(e == src0.last());
            reversed.push(e);
            assert forall|k: int| 0 <= k < reversed@.len() implies #[trigger] reversed.deep_view()[k]
                == es[es.len() - 1 - k] by {
                if k < reversed@.len() - 1 {
                    assert(reversed@[k] == rev0[k]);
                    assert(revdv[k] == rev0[k].deep_view());
                }
            }
            assert forall|k: int| 0 <= k < source@.len() implies #[trigger] source.deep_view()[k]
                == es[k] by {
                assert(source@[k] == src0[k]);
                assert(srcdv[k] == src0[k].deep_view());
            }
        }
        let mut n: usize = 0;
        assert(es.subrange(0, 0).filter(pred) =~= Seq::<SaveFileEntryView>::empty()) by {
            reveal(Seq::filter);
        }
        while reversed.len() > 0
            invariant
                n + reversed@.len() == es.len(),
                es.len() == total,
                pred == (|e: SaveFileEntryView|
                    spec_hash_type_accepted(
                        self.header.hash_type,
                        e.hash.0,
                        e.file_type == SaveFileEntryTypeV1::Other,
                    )),
                forall|k: int|
                    0 <= k < reversed@.len() ==> #[trigger] reversed.deep_view()[k] == es[es.len()
                        - 1 - k],
                kept.deep_view() == es.subrange(0, n as int).filter(pred),
            decreases reversed@.len(),
        {
            let ghost rev0 = reversed@;
            let ghost revdv = reversed.deep_view();
            let ghost before = kept.deep_view();
            assert(reversed.deep_view()[reversed@.len() - 1] == es[n as int]);
            let e = reversed.pop().unwrap();
            assert(e == rev0.last());
            proof {
                es.subrange(0, n as int).lemma_filter_push(es[n as int], pred);
                assert(es.subrange(0, n + 1) =~= es.subrange(0, n as int).push(es[n as int]));
            }
            if self.accepts(&e) {
                kept.push(e);
                assert(kept.deep_view() =~= before.push(es[n as int]));
            }
            n = n + 1;
            assert forall|k: int| 0 <= k < reversed@.len() implies #[trigger] reversed.deep_view()[k]
                == es[es.len() - 1 - k] by {
                assert(reversed@[k] == rev0[k]);
                assert(revdv[k] == rev0[k].deep_view());
            }
        }
        assert(es.subrange(0, n as int) =~= es);
        self.index.insert_all(kept);
    }

    /// Drops the entries grouped by hash.
    pub fn empty_file_by_hash(&mut self)
        requires
            old(self).wf(),
        ensures
            final(self).wf(),
            final(self).index.by_hash() == Map::<HashView, Seq<SaveFileEntryView>>::empty(),
            final(self).index.by_path() == old(self).index.by_path(),
            final(self).index.all() == old(self).index.all(),
            final(self).header == old(self).header,
            final(self).written() == old(self).written(),
    {
        self.index.empty_file_by_hash();
    }

    /// Drops the entries by path.
    pub fn empty_file_by_path(&mut self)
        requires
            old(self).wf(),
        ensures
            final(self).wf(),
            final(self).index.by_path() == Map::<PathView, SaveFileEntryView>::empty(),
            final(self).index.by_hash() == old(self).index.by_hash(),
            final(self).index.all() == old(self).index.all(),
            final(self).header == old(self).header,
            final(self).written() == old(self).written(),
    {
        self.index.empty_file_by_path();
    }

    /// Drops the list of all entries.
    pub fn empty_entry_list(&mut self)
        requires
            old(self).wf(),
        ensures
            final(self).wf(),
            final(self).index.all() == Seq::<SaveFileEntryView>::empty(),
            final(self).index.by_hash() == old(self).index.by_hash(),
            final(self).index.by_path() == old(self).index.by_path(),
            final(self).header == old(self).header,
            final(self).written() == old(self).written(),
    {
        self.index.empty_entry_list();
    }

    /// The number of bytes written to the file.
    pub fn get_written_bytes(&self) -> (r: usize)
        ensures
            r == self.written(),
    {
        self.written_bytes
    }

    /// Records that `count` more bytes were written to the file.
    pub fn add_written_bytes(&mut self, count: usize)
        requires
            old(self).written() + count <= usize::MAX,
        ensures
            final(self).written() == old(self).written() + count,
            final(self).header == old(self).header,
            final(self).index == old(self).index,
    {
        self.written_bytes = self.written_bytes + count;
    }
}

} // verus!
