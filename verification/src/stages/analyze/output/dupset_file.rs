//! The file of duplicate sets the analysis writes: each set holds files of equal hash, kind,
//! size and children.

use crate::hash::{GeneralHash, HashView};
use crate::path::{FilePath, PathView};
use crate::stages::build::output::HashTreeFileEntryType;
use vstd::prelude::*;

verus! {

/// A borrowed set of duplicates, written without copying its parts.
#[derive(Debug)]
pub struct DupSetEntryRef<'a, 'b, 'c> {
    /// The type of the files.
    pub ftype: &'a HashTreeFileEntryType,
    /// The size of the files.
    pub size: u64,
    /// The hash of the files' content.
    pub hash: &'b GeneralHash,
    /// The files of the set.
    pub conflicting: Vec<ConflictingEntryRef<'c>>,
}

/// A file of a set of duplicates.
#[derive(Debug, PartialEq, Eq)]
pub struct ConflictingEntry {
    pub path: FilePath,
    pub modified: u64,
}

/// A borrowed file of a set of duplicates.
#[derive(Debug)]
pub struct ConflictingEntryRef<'a> {
    pub path: &'a FilePath,
    pub modified: u64,
}

/// The mathematical value of a file of a set: its path and modification time.
pub type ConflictingView = (PathView, u64);

impl DeepView for ConflictingEntry {
    type V = ConflictingView;

    open spec fn deep_view(&self) -> ConflictingView {
        (self.path@, self.modified)
    }
}

impl<'a> DeepView for ConflictingEntryRef<'a> {
    type V = ConflictingView;

    open spec fn deep_view(&self) -> ConflictingView {
        (self.path@, self.modified)
    }
}

impl ConflictingEntry {
    /// An owned copy of a borrowed file of a set.
    pub fn from(entry: ConflictingEntryRef) -> (r: ConflictingEntry)
        ensures
            r.deep_view() == entry.deep_view(),
    {
        ConflictingEntry { path: entry.path.duplicate(), modified: entry.modified }
    }
}

/// A set of duplicates.
#[derive(Debug)]
pub struct DupSetEntry {
    /// The type of the files.
    pub ftype: HashTreeFileEntryType,
    /// The size of the files.
    pub size: u64,
    /// The hash of the files' content.
    pub hash: GeneralHash,
    /// The files of the set.
    pub conflicting: Vec<ConflictingEntry>,
}

/// The mathematical value of a set: kind, size, hash and files.
pub type DupSetView = (HashTreeFileEntryType, u64, HashView, Seq<ConflictingView>);

impl DeepView for DupSetEntry {
    type V = DupSetView;

    open spec fn deep_view(&self) -> DupSetView {
        (self.ftype, self.size, self.hash@, self.conflicting.deep_view())
    }
}

impl<'a, 'b, 'c> DeepView for DupSetEntryRef<'a, 'b, 'c> {
    type V = DupSetView;

    open spec fn deep_view(&self) -> DupSetView {
        (*self.ftype, self.size, self.hash@, self.conflicting.deep_view())
    }
}

impl DupSetEntry {
    /// An owned copy of a borrowed set.
    pub fn from(entry: &DupSetEntryRef) -> (r: DupSetEntry)
        ensures
            r.deep_view() == entry.deep_view(),
    {
        let mut conflicting: Vec<ConflictingEntry> = Vec::with_capacity(entry.conflicting.len());
        let mut i: usize = 0;
        while i < entry.conflicting.len()
            invariant
                i <= entry.conflicting@.len(),
                conflicting@.len() == i,
                forall|k: int| 0 <= k < i ==> (#[trigger] conflicting@[k]).deep_view() == entry.conflicting@[k].deep_view(),
            decreases entry.conflicting@.len() - i,
        {
            let c = &entry.conflicting[i];
            conflicting.push(ConflictingEntry { path: c.path.duplicate(), modified: c.modified });
            i = i + 1;
        }
        assert(conflicting.deep_view() =~= entry.conflicting.deep_view());
        DupSetEntry { ftype: *entry.ftype, size: entry.size, hash: entry.hash.duplicate(), conflicting }
    }
}

/// The version of the file of duplicate sets.
#[derive(Debug, Clone, Copy, PartialEq, Eq, Structural)]
pub enum DupSetFileVersion {
    /// Version 1 of the file format.
    V1,
}

/// The file of duplicate sets.
#[derive(Debug)]
pub struct DupSetFile {
    /// The version of the file format.
    pub version: DupSetFileVersion,
    /// The sets of duplicates.
    pub entries: Vec<DupSetEntry>,
}

/// The file of duplicate sets, borrowing its sets.
#[derive(Debug)]
pub struct DupSetFileRef<'a, 'b, 'c> {
    /// The version of the file format.
    pub version: DupSetFileVersion,
    /// The sets of duplicates.
    pub entries: Vec<DupSetEntryRef<'a, 'b, 'c>>,
}

impl DupSetFile {
    /// An owned copy of a borrowed file of duplicate sets.
    pub fn from(value: &DupSetFileRef) -> (r: DupSetFile)
        ensures
            r.version == value.version,
            r.entries.deep_view() == value.entries.deep_view(),
    {
        let mut entries: Vec<DupSetEntry> = Vec::with_capacity(value.entries.len());
        let mut i: usize = 0;
        while i < value.entries.len()
            invariant
                i <= value.entries@.len(),
                entries@.len() == i,
                forall|k: int| 0 <= k < i ==> (#[trigger] entries@[k]).deep_view() == value.entries@[k].deep_view(),
            decreases value.entries@.len() - i,
        {
            entries.push(DupSetEntry::from(&value.entries[i]));
            i = i + 1;
        }
        assert(entries.deep_view() =~= value.entries.deep_view());
        DupSetFile { version: value.version, entries }
    }
}

} // verus!
