//! The decisions of the clean stage: which entries of a hash tree file are kept.

use crate::stages::build::output::entry_index::{spec_hash_type_accepted, spec_insert_all};
use crate::stages::build::output::{HashTreeFile, HashTreeFileEntry, HashTreeFileEntryType, HashTreeFileEntryView};
use vstd::prelude::*;

verus! {

/// The settings of the clean stage.
pub struct CleanSettings {
    /// The hash tree file to clean.
    pub input: Vec<String>,
    /// The file to write the cleaned hash tree to.
    pub output: Vec<String>,
    /// The working directory the paths were recorded in; relative paths are resolved
    /// against it.
    pub root: Option<String>,
    /// Whether symlinks are followed when the type of a file is read.
    pub follow_symlinks: bool,
}

/// The type of a file found in the file system.
#[derive(Debug, Clone, Copy, PartialEq, Eq, Structural)]
pub enum FileKind {
    /// A symlink.
    Symlink,
    /// A directory.
    Directory,
    /// A file.
    File,
    /// Anything else.
    Other,
}

/// What looking up the path of an entry in the file system found.
#[derive(Debug, Clone, Copy, PartialEq, Eq, Structural)]
pub enum Presence {
    /// The path could not be resolved to a location in the file system.
    Unresolved,
    /// Nothing exists at the location.
    Missing,
    /// Something exists at the location, but its type could not be read.
    Unreadable,
    /// A file of this type exists at the location.
    Found(FileKind),
}

/// Whether an entry of type `file_type` is kept, given what was found at its path: an entry
/// whose path cannot be resolved, or whose type cannot be read, is kept; one whose file is
/// missing is dropped; otherwise the type found must be the entry's.
pub open spec fn spec_still_present(file_type: HashTreeFileEntryType, presence: Presence) -> bool {
    match presence {
        Presence::Unresolved => true,
        Presence::Missing => false,
        Presence::Unreadable => true,
        Presence::Found(kind) => match kind {
            FileKind::Symlink => file_type == HashTreeFileEntryType::Symlink,
            FileKind::Directory => file_type == HashTreeFileEntryType::Directory,
            FileKind::File => file_type == HashTreeFileEntryType::File,
            FileKind::Other => file_type == HashTreeFileEntryType::Other,
        },
    }
}

/// Whether an entry of type `file_type` is kept (see `spec_still_present`).
pub fn still_present(file_type: HashTreeFileEntryType, presence: Presence) -> (r: bool)
    ensures
        r == spec_still_present(file_type, presence),
{
    match presence {
        Presence::Unresolved => true,
        Presence::Missing => false,
        Presence::Unreadable => true,
        Presence::Found(kind) => match kind {
            FileKind::Symlink => file_type == HashTreeFileEntryType::Symlink,
            FileKind::Directory => file_type == HashTreeFileEntryType::Directory,
            FileKind::File => file_type == HashTreeFileEntryType::File,
            FileKind::Other => file_type == HashTreeFileEntryType::Other,
        },
    }
}

/// The first `n` entries that are kept, given what was found at their paths.
pub open spec fn spec_kept_entries(entries: Seq<HashTreeFileEntryView>, presence: Seq<Presence>, n: int) -> Seq<HashTreeFileEntryView>
    decreases n,
{
    if n <= 0 {
        Seq::empty()
    } else {
        let prev = spec_kept_entries(entries, presence, n - 1);
        if spec_still_present(entries[n - 1].file_type, presence[n - 1]) {
            prev.push(entries[n - 1])
        } else {
            prev
        }
    }
}

/// Loads into `file` the entries read from the hash tree file that are kept, given what was
/// found at their paths: those still present, of them those whose hash the file accepts, in
/// order.
pub fn load_present_entries(file: &mut HashTreeFile, entries: Vec<HashTreeFileEntry>, presence: &Vec<Presence>)
    requires
        old(file).wf(),
        presence@.len() == entries@.len(),
    ensures
        final(file).wf(),
        final(file).header == old(file).header,
        final(file).written() == old(file).written(),
        final(file).index.state() == spec_insert_all::<HashTreeFileEntry>(
            old(file).index.state(),
            spec_kept_entries(entries.deep_view(), presence@, entries@.len() as int).filter(
                |e: HashTreeFileEntryView|
                    spec_hash_type_accepted(
                        old(file).header.hash_type,
                        e.hash.0,
                        e.file_type == HashTreeFileEntryType::Other,
                    ),
            ),
        ),
{
    let ghost ev = entries.deep_view();
    let mut kept: Vec<HashTreeFileEntry> = Vec::new();
    let mut k: usize = 0;
    while k < entries.len()
        invariant
            ev == entries.deep_view(),
            presence@.len() == ev.len(),
            k <= ev.len(),
            kept.deep_view() == spec_kept_entries(ev, presence@, k as int),
        decreases ev.len() - k,
    {
        let e = &entries[k];
        assert(ev[k as int] == e.deep_view());
        if still_present(e.file_type, presence[k]) {
            let ghost before = kept.deep_view();
            kept.push(e.duplicate());
            assert(kept.deep_view() =~= before.push(ev[k as int]));
        }
        k = k + 1;
    }
    file.load_all_entries_no_filter(kept);
}


/// Whether something of the kind `kind` found at a path is a file of the entry type `t`.
pub open spec fn spec_kind_is_type(kind: FileKind, t: HashTreeFileEntryType) -> bool {
    ||| kind == FileKind::File && t == HashTreeFileEntryType::File
    ||| kind == FileKind::Directory && t == HashTreeFileEntryType::Directory
    ||| kind == FileKind::Symlink && t == HashTreeFileEntryType::Symlink
    ||| kind == FileKind::Other && t == HashTreeFileEntryType::Other
}

/// Cleaning keeps exactly the entries whose files still exist as what the entries say they
/// are, and those that cannot be checked: of the first `n` entries, every kept one is an
/// entry at whose path nothing is missing and no file of another type was found, and every
/// such entry is kept. In particular an entry, of any type, whose file is gone is dropped.
pub proof fn law_clean_keeps_present_entries(entries: Seq<HashTreeFileEntryView>, presence: Seq<Presence>, n: int)
    requires
        0 <= n <= entries.len(),
        presence.len() == entries.len(),
    ensures
        forall|k: int| 0 <= k < spec_kept_entries(entries, presence, n).len() ==> exists|i: int|
            0 <= i < n && #[trigger] spec_kept_entries(entries, presence, n)[k] == entries[i] && presence[i]
                != Presence::Missing && (presence[i] matches Presence::Found(kind) ==> spec_kind_is_type(
                kind,
                entries[i].file_type,
            )),
        forall|i: int|
            0 <= i < n && presence[i] != Presence::Missing && (presence[i] matches Presence::Found(kind)
                ==> spec_kind_is_type(kind, entries[i].file_type)) ==> spec_kept_entries(entries, presence, n).contains(
                #[trigger] entries[i],
            ),
    decreases n,
{
    if n > 0 {
        law_clean_keeps_present_entries(entries, presence, n - 1);
        let prev = spec_kept_entries(entries, presence, n - 1);
        let cur = spec_kept_entries(entries, presence, n);
        assert forall|k: int| 0 <= k < cur.len() implies exists|i: int|
            0 <= i < n && #[trigger] cur[k] == entries[i] && presence[i] != Presence::Missing && (presence[i] matches Presence::Found(kind)
                ==> spec_kind_is_type(kind, entries[i].file_type)) by {
            if k < prev.len() {
                assert(cur[k] == prev[k]);
                let i = choose|i: int| 0 <= i < n - 1 && #[trigger] prev[k] == entries[i] && presence[i] != Presence::Missing
                    && (presence[i] matches Presence::Found(kind) ==> spec_kind_is_type(kind, entries[i].file_type));
                assert(cur[k] == entries[i]);
            } else {
                assert(cur[k] == entries[n - 1]);
            }
        }
        assert forall|i: int|
            0 <= i < n && presence[i] != Presence::Missing && (presence[i] matches Presence::Found(kind)
                ==> spec_kind_is_type(kind, entries[i].file_type)) implies cur.contains(#[trigger] entries[i]) by {
            if i < n - 1 {
                assert(prev.contains(entries[i]));
                let k = choose|k: int| 0 <= k < prev.len() && prev[k] == entries[i];
                assert(cur[k] == prev[k]);
            } else {
                assert(cur[cur.len() - 1] == entries[i]);
            }
        }
    }
}

} // verus!
