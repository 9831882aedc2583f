//! The entries of hash tree files made from the files a worker reports.

use crate::hash::{null_hash, GeneralHash, HashView};
use crate::stages::build::intermediary_build_data::BuildFile;
use crate::stages::build::output::{HashTreeFileEntry, HashTreeFileEntryRef, HashTreeFileEntryType, HashTreeFileEntryView};
use vstd::prelude::*;

verus! {

/// The content hashes of files, in order.
pub open spec fn build_hashes(s: Seq<BuildFile>) -> Seq<HashView> {
    s.map_values(|f: BuildFile| f.spec_content_hash())
}

/// The hashes of the files `files`, in order.
fn collect_content_hashes(files: &Vec<BuildFile>) -> (r: Vec<GeneralHash>)
    ensures
        r.deep_view() == build_hashes(files@),
{
    let mut r: Vec<GeneralHash> = Vec::with_capacity(files.len());
    let mut i: usize = 0;
    while i < files.len()
        invariant
            i <= files@.len(),
            r@.len() == i,
            forall|k: int| 0 <= k < i ==> (#[trigger] r@[k])@ == files@[k].spec_content_hash(),
        decreases files@.len() - i,
    {
        r.push(files[i].get_content_hash());
        i = i + 1;
    }
    assert(r.deep_view() =~= build_hashes(files@));
    r
}

/// The entry a reported file becomes: a regular or archive file is a file entry, with the
/// hashes of the archive's files as archive children; a directory is a directory entry with
/// its number of children as size and their hashes as children; a symlink is a symlink
/// entry; another file is an other entry with the `NULL` hash; a stub is an other entry with
/// its hash, modified at 0, of size 0.
pub open spec fn spec_entry_of(value: BuildFile) -> HashTreeFileEntryView {
    match value {
        BuildFile::File(info) => HashTreeFileEntryView {
            file_type: HashTreeFileEntryType::File,
            modified: info.modified,
            size: info.content_size,
            hash: info.content_hash@,
            path: info.path@,
            children: Seq::empty(),
            archive_children: Seq::empty(),
            archive_inner_hash: None,
        },
        BuildFile::ArchiveFile(info) => HashTreeFileEntryView {
            file_type: HashTreeFileEntryType::File,
            modified: info.modified,
            size: info.content_size,
            hash: info.content_hash@,
            path: info.path@,
            children: Seq::empty(),
            archive_children: build_hashes(info.children@),
            archive_inner_hash: None,
        },
        BuildFile::Symlink(info) => HashTreeFileEntryView {
            file_type: HashTreeFileEntryType::Symlink,
            modified: info.modified,
            size: info.content_size,
            hash: info.content_hash@,
            path: info.path@,
            children: Seq::empty(),
            archive_children: Seq::empty(),
            archive_inner_hash: None,
        },
        BuildFile::Directory(info) => HashTreeFileEntryView {
            file_type: HashTreeFileEntryType::Directory,
            modified: info.modified,
            size: info.number_of_children,
            hash: info.content_hash@,
            path: info.path@,
            children: build_hashes(info.children@),
            archive_children: Seq::empty(),
            archive_inner_hash: None,
        },
        BuildFile::Other(info) => HashTreeFileEntryView {
            file_type: HashTreeFileEntryType::Other,
            modified: info.modified,
            size: info.content_size,
            hash: null_hash(),
            path: info.path@,
            children: Seq::empty(),
            archive_children: Seq::empty(),
            archive_inner_hash: None,
        },
        BuildFile::Stub(info) => HashTreeFileEntryView {
            file_type: HashTreeFileEntryType::Other,
            modified: 0,
            size: 0,
            hash: info.content_hash@,
            path: info.path@,
            children: Seq::empty(),
            archive_children: Seq::empty(),
            archive_inner_hash: None,
        },
    }
}

impl HashTreeFileEntry {
    /// The entry a reported file becomes (see `spec_entry_of`).
    pub fn from(value: BuildFile) -> (r: HashTreeFileEntry)
        ensures
            r.deep_view() == spec_entry_of(value),
    {
        let empty_children: Vec<GeneralHash> = Vec::new();
        let empty_archive: Vec<GeneralHash> = Vec::new();
        assert(empty_children.deep_view() =~= Seq::<HashView>::empty());
        assert(empty_archive.deep_view() =~= Seq::<HashView>::empty());
        match value {
            BuildFile::File(info) => HashTreeFileEntry {
                file_type: HashTreeFileEntryType::File,
                modified: info.modified,
                size: info.content_size,
                hash: info.content_hash,
                path: info.path,
                children: empty_children,
                archive_children: empty_archive,
                archive_inner_hash: None,
            },
            BuildFile::ArchiveFile(info) => HashTreeFileEntry {
                file_type: HashTreeFileEntryType::File,
                modified: info.modified,
                size: info.content_size,
                archive_children: collect_content_hashes(&info.children),
                hash: info.content_hash,
                path: info.path,
                children: empty_children,
                archive_inner_hash: None,
            },
            BuildFile::Symlink(info) => HashTreeFileEntry {
                file_type: HashTreeFileEntryType::Symlink,
                modified: info.modified,
                size: info.content_size,
                hash: info.content_hash,
                path: info.path,
                children: empty_children,
                archive_children: empty_archive,
                archive_inner_hash: None,
            },
            BuildFile::Directory(info) => HashTreeFileEntry {
                file_type: HashTreeFileEntryType::Directory,
                modified: info.modified,
                size: info.number_of_children,
                children: collect_content_hashes(&info.children),
                hash: info.content_hash,
                path: info.path,
                archive_children: empty_archive,
                archive_inner_hash: None,
            },
            BuildFile::Other(info) => HashTreeFileEntry {
                file_type: HashTreeFileEntryType::Other,
                modified: info.modified,
                size: info.content_size,
                hash: GeneralHash::null(),
                path: info.path,
                children: empty_children,
                archive_children: empty_archive,
                archive_inner_hash: None,
            },
            BuildFile::Stub(info) => HashTreeFileEntry {
                file_type: HashTreeFileEntryType::Other,
                modified: 0,
                size: 0,
                hash: info.content_hash,
                path: info.path,
                children: empty_children,
                archive_children: empty_archive,
                archive_inner_hash: None,
            },
        }
    }
}

impl<'a> HashTreeFileEntryRef<'a> {
    /// A borrowed view of the entry `value`, written without its children.
    pub fn from(value: &'a HashTreeFileEntry) -> (r: HashTreeFileEntryRef<'a>)
        ensures
            *r.file_type == value.file_type,
            *r.modified == value.modified,
            *r.hash == value.hash,
            *r.path == value.path,
            *r.size == value.size,
            r.children@.len() == 0,
    {
        HashTreeFileEntryRef {
            file_type: &value.file_type,
            modified: &value.modified,
            hash: &value.hash,
            path: &value.path,
            size: &value.size,
            children: Vec::new(),
        }
    }
}

} // verus!
