//! The files a worker reports while building a hash tree, before they are written out.

use crate::hash::{null_hash, GeneralHash, HashView};
use crate::path::{FilePath, PathView};
use vstd::prelude::*;

verus! {

/// Information about an analyzed file.
#[derive(Debug)]
pub struct BuildFileInformation {
    /// The path of the file.
    pub path: FilePath,
    /// The last modification time of the file.
    pub modified: u64,
    /// The hash of the file content.
    pub content_hash: GeneralHash,
    /// The size of the file content.
    pub content_size: u64,
}

/// Information about an analyzed archive file.
#[derive(Debug)]
pub struct BuildArchiveFileInformation {
    /// The path of the archive file.
    pub path: FilePath,
    /// The last modification time of the archive file.
    pub modified: u64,
    /// The hash of the archive file content.
    pub content_hash: GeneralHash,
    /// The size of the archive file content.
    pub content_size: u64,
    /// The children of the archive file.
    pub children: Vec<BuildFile>,
}

/// Information about an analyzed directory.
#[derive(Debug)]
pub struct BuildDirectoryInformation {
    /// The path of the directory.
    pub path: FilePath,
    /// The last modification time of the directory.
    pub modified: u64,
    /// The hash of the directory content.
    pub content_hash: GeneralHash,
    /// The number of children in the directory.
    pub number_of_children: u64,
    /// The children of the directory.
    pub children: Vec<BuildFile>,
}

/// Information about an analyzed symlink.
#[derive(Debug)]
pub struct BuildSymlinkInformation {
    /// The path of the symlink.
    pub path: FilePath,
    /// The last modification time of the symlink.
    pub modified: u64,
    /// The hash of the symlink content: that of the target file, or, if symlinks are not
    /// followed, that of the target's path.
    pub content_hash: GeneralHash,
    /// The target of the symlink, as a list of names.
    pub target: Vec<String>,
    /// The size of the symlink content.
    pub content_size: u64,
}

/// Information about an analyzed file that is not a regular file, directory, or symlink:
/// sockets, block devices, character devices, or a file for which permissions are missing.
#[derive(Debug)]
pub struct BuildOtherInformation {
    /// The path of the file.
    pub path: FilePath,
    /// The last modification time of the file.
    pub modified: u64,
    /// The size of the file content.
    pub content_size: u64,
}

/// Information about a file that is not kept in memory but saved to disk.
#[derive(Debug)]
pub struct BuildStubInformation {
    /// The path of the file.
    pub path: FilePath,
    /// The hash of the file content.
    pub content_hash: GeneralHash,
}

/// A file that has been analyzed.
#[derive(Debug)]
pub enum BuildFile {
    /// A regular file.
    File(BuildFileInformation),
    /// An archive file (special variant of file, including subtree).
    ArchiveFile(BuildArchiveFileInformation),
    /// A directory.
    Directory(BuildDirectoryInformation),
    /// A symlink.
    Symlink(BuildSymlinkInformation),
    /// A file that is not a regular file, directory, or symlink, or a file for which
    /// permissions are missing.
    Other(BuildOtherInformation),
    /// A file that is not kept in memory but already saved to disk in the hash tree file.
    Stub(BuildStubInformation),
}

impl BuildFile {
    /// The hash of the file; the `NULL` hash for other files.
    pub open spec fn spec_content_hash(&self) -> HashView {
        match self {
            BuildFile::File(info) => info.content_hash@,
            BuildFile::ArchiveFile(info) => info.content_hash@,
            BuildFile::Directory(info) => info.content_hash@,
            BuildFile::Symlink(info) => info.content_hash@,
            BuildFile::Other(_) => null_hash(),
            BuildFile::Stub(info) => info.content_hash@,
        }
    }

    /// The path of the file.
    pub open spec fn spec_path(&self) -> PathView {
        match self {
            BuildFile::File(info) => info.path@,
            BuildFile::ArchiveFile(info) => info.path@,
            BuildFile::Directory(info) => info.path@,
            BuildFile::Symlink(info) => info.path@,
            BuildFile::Other(info) => info.path@,
            BuildFile::Stub(info) => info.path@,
        }
    }

    /// The hash of the file; the `NULL` hash for other files.
    pub fn get_content_hash(&self) -> (r: GeneralHash)
        ensures
            r@ == self.spec_content_hash(),
    {
        match self {
            BuildFile::File(info) => info.content_hash.duplicate(),
            BuildFile::ArchiveFile(info) => info.content_hash.duplicate(),
            BuildFile::Directory(info) => info.content_hash.duplicate(),
            BuildFile::Symlink(info) => info.content_hash.duplicate(),
            BuildFile::Other(_) => GeneralHash::null(),
            BuildFile::Stub(info) => info.content_hash.duplicate(),
        }
    }

    /// The path of the file.
    pub fn get_path(&self) -> (r: &FilePath)
        ensures
            r@ == self.spec_path(),
    {
        match self {
            BuildFile::File(info) => &info.path,
            BuildFile::ArchiveFile(info) => &info.path,
            BuildFile::Directory(info) => &info.path,
            BuildFile::Symlink(info) => &info.path,
            BuildFile::Other(info) => &info.path,
            BuildFile::Stub(info) => &info.path,
        }
    }

    /// Whether this is a directory.
    pub fn is_directory(&self) -> (r: bool)
        ensures
            r == self is Directory,
    {
        matches!(self, BuildFile::Directory(_))
    }

    /// Whether this is a symlink.
    pub fn is_symlink(&self) -> (r: bool)
        ensures
            r == self is Symlink,
    {
        matches!(self, BuildFile::Symlink(_))
    }

    /// Whether this is a file: a regular file or an archive file.
    pub fn is_file(&self) -> (r: bool)
        ensures
            r == (self is File || self is ArchiveFile),
    {
        matches!(self, BuildFile::File(_) | BuildFile::ArchiveFile(_))
    }

    /// Whether this is an archive file.
    pub fn is_archive(&self) -> (r: bool)
        ensures
            r == self is ArchiveFile,
    {
        matches!(self, BuildFile::ArchiveFile(_))
    }

    /// Whether this is an "other" file.
    pub fn is_other(&self) -> (r: bool)
        ensures
            r == self is Other,
    {
        matches!(self, BuildFile::Other(_))
    }

    /// Whether this is a stub file.
    pub fn is_stub(&self) -> (r: bool)
        ensures
            r == self is Stub,
    {
        matches!(self, BuildFile::Stub(_))
    }
}

} // verus!
