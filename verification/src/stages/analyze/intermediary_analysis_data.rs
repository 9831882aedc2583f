//! The files of a hash tree file that the analysis looks at, linked to their parents.

use crate::hash::{null_hash, GeneralHash, HashView};
use crate::path::{FilePath, PathView};
use vstd::prelude::*;

verus! {

/// A file that the analysis looks at.
#[derive(Debug)]
pub enum AnalysisFile {
    File(AnalysisFileInformation),
    Directory(AnalysisDirectoryInformation),
    Symlink(AnalysisSymlinkInformation),
    Other(AnalysisOtherInformation),
}

/// A regular file that the analysis looks at.
#[derive(Debug)]
pub struct AnalysisFileInformation {
    /// The path of the file.
    pub path: FilePath,
    /// The hash of the file content.
    pub content_hash: GeneralHash,
    /// The path of the directory that holds the file, once linked.
    pub parent: Option<FilePath>,
}

/// A directory that the analysis looks at.
#[derive(Debug)]
pub struct AnalysisDirectoryInformation {
    /// The path of the directory.
    pub path: FilePath,
    /// The hash of the directory content.
    pub content_hash: GeneralHash,
    /// The paths of the children linked to the directory, in the order they were linked.
    pub children: Vec<FilePath>,
    /// The path of the directory that holds the directory, once linked.
    pub parent: Option<FilePath>,
}

/// A symlink that the analysis looks at.
#[derive(Debug)]
pub struct AnalysisSymlinkInformation {
    /// The path of the symlink.
    pub path: FilePath,
    /// The hash of the symlink content.
    pub content_hash: GeneralHash,
    /// The path of the directory that holds the symlink, once linked.
    pub parent: Option<FilePath>,
}

/// Another file that the analysis looks at.
#[derive(Debug)]
pub struct AnalysisOtherInformation {
    /// The path of the file.
    pub path: FilePath,
    /// The path of the directory that holds the file, once linked.
    pub parent: Option<FilePath>,
}

impl AnalysisFile {
    /// The path of the directory that holds the file, once linked.
    pub open spec fn spec_parent(&self) -> Option<PathView> {
        match self {
            AnalysisFile::File(info) => info.parent.deep_view(),
            AnalysisFile::Directory(info) => info.parent.deep_view(),
            AnalysisFile::Symlink(info) => info.parent.deep_view(),
            AnalysisFile::Other(info) => info.parent.deep_view(),
        }
    }

    /// The path of the file.
    pub open spec fn spec_path(&self) -> PathView {
        match self {
            AnalysisFile::File(info) => info.path@,
            AnalysisFile::Directory(info) => info.path@,
            AnalysisFile::Symlink(info) => info.path@,
            AnalysisFile::Other(info) => info.path@,
        }
    }

    /// The hash of the file; none for other files.
    pub open spec fn spec_hash(&self) -> Option<HashView> {
        match self {
            AnalysisFile::File(info) => Some(info.content_hash@),
            AnalysisFile::Directory(info) => Some(info.content_hash@),
            AnalysisFile::Symlink(info) => Some(info.content_hash@),
            AnalysisFile::Other(_) => None,
        }
    }

    /// The paths of the children linked to a directory; none for other kinds.
    pub open spec fn spec_children(&self) -> Seq<PathView> {
        match self {
            AnalysisFile::Directory(info) => info.children.deep_view(),
            _ => Seq::empty(),
        }
    }

    /// The path of the directory that holds the file, once linked.
    pub fn parent(&self) -> (r: &Option<FilePath>)
        ensures
            r.deep_view() == self.spec_parent(),
    {
        match self {
            AnalysisFile::File(info) => &info.parent,
            AnalysisFile::Directory(info) => &info.parent,
            AnalysisFile::Symlink(info) => &info.parent,
            AnalysisFile::Other(info) => &info.parent,
        }
    }

    /// The path of the file.
    pub fn path(&self) -> (r: &FilePath)
        ensures
            r@ == self.spec_path(),
    {
        match self {
            AnalysisFile::File(info) => &info.path,
            AnalysisFile::Directory(info) => &info.path,
            AnalysisFile::Symlink(info) => &info.path,
            AnalysisFile::Other(info) => &info.path,
        }
    }
}

} // verus!
