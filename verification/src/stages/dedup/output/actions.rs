//! The actions the deduplication plans: files and directories to remove, each with the
//! duplicates that remain.

use crate::hash::{GeneralHash, HashView};
use crate::path::{copy_paths, FilePath, PathView};
use vstd::prelude::*;

verus! {

/// The version of the file of deduplication actions.
#[derive(Debug, Clone, Copy, PartialEq, Eq, Structural)]
pub enum DeduplicationActionVersion {
    /// Version 1 of the file format.
    V1,
}

/// The file of deduplication actions.
#[derive(Debug, Clone)]
pub struct DeduplicationActions {
    /// The version of the file format.
    pub version: DeduplicationActionVersion,
    /// The deduplication actions.
    pub actions: Vec<DeduplicationAction>,
}

/// An action to take to deduplicate files. The remaining duplicates are not removed.
#[derive(Debug, Clone, PartialEq, Eq, Hash)]
pub enum DeduplicationAction {
    /// Remove a file.
    RemoveFile {
        /// The path of the file to remove.
        path: FilePath,
        /// The other duplicates that remain; the file may be hard-linked to one of them in
        /// place of being deleted.
        remaining_duplicates: Vec<FilePath>,
        /// The hash of the file to remove.
        hash: GeneralHash,
        /// The size of the file to remove.
        size: u64,
        /// The last modification time.
        modification_time: u64,
    },
    /// Remove a directory.
    RemoveDirectory {
        /// The path of the directory to remove.
        path: FilePath,
        /// The other duplicates that remain; the directory may be symlinked to one of them in
        /// place of being deleted.
        remaining_duplicates: Vec<FilePath>,
        /// The hash of the directory to remove.
        hash: GeneralHash,
        /// The number of children.
        children: u64,
        /// The last modification time.
        modification_time: u64,
    },
}

/// The mathematical value of an action: whether it removes a directory, the path, the
/// remaining duplicates, the hash, the size or number of children, and the modification
/// time.
pub type ActionView = (bool, PathView, Seq<PathView>, HashView, u64, u64);

impl DeepView for DeduplicationAction {
    type V = ActionView;

    open spec fn deep_view(&self) -> ActionView {
        match self {
            DeduplicationAction::RemoveFile { path, remaining_duplicates, hash, size, modification_time } => (
                false,
                path@,
                remaining_duplicates.deep_view(),
                hash@,
                *size,
                *modification_time,
            ),
            DeduplicationAction::RemoveDirectory { path, remaining_duplicates, hash, children, modification_time } => (
                true,
                path@,
                remaining_duplicates.deep_view(),
                hash@,
                *children,
                *modification_time,
            ),
        }
    }
}

impl DeduplicationAction {
    /// The path to remove.
    pub fn path(&self) -> (r: &FilePath)
        ensures
            r@ == self.deep_view().1,
    {
        match self {
            DeduplicationAction::RemoveFile { path, .. } => path,
            DeduplicationAction::RemoveDirectory { path, .. } => path,
        }
    }

    /// The duplicates that remain.
    pub fn remaining_duplicates(&self) -> (r: &Vec<FilePath>)
        ensures
            r.deep_view() == self.deep_view().2,
    {
        match self {
            DeduplicationAction::RemoveFile { remaining_duplicates, .. } => remaining_duplicates,
            DeduplicationAction::RemoveDirectory { remaining_duplicates, .. } => remaining_duplicates,
        }
    }

    /// The hash of what is removed.
    pub fn hash(&self) -> (r: &GeneralHash)
        ensures
            r@ == self.deep_view().3,
    {
        match self {
            DeduplicationAction::RemoveFile { hash, .. } => hash,
            DeduplicationAction::RemoveDirectory { hash, .. } => hash,
        }
    }

    /// The size of the file, or the number of children of the directory.
    pub fn size(&self) -> (r: u64)
        ensures
            r == self.deep_view().4,
    {
        match self {
            DeduplicationAction::RemoveFile { size, .. } => *size,
            DeduplicationAction::RemoveDirectory { children, .. } => *children,
        }
    }

    /// The last modification time.
    pub fn modification_time(&self) -> (r: u64)
        ensures
            r == self.deep_view().5,
    {
        match self {
            DeduplicationAction::RemoveFile { modification_time, .. } => *modification_time,
            DeduplicationAction::RemoveDirectory { modification_time, .. } => *modification_time,
        }
    }

    /// A copy of the action.
    pub fn duplicate(&self) -> (r: DeduplicationAction)
        ensures
            r.deep_view() == self.deep_view(),
    {
        match self {
            DeduplicationAction::RemoveFile { path, remaining_duplicates, hash, size, modification_time } => {
                DeduplicationAction::RemoveFile {
                    path: path.duplicate(),
                    remaining_duplicates: copy_paths(remaining_duplicates),
                    hash: hash.duplicate(),
                    size: *size,
                    modification_time: *modification_time,
                }
            },
            DeduplicationAction::RemoveDirectory { path, remaining_duplicates, hash, children, modification_time } => {
                DeduplicationAction::RemoveDirectory {
                    path: path.duplicate(),
                    remaining_duplicates: copy_paths(remaining_duplicates),
                    hash: hash.duplicate(),
                    children: *children,
                    modification_time: *modification_time,
                }
            },
        }
    }
}

} // verus!
