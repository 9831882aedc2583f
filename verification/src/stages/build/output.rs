//! The hash tree file: its entries and the in-memory index of a loaded file.

pub mod converter;
pub mod entry_index;
pub mod hashtree_file;
pub mod hashtreefile;

pub use hashtreefile::{
    HashTreeFile, HashTreeFileEntry, HashTreeFileEntryRef, HashTreeFileEntryType,
    HashTreeFileEntryTypeV1, HashTreeFileEntryV1, HashTreeFileEntryV1Ref, HashTreeFileEntryView,
    HashTreeFileHeader, HashTreeFileVersion,
};
