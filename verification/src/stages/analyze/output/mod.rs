//! The output of the analysis stage.

pub mod dupset_file;

pub use dupset_file::{
    ConflictingEntry, ConflictingEntryRef, DupSetEntry, DupSetEntryRef, DupSetFile, DupSetFileRef,
    DupSetFileVersion,
};
