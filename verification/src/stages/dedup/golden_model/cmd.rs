//! The settings of the golden model deduplication, and how directories are matched.

use vstd::prelude::*;

verus! {

/// The settings of the golden model deduplication.
pub struct DedupGoldenModelSettings {
    /// The analysis file to plan the deduplication for.
    pub input: Vec<String>,
    /// The file to write the deduplication actions to.
    pub output: Vec<String>,
    /// The reference model directory.
    pub reference_model: String,
    /// The directories to remove files from.
    pub directories: Vec<String>,
}

/// How directories given by the user are matched against paths.
#[derive(Debug, Clone, Copy, PartialEq, Eq, Structural)]
pub enum MatchingModel {
    /// The directory is a regular expression.
    Regex,
    /// The directory is a plain prefix.
    Plain,
}

} // verus!
