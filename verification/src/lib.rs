//! Backup deduplication: the data model and the decisions of the tool that builds hash
//! trees of directory structures, finds duplicated files and folders in them, plans which
//! duplicates to remove and carries the plan out.

pub mod hash;
pub mod order;
pub mod path;
pub mod stages;
pub mod utils;
