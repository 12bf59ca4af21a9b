//! An index of a directory tree: its files and directories, kept as two lists
//! sorted by path, with queries for sub-trees, differences and duplicates.
pub mod path;
pub mod model;
pub mod sorted;
pub mod index;
pub mod diff;
pub mod allowlist;
pub mod duplicates;
pub mod builder;
pub mod duplicate_dirs;
pub mod progress;
