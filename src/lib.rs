//! Discovery of installations of a multi-file runtime: candidate paths found by a
//! path search are filtered to regular files, grouped by parent directory, and merged
//! into a registry of installations keyed and ordered by directory, each measured once.
pub mod disk_usage;
pub mod path_index;
pub mod paths;
pub mod registry;
pub mod search;
pub mod size_format;
