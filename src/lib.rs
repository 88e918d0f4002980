//! Directory size reporting: recursive size aggregation over a snapshot of a
//! file tree, with hard-link deduplication and symlink exclusion, a bounded
//! top-N tree view, and a threshold scan over configured roots.

pub mod config;
pub mod error;
pub mod snapshot;
pub mod search;
pub mod ranking;
mod size_map;
pub mod tree;
