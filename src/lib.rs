//! A persistent, content-addressed catalog of files and directories: a flat
//! parent-indexed node store, its ingestion from filesystem walks, size and
//! hash propagation, pruning, persistence and duplicate queries.
pub mod crawl;
pub mod digest;
pub mod index;
pub mod ops;
pub mod path;
pub mod persist;
pub mod prune;
pub mod propagate;
pub mod query;
pub mod report;
pub mod sort;
pub mod store;

pub use crate::ops::{add, mv, update};
pub use crate::query::{all_files_elsewhere, dedup};
pub use crate::report::{dump, dump_full, stats};
