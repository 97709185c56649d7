//! Core of a disk-usage analyzer: a directory tree that accumulates
//! per-node and per-subtree physical disk usage with lazy, dirty-flag-driven
//! recomputation, an inode deduplication set so hard-linked files are counted
//! once, a device filter so the scan stays on one filesystem, and a work
//! queue that drives the recursive directory walk.

pub mod file_directory;
pub mod navigate;
pub mod thread_pool;
pub mod utils;
