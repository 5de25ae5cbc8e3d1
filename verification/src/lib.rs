//! A verified core for a browsable catalog of gzipped tape archives.
//!
//! The library indexes the members of `.tar.gz` archives into a persistent
//! key-value store under stable virtual inode numbers, answers directory
//! and attribute queries for a read-only filesystem view, and serves byte
//! ranges of archive members through a lazily materialized extraction cache.

pub mod numbers;
pub mod strings;
pub mod entry;
pub mod codec;
pub mod store;
pub mod listing;
pub mod catalog;
pub mod vfs;
pub mod request;
pub mod laws;
