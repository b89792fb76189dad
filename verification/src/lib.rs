//! Locates executable files under a set of root directories, caches the
//! result in a flat line-oriented text file that is refreshed on a
//! time-to-live basis, and offers a substring search over the cached list.
//!
//! The library holds the verified logic: the directory-tree scan, the
//! freshness decision, the cache line format and its parser, and the search.
//! All file, clock and process access stays with the caller, which hands the
//! library plain values (lines, ages, directory trees) and takes plain
//! values back.

pub mod cache;
pub mod config;
pub mod entry;
pub mod scanner;
pub mod text;
