//! Incremental, cache-aware snippet indexing.
//!
//! A pass walks the entries of a repository, derives a content-addressed cache
//! key for each of them, skips what the cache snapshot already holds, builds
//! line-range snippets for the files that changed, and finally reconciles the
//! cache store with what the pass saw.
use vstd::prelude::*;

pub mod hashing;
pub mod text;
pub mod repo;
pub mod cache;
pub mod document;
pub mod writer;
pub mod indexer;
pub mod laws;
pub mod web_search;

verus! {

} // verus!
