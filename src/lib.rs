//! An immutable on-disk bucket that maps 64-bit hashed keys to sets of
//! 128-bit values, with a two-level index: a sparse index held in memory
//! brackets each key to a short slice of the dense index, whose record
//! points at the key's compressed value set.
//!
//! A bucket is built once from an ordered map (`writer`), then only read
//! (`bucket`). Two buckets can be merged into a third (`merge`), and a
//! bucket can be rewritten without some values (`delete`). `db` files
//! buckets by the day they were made. `laws` states and proves what holds
//! across these operations.

pub mod bucket;
pub mod clock;
pub mod codec;
pub mod db;
pub mod delete;
pub mod error;
pub mod format;
pub mod frame;
pub mod laws;
pub mod merge;
pub mod prelude;
pub mod sparse;
pub mod writer;
