//! Names and constants shared by the whole library.
use vstd::prelude::*;

verus! {

/// A hashed key as it is stored in buckets.
pub type HashedKey = u64;

/// The type of the values associated with each key.
pub type Value = u128;

/// The number of bytes in a key.
pub const HASHED_KEY_SIZE: usize = 8;

/// The magic number that starts every bucket.
pub const MAGIC: u32 = 0x594e4e4a;

/// The current version of the bucket format.
pub const VERSION: u32 = 0;

/// The default distance, in entries, between two samples of the sparse index:
/// the number of dense-index records in 4096 bytes.
pub const DEFAULT_SPARSE_INDEX_STEP: usize = 256;

/// The LZ4 compression level of the value blobs.
pub const COMPRESSION_LEVEL: u32 = 10;

/// The size of one dense-index record: a key and an offset.
pub const INDEX_ENTRY_SIZE: usize = 16;

/// The size of the bucket header.
pub const HEADER_SIZE: usize = 48;

} // verus!
