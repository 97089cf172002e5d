//! Sizes and identifiers shared by the whole engine.

use vstd::prelude::*;

verus! {

/// Size of a page in bytes.
pub const MAX_PAGE_SIZE: usize = 4096;

/// Number of frames in the buffer pool, over all shards.
pub const MAX_FRAMES: usize = 80;

/// The page id of a frame that holds no page.
pub const INVALID_FRAME_ID: u64 = 0xffff_ffff_ffff_ffff;

/// Number of buffer pool shards.
pub const NUM_SHARDS: usize = 8;

/// Mask that maps a page id to its shard.
pub const SHARD_MASK: u64 = 7;

/// Longest encoded key, in bytes, that the index stores.
pub const MAX_KEY_SIZE: usize = 512;

/// Longest encoded value, in bytes, that the index stores.
pub const MAX_VALUE_SIZE: usize = 1024;

} // verus!
