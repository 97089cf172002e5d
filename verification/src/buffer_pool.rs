//! A cache of pages in frames, split into shards.

pub mod answers;
pub mod ledger;
pub mod manager;
pub mod replacer;
pub mod shard;
