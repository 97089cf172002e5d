//! A storage engine: pages, a write-ahead log, a buffer pool, a B+Tree with row versions,
//! and transactions with snapshot isolation.

pub mod buffer_pool;
pub mod bytes;
pub mod constants;
pub mod crc;
pub mod disk;
pub mod engine;
pub mod error;
pub mod index;
pub mod page;
pub mod recovery;
pub mod transaction;
pub mod transaction_manager;
pub mod types;
pub mod wal;
