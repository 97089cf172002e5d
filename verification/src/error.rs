//! Error types of every layer.

use vstd::prelude::*;

verus! {

/// What went wrong in an input or output operation of the host system.
#[derive(Debug, Clone, Copy, PartialEq, Eq, Structural)]
pub enum IoError {
    /// The file ended before the requested bytes.
    UnexpectedEof,
    /// The operation failed for another reason.
    Failed,
}

/// Errors of disk operations.
#[derive(Debug, Clone, Copy, PartialEq, Eq, Structural)]
pub enum DiskError {
    /// An underlying I/O error.
    Io(IoError),
    /// The buffer's size does not match the configured page size.
    InvalidPageSize,
}

/// Why a log could not be read or written.
#[derive(Debug, Clone, Copy, PartialEq, Eq, Structural)]
pub enum WalError {
    Io(IoError),
    ChecksumMismatch { lsn: u64, expected: u32, actual: u32 },
    CorruptedLog(LogDamage),
    RecordTooLarge { lsn: u64, record_len: usize, capacity: usize },
    BufferFull { needed: usize, available: usize },
    FlushFailed(IoError),
    InvalidEntryType(u8),
    InvalidLsn,
    Disk(DiskError),
}

/// What makes a log useless that can be read.
#[derive(Debug, Clone, Copy, PartialEq, Eq, Structural)]
pub enum LogDamage {
    /// The record with this number does not fit the page that it names.
    RecordContents { lsn: u64 },
    /// The log names the last transaction id that there is.
    TransactionIds,
}

/// Errors of page-level operations.
#[derive(Debug, Clone, Copy, PartialEq, Eq, Structural)]
pub enum PageError {
    InsufficientSpace { needed: usize, available: usize },
}

/// What the buffer pool could not do.
#[derive(Debug, Clone, Copy, PartialEq, Eq, Structural)]
pub enum InternalFault {
    /// The write that must precede a page's removal failed.
    FlushDuringDelete,
    /// Every page id is taken.
    PageIds,
}

/// Errors of the buffer pool.
#[derive(Debug, Clone, Copy, PartialEq, Eq, Structural)]
pub enum BufferPoolError {
    PageNotFound(u64),
    PinCountError,
    NoEvictableFrames,
    PageCorruption { page_id: u64, expected: u32, actual: u32 },
    Disk(DiskError),
    Wal(WalError),
    InternalError(InternalFault),
}

/// Errors of index operations.
#[derive(Debug, Clone, Copy, PartialEq, Eq, Structural)]
pub enum IndexError {
    KeyNotFound,
    KeyTooLarge { size: usize, max: usize },
    ValueTooLarge { size: usize, max: usize },
    /// A visible version of the key exists already.
    DuplicateKey,
    /// Another transaction modified the record first.
    WriteConflict,
    UnexpectedPageType { expected: u8, found: u8 },
    BufferPool(BufferPoolError),
    Page(PageError),
    Wal(WalError),
    /// The transaction with this id must settle before the operation can go on.
    WaitFor(u64),
    /// The metadata page is missing, has another magic number or another version.
    CorruptMetadata,
}

/// Errors of reading a type name from bytes.
#[derive(Debug, Clone, Copy, PartialEq, Eq, Structural)]
pub enum TypeNameError {
    Empty,
    UnknownClassification(u8),
    /// The name is not valid UTF-8. So many of its bytes are, from the first one on.
    InvalidUtf8(usize),
}

/// Errors of the engine.
#[derive(Debug, Clone, Copy, PartialEq, Eq, Structural)]
pub enum EngineError {
    AlreadyExists,
    NotFound,
    Io(IoError),
    Disk(DiskError),
    Wal(WalError),
    BufferPool(BufferPoolError),
    Index(IndexError),
    TransactionConflict,
}

} // verus!
