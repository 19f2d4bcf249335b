//! Kernel errors.
use vstd::prelude::*;

verus! {

/// What the storage kernel can fail with.
#[derive(Clone, Debug, PartialEq, Eq)]
pub enum Error {
    /// A fixed-layout value did not fit the bytes it was read from or written to.
    BufferTooSmall { needed: usize, actual: usize },
    /// A page, or the structure built out of pages, is damaged.
    CorruptPage(&'static str),
    /// The write-ahead log is damaged or was used against its rules.
    CorruptWal(&'static str),
    /// The catalog is damaged.
    CatalogCorrupt(&'static str),
    /// A page has no room left for a cell.
    PageFull,
    /// An on-disk structure carries a version this code does not read.
    UnsupportedVersion(u16),
    /// Another writer got there first.
    WriteConflict,
    /// A row lock could not be had in time.
    LockTimeout,
    /// The transaction is over.
    TransactionClosed,
    /// The requested isolation level is not offered.
    UnsupportedIsolation,
    /// A transaction cannot be serialized.
    SerializationFailure,
    /// The schema moved on since it was read.
    SchemaChanged,
    /// A named object does not exist.
    ObjectNotFound,
    /// A value has the wrong type.
    DatatypeMismatch,
    /// A constraint was violated.
    ConstraintViolation(String),
    /// The operating system refused a file operation.
    Io(String),
}

/// Kernel results.
pub type Result<T> = std::result::Result<T, Error>;

} // verus!
