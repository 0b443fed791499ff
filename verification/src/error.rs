//! What can go wrong.
use vstd::prelude::*;

verus! {

/// The kind of a step of a transaction: a write or a removal of a
/// transaction, a write of a batch, a removal made while a prefix is cleared
/// or while the database is dropped.
#[derive(Clone, Copy, Debug, PartialEq, Eq)]
pub enum Step {
    Write,
    Delete,
    BatchWrite,
    ClearPrefix,
    DropDatabase,
}

/// An error of the database. Where a variant carries a text, the text tells a
/// reader what happened; which variant comes on which input is what the
/// functions promise.
#[derive(Debug, PartialEq)]
pub enum DbError {
    /// The storage engine failed.
    Sled(String),
    /// A value could not be encoded or decoded.
    Serde(String),
    /// A point has no cell.
    Geohash(String),
    /// A dump could not be read back.
    ImportError(String),
    /// A write was retried too often.
    CasRetryLimit(String),
    /// Bytes that should be text are not UTF-8.
    Utf8Error(String),
    /// Text that should be hexadecimal is not.
    HexError(String),
    /// A slice has the wrong length.
    TryFromSlice(String),
    /// No document is stored under the key.
    NotFound,
    /// A request lacks something, or asks for what is not offered.
    MissingData(String),
    /// A transaction failed as a whole.
    Transaction(String),
    /// An input or output operation failed.
    Io(String),
    /// A text does not stand for a value that can be compared.
    InvalidComparisonValue(String),
    /// A value is not an object.
    NotAnObject,
    /// An object lacks a field.
    FieldNotFound(String),
    /// A field holds no point.
    NotAGeoPoint(String),
    /// A key of the geospatial index is malformed.
    InvalidGeoSortedKey(String),
    /// A query cannot be run.
    AstQueryError(String),
    /// A path leads nowhere that can be assigned.
    InvalidPath(String),
    /// One step of a transaction failed: what kind of step, the key it was
    /// about, and why.
    TransactionOperationFailed(Step, Vec<u8>, Box<DbError>),
    /// A key of the equality index is malformed.
    InvalidFieldIndexKey(String),
}

} // verus!
