//! How an error is reported to a caller outside: a message and a status code.
use crate::error::{DbError, Step};
use crate::text::{lossy_text, text_of};
use vstd::prelude::*;
use vstd::string::*;

verus! {

/// An error as a front end hands it out: a message, and a status code in the
/// manner of HTTP.
#[derive(Clone, Debug, PartialEq, Eq)]
pub struct WasmDbError {
    message: String,
    code: Option<u16>,
}

/// The status code of an error: 404 where nothing is found, 409 where a step
/// of a transaction failed, 400 where the request is at fault, 500 where the
/// database is.
pub open spec fn status_of(e: DbError) -> u16 {
    match e {
        DbError::NotFound => 404,
        DbError::TransactionOperationFailed(_, _, _) => 409,
        DbError::Serde(_) => 400,
        DbError::MissingData(_) => 400,
        DbError::InvalidComparisonValue(_) => 400,
        DbError::NotAnObject => 400,
        DbError::FieldNotFound(_) => 400,
        DbError::NotAGeoPoint(_) => 400,
        DbError::AstQueryError(_) => 400,
        DbError::InvalidPath(_) => 400,
        DbError::ImportError(_) => 400,
        DbError::Utf8Error(_) => 400,
        _ => 500,
    }
}

/// What the message of an error begins with.
pub open spec fn message_head(e: DbError) -> Seq<char> {
    match e {
        DbError::NotFound => "Key not found"@,
        DbError::Serde(_) => "Serialization/Deserialization error: "@,
        DbError::MissingData(_) => "Missing data: "@,
        DbError::InvalidComparisonValue(_) => "Invalid comparison value: "@,
        DbError::NotAnObject => "Value is not an object"@,
        DbError::FieldNotFound(_) => "Field not found: "@,
        DbError::NotAGeoPoint(_) => "Not a GeoPoint: "@,
        DbError::AstQueryError(_) => "Query error: "@,
        DbError::InvalidPath(_) => "Invalid path: "@,
        DbError::TransactionOperationFailed(_, _, _) => "Transaction failed: "@,
        DbError::Sled(_) => "Database internal error: "@,
        DbError::Geohash(_) => "Geohash error: "@,
        DbError::ImportError(_) => "Import error: "@,
        DbError::CasRetryLimit(_) => "Concurrency error: "@,
        DbError::Utf8Error(_) => "UTF8 error: "@,
        DbError::HexError(_) => "Hex error: "@,
        DbError::TryFromSlice(_) => "Byte conversion error: "@,
        DbError::Transaction(_) => "Transaction error: "@,
        DbError::Io(_) => "IO error: "@,
        DbError::InvalidFieldIndexKey(_) => "Invalid field index key: "@,
        DbError::InvalidGeoSortedKey(_) => "Invalid geo sorted key: "@,
    }
}

/// The words for the kind of a step.
pub open spec fn step_words(step: Step) -> Seq<char> {
    match step {
        Step::Write => "Set"@,
        Step::Delete => "Delete"@,
        Step::BatchWrite => "Batch set"@,
        Step::ClearPrefix => "Clear prefix"@,
        Step::DropDatabase => "Drop database"@,
    }
}

/// The message of a failed step of a transaction: the kind of the step, the
/// key that it was about, by its text, and the message of the cause.
pub open spec fn failed_step_text(step: Step, key_text: Seq<char>, cause: Seq<char>) -> Seq<
    char,
> {
    "Transaction failed: "@ + step_words(step) + " failed for key '"@ + key_text + "': "@ + cause
}

/// The message of an error: what it begins with, then the text that the error
/// carries; for a failed step of a transaction the kind and the key of the
/// step are named and the message of its cause follows.
pub open spec fn message_of(e: DbError) -> Seq<char>
    decreases e,
{
    match e {
        DbError::NotFound => message_head(e),
        DbError::NotAnObject => message_head(e),
        DbError::TransactionOperationFailed(step, key, cause) => failed_step_text(
            step,
            lossy_text(key@),
            message_of(*cause),
        ),
        DbError::Serde(s) => message_head(e) + s@,
        DbError::MissingData(s) => message_head(e) + s@,
        DbError::InvalidComparisonValue(s) => message_head(e) + s@,
        DbError::FieldNotFound(s) => message_head(e) + s@,
        DbError::NotAGeoPoint(s) => message_head(e) + s@,
        DbError::AstQueryError(s) => message_head(e) + s@,
        DbError::InvalidPath(s) => message_head(e) + s@,
        DbError::Sled(s) => message_head(e) + s@,
        DbError::Geohash(s) => message_head(e) + s@,
        DbError::ImportError(s) => message_head(e) + s@,
        DbError::CasRetryLimit(s) => message_head(e) + s@,
        DbError::Utf8Error(s) => message_head(e) + s@,
        DbError::HexError(s) => message_head(e) + s@,
        DbError::TryFromSlice(s) => message_head(e) + s@,
        DbError::Transaction(s) => message_head(e) + s@,
        DbError::Io(s) => message_head(e) + s@,
        DbError::InvalidFieldIndexKey(s) => message_head(e) + s@,
        DbError::InvalidGeoSortedKey(s) => message_head(e) + s@,
    }
}

impl WasmDbError {
    /// The message.
    pub closed spec fn message_text(&self) -> Seq<char> {
        self.message@
    }

    /// The status code.
    pub closed spec fn status(&self) -> Option<u16> {
        self.code
    }

    /// An error with this message and status code.
    pub fn new(message: String, code: Option<u16>) -> (r: WasmDbError)
        ensures
            r.message_text() == message@,
            r.status() == code,
    {
        WasmDbError { message, code }
    }

    /// The message.
    pub fn message(&self) -> (r: String)
        ensures
            r@ == self.message_text(),
    {
        self.message.clone()
    }

    /// The status code.
    pub fn code(&self) -> (r: Option<u16>)
        ensures
            r == self.status(),
    {
        self.code
    }
}

/// The status code of an error.
pub fn status_code(e: &DbError) -> (r: u16)
    ensures
        r == status_of(*e),
{
    match e {
        DbError::NotFound => 404,
        DbError::TransactionOperationFailed(_, _, _) => 409,
        DbError::Serde(_) => 400,
        DbError::MissingData(_) => 400,
        DbError::InvalidComparisonValue(_) => 400,
        DbError::NotAnObject => 400,
        DbError::FieldNotFound(_) => 400,
        DbError::NotAGeoPoint(_) => 400,
        DbError::AstQueryError(_) => 400,
        DbError::InvalidPath(_) => 400,
        DbError::ImportError(_) => 400,
        DbError::Utf8Error(_) => 400,
        _ => 500,
    }
}

/// What the message of an error begins with.
fn head(e: &DbError) -> (r: String)
    ensures
        r@ == message_head(*e),
{
    match e {
        DbError::NotFound => "Key not found".to_owned(),
        DbError::Serde(_) => "Serialization/Deserialization error: ".to_owned(),
        DbError::MissingData(_) => "Missing data: ".to_owned(),
        DbError::InvalidComparisonValue(_) => "Invalid comparison value: ".to_owned(),
        DbError::NotAnObject => "Value is not an object".to_owned(),
        DbError::FieldNotFound(_) => "Field not found: ".to_owned(),
        DbError::NotAGeoPoint(_) => "Not a GeoPoint: ".to_owned(),
        DbError::AstQueryError(_) => "Query error: ".to_owned(),
        DbError::InvalidPath(_) => "Invalid path: ".to_owned(),
        DbError::TransactionOperationFailed(_, _, _) => "Transaction failed: ".to_owned(),
        DbError::Sled(_) => "Database internal error: ".to_owned(),
        DbError::Geohash(_) => "Geohash error: ".to_owned(),
        DbError::ImportError(_) => "Import error: ".to_owned(),
        DbError::CasRetryLimit(_) => "Concurrency error: ".to_owned(),
        DbError::Utf8Error(_) => "UTF8 error: ".to_owned(),
        DbError::HexError(_) => "Hex error: ".to_owned(),
        DbError::TryFromSlice(_) => "Byte conversion error: ".to_owned(),
        DbError::Transaction(_) => "Transaction error: ".to_owned(),
        DbError::Io(_) => "IO error: ".to_owned(),
        DbError::InvalidFieldIndexKey(_) => "Invalid field index key: ".to_owned(),
        DbError::InvalidGeoSortedKey(_) => "Invalid geo sorted key: ".to_owned(),
    }
}

/// The message of a failed step of a transaction, from its kind, the text of
/// its key and the message of its cause.
pub fn failed_step_message(step: Step, key_text: &str, cause: &str) -> (r: String)
    ensures
        r@ == failed_step_text(step, key_text@, cause@),
{
    let mut out = "Transaction failed: ".to_owned();
    match step {
        Step::Write => out.append("Set"),
        Step::Delete => out.append("Delete"),
        Step::BatchWrite => out.append("Batch set"),
        Step::ClearPrefix => out.append("Clear prefix"),
        Step::DropDatabase => out.append("Drop database"),
    }
    out.append(" failed for key '");
    out.append(key_text);
    out.append("': ");
    out.append(cause);
    out
}

/// The message of an error.
pub fn message_for(e: &DbError) -> (r: String)
    ensures
        r@ == message_of(*e),
    decreases e,
{
    let mut out = head(e);
    match e {
        DbError::NotFound => {},
        DbError::NotAnObject => {},
        DbError::TransactionOperationFailed(step, key, cause) => {
            let inner = message_for(cause);
            let named = text_of(key.as_slice());
            out = failed_step_message(*step, named.as_str(), inner.as_str());
        },
        DbError::Serde(s) => {
            out.append(s.as_str());
        },
        DbError::MissingData(s) => {
            out.append(s.as_str());
        },
        DbError::InvalidComparisonValue(s) => {
            out.append(s.as_str());
        },
        DbError::FieldNotFound(s) => {
            out.append(s.as_str());
        },
        DbError::NotAGeoPoint(s) => {
            out.append(s.as_str());
        },
        DbError::AstQueryError(s) => {
            out.append(s.as_str());
        },
        DbError::InvalidPath(s) => {
            out.append(s.as_str());
        },
        DbError::Sled(s) => {
            out.append(s.as_str());
        },
        DbError::Geohash(s) => {
            out.append(s.as_str());
        },
        DbError::ImportError(s) => {
            out.append(s.as_str());
        },
        DbError::CasRetryLimit(s) => {
            out.append(s.as_str());
        },
        DbError::Utf8Error(s) => {
            out.append(s.as_str());
        },
        DbError::HexError(s) => {
            out.append(s.as_str());
        },
        DbError::TryFromSlice(s) => {
            out.append(s.as_str());
        },
        DbError::Transaction(s) => {
            out.append(s.as_str());
        },
        DbError::Io(s) => {
            out.append(s.as_str());
        },
        DbError::InvalidFieldIndexKey(s) => {
            out.append(s.as_str());
        },
        DbError::InvalidGeoSortedKey(s) => {
            out.append(s.as_str());
        },
    }
    out
}

/// An error of the database as a front end hands it out.
pub fn map_logic_error(err: DbError) -> (r: WasmDbError)
    ensures
        r.message_text() == message_of(err),
        r.status() == Some(status_of(err)),
{
    let message = message_for(&err);
    let code = status_code(&err);
    WasmDbError::new(message, Some(code))
}

} // verus!
