//! Errors of the session core.
use vstd::prelude::*;
use vstd::string::*;

verus! {

/// Why a session operation failed.
#[derive(Debug)]
pub enum Error {
    /// The database engine reported a failure; its message is kept.
    Postgres(String),
    /// The transaction id is unknown, or its transaction was already
    /// committed or rolled back.
    NotFound(String),
    /// No connection was established yet.
    NotConnected,
    /// The connection could not be established.
    Connection(String),
    /// A requested column is not in the result set.
    MissingColumn(String),
    /// The freshly drawn transaction id was handed out before.
    DuplicateId,
}

/// The text that describes an error to a person.
pub open spec fn message_text(e: Error) -> Seq<char> {
    match e {
        Error::Postgres(m) => "PostgreSQL error: "@ + m@,
        Error::NotFound(m) => "Not found: "@ + m@,
        Error::NotConnected => "Not connected"@,
        Error::Connection(m) => "Connection error: "@ + m@,
        Error::MissingColumn(m) => "Missing column: "@ + m@,
        Error::DuplicateId => "Duplicate transaction id"@,
    }
}

impl Error {
    /// Describes the error to a person.
    pub fn message(&self) -> (r: String)
        ensures
            r@ == message_text(*self),
    {
        match self {
            Error::Postgres(m) => "PostgreSQL error: ".to_owned().concat(m.as_str()),
            Error::NotFound(m) => "Not found: ".to_owned().concat(m.as_str()),
            Error::NotConnected => "Not connected".to_owned(),
            Error::Connection(m) => "Connection error: ".to_owned().concat(m.as_str()),
            Error::MissingColumn(m) => "Missing column: ".to_owned().concat(m.as_str()),
            Error::DuplicateId => "Duplicate transaction id".to_owned(),
        }
    }
}

} // verus!
