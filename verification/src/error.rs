//! Error and result types shared across the engine.

use vstd::prelude::*;

verus! {

/// A specialized [`Result`] type for leafdb operations.
pub type Result<T> = core::result::Result<T, Error>;

/// Errors that can occur while parsing or executing SQL, or while managing
/// pages and storage.
#[derive(Debug, Clone, PartialEq, Eq)]
pub enum Error {
    /// The SQL text could not be tokenized or parsed.
    Parse(String),
    /// A statement referenced something that does not exist or is invalid.
    Catalog(String),
    /// A value did not match the expected column type, or a constraint failed.
    Type(String),
    /// A primary-key or uniqueness constraint was violated.
    Constraint(String),
    /// The number of bound parameters did not match the placeholders.
    Parameter(String),
    /// The underlying storage/page layer failed or is corrupt.
    Storage(String),
}

/// The kind of an error, without its message.
#[derive(Debug, Clone, Copy, PartialEq, Eq, Structural)]
pub enum ErrorKind {
    Parse,
    Catalog,
    Type,
    Constraint,
    Parameter,
    Storage,
}

/// The kind of an error.
pub open spec fn kind(e: Error) -> ErrorKind {
    match e {
        Error::Parse(_) => ErrorKind::Parse,
        Error::Catalog(_) => ErrorKind::Catalog,
        Error::Type(_) => ErrorKind::Type,
        Error::Constraint(_) => ErrorKind::Constraint,
        Error::Parameter(_) => ErrorKind::Parameter,
        Error::Storage(_) => ErrorKind::Storage,
    }
}

/// The prefix that the human-readable form of an error of this kind starts with.
pub open spec fn error_prefix(e: Error) -> Seq<char> {
    match e {
        Error::Parse(_) => "parse error: "@,
        Error::Catalog(_) => "catalog error: "@,
        Error::Type(_) => "type error: "@,
        Error::Constraint(_) => "constraint error: "@,
        Error::Parameter(_) => "parameter error: "@,
        Error::Storage(_) => "storage error: "@,
    }
}

/// The message an error carries.
pub open spec fn error_message(e: Error) -> Seq<char> {
    match e {
        Error::Parse(m) => m@,
        Error::Catalog(m) => m@,
        Error::Type(m) => m@,
        Error::Constraint(m) => m@,
        Error::Parameter(m) => m@,
        Error::Storage(m) => m@,
    }
}

impl Error {
    /// The human-readable form of the error: its kind, then its message.
    pub fn describe(&self) -> (s: String)
        ensures
            s@ == error_prefix(*self) + error_message(*self),
    {
        let (prefix, m) = match self {
            Error::Parse(m) => ("parse error: ", m),
            Error::Catalog(m) => ("catalog error: ", m),
            Error::Type(m) => ("type error: ", m),
            Error::Constraint(m) => ("constraint error: ", m),
            Error::Parameter(m) => ("parameter error: ", m),
            Error::Storage(m) => ("storage error: ", m),
        };
        String::from_str(prefix).concat(m.as_str())
    }
}

/// Builds an owned message from a literal.
pub fn text(s: &str) -> (r: String)
    ensures
        r@ == s@,
{
    String::from_str(s)
}

/// Builds the message `prefix` + `name` + `suffix`.
pub fn quoted(prefix: &str, name: &str, suffix: &str) -> (r: String)
    ensures
        r@ == prefix@ + name@ + suffix@,
{
    String::from_str(prefix).concat(name).concat(suffix)
}

} // verus!
