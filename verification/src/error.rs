//! Errors of the core and how the HTTP layer answers them.

use vstd::prelude::*;
use crate::text::{extend_chars, to_chars, to_string};

verus! {

/// An I/O failure, as the library sees it: whether the file was missing, and
/// the operating system's message.
#[derive(Debug, Clone)]
pub struct IoFailure {
    pub not_found: bool,
    pub message: String,
}

#[derive(Debug, Clone)]
pub enum CoreError {
    Db(String),
    Migrate(String),
    Io(IoFailure),
    InvalidPath(String),
    Other(String),
}

/// The text of an error, as its `Display` writes it.
pub open spec fn error_message(e: CoreError) -> Seq<char> {
    match e {
        CoreError::Db(m) => "database error: "@ + m@,
        CoreError::Migrate(m) => "migration error: "@ + m@,
        CoreError::Io(f) => "io error: "@ + f.message@,
        CoreError::InvalidPath(p) => "invalid path: "@ + p@,
        CoreError::Other(m) => m@,
    }
}

fn prefixed(prefix: &str, rest: &String) -> (r: String)
    ensures
        r@ == prefix@ + rest@,
{
    let mut v = to_chars(prefix);
    extend_chars(&mut v, &to_chars(rest.as_str()));
    to_string(&v)
}

impl CoreError {
    /// The error's message.
    pub fn message(&self) -> (r: String)
        ensures
            r@ == error_message(*self),
    {
        match self {
            CoreError::Db(m) => prefixed("database error: ", m),
            CoreError::Migrate(m) => prefixed("migration error: ", m),
            CoreError::Io(f) => prefixed("io error: ", &f.message),
            CoreError::InvalidPath(p) => prefixed("invalid path: ", p),
            CoreError::Other(m) => m.clone(),
        }
    }
}

/// An error answer of the HTTP API: a status code and a message.
#[derive(Debug, Clone)]
pub struct ApiError {
    pub status: u16,
    pub message: String,
}

/// The status and message with which the API answers a core error: a bad
/// path is the client's fault, a missing file is not found, and anything
/// else is an internal error that carries the error's own message.
pub open spec fn api_error_for(e: CoreError) -> (u16, Seq<char>) {
    match e {
        CoreError::InvalidPath(p) => (400, "invalid path: "@ + p@),
        CoreError::Io(f) => if f.not_found {
            (404, "file not found"@)
        } else {
            (500, error_message(e))
        },
        _ => (500, error_message(e)),
    }
}

impl ApiError {
    pub fn new(status: u16, message: String) -> (r: ApiError)
        ensures
            r.status == status,
            r.message@ == message@,
    {
        ApiError { status, message }
    }

    pub fn from_core(err: &CoreError) -> (r: ApiError)
        ensures
            (r.status, r.message@) == api_error_for(*err),
    {
        match err {
            CoreError::InvalidPath(p) => ApiError::new(400, prefixed("invalid path: ", p)),
            CoreError::Io(f) => {
                if f.not_found {
                    ApiError::new(404, String::from_str("file not found"))
                } else {
                    ApiError::new(500, err.message())
                }
            },
            _ => ApiError::new(500, err.message()),
        }
    }
}

} // verus!
