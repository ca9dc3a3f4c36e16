//! The errors a cairn request can end in.

use vstd::prelude::*;
use vstd::string::StringExecFns;
use crate::chars::str_eq;
use crate::code;
use crate::format::{append_decimal, decimal};

verus! {

/// Why a request to cairn failed.
#[derive(Debug, Clone)]
pub enum Error {
    /// cairn (or something answering in its place) responded with an error.
    Api { status: u16, code: String, message: String },
    /// No usable response arrived.
    Transport(String),
    /// The request could not be made, or the response made no sense.
    Invalid(String),
}

/// The text of an error, naming the layer that failed.
pub open spec fn spec_error_text(e: Error) -> Seq<char> {
    match e {
        Error::Api { status, code, message } => "cairn returned "@ + decimal(status as u64) + " ("@
            + code@ + "): "@ + message@,
        Error::Transport(m) => "connection to cairn failed: "@ + m@,
        Error::Invalid(m) => "invalid response from cairn: "@ + m@,
    }
}

/// `e` reports an invalid request or response with exactly `message`.
pub open spec fn is_invalid_with(e: Error, message: Seq<char>) -> bool {
    e matches Error::Invalid(m) && m@ == message
}

impl Error {
    /// Whether cairn reported that the resource does not exist.
    pub fn is_not_found(&self) -> (r: bool)
        ensures r == (self matches Error::Api { code, .. } && code@ == code::NOT_FOUND@),
    {
        match self {
            Error::Api { code, .. } => str_eq(code.as_str(), code::NOT_FOUND),
            _ => false,
        }
    }

    /// Whether cairn refused the request for want of credentials.
    pub fn is_unauthorized(&self) -> (r: bool)
        ensures r == (self matches Error::Api { code, .. } && code@ == code::UNAUTHORIZED@),
    {
        match self {
            Error::Api { code, .. } => str_eq(code.as_str(), code::UNAUTHORIZED),
            _ => false,
        }
    }

    /// The HTTP status cairn answered with, if this came from a response at all.
    pub fn status(&self) -> (r: Option<u16>)
        ensures
            r == (match self {
                Error::Api { status, .. } => Some(*status),
                _ => None,
            }),
    {
        match self {
            Error::Api { status, .. } => Some(*status),
            _ => None,
        }
    }

    /// The error as text, naming the layer that failed.
    pub fn to_string(&self) -> (r: String)
        ensures r@ == spec_error_text(*self),
    {
        match self {
            Error::Api { status, code, message } => {
                let mut r = String::from_str("cairn returned ");
                append_decimal(&mut r, *status as u64);
                r.append(" (");
                r.append(code.as_str());
                r.append("): ");
                r.append(message.as_str());
                r
            },
            Error::Transport(m) => String::from_str("connection to cairn failed: ").concat(m.as_str()),
            Error::Invalid(m) => String::from_str("invalid response from cairn: ").concat(m.as_str()),
        }
    }
}

} // verus!
