//! The unified error type of the library.

use crate::text::{decimal, push_decimal};
use vstd::prelude::*;
use vstd::string::*;

verus! {

/// Every way an operation of this library can fail.
///
/// Foreign causes (status codes, URIs, I/O, JSON syntax, UTF-8) are carried
/// with a description of the underlying failure.
#[derive(Debug, Clone, PartialEq, Eq)]
pub enum Error {
    /// A member name failed validation.
    InvalidMemberName(String),
    /// A struct was built without a required field.
    MissingField(String),
    /// The payload exceeds the configured limit, in bytes.
    PayloadTooLarge(u64),
    /// The version literal is not supported by this implementation.
    UnsupportedVersion(String),
    /// The query string is malformed.
    Query(String),
    /// A status code literal is malformed.
    InvalidStatusCode(String),
    /// A URI is malformed.
    InvalidUri(String),
    /// Reading or writing failed.
    Io(String),
    /// The JSON text is malformed.
    Json(String),
    /// The bytes are not valid UTF-8.
    Utf8(String),
}

/// The human-readable message of `e`.
pub open spec fn message_text(e: Error) -> Seq<char> {
    match e {
        Error::InvalidMemberName(n) => "invalid member name \""@ + n@ + "\""@,
        Error::MissingField(n) => "missing required field \""@ + n@ + "\""@,
        Error::PayloadTooLarge(n) => "payload exceeds limit of "@ + decimal(n as nat) + " B"@,
        Error::UnsupportedVersion(v) => "Version \""@ + v@
            + "\" is not yet supported by this implementation."@,
        Error::Query(d) => "malformed query string: "@ + d@,
        Error::InvalidStatusCode(d) => "invalid status code: "@ + d@,
        Error::InvalidUri(d) => "invalid URI: "@ + d@,
        Error::Io(d) => "I/O error: "@ + d@,
        Error::Json(d) => "malformed JSON: "@ + d@,
        Error::Utf8(d) => "invalid UTF-8: "@ + d@,
    }
}

impl Error {
    /// The human-readable message of this error.
    pub fn message(&self) -> (r: String)
        ensures
            r@ == message_text(*self),
    {
        let mut out = String::new();
        match self {
            Error::InvalidMemberName(n) => {
                out.append("invalid member name \"");
                out.append(n.as_str());
                out.append("\"");
            },
            Error::MissingField(n) => {
                out.append("missing required field \"");
                out.append(n.as_str());
                out.append("\"");
            },
            Error::PayloadTooLarge(n) => {
                out.append("payload exceeds limit of ");
                push_decimal(&mut out, *n);
                out.append(" B");
            },
            Error::UnsupportedVersion(v) => {
                out.append("Version \"");
                out.append(v.as_str());
                out.append("\" is not yet supported by this implementation.");
            },
            Error::Query(d) => {
                out.append("malformed query string: ");
                out.append(d.as_str());
            },
            Error::InvalidStatusCode(d) => {
                out.append("invalid status code: ");
                out.append(d.as_str());
            },
            Error::InvalidUri(d) => {
                out.append("invalid URI: ");
                out.append(d.as_str());
            },
            Error::Io(d) => {
                out.append("I/O error: ");
                out.append(d.as_str());
            },
            Error::Json(d) => {
                out.append("malformed JSON: ");
                out.append(d.as_str());
            },
            Error::Utf8(d) => {
                out.append("invalid UTF-8: ");
                out.append(d.as_str());
            },
        }
        out
    }

    /// A `MissingField` error naming the field.
    pub fn missing_field(name: &str) -> (r: Self)
        ensures
            r matches Error::MissingField(n) && n@ == name@,
    {
        Error::MissingField(name.to_owned())
    }

    /// A `PayloadTooLarge` error carrying the limit.
    pub fn payload_too_large(size: u64) -> (r: Self)
        ensures
            r == Error::PayloadTooLarge(size),
    {
        Error::PayloadTooLarge(size)
    }

    /// An `UnsupportedVersion` error carrying the rejected literal.
    pub fn unsupported_version(version: &str) -> (r: Self)
        ensures
            r matches Error::UnsupportedVersion(v) && v@ == version@,
    {
        Error::UnsupportedVersion(version.to_owned())
    }

    /// An `InvalidMemberName` error carrying the rejected name.
    pub fn invalid_member_name(name: &str) -> (r: Self)
        ensures
            r matches Error::InvalidMemberName(n) && n@ == name@,
    {
        Error::InvalidMemberName(name.to_owned())
    }

    /// A `Query` error carrying the malformed part of the query string.
    pub fn query(part: &str) -> (r: Self)
        ensures
            r matches Error::Query(p) && p@ == part@,
    {
        Error::Query(part.to_owned())
    }
}

} // verus!
