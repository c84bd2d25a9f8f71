//! Errors of event processing.

use vstd::prelude::*;

use crate::text;
use crate::text::Utf8Error;

verus! {

/// An I/O error of std.
#[verifier::external_type_specification]
#[verifier::external_body]
pub struct ExIoError(std::io::Error);

/// An HTTP error of hyper.
#[verifier::external_type_specification]
#[verifier::external_body]
pub struct ExHttpError(hyper::Error);

/// A JSON error of serde_json.
#[verifier::external_type_specification]
#[verifier::external_body]
pub struct ExJsonError(serde_json::Error);

/// Errors that can occur while events are processed.
#[derive(Debug)]
pub enum SseError {
    /// Reading failed.
    Io(std::io::Error),
    /// The HTTP exchange failed.
    Http(hyper::Error),
    /// A line is not UTF-8.
    Utf8(Utf8Error),
    /// Data could not be decoded as JSON.
    Json(serde_json::Error),
    /// An event has a bad format.
    InvalidFormat(String),
    /// More bytes came than the buffer may hold.
    BufferOverflow {
        /// How many bytes the buffer may hold.
        max: usize,
    },
    /// The connection was closed.
    ConnectionClosed,
    /// A field has a bad name.
    InvalidFieldName(String),
    /// A retry interval is not a number.
    InvalidRetryValue(String),
}

/// Why a parser refuses its input.
pub enum Failure {
    /// The buffer may hold `max` bytes, and more would be in it.
    BufferOverflow { max: usize },
    /// The line is not UTF-8.
    Utf8 { line: Seq<u8> },
    /// The value of a `retry` field is not a number.
    InvalidRetryValue { value: Seq<char> },
}

impl SseError {
    /// The error says that the given failure came about.
    pub open spec fn reports(self, failure: Failure) -> bool {
        match failure {
            Failure::BufferOverflow { max } => self matches SseError::BufferOverflow { max: m }
                && m == max,
            Failure::Utf8 { line } => {
                &&& self matches SseError::Utf8(error)
                &&& text::is_valid_up_to(line, error.valid_up_to as int)
                &&& error.error_len == text::utf8_error_len(line)
            },
            Failure::InvalidRetryValue { value } => self matches SseError::InvalidRetryValue(v)
                && v@ == value,
        }
    }
}

impl From<std::io::Error> for SseError {
    fn from(error: std::io::Error) -> (converted: SseError)
        ensures
            converted == SseError::Io(error),
    {
        SseError::Io(error)
    }
}

impl vstd::std_specs::convert::FromSpecImpl<std::io::Error> for SseError {
    open spec fn obeys_from_spec() -> bool {
        true
    }

    open spec fn from_spec(error: std::io::Error) -> SseError {
        SseError::Io(error)
    }
}

impl From<hyper::Error> for SseError {
    fn from(error: hyper::Error) -> (converted: SseError)
        ensures
            converted == SseError::Http(error),
    {
        SseError::Http(error)
    }
}

impl vstd::std_specs::convert::FromSpecImpl<hyper::Error> for SseError {
    open spec fn obeys_from_spec() -> bool {
        true
    }

    open spec fn from_spec(error: hyper::Error) -> SseError {
        SseError::Http(error)
    }
}

impl From<serde_json::Error> for SseError {
    fn from(error: serde_json::Error) -> (converted: SseError)
        ensures
            converted == SseError::Json(error),
    {
        SseError::Json(error)
    }
}

impl vstd::std_specs::convert::FromSpecImpl<serde_json::Error> for SseError {
    open spec fn obeys_from_spec() -> bool {
        true
    }

    open spec fn from_spec(error: serde_json::Error) -> SseError {
        SseError::Json(error)
    }
}

impl From<Utf8Error> for SseError {
    fn from(error: Utf8Error) -> (converted: SseError)
        ensures
            converted == SseError::Utf8(error),
    {
        SseError::Utf8(error)
    }
}

impl vstd::std_specs::convert::FromSpecImpl<Utf8Error> for SseError {
    open spec fn obeys_from_spec() -> bool {
        true
    }

    open spec fn from_spec(error: Utf8Error) -> SseError {
        SseError::Utf8(error)
    }
}

impl From<core::str::Utf8Error> for SseError {
    fn from(error: core::str::Utf8Error) -> (converted: SseError)
        ensures
            converted matches SseError::Utf8(described) && described.valid_up_to
                == text::reported_valid_up_to(error) && described.error_len
                == text::reported_error_len(error),
    {
        SseError::Utf8(Utf8Error::from(error))
    }
}

impl vstd::std_specs::convert::FromSpecImpl<core::str::Utf8Error> for SseError {
    open spec fn obeys_from_spec() -> bool {
        true
    }

    open spec fn from_spec(error: core::str::Utf8Error) -> SseError {
        SseError::Utf8(
            Utf8Error {
                valid_up_to: text::reported_valid_up_to(error),
                error_len: text::reported_error_len(error),
            },
        )
    }
}

} // verus!
