//! The client's error taxonomy. Every failure of the core surfaces as one
//! `HttpError` value; nothing is retried or recovered internally.

use vstd::prelude::*;
use vstd::string::StringExecFns;
use crate::ascii::{dec_digits_of, dec_digits_string};

verus! {

/// One error value per failure class:
/// - `ConfigurationError`: invalid builder or configuration usage;
/// - `ConnectionError`: address resolution or connect failure;
/// - `TimeoutError`: a read deadline expired;
/// - `ProtocolError`: a malformed status line, unrecognized framing, a
///   malformed chunk size, a premature stream end, or a missing NDJSON
///   completion marker;
/// - `UpstreamError`: a non-2xx status, carrying the numeric code and the
///   raw response body when one was available.
#[derive(Debug, Clone, PartialEq, Eq)]
pub enum HttpError {
    ConfigurationError(String),
    ConnectionError(String),
    TimeoutError(String),
    ProtocolError(String),
    UpstreamError(u16, Vec<u8>),
}

pub open spec fn spec_message(e: HttpError) -> Seq<char> {
    match e {
        HttpError::ConfigurationError(d) => "configuration error: "@ + d@,
        HttpError::ConnectionError(d) => "connection error: "@ + d@,
        HttpError::TimeoutError(d) => "timeout error: "@ + d@,
        HttpError::ProtocolError(d) => "protocol error: "@ + d@,
        HttpError::UpstreamError(code, _) => "upstream error: status "@ + dec_digits_of(
            code as nat,
        ),
    }
}

impl HttpError {
    /// A one-line description of the error, for display at the boundary.
    pub fn message(&self) -> (r: String)
        ensures
            r@ == spec_message(*self),
    {
        match self {
            HttpError::ConfigurationError(d) => {
                let mut s = "configuration error: ".to_owned();
                s.append(d.as_str());
                s
            },
            HttpError::ConnectionError(d) => {
                let mut s = "connection error: ".to_owned();
                s.append(d.as_str());
                s
            },
            HttpError::TimeoutError(d) => {
                let mut s = "timeout error: ".to_owned();
                s.append(d.as_str());
                s
            },
            HttpError::ProtocolError(d) => {
                let mut s = "protocol error: ".to_owned();
                s.append(d.as_str());
                s
            },
            HttpError::UpstreamError(code, _) => {
                let mut s = "upstream error: status ".to_owned();
                let digits = dec_digits_string(*code as usize);
                s.append(digits.as_str());
                s
            },
        }
    }
}

/// Classifies a failed socket read for the transport: a read that yields
/// no data before the deadline fails as a timeout — never as an
/// indefinite block — and any other read failure is a connection error.
pub fn classify_read_failure(timed_out: bool, detail: &str) -> (r: HttpError)
    ensures
        timed_out ==> (r matches HttpError::TimeoutError(d) && d@ == detail@),
        !timed_out ==> (r matches HttpError::ConnectionError(d) && d@ == detail@),
{
    if timed_out {
        HttpError::TimeoutError(detail.to_owned())
    } else {
        HttpError::ConnectionError(detail.to_owned())
    }
}

/// Collapses a fallible outcome into `Result<T, String>` for the caller
/// boundary, prefixing a caller-supplied message.
pub trait ToResult<T> where Self: Sized {
    /// The successful value, if this outcome carries one.
    spec fn spec_ok(self) -> Option<T>;

    /// The text reported when this outcome is a failure, given the
    /// caller-supplied message.
    spec fn spec_err_text(self, message: Seq<char>) -> Seq<char>;

    fn to_result(self, message: &str) -> (r: Result<T, String>)
        ensures
            match r {
                Ok(v) => self.spec_ok() == Some(v),
                Err(s) => self.spec_ok() is None && s@ == self.spec_err_text(message@),
            },
    ;
}

impl<T> ToResult<T> for Result<T, HttpError> {
    open spec fn spec_ok(self) -> Option<T> {
        match self {
            Ok(v) => Some(v),
            Err(_) => None,
        }
    }

    open spec fn spec_err_text(self, message: Seq<char>) -> Seq<char> {
        match self {
            Ok(_) => Seq::empty(),
            Err(e) => message + ". "@ + spec_message(e),
        }
    }

    fn to_result(self, message: &str) -> (r: Result<T, String>) {
        match self {
            Ok(v) => Ok(v),
            Err(e) => {
                let mut s = message.to_owned();
                s.append(". ");
                let m = e.message();
                s.append(m.as_str());
                Err(s)
            },
        }
    }
}

} // verus!
