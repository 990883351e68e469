//! The library's error type.  Every variant carries plain text; callers
//! that talk to the outside world map their own failures into these.

use vstd::prelude::*;
use vstd::string::StringExecFns;

verus! {

#[derive(Debug, Clone, PartialEq, Eq)]
pub enum VmCliError {
    /// A failed HTTP exchange, with the transport's own words.
    HttpError(String),
    /// Malformed JSON, with the decoder's own words.
    JsonError(String),
    /// A configuration that could not be read.
    ConfigError(String),
    /// A failed read or write.
    IoError(String),
    /// A CSV record that could not be decoded.
    CsvError(String),
    /// A non-success answer from the backend.
    ApiError { message: String, status: Option<u16> },
    /// A time range token that is not recognised.
    TimeParseError(String),
    /// A query rejected before it was sent.
    InvalidQuery(String),
    /// A path with nothing behind it.
    FileNotFound(String),
    PermissionDenied,
    Timeout,
    Unknown(String),
}

/// The one-line text of each error.
pub open spec fn error_message_spec(e: VmCliError) -> Seq<char> {
    match e {
        VmCliError::HttpError(m) => "http request error: "@ + m@,
        VmCliError::JsonError(m) => "json parse error: "@ + m@,
        VmCliError::ConfigError(m) => "configuration error: "@ + m@,
        VmCliError::IoError(m) => "i/o error: "@ + m@,
        VmCliError::CsvError(m) => "csv error: "@ + m@,
        VmCliError::ApiError { message, status } => "api error: "@ + message@,
        VmCliError::TimeParseError(m) => "invalid time range: "@ + m@,
        VmCliError::InvalidQuery(m) => "invalid query: "@ + m@,
        VmCliError::FileNotFound(m) => "file not found: "@ + m@,
        VmCliError::PermissionDenied => "permission denied for this operation"@,
        VmCliError::Timeout => "operation timed out"@,
        VmCliError::Unknown(m) => "unknown error: "@ + m@,
    }
}

impl VmCliError {
    /// The error as one line of text.
    pub fn message(&self) -> (r: String)
        ensures
            r@ == error_message_spec(*self),
    {
        match self {
            VmCliError::HttpError(m) => {
                let mut s = String::from_str("http request error: ");
                s.append(m.as_str());
                s
            },
            VmCliError::JsonError(m) => {
                let mut s = String::from_str("json parse error: ");
                s.append(m.as_str());
                s
            },
            VmCliError::ConfigError(m) => {
                let mut s = String::from_str("configuration error: ");
                s.append(m.as_str());
                s
            },
            VmCliError::IoError(m) => {
                let mut s = String::from_str("i/o error: ");
                s.append(m.as_str());
                s
            },
            VmCliError::CsvError(m) => {
                let mut s = String::from_str("csv error: ");
                s.append(m.as_str());
                s
            },
            VmCliError::ApiError { message, status } => {
                let mut s = String::from_str("api error: ");
                s.append(message.as_str());
                s
            },
            VmCliError::TimeParseError(m) => {
                let mut s = String::from_str("invalid time range: ");
                s.append(m.as_str());
                s
            },
            VmCliError::InvalidQuery(m) => {
                let mut s = String::from_str("invalid query: ");
                s.append(m.as_str());
                s
            },
            VmCliError::FileNotFound(m) => {
                let mut s = String::from_str("file not found: ");
                s.append(m.as_str());
                s
            },
            VmCliError::PermissionDenied => String::from_str(
                "permission denied for this operation",
            ),
            VmCliError::Timeout => String::from_str("operation timed out"),
            VmCliError::Unknown(m) => {
                let mut s = String::from_str("unknown error: ");
                s.append(m.as_str());
                s
            },
        }
    }
}

} // verus!
