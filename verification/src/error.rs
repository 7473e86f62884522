//! Request-scoped failures and their wire shape. A failure is returned to
//! the caller as a typed response on that single request; the connection and
//! all other document state stay live.

use vstd::prelude::*;

verus! {

/// The failures a capability request can end in.
#[derive(Clone, Copy, PartialEq, Eq, Structural, Debug)]
pub enum Error {
    /// The capability was requested but no proxy is registered for it.
    Forbidden,
    /// The request named a document that was never opened.
    FileNotOpen,
    /// The external process's output was not decodable into the expected
    /// response shape.
    ParseError,
    /// The external process failed to spawn or run.
    NoResponse,
}

/// The response shape of a failed request: a numeric code, a short message,
/// and optional free-form data.
#[derive(Debug)]
pub struct ErrorResponse {
    pub code: i64,
    pub message: String,
    pub data: Option<String>,
}

impl Error {
    /// The numeric code each failure is reported under.
    pub open spec fn spec_code(self) -> i64 {
        match self {
            Error::Forbidden => -32903i64,
            Error::FileNotOpen => -32900i64,
            Error::ParseError => -32700i64,
            Error::NoResponse => -32944i64,
        }
    }

    /// The message each failure is reported with.
    pub open spec fn spec_message(self) -> Seq<char> {
        match self {
            Error::Forbidden => "Forbidden"@,
            Error::FileNotOpen => "File not yet open"@,
            Error::ParseError => "Parse error"@,
            Error::NoResponse => "No response"@,
        }
    }

    /// The full response for this failure, carrying `data` through.
    fn maybe_data(self, data: Option<String>) -> (r: ErrorResponse)
        ensures
            r.code == self.spec_code(),
            r.message@ == self.spec_message(),
            r.data == data,
    {
        match self {
            Error::Forbidden => ErrorResponse {
                code: -32903,
                message: "Forbidden".to_owned(),
                data,
            },
            Error::FileNotOpen => ErrorResponse {
                code: -32900,
                message: "File not yet open".to_owned(),
                data,
            },
            Error::ParseError => ErrorResponse {
                code: -32700,
                message: "Parse error".to_owned(),
                data,
            },
            Error::NoResponse => ErrorResponse {
                code: -32944,
                message: "No response".to_owned(),
                data,
            },
        }
    }

    /// The response for this failure with the given data attached.
    pub fn data(self, data: String) -> (r: ErrorResponse)
        ensures
            r.code == self.spec_code(),
            r.message@ == self.spec_message(),
            r.data == Some(data),
    {
        self.maybe_data(Some(data))
    }

    /// The response for this failure with a message string attached as data.
    pub fn msg(self, msg: &str) -> (r: ErrorResponse)
        ensures
            r.code == self.spec_code(),
            r.message@ == self.spec_message(),
            r.data matches Some(d) && d@ == msg@,
    {
        self.data(msg.to_owned())
    }

    /// The response for this failure with no data.
    pub fn plain(self) -> (r: ErrorResponse)
        ensures
            r.code == self.spec_code(),
            r.message@ == self.spec_message(),
            r.data is None,
    {
        self.maybe_data(None)
    }
}

} // verus!
