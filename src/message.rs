//! The values that travel through the protocol core.
use vstd::prelude::*;

verus! {

/// Protocol versions that the start line may name.
#[derive(PartialEq, Eq, Structural, Clone, Copy, Debug)]
pub enum Version {
    Http09,
    Http10,
    Http11,
    Http2,
    Http3,
}

/// Request methods; any other valid token is kept as an extension method.
#[derive(Debug)]
pub enum Method {
    Options,
    Get,
    Post,
    Put,
    Delete,
    Head,
    Trace,
    Connect,
    Patch,
    Extension(String),
}

/// The ways in which parsing a request can fail.
#[derive(PartialEq, Eq, Structural, Clone, Copy, Debug)]
pub enum ParseError {
    /// The start line lacks a delimiter, or holds an unusable method or path.
    MalformedStartLine,
    /// A header line lacks its colon or its line terminator.
    MalformedHeader,
    /// A text field is not valid UTF-8.
    InvalidEncoding,
}

/// One header line, name stored as it was written.
#[derive(Debug)]
pub struct Header {
    pub name: String,
    pub value: String,
}

/// A parsed request.
#[derive(Debug)]
pub struct Request {
    pub method: Method,
    pub path: String,
    pub version: Version,
    pub headers: Vec<Header>,
    pub body: String,
}

/// A response status: a code in the three-digit range.
#[derive(PartialEq, Eq, Structural, Clone, Copy, Debug)]
pub struct Status {
    pub code: u16,
}

/// A response ready to be encoded.
#[derive(Debug)]
pub struct Response {
    pub status: Status,
    pub headers: Vec<Header>,
    pub body: String,
}

pub open spec fn status_code_valid(code: u16) -> bool {
    100 <= code <= 999
}

impl Status {
    pub open spec fn wf(&self) -> bool {
        status_code_valid(self.code)
    }

    /// A status for `code`, if it has three digits.
    pub fn from_u16(code: u16) -> (r: Option<Status>)
        ensures
            r.is_some() <==> status_code_valid(code),
            r matches Some(s) ==> s.code == code,
    {
        if 100 <= code && code <= 999 {
            Some(Status { code })
        } else {
            None
        }
    }

    pub fn ok() -> (r: Status)
        ensures
            r.code == 200,
    {
        Status { code: 200 }
    }

    pub fn bad_request() -> (r: Status)
        ensures
            r.code == 400,
    {
        Status { code: 400 }
    }

    pub fn not_found() -> (r: Status)
        ensures
            r.code == 404,
    {
        Status { code: 404 }
    }
}

impl ParseError {
    /// A short description, used as the body of an error response.
    pub fn message(&self) -> (r: &'static str)
        ensures
            r@ == match self {
                ParseError::MalformedStartLine => "Failed to parse HTTP request start line"@,
                ParseError::MalformedHeader => "Failed to parse HTTP request header"@,
                ParseError::InvalidEncoding => "HTTP request text is not valid UTF-8"@,
            },
    {
        match self {
            ParseError::MalformedStartLine => "Failed to parse HTTP request start line",
            ParseError::MalformedHeader => "Failed to parse HTTP request header",
            ParseError::InvalidEncoding => "HTTP request text is not valid UTF-8",
        }
    }
}

} // verus!
