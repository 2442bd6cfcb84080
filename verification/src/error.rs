//! The ways in which reading and writing HTTP fails.
use crate::text::{quote, quoted};
use vstd::prelude::*;
use vstd::string::StringExecFns;

verus! {

/// What is wrong with the head of a request.
#[derive(Debug, Clone, Copy, PartialEq, Eq, Structural)]
pub enum HttpParseError {
    /// An invalid byte in the name of a header.
    HeaderName,
    /// An invalid byte in the value of a header, or a value that does not stand for a length.
    HeaderValue,
    /// An invalid byte in a line end.
    NewLine,
    /// An invalid byte in the response status.
    Status,
    /// An invalid byte where a token is required.
    Token,
    /// More headers than the parser takes.
    TooManyHeaders,
    /// An invalid byte in the HTTP version.
    Version,
}

/// Why a request or a response could not be read, or a URI is of no use.
#[derive(Debug, PartialEq, Eq)]
pub enum HttpError {
    /// The stream ended or failed.
    ReadEOF,
    InvalidURI(String),
    /// The head of a request is malformed.
    ParseError(HttpParseError),
    /// The head of a response is malformed.
    ParseResponseError(String),
    InvalidResponse,
    /// The request is longer than is allowed.
    BodyTooLarge,
}

/// What an [`HttpError`] tells.
pub enum HttpErrorView {
    ReadEOF,
    InvalidURI(Seq<char>),
    ParseError(HttpParseError),
    ParseResponseError(Seq<char>),
    InvalidResponse,
    BodyTooLarge,
}

impl View for HttpError {
    type V = HttpErrorView;

    open spec fn view(&self) -> HttpErrorView {
        match *self {
            HttpError::ReadEOF => HttpErrorView::ReadEOF,
            HttpError::InvalidURI(text) => HttpErrorView::InvalidURI(text@),
            HttpError::ParseError(e) => HttpErrorView::ParseError(e),
            HttpError::ParseResponseError(text) => HttpErrorView::ParseResponseError(text@),
            HttpError::InvalidResponse => HttpErrorView::InvalidResponse,
            HttpError::BodyTooLarge => HttpErrorView::BodyTooLarge,
        }
    }
}

/// The name of what is wrong with the head of a request.
pub open spec fn parse_error_text(e: HttpParseError) -> Seq<char> {
    match e {
        HttpParseError::HeaderName => "HeaderName"@,
        HttpParseError::HeaderValue => "HeaderValue"@,
        HttpParseError::NewLine => "NewLine"@,
        HttpParseError::Status => "Status"@,
        HttpParseError::Token => "Token"@,
        HttpParseError::TooManyHeaders => "TooManyHeaders"@,
        HttpParseError::Version => "Version"@,
    }
}

impl HttpParseError {
    /// The name of the error.
    pub fn text(&self) -> (r: &'static str)
        ensures
            r@ == parse_error_text(*self),
    {
        match self {
            HttpParseError::HeaderName => "HeaderName",
            HttpParseError::HeaderValue => "HeaderValue",
            HttpParseError::NewLine => "NewLine",
            HttpParseError::Status => "Status",
            HttpParseError::Token => "Token",
            HttpParseError::TooManyHeaders => "TooManyHeaders",
            HttpParseError::Version => "Version",
        }
    }
}

/// A name with what belongs to it in brackets.
pub open spec fn bracketed(name: Seq<char>, what: Seq<char>) -> Seq<char> {
    name + "("@ + what + ")"@
}

/// A name with what belongs to it in brackets.
pub(crate) fn bracket(name: &str, what: &str) -> (r: String)
    ensures
        r@ == bracketed(name@, what@),
{
    let mut text = name.to_owned();
    text.append("(");
    text.append(what);
    text.append(")");
    text
}

/// The name of an error, with what it tells.
pub open spec fn error_text(e: HttpErrorView) -> Seq<char> {
    match e {
        HttpErrorView::ReadEOF => "ReadEOF"@,
        HttpErrorView::InvalidURI(text) => bracketed("InvalidURI"@, quoted(text)),
        HttpErrorView::ParseError(e) => bracketed("ParseError"@, parse_error_text(e)),
        HttpErrorView::ParseResponseError(text) => bracketed("ParseResponseError"@, quoted(text)),
        HttpErrorView::InvalidResponse => "InvalidResponse"@,
        HttpErrorView::BodyTooLarge => "BodyTooLarge"@,
    }
}

impl HttpError {
    /// The name of the error, with what it tells.
    pub fn text(&self) -> (r: String)
        ensures
            r@ == error_text(self@),
    {
        match self {
            HttpError::ReadEOF => "ReadEOF".to_owned(),
            HttpError::InvalidURI(text) => bracket("InvalidURI", quote(text.as_str()).as_str()),
            HttpError::ParseError(e) => bracket("ParseError", e.text()),
            HttpError::ParseResponseError(text) => bracket(
                "ParseResponseError",
                quote(text.as_str()).as_str(),
            ),
            HttpError::InvalidResponse => "InvalidResponse".to_owned(),
            HttpError::BodyTooLarge => "BodyTooLarge".to_owned(),
        }
    }
}

} // verus!
