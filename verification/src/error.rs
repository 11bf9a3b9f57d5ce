//! The closed taxonomy of parse failures.
//!
//! Every parsing function surfaces the first syntactic problem it meets
//! as one of these kinds, so callers can branch on it programmatically.

use vstd::prelude::*;

verus! {

/// The first syntactic problem found in a message, in source order.
#[derive(Debug, Clone, PartialEq, Eq)]
pub enum ParseError {
    /// Input was empty before any line could be read.
    MissingStartLine,
    /// No method token on the request start line.
    MissingMethod,
    /// No request-target token on the request start line.
    MissingRequestTarget,
    /// No version token on the request start line.
    MissingVersion,
    /// The method token is not one of the eight canonical verbs.
    InvalidMethod(String),
    /// The response version token lacks the required prefix.
    InvalidVersion(String),
    /// No status-code token on the status line.
    MissingStatusCode,
    /// The status-code token is not an unsigned 16-bit integer.
    InvalidStatusCode(String),
    /// No reason-phrase token on the status line.
    MissingStatusText,
    /// A header line with no key at all.
    MissingHeaderKey,
    /// A header line whose key is not followed by a separator and value;
    /// carries the key that was found.
    MissingHeaderValue(String),
}

/// The model of a `ParseError`, carrying offending tokens as character
/// sequences.
pub enum ParseErrorV {
    MissingStartLine,
    MissingMethod,
    MissingRequestTarget,
    MissingVersion,
    InvalidMethod(Seq<char>),
    InvalidVersion(Seq<char>),
    MissingStatusCode,
    InvalidStatusCode(Seq<char>),
    MissingStatusText,
    MissingHeaderKey,
    MissingHeaderValue(Seq<char>),
}

impl View for ParseError {
    type V = ParseErrorV;

    open spec fn view(&self) -> ParseErrorV {
        match self {
            ParseError::MissingStartLine => ParseErrorV::MissingStartLine,
            ParseError::MissingMethod => ParseErrorV::MissingMethod,
            ParseError::MissingRequestTarget => ParseErrorV::MissingRequestTarget,
            ParseError::MissingVersion => ParseErrorV::MissingVersion,
            ParseError::InvalidMethod(t) => ParseErrorV::InvalidMethod(t@),
            ParseError::InvalidVersion(t) => ParseErrorV::InvalidVersion(t@),
            ParseError::MissingStatusCode => ParseErrorV::MissingStatusCode,
            ParseError::InvalidStatusCode(t) => ParseErrorV::InvalidStatusCode(t@),
            ParseError::MissingStatusText => ParseErrorV::MissingStatusText,
            ParseError::MissingHeaderKey => ParseErrorV::MissingHeaderKey,
            ParseError::MissingHeaderValue(k) => ParseErrorV::MissingHeaderValue(k@),
        }
    }
}

} // verus!
