//! The errors of this library.

use crate::grammar::Rule;
use crate::parser::ParseError;
use vstd::prelude::*;

verus! {

/// What can go wrong when subtitles are read.
#[derive(Debug, Clone, PartialEq, Eq)]
pub enum SrtError {
    /// The text does not match the grammar.
    ParseError(ParseError),
    /// A parse tree lacks the named part.
    MissingComponent(String),
    /// The named field of a timestamp is not a number that fits 32 bits.
    InvalidTimestamp(String),
    /// The index, whose text is given, is not a number that fits 32 bits.
    InvalidIndex(String),
    /// Interchange text is malformed; the message says how.
    JsonError(String),
}

/// An [`SrtError`] with its strings as character sequences.
pub enum SrtErrorView {
    ParseError { rule: Rule, position: int },
    MissingComponent(Seq<char>),
    InvalidTimestamp(Seq<char>),
    InvalidIndex(Seq<char>),
    JsonError(Seq<char>),
}

impl View for SrtError {
    type V = SrtErrorView;

    open spec fn view(&self) -> SrtErrorView {
        match self {
            SrtError::ParseError(e) => SrtErrorView::ParseError {
                rule: e.rule,
                position: e.position as int,
            },
            SrtError::MissingComponent(name) => SrtErrorView::MissingComponent(name@),
            SrtError::InvalidTimestamp(name) => SrtErrorView::InvalidTimestamp(name@),
            SrtError::InvalidIndex(text) => SrtErrorView::InvalidIndex(text@),
            SrtError::JsonError(message) => SrtErrorView::JsonError(message@),
        }
    }
}

impl SrtErrorView {
    /// The message of the error: a fixed sentence, and after it the string
    /// the error carries, if it carries one.
    pub open spec fn message(self) -> Seq<char> {
        match self {
            SrtErrorView::ParseError { .. } => "Failed to parse SRT file"@,
            SrtErrorView::MissingComponent(name) => "Missing expected component in subtitle block: "@
                + name,
            SrtErrorView::InvalidTimestamp(name) => "Invalid timestamp: "@ + name,
            SrtErrorView::InvalidIndex(text) => "Failed to parse index: "@ + text,
            SrtErrorView::JsonError(message) => "JSON error: "@ + message,
        }
    }
}

impl SrtError {
    /// The message of the error, for a reader.
    pub fn message(&self) -> (text: String)
        ensures
            text@ == self@.message(),
    {
        match self {
            SrtError::ParseError(_) => "Failed to parse SRT file".to_owned(),
            SrtError::MissingComponent(name) => "Missing expected component in subtitle block: "
                .to_owned().concat(name.as_str()),
            SrtError::InvalidTimestamp(name) => "Invalid timestamp: ".to_owned().concat(
                name.as_str(),
            ),
            SrtError::InvalidIndex(text) => "Failed to parse index: ".to_owned().concat(
                text.as_str(),
            ),
            SrtError::JsonError(message) => "JSON error: ".to_owned().concat(message.as_str()),
        }
    }
}

} // verus!
