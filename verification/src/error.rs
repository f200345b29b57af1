//! The classified failures a parse can end in.

use vstd::prelude::*;

verus! {

/// Everything that can stop a parse.  All of these are fatal: the scan
/// aborts on the first error and no partial object is exposed.
#[derive(Clone, Copy, PartialEq, Eq, Structural, Debug)]
pub enum ParseError {
    /// A non-whitespace character, other than a closing brace, arrived
    /// while no object was open.
    DocumentNotStarted,
    /// A `}` arrived while no object was open.
    UnmatchedClose,
    /// A character arrived inside an open object while neither a key, a
    /// value, nor an array was being accumulated.
    MalformedKey,
    /// A character broke the spelling of a `true` or `false` literal.
    MalformedBoolean,
    /// A character that is not a decimal digit arrived inside a number.
    MalformedNumber,
    /// Folding one more digit into a number would exceed the magnitude its
    /// machine representation can hold.
    NumberTooLarge,
    /// The input ran out without any object having been opened.
    NoDocumentFound,
}

/// The description each failure carries.
pub open spec fn spec_message(e: ParseError) -> Seq<char> {
    match e {
        ParseError::DocumentNotStarted => "no object has been started"@,
        ParseError::UnmatchedClose => "no object to close"@,
        ParseError::MalformedKey => "problem with key"@,
        ParseError::MalformedBoolean => "incorrectly spelled boolean value"@,
        ParseError::MalformedNumber => "unexpected character in a number"@,
        ParseError::NumberTooLarge => "number does not fit its representation"@,
        ParseError::NoDocumentFound => "no document found"@,
    }
}

impl ParseError {
    /// A short description of the failure, for callers that report it.
    pub fn message(&self) -> (r: &'static str)
        ensures
            r@ == spec_message(*self),
    {
        match self {
            ParseError::DocumentNotStarted => "no object has been started",
            ParseError::UnmatchedClose => "no object to close",
            ParseError::MalformedKey => "problem with key",
            ParseError::MalformedBoolean => "incorrectly spelled boolean value",
            ParseError::MalformedNumber => "unexpected character in a number",
            ParseError::NumberTooLarge => "number does not fit its representation",
            ParseError::NoDocumentFound => "no document found",
        }
    }
}

} // verus!
