//! What the scanner reports of a source that is not in order.

use vstd::prelude::*;
use crate::lexeme::LexemeType;
use crate::scanner::{Location, Range};

verus! {

/// The errors.
#[derive(Debug, Clone, PartialEq, Eq)]
pub enum Error {
    /// Bytes that are no UTF-8.
    InvalidUTF8(Vec<u8>),
    /// A character that the language does not accept.
    InvalidChar(char),
    /// A lexeme that the end of the source cut short, as a block comment
    /// that is not closed.
    IncompleteLexeme(LexemeType),
    /// A float literal whose exponent is beyond what is taken; the
    /// exponent, or the nearest that the number type holds.
    FloatOutOfBound(i64),
    /// A numeric escape in a character or string literal that names no
    /// character; the number, or the nearest that the number type holds.
    CharOutOfBound(u64),
}

/// What a diagnostic says.
#[derive(Debug, Clone, PartialEq, Eq)]
pub enum DiagnosticMessage {
    /// An error.
    Error(Error),
}

/// A diagnostic: a message, the place at which it was found, and the
/// stretch of the source that it is about, if one was given.
#[derive(Debug, Clone, PartialEq, Eq)]
pub struct Diagnostic {
    pub location: Location,
    pub range: Option<Range>,
    pub message: DiagnosticMessage,
}

impl Diagnostic {
    /// The diagnostic with `message`, found at `location`.
    pub fn new(location: Location, message: DiagnosticMessage) -> (d: Self)
        ensures
            d == (Diagnostic { location, range: None, message }),
    {
        Diagnostic { location, range: None, message }
    }

    /// The same diagnostic, about the stretch from `begin` to `end`.
    pub fn within(self, begin: Location, end: Location) -> (d: Self)
        ensures
            d == (Diagnostic { location: self.location, range: Some(Range { begin, end }), message: self.message }),
    {
        Diagnostic { location: self.location, range: Some(Range { begin, end }), message: self.message }
    }

    /// Hands the diagnostic in: it becomes the last of `reports`.
    pub fn report(self, reports: &mut Vec<Diagnostic>)
        ensures
            final(reports)@ == old(reports)@.push(self),
    {
        reports.push(self);
    }
}

/// The diagnostic that the character `c`, read up to `location`, is none
/// that the language accepts.
pub open spec fn invalid_char(location: Location, c: char) -> Diagnostic {
    Diagnostic { location, range: None, message: DiagnosticMessage::Error(Error::InvalidChar(c)) }
}

} // verus!
