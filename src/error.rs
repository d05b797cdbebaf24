//! Errors produced while decoding and parsing a document.
use vstd::prelude::*;

verus! {

/// An error together with the 1-based line on which it was detected.
#[derive(Debug, Clone, PartialEq, Eq)]
pub struct Located<E> {
    pub line: usize,
    pub err: E,
}

impl<E> Located<E> {
    pub fn new(line: usize, err: E) -> (r: Self)
        ensures
            r.line == line,
            r.err == err,
    {
        Located { line, err }
    }
}

/// Shorthand for a failed result carrying a located error.
pub fn located_err<T, E>(line: usize, err: E) -> (r: Result<T, Located<E>>)
    ensures
        r is Err,
        r->Err_0.line == line,
        r->Err_0.err == err,
{
    Err(Located::new(line, err))
}

/// Every way in which decoding or parsing can fail.
#[derive(Debug, Clone, Copy, PartialEq, Eq, Structural)]
pub enum Error {
    /// A byte sequence that is not valid UTF-8.
    InvalidUtf8,
    /// A multi-byte character cut off by the end of the available bytes.
    IncompleteUtf8Char,
    /// The input ended inside a document whose structure is still open.
    UnexpectedEof,
    /// A character that cannot stand where it was found.
    UnexpectedChar,
    /// A bare word in value position that is neither `null`, `true` nor `false`.
    InvalidIdentifier,
    /// A property name that holds or is ended by a character it may not.
    InvalidPropertyId,
    /// A backslash followed by a character outside the escape set.
    InvalidEscapeSequence,
    InvalidHexNumber,
    InvalidSignedNumber,
    InvalidUnsignedNumber,
    InvalidFixedPointNumber,
    InvalidOctalNumber,
    MissingYearInDate,
    MissingMonthInDate,
    MissingDayInDate,
    InvalidDate,
    InvalidDateTime,
    /// A doc comment that no value follows.
    DanglingDocstring,
    /// A property name given twice in one object.
    DuplicatePropertyName,
    /// A literal string fence longer than the longest one allowed.
    StringLiteralDelimTooLong { len: usize, max_len: usize },
    /// A string or block comment that the input ends inside of.
    MissingTerminator,
}

impl Error {
    pub fn located(self, line: usize) -> (r: Located<Self>)
        ensures
            r.line == line,
            r.err == self,
    {
        Located { line, err: self }
    }
}

} // verus!
