//! The error taxonomy of the decoder.
//!
//! Every parse error carries the byte offset at which the problem was
//! detected. Errors are always returned as data and are terminal for the
//! decode attempt in which they arise; `Busy` alone is not a parse error but
//! a protocol-level report of resumption contention.

use vstd::prelude::*;

verus! {

/// A decode failure.
#[derive(Clone, Copy, Debug, PartialEq, Eq, Structural)]
pub enum Error {
    /// The input ended where a value, a key or a closing bracket was owed.
    UnexpectedEndOfInput { offset: usize },
    /// Non-whitespace bytes follow a complete top-level value.
    TrailingData { offset: usize },
    /// A byte that cannot start or continue the construct expected here.
    UnexpectedToken { byte: u8, offset: usize },
    /// A numeric literal that does not parse in the chosen kind: as a 64-bit
    /// signed integer (overflow included) or, when the lexeme contains `.`,
    /// `e` or `E`, under the floating-point literal grammar. The offset is
    /// the first position past the greedily munched run, where the failure
    /// is detected.
    InvalidNumber { offset: usize },
    /// The input ended inside a string literal.
    UnterminatedString { offset: usize },
    /// A raw (unescaped) control character inside a string literal.
    UnexpectedControlCharacter { offset: usize },
    /// A backslash followed by a character outside the supported escape set.
    InvalidEscapeCharacter { offset: usize },
    /// A `\u` escape; these are not implemented and are reported rather than
    /// guessed at.
    UnsupportedEscape { offset: usize },
    /// A `}` without a matching open object frame.
    UnmatchedBrace { offset: usize },
    /// A `]` without a matching open array frame.
    UnmatchedBracket { offset: usize },
    /// After a key/value pair inside an object, a byte other than `,` or `}`.
    ExpectedCommaOrBrace { offset: usize },
    /// After an array element, a byte other than `,` or `]`.
    ExpectedCommaOrBracket { offset: usize },
    /// Another resumption of the same parser handle is already in flight.
    /// Caller misuse of the resumption protocol, not malformed input.
    Busy,
}

impl Error {
    /// The byte offset the error carries; `Busy` carries none.
    pub open spec fn spec_offset(self) -> Option<usize> {
        match self {
            Error::UnexpectedEndOfInput { offset } => Some(offset),
            Error::TrailingData { offset } => Some(offset),
            Error::UnexpectedToken { byte: _, offset } => Some(offset),
            Error::InvalidNumber { offset } => Some(offset),
            Error::UnterminatedString { offset } => Some(offset),
            Error::UnexpectedControlCharacter { offset } => Some(offset),
            Error::InvalidEscapeCharacter { offset } => Some(offset),
            Error::UnsupportedEscape { offset } => Some(offset),
            Error::UnmatchedBrace { offset } => Some(offset),
            Error::UnmatchedBracket { offset } => Some(offset),
            Error::ExpectedCommaOrBrace { offset } => Some(offset),
            Error::ExpectedCommaOrBracket { offset } => Some(offset),
            Error::Busy => None,
        }
    }

    /// The byte offset the error carries; `Busy` carries none.
    pub fn offset(&self) -> (r: Option<usize>)
        ensures
            r == self.spec_offset(),
    {
        match self {
            Error::UnexpectedEndOfInput { offset } => Some(*offset),
            Error::TrailingData { offset } => Some(*offset),
            Error::UnexpectedToken { byte: _, offset } => Some(*offset),
            Error::InvalidNumber { offset } => Some(*offset),
            Error::UnterminatedString { offset } => Some(*offset),
            Error::UnexpectedControlCharacter { offset } => Some(*offset),
            Error::InvalidEscapeCharacter { offset } => Some(*offset),
            Error::UnsupportedEscape { offset } => Some(*offset),
            Error::UnmatchedBrace { offset } => Some(*offset),
            Error::UnmatchedBracket { offset } => Some(*offset),
            Error::ExpectedCommaOrBrace { offset } => Some(*offset),
            Error::ExpectedCommaOrBracket { offset } => Some(*offset),
            Error::Busy => None,
        }
    }
}

} // verus!
