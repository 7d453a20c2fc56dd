//! What went wrong, and where.
use vstd::prelude::*;

verus! {

/// Why a read, a layout pass or a minification stopped.
#[derive(Clone, Copy, Debug, PartialEq, Eq, Structural)]
pub enum ErrorCode {
    UnexpectedEnd,
    UnexpectedCharacter,
    ExpectedColon,
    ExpectedComma,
    ExpectedBrace,
    ExpectedBracket,
    ExpectedQuote,
    ExpectedTrue,
    ExpectedFalse,
    ExpectedNull,
    ExpectedNumber,
    ExpectedVariant,
    ExpectedSingleChar,
    InvalidNumber,
    NumberOutOfRange,
    ControlCharacterInString,
    EscapeInBorrowedString,
    InvalidEscape,
    InvalidSurrogate,
    InvalidUtf8,
    ExceededMaxDepth,
    UnknownKey,
    MissingKey,
    UnknownVariant,
    ArrayLengthMismatch,
    TrailingContent,
    /// A streamed value grew past the size limit set for one.
    DocumentTooLarge,
}

/// A failure: its code, the byte offset it was found at, and, for a missing
/// member, the key that was missing.
#[derive(Clone, Copy, Debug, PartialEq, Eq)]
pub struct Error {
    pub code: ErrorCode,
    pub index: usize,
    pub key: Option<&'static str>,
}

impl Error {
    pub fn new(code: ErrorCode, index: usize) -> (e: Error)
        ensures
            e.code == code,
            e.index == index,
            e.key.is_none(),
    {
        Error { code, index, key: None }
    }

    pub fn with_key(code: ErrorCode, index: usize, key: Option<&'static str>) -> (e: Error)
        ensures
            e.code == code,
            e.index == index,
            e.key == key,
    {
        Error { code, index, key }
    }
}

} // verus!
