use vstd::prelude::*;

verus! {

/// What the number parser reports of a text that is no number. The index is
/// the place in the text at which it gave up.
#[derive(Debug, PartialEq, Eq, Clone, Copy, Structural)]
pub enum NumberError {
    /// The number is too large for its type.
    Overflow(usize),
    /// The number is too small for its type.
    Underflow(usize),
    /// A byte that is no digit stands at the index.
    InvalidDigit(usize),
    /// There are no digits.
    Empty(usize),
    /// Any other report.
    Other,
}

/// Why a buffer could not be decoded.
#[derive(Debug, PartialEq, Eq, Clone, Copy, Structural)]
pub enum Error {
    /// The input ended inside a frame.
    NotComplete,
    /// A line starts with a byte that names no frame kind, or a frame stands
    /// where its kind is not allowed.
    Unknown,
    /// The text of a length or of an integer is no number.
    SyntaxLen(NumberError),
    /// A `$` length is larger than the payload line that follows it.
    InvalidBulkString,
    /// A `*` length is negative and not `-1`.
    InvalidArray,
    /// A `!` or `=` length is larger than the payload line that follows it.
    InvalidError,
    /// A `#` payload is neither `t` nor `f`.
    InvalidBoolean,
    /// A map key is a map, a set or a push.
    InvalidMap,
    /// A set element is a map, a set or a push.
    InvalidSet,
}

impl Error {
    pub open spec fn spec_message(self) -> &'static str {
        match self {
            Error::NotComplete => "not complete",
            Error::Unknown => "unknown tag",
            Error::SyntaxLen(_) => "invalid length",
            Error::InvalidBulkString => "invalid bulk string",
            Error::InvalidArray => "invalid array",
            Error::InvalidError => "invalid error",
            Error::InvalidBoolean => "invalid boolean",
            Error::InvalidMap => "invalid map",
            Error::InvalidSet => "invalid set",
        }
    }

    /// A short description of the error in words.
    pub fn message(self) -> (text: &'static str)
        ensures
            text@ == self.spec_message()@,
    {
        match self {
            Error::NotComplete => "not complete",
            Error::Unknown => "unknown tag",
            Error::SyntaxLen(_) => "invalid length",
            Error::InvalidBulkString => "invalid bulk string",
            Error::InvalidArray => "invalid array",
            Error::InvalidError => "invalid error",
            Error::InvalidBoolean => "invalid boolean",
            Error::InvalidMap => "invalid map",
            Error::InvalidSet => "invalid set",
        }
    }
}

} // verus!
