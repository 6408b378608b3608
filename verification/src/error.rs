//! Why an operation was refused.

use vstd::prelude::*;

verus! {

/// Why an operation was refused.
#[derive(Clone, Copy, Debug, PartialEq, Eq, Structural)]
pub enum Error {
    /// Fewer bytes are left than were asked for.
    UnexpectedEof,
    /// The bytes are not a UTF-8 string.
    InvalidUtf8,
    /// A reservation is larger than any allocation can be.
    ReservationTooLarge,
    /// A reservation runs past the largest stream position.
    LengthOverflow,
    /// A reservation runs past the limit of the writer.
    LimitExceeded,
    /// A receive could run past the largest stream position.
    ReceiveOverflow,
}

/// The class of an error, as the standard IO traits report it.
#[derive(Clone, Copy, Debug, PartialEq, Eq, Structural)]
pub enum ErrorKind {
    /// The input ended early.
    UnexpectedEof,
    /// The input is malformed.
    InvalidData,
    /// A parameter is out of range.
    InvalidInput,
}

impl Error {
    /// The class of this error.
    pub fn kind(self) -> (kind: ErrorKind)
        ensures
            kind == match self {
                Error::UnexpectedEof => ErrorKind::UnexpectedEof,
                Error::InvalidUtf8 => ErrorKind::InvalidData,
                _ => ErrorKind::InvalidInput,
            },
    {
        match self {
            Error::UnexpectedEof => ErrorKind::UnexpectedEof,
            Error::InvalidUtf8 => ErrorKind::InvalidData,
            _ => ErrorKind::InvalidInput,
        }
    }

    /// What went wrong, in words.
    pub fn message(self) -> (text: &'static str)
        ensures
            text@ == match self {
                Error::UnexpectedEof => "unexpected end of file"@,
                Error::InvalidUtf8 => "invalid utf-8"@,
                Error::ReservationTooLarge => "reservation exceeds maximum allocation size"@,
                Error::LengthOverflow => "byte length overflow"@,
                Error::LimitExceeded => "reservation exceeds writer limit"@,
                Error::ReceiveOverflow => "receive length overflow"@,
            },
    {
        match self {
            Error::UnexpectedEof => "unexpected end of file",
            Error::InvalidUtf8 => "invalid utf-8",
            Error::ReservationTooLarge => "reservation exceeds maximum allocation size",
            Error::LengthOverflow => "byte length overflow",
            Error::LimitExceeded => "reservation exceeds writer limit",
            Error::ReceiveOverflow => "receive length overflow",
        }
    }
}

} // verus!
