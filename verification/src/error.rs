//! The parse failures.

use vstd::prelude::*;

verus! {

/// Why a run of characters is not an integer of the wanted type.
#[derive(Debug, Clone, Copy, PartialEq, Eq, Hash, Structural)]
pub enum IntErrorKind {
    /// Nothing to read.
    Empty,
    /// A character that is not a decimal digit, or a sign with no digit behind it.
    InvalidDigit,
    /// The value lies above the largest value of the type.
    PosOverflow,
    /// The value lies below the smallest value of the type.
    NegOverflow,
}

/// Errors that can occur during parsing of a number.
#[derive(Debug, Clone, Copy, PartialEq, Eq, Hash, Structural)]
pub enum ParseNumberError {
    /// The literal has no decimal point and is not an integer.
    ParseIntError(IntErrorKind),
    /// The literal has a decimal point and is not a decimal fraction.
    ParseFloatError,
}

/// Errors that can occur during parsing.
#[derive(Debug, Clone, Copy, PartialEq, Eq, Hash, Structural)]
pub enum Error {
    /// An unexpected character was encountered at the given position.
    UnexpectedChar(usize),
    /// An invalid number was encountered.
    InvalidNumber(ParseNumberError),
    /// The end of the input was reached unexpectedly.
    UnexpectedEnd(usize),
    /// An invalid escape sequence was encountered.
    InvalidEscape(char),
}

impl From<ParseNumberError> for Error {
    fn from(e: ParseNumberError) -> (r: Error) {
        Error::InvalidNumber(e)
    }
}

impl vstd::std_specs::convert::FromSpecImpl<ParseNumberError> for Error {
    open spec fn obeys_from_spec() -> bool {
        true
    }

    open spec fn from_spec(e: ParseNumberError) -> Error {
        Error::InvalidNumber(e)
    }
}

} // verus!
