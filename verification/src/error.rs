//! The closed taxonomy of decode failures surfaced to the caller.

use vstd::prelude::*;

use crate::grammar::ErrKind;
use crate::Bencoding;

verus! {

/// Why a decode failed.  Every failure is fatal to the current decode and
/// is propagated to the caller unmodified.
#[derive(Debug, PartialEq)]
pub enum DecodeError {
    /// The byte source failed or ended before a read completed.
    IO,
    /// A byte at a type-dispatch position matched no marker; carries it.
    UnknownSymbol(char),
    /// An integer's first digit was `0` but the value was not exactly zero.
    LeadingZeroInteger,
    /// An integer began with `-0`.
    NegativeZeroInteger,
    /// A non-digit where a digit or terminator was expected; carries it.
    InvalidNumberInteger(char),
    /// A dictionary key decoded to a non-string value; carries that value.
    KeyNotStringDictionary(Bencoding),
    /// A length prefix or integer too large for the machine representation.
    Overflow,
}

impl View for DecodeError {
    type V = ErrKind;

    open spec fn view(&self) -> ErrKind {
        match self {
            DecodeError::IO => ErrKind::IoFailure,
            DecodeError::UnknownSymbol(c) => ErrKind::UnknownSymbol(*c),
            DecodeError::LeadingZeroInteger => ErrKind::LeadingZero,
            DecodeError::NegativeZeroInteger => ErrKind::NegativeZero,
            DecodeError::InvalidNumberInteger(c) => ErrKind::InvalidNumber(*c),
            DecodeError::KeyNotStringDictionary(b) => ErrKind::KeyNotString(b@),
            DecodeError::Overflow => ErrKind::Overflow,
        }
    }
}

impl DecodeError {
    /// A short fixed description of the failure kind.
    pub fn description(&self) -> (r: &'static str)
        ensures
            r@ == match self@ {
                ErrKind::IoFailure => "The byte source failed or ended before a read completed"@,
                ErrKind::UnknownSymbol(_) => "Failed to match symbol to get type of bencoded data to parse"@,
                ErrKind::LeadingZero => "A leading zero was read while parsing an integer"@,
                ErrKind::NegativeZero => "Read a negative zero was read while parsing an integer"@,
                ErrKind::InvalidNumber(_) => "Read a character that cannot be interpreted as a number"@,
                ErrKind::KeyNotString(_) => "Expected a String as a key in a dictionary, found some other type"@,
                ErrKind::Overflow => "A number was too large for the machine representation"@,
            },
    {
        match self {
            DecodeError::IO => "The byte source failed or ended before a read completed",
            DecodeError::UnknownSymbol(_) => "Failed to match symbol to get type of bencoded data to parse",
            DecodeError::LeadingZeroInteger => "A leading zero was read while parsing an integer",
            DecodeError::NegativeZeroInteger => "Read a negative zero was read while parsing an integer",
            DecodeError::InvalidNumberInteger(_) => "Read a character that cannot be interpreted as a number",
            DecodeError::KeyNotStringDictionary(_) => "Expected a String as a key in a dictionary, found some other type",
            DecodeError::Overflow => "A number was too large for the machine representation",
        }
    }
}

} // verus!
