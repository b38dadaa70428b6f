//! The error types.
//!
//! Every failure of this library is one of a closed set of kinds. Each kind
//! is a small struct of its own; [`Error`] is the sum of all of them, so a
//! caller can match on the concrete kind or simply propagate the value.
use vstd::prelude::*;

verus! {

/// Occurs when there are not enough bytes in the input buffer to complete
/// the decoding process.
#[derive(Debug, Clone, Copy, PartialEq, Eq, Structural)]
pub struct InsufficientBytes;

/// Occurs when an invalid character code point is found during the decoding
/// process.
#[derive(Debug, Clone, Copy, PartialEq, Eq, Structural)]
pub struct InvalidChar;

/// Occurs when the integer value exceeds the maximum value that can be
/// represented by the target integer type.
#[derive(Debug, Clone, Copy, PartialEq, Eq, Structural)]
pub struct IntegerOverflow;

/// Occurs during decoding when a [`bool`] value is expected, but the byte
/// contains a value that is not `0` or `1`.
#[derive(Debug, Clone, Copy, PartialEq, Eq, Structural)]
pub struct InvalidBoolValue;

/// Occurs when a decoded byte window is not valid UTF-8.
#[derive(Debug, Clone, Copy, PartialEq, Eq, Structural)]
pub struct InvalidUtf8;

/// An `enum` uses a discriminant to distinguish its variants.
///
/// This error can happen when decoding an `enum` type that has an unknown
/// discriminant value.
#[derive(Debug, Clone, Copy, PartialEq, Eq)]
pub struct UnknownDiscriminant {
    /// Path of the `enum` type
    pub ident: &'static str,
    /// Unrecognized discriminant value
    pub discriminant: u32,
}

/// Any error that may occur during a decode or encode operation.
#[derive(Debug, Clone, Copy, PartialEq, Eq)]
pub enum Error {
    /// See [`InsufficientBytes`]
    InsufficientBytes(InsufficientBytes),
    /// See [`InvalidChar`]
    InvalidChar(InvalidChar),
    /// See [`IntegerOverflow`]
    IntegerOverflow(IntegerOverflow),
    /// See [`InvalidBoolValue`]
    InvalidBoolValue(InvalidBoolValue),
    /// See [`InvalidUtf8`]
    InvalidUtf8(InvalidUtf8),
    /// See [`UnknownDiscriminant`]
    UnknownDiscriminant(UnknownDiscriminant),
}

impl Error {
    /// The error raised when a buffer runs out of bytes.
    pub open spec fn insufficient_bytes() -> Error {
        Error::InsufficientBytes(InsufficientBytes)
    }

    /// The error raised when a value does not fit its target integer type.
    pub open spec fn integer_overflow() -> Error {
        Error::IntegerOverflow(IntegerOverflow)
    }

    /// The error raised when a byte that is not `0` or `1` is decoded as a `bool`.
    pub open spec fn invalid_bool() -> Error {
        Error::InvalidBoolValue(InvalidBoolValue)
    }

    /// The error raised when a code point is not a Unicode scalar value.
    pub open spec fn invalid_char() -> Error {
        Error::InvalidChar(InvalidChar)
    }

    /// The error raised when a byte window is not valid UTF-8.
    pub open spec fn invalid_utf8() -> Error {
        Error::InvalidUtf8(InvalidUtf8)
    }

    /// True for the insufficient-bytes kind; a convenience for callers.
    pub fn is_insufficient_bytes(&self) -> (r: bool)
        ensures
            r == (*self == Error::insufficient_bytes()),
    {
        match self {
            Error::InsufficientBytes(_) => true,
            _ => false,
        }
    }

    /// True for the integer-overflow kind; a convenience for callers.
    pub fn is_integer_overflow(&self) -> (r: bool)
        ensures
            r == (*self == Error::integer_overflow()),
    {
        match self {
            Error::IntegerOverflow(_) => true,
            _ => false,
        }
    }
}

impl UnknownDiscriminant {
    /// Wraps an unknown discriminant, found while decoding the `enum` named
    /// by `ident`, as the error result of a decode operation.
    pub fn new_boxed_err<T>(ident: &'static str, discriminant: u32) -> (r: Result<T, Error>)
        ensures
            r matches Err(e) && e == Error::UnknownDiscriminant(
                UnknownDiscriminant { ident, discriminant },
            ),
    {
        Err(Error::UnknownDiscriminant(UnknownDiscriminant { ident, discriminant }))
    }
}

} // verus!
