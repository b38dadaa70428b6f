//! Configuration options for number representation.
use vstd::prelude::*;

verus! {

/// Mask of the numeric-representation field.
pub const GET: u16 = 0b1111;

/// Represents numbers with little endian byte order
pub const LE: u16 = 0;

/// Represents numbers with big endian byte order
pub const BE: u16 = 1;

/// Represents numbers with native endian byte order
pub const NE: u16 = 2;

/// LEB128, or Little Endian Base 128: a variable-length code compression
/// used to store arbitrarily large integers in a small number of bytes.
pub const LEB128: u16 = 3;

} // verus!
