//! Configuration options for representing the length of a collection.
use vstd::prelude::*;

verus! {

/// Mask of the length-prefix field.
pub const GET: u16 = 0b111_0000;

/// Length is represented with [`crate::var_int::BEU30`].
pub const BEU30: u16 = 0;

/// Length is represented with [`crate::var_int::BEU29`].
pub const BEU29: u16 = 16;

/// Length is represented with [`crate::var_int::BEU22`].
pub const BEU22: u16 = 32;

/// Length is represented with [`crate::var_int::BEU15`].
pub const BEU15: u16 = 48;

} // verus!
