//! Configuration options.
//!
//! A configuration is a `u16` bitset with two disjoint fields: the numeric
//! representation (low bits, masked by [`num::GET`]) and the width of the
//! length prefix used for collections (masked by [`len::GET`]). Every
//! `Encode`/`Decode` call takes the configuration as a compile-time
//! parameter; producer and consumer must agree on it, since the wire format
//! carries no configuration tag.
use vstd::prelude::*;

pub mod len;
pub mod num;

verus! {

/// Default configuration:
///
/// - Numbers are represented in little endian byte order
/// - Length of a collection is encoded with [`crate::var_int::BEU30`]
pub const DEFAULT: u16 = num::LE | len::BEU30;

/// Selects the numeric representation from a configuration.
pub open spec fn spec_num_mode(cfg: u16) -> u16 {
    cfg & num::GET
}

/// Selects the length-prefix mode from a configuration.
pub open spec fn spec_len_mode(cfg: u16) -> u16 {
    cfg & len::GET
}

/// A configuration is meaningful when both of its fields name one of the
/// defined modes; encode/decode require this of their configuration.
pub open spec fn cfg_wf(cfg: u16) -> bool {
    &&& spec_num_mode(cfg) <= num::LEB128
    &&& (spec_len_mode(cfg) == len::BEU30 || spec_len_mode(cfg) == len::BEU29
        || spec_len_mode(cfg) == len::BEU22 || spec_len_mode(cfg) == len::BEU15)
}

/// Composing one defined numeric mode with one defined length mode gives
/// a well-formed configuration whose fields read back as the two modes.
pub proof fn lemma_cfg_compose(nm: u16, lm: u16)
    requires
        nm == num::LE || nm == num::BE || nm == num::NE || nm == num::LEB128,
        lm == len::BEU30 || lm == len::BEU29 || lm == len::BEU22 || lm == len::BEU15,
    ensures
        nm | lm == nm + lm,
        cfg_wf((nm + lm) as u16),
        spec_num_mode((nm + lm) as u16) == nm,
        spec_len_mode((nm + lm) as u16) == lm,
{
    assert((nm | lm) == nm + lm && (nm | lm) & 0b1111 == nm && (nm | lm) & 0b111_0000 == lm)
        by (bit_vector)
        requires
            nm == 0 || nm == 1 || nm == 2 || nm == 3,
            lm == 0 || lm == 16 || lm == 32 || lm == 48,
    ;
}

/// Extracts the numeric mode at run time.
pub fn num_mode(cfg: u16) -> (r: u16)
    ensures
        r == spec_num_mode(cfg),
{
    cfg & num::GET
}

/// Extracts the length-prefix mode at run time.
pub fn len_mode(cfg: u16) -> (r: u16)
    ensures
        r == spec_len_mode(cfg),
{
    cfg & len::GET
}

} // verus!
