//! A compact binary serialization engine.
//!
//! Values are converted to and from byte sequences by the complementary
//! [`Encode`] and [`Decode`] traits. The wire format is controlled by a
//! compile-time configuration (see [`config`]): fixed-width numbers can be
//! written in little, big or native endian byte order, or compressed with
//! LEB128; collections are length-prefixed with one of the variable-length
//! integers of [`var_int`]. Decoding is zero-copy where the decoded type
//! borrows from the input buffer, and fail-fast: a malformed element aborts
//! the whole decode with a single [`error::Error`].
//!
//! Every encode and decode function carries a contract that pins the exact
//! bytes written and consumed, stated over the specification functions of
//! [`wire`]; the [`Codec`] trait records the proof that decoding an
//! encoding always yields the original value.
use vstd::prelude::*;

pub mod collection;
pub mod cursor;
pub mod config;
pub mod error;
pub mod record;
pub mod scalar;
pub mod text;
pub mod var_int;
pub mod wire;

verus! {

use crate::error::Error;

/// This trait is used to serialize a data structure into binary format.
///
/// The model of a value is its deep view; `enc` maps that model to the exact
/// byte sequence the value serializes to under a configuration, and `enc_ok`
/// says when serialization succeeds (it fails only when a length does not
/// fit its length prefix).
pub trait Encode: DeepView {
    /// Whether encoding this model succeeds under configuration `cfg`.
    spec fn enc_ok(m: Self::V, cfg: u16) -> bool;

    /// The bytes this model serializes to under configuration `cfg`.
    spec fn enc(m: Self::V, cfg: u16) -> Seq<u8>;

    /// Serialize the data into binary format, appending to `c`.
    ///
    /// On failure the sink keeps the previously written bytes, followed by
    /// any bytes of the failing value already written; the caller is
    /// expected to discard them.
    fn encode<const CONFIG: u16>(&self, c: &mut Vec<u8>) -> (r: Result<(), Error>)
        requires
            crate::config::cfg_wf(CONFIG),
        ensures
            Self::enc_ok(self.deep_view(), CONFIG) ==> r is Ok && final(c)@ == old(c)@
                + Self::enc(self.deep_view(), CONFIG),
            !Self::enc_ok(self.deep_view(), CONFIG) ==> r == Err::<(), Error>(
                Error::integer_overflow(),
            ),
            old(c)@.is_prefix_of(final(c)@),
    ;

    /// A convenient method that encodes a value into binary data and
    /// returns it as a [`Vec<u8>`].
    fn to_bytes<const CONFIG: u16>(&self) -> (r: Vec<u8>)
        requires
            crate::config::cfg_wf(CONFIG),
            Self::enc_ok(self.deep_view(), CONFIG),
        ensures
            r@ == Self::enc(self.deep_view(), CONFIG),
    {
        let mut vec: Vec<u8> = Vec::new();
        match self.encode::<CONFIG>(&mut vec) {
            Ok(_) => vec,
            Err(_) => vstd::pervasive::unreached(),
        }
    }
}

/// This trait is used to deserialize a data structure from binary format.
///
/// `dec` is the model-level decoder: for any input bytes it yields either
/// the model of the decoded value together with the exact number of bytes
/// consumed, or the error the decoder reports on that input.
pub trait Decode<'de>: Sized + DeepView {
    /// The result of decoding `bytes` under configuration `cfg`: the model
    /// of the value and the count of bytes consumed, or the exact error.
    spec fn dec(bytes: Seq<u8>, cfg: u16) -> Result<(Self::V, int), Error>;

    /// Deserialize the data from binary format.
    ///
    /// On success the cursor advances past exactly the consumed bytes; on
    /// failure the value reported by the model-level decoder is returned.
    fn decode<const CONFIG: u16>(c: &mut &'de [u8]) -> (r: Result<Self, Error>)
        requires
            crate::config::cfg_wf(CONFIG),
        ensures
            match r {
                Ok(v) => Self::dec(old(c)@, CONFIG) matches Ok((m, n)) && m == v.deep_view()
                    && 0 <= n <= old(c)@.len() && final(c)@ == old(c)@.skip(n),
                Err(e) => Self::dec(old(c)@, CONFIG) matches Err(e2) && e == e2,
            },
    ;

    /// Law: a successful decode never claims to have consumed more bytes
    /// than the input holds.
    proof fn lemma_dec_bound(bytes: Seq<u8>, cfg: u16)
        ensures
            Self::dec(bytes, cfg) matches Ok((m, n)) ==> 0 <= n <= bytes.len(),
    ;

    /// A convenient method that decodes a value from a slice.
    fn from_bytes<const CONFIG: u16>(bytes: &'de [u8]) -> (r: Result<Self, Error>)
        requires
            crate::config::cfg_wf(CONFIG),
        ensures
            match r {
                Ok(v) => Self::dec(bytes@, CONFIG) matches Ok((m, n)) && m == v.deep_view(),
                Err(e) => Self::dec(bytes@, CONFIG) matches Err(e2) && e == e2,
            },
    {
        let mut reader = bytes;
        Self::decode::<CONFIG>(&mut reader)
    }
}

/// The round-trip law tying [`Encode`] and [`Decode`] together.
///
/// Every type implementing both traits proves here that, under any
/// well-formed configuration, decoding the encoding of a value — with any
/// trailing bytes after it — yields exactly that value back and consumes
/// exactly the bytes of its encoding.
pub trait Codec<'de>: Encode + Decode<'de> {
    /// Law: decoding reverses encoding, for every encodable model and every
    /// well-formed configuration.
    proof fn lemma_round_trip(m: Self::V, cfg: u16, rest: Seq<u8>)
        requires
            crate::config::cfg_wf(cfg),
            Self::enc_ok(m, cfg),
        ensures
            Self::dec(Self::enc(m, cfg) + rest, cfg) matches Ok((m2, n)) && m2 == m && n
                == Self::enc(m, cfg).len(),
    ;
}

/// Instead of borrowing from the input, the decoded value is owned.
///
/// This trait is automatically implemented for any type that implements
/// the [`Decode`] trait for every input lifetime.
pub trait DecodeOwned: for<'de> Decode<'de> {
}

impl<T> DecodeOwned for T where T: for<'de> Decode<'de> {

}

} // verus!
