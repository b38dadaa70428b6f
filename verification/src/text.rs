//! Length-prefixed text and byte strings.
//!
//! Text is written as its byte length followed by its UTF-8 bytes; a byte
//! string as its length followed by the raw bytes. Decoding `&str` and
//! `&[u8]` is zero-copy: the decoded value borrows a window of exactly the
//! prefixed length directly from the input buffer, so it cannot outlive the
//! buffer. Decoded text is validated: a window that is not UTF-8 fails.
use vstd::prelude::*;

verus! {

use vstd::slice::slice_subrange;
use vstd::utf8::{valid_utf8, decode_utf8, encode_utf8, encode_utf8_valid_utf8, encode_utf8_decode_utf8};
use vstd::string::StringSliceAdditionalSpecFns;
use crate::{Codec, Decode, Encode};
use crate::collection::{len_dec, len_enc, len_max, lemma_len_round_trip, put_len, take_len};
use crate::config;
use crate::error::Error;

/// Relies on `core::str::from_utf8`: it yields a string slice viewing the
/// given bytes exactly when they are valid UTF-8, and rejects them
/// otherwise.
#[verifier::external_body]
pub(crate) fn utf8_from<'de>(b: &'de [u8]) -> (r: Option<&'de str>)
    ensures
        r matches Some(s) ==> s.spec_bytes() == b@,
        r is Some <==> valid_utf8(b@),
{
    core::str::from_utf8(b).ok()
}

impl<'de> Decode<'de> for &'de [u8] {
    open spec fn dec(bytes: Seq<u8>, cfg: u16) -> Result<(Seq<u8>, int), Error> {
        match len_dec(bytes, cfg) {
            Ok((l, n)) => if bytes.len() >= n + l {
                Ok((bytes.subrange(n, n + l), n + l))
            } else {
                Err(Error::insufficient_bytes())
            },
            Err(e) => Err(e),
        }
    }

    proof fn lemma_dec_bound(bytes: Seq<u8>, cfg: u16) {
        crate::collection::lemma_len_dec_bound(bytes, cfg);
    }

    fn decode<const CONFIG: u16>(c: &mut &'de [u8]) -> (r: Result<Self, Error>) {
        let ghost orig = c@;
        let l = match take_len::<CONFIG>(c) {
            Ok(l) => l,
            Err(e) => {
                return Err(e);
            },
        };
        if c.len() < l {
            return Err(Error::InsufficientBytes(crate::error::InsufficientBytes));
        }
        let ghost n = len_dec(orig, CONFIG).unwrap().1;
        let window = slice_subrange(*c, 0, l);
        *c = slice_subrange(*c, l, c.len());
        proof {
            assert(orig.subrange(n, n + l as int) =~= orig.skip(n).take(l as int));
            assert(orig.skip(n + l as int) =~= orig.skip(n).skip(l as int));
            assert(window@ =~= orig.skip(n).take(l as int));
            assert(window.deep_view() =~= window@);
        }
        Ok(window)
    }
}

impl<'de> Codec<'de> for &'de [u8] {
    proof fn lemma_round_trip(m: Seq<u8>, cfg: u16, rest: Seq<u8>) {
        let lbytes = len_enc(m.len() as nat, cfg);
        crate::collection::lemma_elems_enc_u8(m, cfg);
        lemma_len_round_trip(m.len() as nat, cfg, m + rest);
        assert(Self::enc(m, cfg) + rest =~= lbytes + (m + rest));
        let whole = lbytes + (m + rest);
        assert(whole.subrange(lbytes.len() as int, lbytes.len() + m.len() as int) =~= m);
    }
}

impl Encode for str {
    open spec fn enc_ok(m: Seq<char>, cfg: u16) -> bool {
        encode_utf8(m).len() <= len_max(cfg)
    }

    open spec fn enc(m: Seq<char>, cfg: u16) -> Seq<u8> {
        len_enc(encode_utf8(m).len(), cfg) + encode_utf8(m)
    }

    fn encode<const CONFIG: u16>(&self, c: &mut Vec<u8>) -> (r: Result<(), Error>) {
        let bytes = self.as_bytes();
        match put_len::<CONFIG>(c, bytes.len()) {
            Ok(_) => {},
            Err(e) => {
                return Err(e);
            },
        }
        let ghost base = c@;
        let mut i: usize = 0;
        proof {
            assert(base + bytes@.take(0) =~= base);
        }
        while i < bytes.len()
            invariant
                i <= bytes@.len(),
                c@ == base + bytes@.take(i as int),
            decreases bytes@.len() - i,
        {
            c.push(bytes[i]);
            proof {
                assert(base + bytes@.take(i as int) + seq![bytes@[i as int]] =~= base
                    + bytes@.take(i + 1));
            }
            i = i + 1;
        }
        proof {
            assert(bytes@.take(bytes@.len() as int) =~= bytes@);
            assert(c@ =~= old(c)@ + (len_enc(encode_utf8(self@).len(), CONFIG) + encode_utf8(
                self@,
            )));
        }
        Ok(())
    }
}

impl Encode for String {
    open spec fn enc_ok(m: Seq<char>, cfg: u16) -> bool {
        encode_utf8(m).len() <= len_max(cfg)
    }

    open spec fn enc(m: Seq<char>, cfg: u16) -> Seq<u8> {
        len_enc(encode_utf8(m).len(), cfg) + encode_utf8(m)
    }

    fn encode<const CONFIG: u16>(&self, c: &mut Vec<u8>) -> (r: Result<(), Error>) {
        self.as_str().encode::<CONFIG>(c)
    }
}

impl<'de> Decode<'de> for &'de str {
    open spec fn dec(bytes: Seq<u8>, cfg: u16) -> Result<(Seq<char>, int), Error> {
        match <&'de [u8] as Decode<'de>>::dec(bytes, cfg) {
            Ok((win, n)) => if valid_utf8(win) {
                Ok((decode_utf8(win), n))
            } else {
                Err(Error::invalid_utf8())
            },
            Err(e) => Err(e),
        }
    }

    proof fn lemma_dec_bound(bytes: Seq<u8>, cfg: u16) {
        <&'de [u8] as Decode<'de>>::lemma_dec_bound(bytes, cfg);
    }

    fn decode<const CONFIG: u16>(c: &mut &'de [u8]) -> (r: Result<Self, Error>) {
        let ghost orig = c@;
        let window = match <&'de [u8]>::decode::<CONFIG>(c) {
            Ok(w) => w,
            Err(e) => {
                return Err(e);
            },
        };
        proof {
            assert(window.deep_view() =~= window@);
        }
        let ghost win = <&'de [u8] as Decode<'de>>::dec(orig, CONFIG).unwrap().0;
        match utf8_from(window) {
            Some(s) => {
                proof {
                    broadcast use encode_utf8_valid_utf8, encode_utf8_decode_utf8;

                    assert(win == window@);
                    assert(valid_utf8(win));
                    assert(s.spec_bytes() == encode_utf8(s@));
                    assert(decode_utf8(win) == decode_utf8(encode_utf8(s@)));
                    assert(decode_utf8(win) == s@);
                    assert(s.deep_view() == s@);
                }
                Ok(s)
            },
            None => {
                proof {
                    assert(win == window@);
                    assert(!valid_utf8(win));
                }
                Err(Error::InvalidUtf8(crate::error::InvalidUtf8))
            },
        }
    }
}

impl<'de> Codec<'de> for &'de str {
    proof fn lemma_round_trip(m: Seq<char>, cfg: u16, rest: Seq<u8>) {
        broadcast use encode_utf8_valid_utf8, encode_utf8_decode_utf8;

        let payload = encode_utf8(m);
        crate::collection::lemma_elems_enc_u8(payload, cfg);
        assert(Self::enc(m, cfg) + rest =~= <&'de [u8] as Encode>::enc(payload, cfg) + rest);
        <&'de [u8] as Codec<'de>>::lemma_round_trip(payload, cfg, rest);
    }
}

impl<'de> Decode<'de> for String {
    open spec fn dec(bytes: Seq<u8>, cfg: u16) -> Result<(Seq<char>, int), Error> {
        <&'de str as Decode<'de>>::dec(bytes, cfg)
    }

    proof fn lemma_dec_bound(bytes: Seq<u8>, cfg: u16) {
        <&'de str as Decode<'de>>::lemma_dec_bound(bytes, cfg);
    }

    fn decode<const CONFIG: u16>(c: &mut &'de [u8]) -> (r: Result<Self, Error>) {
        match <&'de str>::decode::<CONFIG>(c) {
            Ok(s) => Ok(s.to_owned()),
            Err(e) => Err(e),
        }
    }
}

impl<'de> Codec<'de> for String {
    proof fn lemma_round_trip(m: Seq<char>, cfg: u16, rest: Seq<u8>) {
        <&'de str as Codec<'de>>::lemma_round_trip(m, cfg, rest);
    }
}

} // verus!
