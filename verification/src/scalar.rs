//! `Encode`/`Decode` for the scalar types.
//!
//! Eight-bit integers are always a single raw byte. Wider integers follow
//! the configured numeric mode: a fixed-width little-, big- or native-endian
//! image, or LEB128 (with the zig-zag transform for the signed types).
//! `bool` is one strict byte, `0` or `1`; `char` is its code point under the
//! numeric mode, validated on decode.
use vstd::prelude::*;

verus! {

use vstd::arithmetic::power2::pow2;
use vstd::arithmetic::power2::lemma2_to64;
use vstd::slice::slice_subrange;
use crate::{Codec, Decode, Encode};
use crate::error::Error;
use crate::wire;

impl Encode for u8 {
    open spec fn enc_ok(m: u8, cfg: u16) -> bool {
        true
    }

    open spec fn enc(m: u8, cfg: u16) -> Seq<u8> {
        seq![m]
    }

    fn encode<const CONFIG: u16>(&self, c: &mut Vec<u8>) -> (r: Result<(), Error>) {
        c.push(*self);
        Ok(())
    }
}

impl<'de> Decode<'de> for u8 {
    open spec fn dec(bytes: Seq<u8>, cfg: u16) -> Result<(u8, int), Error> {
        if bytes.len() < 1 {
            Err(Error::insufficient_bytes())
        } else {
            Ok((bytes[0], 1))
        }
    }

    proof fn lemma_dec_bound(bytes: Seq<u8>, cfg: u16) {
    }

    fn decode<const CONFIG: u16>(c: &mut &'de [u8]) -> (r: Result<Self, Error>) {
        if c.len() < 1 {
            return Err(Error::InsufficientBytes(crate::error::InsufficientBytes));
        }
        let b = c[0];
        *c = slice_subrange(*c, 1, c.len());
        Ok(b)
    }
}

impl<'de> Codec<'de> for u8 {
    proof fn lemma_round_trip(m: u8, cfg: u16, rest: Seq<u8>) {
        assert((seq![m] + rest)[0] == m);
    }
}

impl Encode for i8 {
    open spec fn enc_ok(m: i8, cfg: u16) -> bool {
        true
    }

    open spec fn enc(m: i8, cfg: u16) -> Seq<u8> {
        seq![wire::to_twos(m as int, 8) as u8]
    }

    fn encode<const CONFIG: u16>(&self, c: &mut Vec<u8>) -> (r: Result<(), Error>) {
        proof {
            lemma2_to64();
            vstd::arithmetic::power2::lemma2_to64_rest();
        }
        if *self >= 0 {
            c.push(*self as u8);
        } else {
            c.push(((*self as i16) + 256) as u8);
        }
        Ok(())
    }
}

impl<'de> Decode<'de> for i8 {
    open spec fn dec(bytes: Seq<u8>, cfg: u16) -> Result<(i8, int), Error> {
        if bytes.len() < 1 {
            Err(Error::insufficient_bytes())
        } else {
            Ok((wire::from_twos(bytes[0] as int, 8) as i8, 1))
        }
    }

    proof fn lemma_dec_bound(bytes: Seq<u8>, cfg: u16) {
    }

    fn decode<const CONFIG: u16>(c: &mut &'de [u8]) -> (r: Result<Self, Error>) {
        if c.len() < 1 {
            return Err(Error::InsufficientBytes(crate::error::InsufficientBytes));
        }
        let b = c[0];
        *c = slice_subrange(*c, 1, c.len());
        proof {
            lemma2_to64();
            vstd::arithmetic::power2::lemma2_to64_rest();
        }
        if b < 128 {
            Ok(b as i8)
        } else {
            Ok(((b as i16) - 256) as i8)
        }
    }
}

impl<'de> Codec<'de> for i8 {
    proof fn lemma_round_trip(m: i8, cfg: u16, rest: Seq<u8>) {
        lemma2_to64();
        vstd::arithmetic::power2::lemma2_to64_rest();
        wire::lemma_twos_round_trip(m as int, 8);
        assert((Self::enc(m, cfg) + rest)[0] == wire::to_twos(m as int, 8) as u8);
    }
}

impl Encode for bool {
    open spec fn enc_ok(m: bool, cfg: u16) -> bool {
        true
    }

    open spec fn enc(m: bool, cfg: u16) -> Seq<u8> {
        seq![
            if m {
                1u8
            } else {
                0u8
            },
        ]
    }

    fn encode<const CONFIG: u16>(&self, c: &mut Vec<u8>) -> (r: Result<(), Error>) {
        if *self {
            c.push(1);
        } else {
            c.push(0);
        }
        Ok(())
    }
}

impl<'de> Decode<'de> for bool {
    open spec fn dec(bytes: Seq<u8>, cfg: u16) -> Result<(bool, int), Error> {
        if bytes.len() < 1 {
            Err(Error::insufficient_bytes())
        } else if bytes[0] == 0 {
            Ok((false, 1))
        } else if bytes[0] == 1 {
            Ok((true, 1))
        } else {
            Err(Error::invalid_bool())
        }
    }

    proof fn lemma_dec_bound(bytes: Seq<u8>, cfg: u16) {
    }

    fn decode<const CONFIG: u16>(c: &mut &'de [u8]) -> (r: Result<Self, Error>) {
        if c.len() < 1 {
            return Err(Error::InsufficientBytes(crate::error::InsufficientBytes));
        }
        let b = c[0];
        if b > 1 {
            return Err(Error::InvalidBoolValue(crate::error::InvalidBoolValue));
        }
        *c = slice_subrange(*c, 1, c.len());
        Ok(b == 1)
    }
}

impl<'de> Codec<'de> for bool {
    proof fn lemma_round_trip(m: bool, cfg: u16, rest: Seq<u8>) {
        assert((Self::enc(m, cfg) + rest)[0] == Self::enc(m, cfg)[0]);
    }
}

/// Whether a code point is a Unicode scalar value: below the surrogate
/// range, or between it and the greatest code point.
pub open spec fn is_unicode_scalar(v: nat) -> bool {
    v < 0xD800 || (0xE000 <= v && v < 0x110000)
}

/// Relies on `char::from_u32`: it yields the character of a code point
/// exactly when the code point is a Unicode scalar value, that is, neither
/// a surrogate nor above `0x10FFFF`.
#[verifier::external_body]
fn char_from_u32(u: u32) -> (r: Option<char>)
    ensures
        r matches Some(c) ==> c as u32 == u,
        r is Some <==> is_unicode_scalar(u as nat),
{
    char::from_u32(u)
}

impl Encode for char {
    open spec fn enc_ok(m: char, cfg: u16) -> bool {
        true
    }

    open spec fn enc(m: char, cfg: u16) -> Seq<u8> {
        wire::unsigned_enc((m as u32) as nat, cfg, 32)
    }

    fn encode<const CONFIG: u16>(&self, c: &mut Vec<u8>) -> (r: Result<(), Error>) {
        proof {
            lemma2_to64();
            vstd::arithmetic::power2::lemma2_to64_rest();
            vstd::utf8::char_is_scalar(*self);
        }
        wire::put_unsigned(c, CONFIG, (*self as u32) as u128, 32);
        Ok(())
    }
}

impl<'de> Decode<'de> for char {
    open spec fn dec(bytes: Seq<u8>, cfg: u16) -> Result<(char, int), Error> {
        match wire::unsigned_dec(bytes, cfg, 32) {
            Ok((v, n)) => if is_unicode_scalar(v) {
                Ok(((v as u32) as char, n))
            } else {
                Err(Error::invalid_char())
            },
            Err(e) => Err(e),
        }
    }

    proof fn lemma_dec_bound(bytes: Seq<u8>, cfg: u16) {
        wire::lemma_unsigned_dec_bound(bytes, cfg, 32);
    }

    fn decode<const CONFIG: u16>(c: &mut &'de [u8]) -> (r: Result<Self, Error>) {
        proof {
            wire::lemma_unsigned_dec_bound(c@, CONFIG, 32);
            lemma2_to64();
        }
        match wire::take_unsigned(c, CONFIG, 32) {
            Ok(v) => {
                let v32 = v as u32;
                match char_from_u32(v32) {
                    Some(ch) => {
                        proof {
                            vstd::utf8::char_u32_cast(ch, v32);
                        }
                        Ok(ch)
                    },
                    None => Err(Error::InvalidChar(crate::error::InvalidChar)),
                }
            },
            Err(e) => Err(e),
        }
    }
}

impl<'de> Codec<'de> for char {
    proof fn lemma_round_trip(m: char, cfg: u16, rest: Seq<u8>) {
        lemma2_to64();
        vstd::arithmetic::power2::lemma2_to64_rest();
        vstd::utf8::char_is_scalar(m);
        wire::lemma_unsigned_round_trip((m as u32) as nat, cfg, 32, rest);
        vstd::utf8::char_u32_cast(m, m as u32);
    }
}

impl Encode for u16 {
    open spec fn enc_ok(m: u16, cfg: u16) -> bool {
        true
    }

    open spec fn enc(m: u16, cfg: u16) -> Seq<u8> {
        wire::unsigned_enc(m as nat, cfg, 16)
    }

    fn encode<const CONFIG: u16>(&self, c: &mut Vec<u8>) -> (r: Result<(), Error>) {
        proof {
            lemma2_to64();
            vstd::arithmetic::power2::lemma2_to64_rest();
        }
        wire::put_unsigned(c, CONFIG, *self as u128, 16);
        Ok(())
    }
}

impl<'de> Decode<'de> for u16 {
    open spec fn dec(bytes: Seq<u8>, cfg: u16) -> Result<(u16, int), Error> {
        match wire::unsigned_dec(bytes, cfg, 16) {
            Ok((v, n)) => Ok((v as u16, n)),
            Err(e) => Err(e),
        }
    }

    proof fn lemma_dec_bound(bytes: Seq<u8>, cfg: u16) {
        wire::lemma_unsigned_dec_bound(bytes, cfg, 16);
    }

    fn decode<const CONFIG: u16>(c: &mut &'de [u8]) -> (r: Result<Self, Error>) {
        proof {
            wire::lemma_unsigned_dec_bound(c@, CONFIG, 16);
            lemma2_to64();
            vstd::arithmetic::power2::lemma2_to64_rest();
        }
        match wire::take_unsigned(c, CONFIG, 16) {
            Ok(v) => Ok(v as u16),
            Err(e) => Err(e),
        }
    }
}

impl<'de> Codec<'de> for u16 {
    proof fn lemma_round_trip(m: u16, cfg: u16, rest: Seq<u8>) {
        lemma2_to64();
        vstd::arithmetic::power2::lemma2_to64_rest();
        wire::lemma_unsigned_round_trip(m as nat, cfg, 16, rest);
    }
}

impl Encode for u32 {
    open spec fn enc_ok(m: u32, cfg: u16) -> bool {
        true
    }

    open spec fn enc(m: u32, cfg: u16) -> Seq<u8> {
        wire::unsigned_enc(m as nat, cfg, 32)
    }

    fn encode<const CONFIG: u16>(&self, c: &mut Vec<u8>) -> (r: Result<(), Error>) {
        proof {
            lemma2_to64();
            vstd::arithmetic::power2::lemma2_to64_rest();
        }
        wire::put_unsigned(c, CONFIG, *self as u128, 32);
        Ok(())
    }
}

impl<'de> Decode<'de> for u32 {
    open spec fn dec(bytes: Seq<u8>, cfg: u16) -> Result<(u32, int), Error> {
        match wire::unsigned_dec(bytes, cfg, 32) {
            Ok((v, n)) => Ok((v as u32, n)),
            Err(e) => Err(e),
        }
    }

    proof fn lemma_dec_bound(bytes: Seq<u8>, cfg: u16) {
        wire::lemma_unsigned_dec_bound(bytes, cfg, 32);
    }

    fn decode<const CONFIG: u16>(c: &mut &'de [u8]) -> (r: Result<Self, Error>) {
        proof {
            wire::lemma_unsigned_dec_bound(c@, CONFIG, 32);
            lemma2_to64();
            vstd::arithmetic::power2::lemma2_to64_rest();
        }
        match wire::take_unsigned(c, CONFIG, 32) {
            Ok(v) => Ok(v as u32),
            Err(e) => Err(e),
        }
    }
}

impl<'de> Codec<'de> for u32 {
    proof fn lemma_round_trip(m: u32, cfg: u16, rest: Seq<u8>) {
        lemma2_to64();
        vstd::arithmetic::power2::lemma2_to64_rest();
        wire::lemma_unsigned_round_trip(m as nat, cfg, 32, rest);
    }
}

impl Encode for u64 {
    open spec fn enc_ok(m: u64, cfg: u16) -> bool {
        true
    }

    open spec fn enc(m: u64, cfg: u16) -> Seq<u8> {
        wire::unsigned_enc(m as nat, cfg, 64)
    }

    fn encode<const CONFIG: u16>(&self, c: &mut Vec<u8>) -> (r: Result<(), Error>) {
        proof {
            lemma2_to64();
            vstd::arithmetic::power2::lemma2_to64_rest();
        }
        wire::put_unsigned(c, CONFIG, *self as u128, 64);
        Ok(())
    }
}

impl<'de> Decode<'de> for u64 {
    open spec fn dec(bytes: Seq<u8>, cfg: u16) -> Result<(u64, int), Error> {
        match wire::unsigned_dec(bytes, cfg, 64) {
            Ok((v, n)) => Ok((v as u64, n)),
            Err(e) => Err(e),
        }
    }

    proof fn lemma_dec_bound(bytes: Seq<u8>, cfg: u16) {
        wire::lemma_unsigned_dec_bound(bytes, cfg, 64);
    }

    fn decode<const CONFIG: u16>(c: &mut &'de [u8]) -> (r: Result<Self, Error>) {
        proof {
            wire::lemma_unsigned_dec_bound(c@, CONFIG, 64);
            lemma2_to64();
            vstd::arithmetic::power2::lemma2_to64_rest();
        }
        match wire::take_unsigned(c, CONFIG, 64) {
            Ok(v) => Ok(v as u64),
            Err(e) => Err(e),
        }
    }
}

impl<'de> Codec<'de> for u64 {
    proof fn lemma_round_trip(m: u64, cfg: u16, rest: Seq<u8>) {
        lemma2_to64();
        vstd::arithmetic::power2::lemma2_to64_rest();
        wire::lemma_unsigned_round_trip(m as nat, cfg, 64, rest);
    }
}

impl Encode for u128 {
    open spec fn enc_ok(m: u128, cfg: u16) -> bool {
        true
    }

    open spec fn enc(m: u128, cfg: u16) -> Seq<u8> {
        wire::unsigned_enc(m as nat, cfg, 128)
    }

    fn encode<const CONFIG: u16>(&self, c: &mut Vec<u8>) -> (r: Result<(), Error>) {
        proof {
            wire::pow2_128_fact();
        }
        wire::put_unsigned(c, CONFIG, *self, 128);
        Ok(())
    }
}

impl<'de> Decode<'de> for u128 {
    open spec fn dec(bytes: Seq<u8>, cfg: u16) -> Result<(u128, int), Error> {
        match wire::unsigned_dec(bytes, cfg, 128) {
            Ok((v, n)) => Ok((v as u128, n)),
            Err(e) => Err(e),
        }
    }

    proof fn lemma_dec_bound(bytes: Seq<u8>, cfg: u16) {
        wire::lemma_unsigned_dec_bound(bytes, cfg, 128);
    }

    fn decode<const CONFIG: u16>(c: &mut &'de [u8]) -> (r: Result<Self, Error>) {
        proof {
            wire::lemma_unsigned_dec_bound(c@, CONFIG, 128);
            wire::pow2_128_fact();
        }
        match wire::take_unsigned(c, CONFIG, 128) {
            Ok(v) => Ok(v),
            Err(e) => Err(e),
        }
    }
}

impl<'de> Codec<'de> for u128 {
    proof fn lemma_round_trip(m: u128, cfg: u16, rest: Seq<u8>) {
        wire::pow2_128_fact();
        wire::lemma_unsigned_round_trip(m as nat, cfg, 128, rest);
    }
}

impl Encode for usize {
    open spec fn enc_ok(m: usize, cfg: u16) -> bool {
        true
    }

    open spec fn enc(m: usize, cfg: u16) -> Seq<u8> {
        wire::unsigned_enc(m as nat, cfg, usize::BITS as nat)
    }

    fn encode<const CONFIG: u16>(&self, c: &mut Vec<u8>) -> (r: Result<(), Error>) {
        proof {
            lemma2_to64();
            vstd::arithmetic::power2::lemma2_to64_rest();
        }
        wire::put_unsigned(c, CONFIG, *self as u128, usize::BITS);
        Ok(())
    }
}

impl<'de> Decode<'de> for usize {
    open spec fn dec(bytes: Seq<u8>, cfg: u16) -> Result<(usize, int), Error> {
        match wire::unsigned_dec(bytes, cfg, usize::BITS as nat) {
            Ok((v, n)) => Ok((v as usize, n)),
            Err(e) => Err(e),
        }
    }

    proof fn lemma_dec_bound(bytes: Seq<u8>, cfg: u16) {
        wire::lemma_unsigned_dec_bound(bytes, cfg, usize::BITS as nat);
    }

    fn decode<const CONFIG: u16>(c: &mut &'de [u8]) -> (r: Result<Self, Error>) {
        proof {
            wire::lemma_unsigned_dec_bound(c@, CONFIG, usize::BITS as nat);
            lemma2_to64();
            vstd::arithmetic::power2::lemma2_to64_rest();
        }
        match wire::take_unsigned(c, CONFIG, usize::BITS) {
            Ok(v) => Ok(v as usize),
            Err(e) => Err(e),
        }
    }
}

impl<'de> Codec<'de> for usize {
    proof fn lemma_round_trip(m: usize, cfg: u16, rest: Seq<u8>) {
        lemma2_to64();
        vstd::arithmetic::power2::lemma2_to64_rest();
        wire::lemma_unsigned_round_trip(m as nat, cfg, usize::BITS as nat, rest);
    }
}

impl Encode for i16 {
    open spec fn enc_ok(m: i16, cfg: u16) -> bool {
        true
    }

    open spec fn enc(m: i16, cfg: u16) -> Seq<u8> {
        wire::signed_enc(m as int, cfg, 16)
    }

    fn encode<const CONFIG: u16>(&self, c: &mut Vec<u8>) -> (r: Result<(), Error>) {
        proof {
            lemma2_to64();
            vstd::arithmetic::power2::lemma2_to64_rest();
        }
        wire::put_signed(c, CONFIG, *self as i128, 16);
        Ok(())
    }
}

impl<'de> Decode<'de> for i16 {
    open spec fn dec(bytes: Seq<u8>, cfg: u16) -> Result<(i16, int), Error> {
        match wire::signed_dec(bytes, cfg, 16) {
            Ok((v, n)) => Ok((v as i16, n)),
            Err(e) => Err(e),
        }
    }

    proof fn lemma_dec_bound(bytes: Seq<u8>, cfg: u16) {
        wire::lemma_signed_dec_bound(bytes, cfg, 16);
    }

    fn decode<const CONFIG: u16>(c: &mut &'de [u8]) -> (r: Result<Self, Error>) {
        proof {
            wire::lemma_signed_dec_bound(c@, CONFIG, 16);
            lemma2_to64();
            vstd::arithmetic::power2::lemma2_to64_rest();
        }
        match wire::take_signed(c, CONFIG, 16) {
            Ok(v) => Ok(v as i16),
            Err(e) => Err(e),
        }
    }
}

impl<'de> Codec<'de> for i16 {
    proof fn lemma_round_trip(m: i16, cfg: u16, rest: Seq<u8>) {
        lemma2_to64();
        vstd::arithmetic::power2::lemma2_to64_rest();
        wire::lemma_signed_round_trip(m as int, cfg, 16, rest);
    }
}

impl Encode for i32 {
    open spec fn enc_ok(m: i32, cfg: u16) -> bool {
        true
    }

    open spec fn enc(m: i32, cfg: u16) -> Seq<u8> {
        wire::signed_enc(m as int, cfg, 32)
    }

    fn encode<const CONFIG: u16>(&self, c: &mut Vec<u8>) -> (r: Result<(), Error>) {
        proof {
            lemma2_to64();
            vstd::arithmetic::power2::lemma2_to64_rest();
        }
        wire::put_signed(c, CONFIG, *self as i128, 32);
        Ok(())
    }
}

impl<'de> Decode<'de> for i32 {
    open spec fn dec(bytes: Seq<u8>, cfg: u16) -> Result<(i32, int), Error> {
        match wire::signed_dec(bytes, cfg, 32) {
            Ok((v, n)) => Ok((v as i32, n)),
            Err(e) => Err(e),
        }
    }

    proof fn lemma_dec_bound(bytes: Seq<u8>, cfg: u16) {
        wire::lemma_signed_dec_bound(bytes, cfg, 32);
    }

    fn decode<const CONFIG: u16>(c: &mut &'de [u8]) -> (r: Result<Self, Error>) {
        proof {
            wire::lemma_signed_dec_bound(c@, CONFIG, 32);
            lemma2_to64();
            vstd::arithmetic::power2::lemma2_to64_rest();
        }
        match wire::take_signed(c, CONFIG, 32) {
            Ok(v) => Ok(v as i32),
            Err(e) => Err(e),
        }
    }
}

impl<'de> Codec<'de> for i32 {
    proof fn lemma_round_trip(m: i32, cfg: u16, rest: Seq<u8>) {
        lemma2_to64();
        vstd::arithmetic::power2::lemma2_to64_rest();
        wire::lemma_signed_round_trip(m as int, cfg, 32, rest);
    }
}

impl Encode for i64 {
    open spec fn enc_ok(m: i64, cfg: u16) -> bool {
        true
    }

    open spec fn enc(m: i64, cfg: u16) -> Seq<u8> {
        wire::signed_enc(m as int, cfg, 64)
    }

    fn encode<const CONFIG: u16>(&self, c: &mut Vec<u8>) -> (r: Result<(), Error>) {
        proof {
            lemma2_to64();
            vstd::arithmetic::power2::lemma2_to64_rest();
        }
        wire::put_signed(c, CONFIG, *self as i128, 64);
        Ok(())
    }
}

impl<'de> Decode<'de> for i64 {
    open spec fn dec(bytes: Seq<u8>, cfg: u16) -> Result<(i64, int), Error> {
        match wire::signed_dec(bytes, cfg, 64) {
            Ok((v, n)) => Ok((v as i64, n)),
            Err(e) => Err(e),
        }
    }

    proof fn lemma_dec_bound(bytes: Seq<u8>, cfg: u16) {
        wire::lemma_signed_dec_bound(bytes, cfg, 64);
    }

    fn decode<const CONFIG: u16>(c: &mut &'de [u8]) -> (r: Result<Self, Error>) {
        proof {
            wire::lemma_signed_dec_bound(c@, CONFIG, 64);
            lemma2_to64();
            vstd::arithmetic::power2::lemma2_to64_rest();
        }
        match wire::take_signed(c, CONFIG, 64) {
            Ok(v) => Ok(v as i64),
            Err(e) => Err(e),
        }
    }
}

impl<'de> Codec<'de> for i64 {
    proof fn lemma_round_trip(m: i64, cfg: u16, rest: Seq<u8>) {
        lemma2_to64();
        vstd::arithmetic::power2::lemma2_to64_rest();
        wire::lemma_signed_round_trip(m as int, cfg, 64, rest);
    }
}

impl Encode for i128 {
    open spec fn enc_ok(m: i128, cfg: u16) -> bool {
        true
    }

    open spec fn enc(m: i128, cfg: u16) -> Seq<u8> {
        wire::signed_enc(m as int, cfg, 128)
    }

    fn encode<const CONFIG: u16>(&self, c: &mut Vec<u8>) -> (r: Result<(), Error>) {
        proof {
            wire::pow2_128_fact();
        }
        wire::put_signed(c, CONFIG, *self, 128);
        Ok(())
    }
}

impl<'de> Decode<'de> for i128 {
    open spec fn dec(bytes: Seq<u8>, cfg: u16) -> Result<(i128, int), Error> {
        match wire::signed_dec(bytes, cfg, 128) {
            Ok((v, n)) => Ok((v as i128, n)),
            Err(e) => Err(e),
        }
    }

    proof fn lemma_dec_bound(bytes: Seq<u8>, cfg: u16) {
        wire::lemma_signed_dec_bound(bytes, cfg, 128);
    }

    fn decode<const CONFIG: u16>(c: &mut &'de [u8]) -> (r: Result<Self, Error>) {
        proof {
            wire::lemma_signed_dec_bound(c@, CONFIG, 128);
            wire::pow2_128_fact();
        }
        match wire::take_signed(c, CONFIG, 128) {
            Ok(v) => Ok(v),
            Err(e) => Err(e),
        }
    }
}

impl<'de> Codec<'de> for i128 {
    proof fn lemma_round_trip(m: i128, cfg: u16, rest: Seq<u8>) {
        wire::pow2_128_fact();
        wire::lemma_signed_round_trip(m as int, cfg, 128, rest);
    }
}

impl Encode for isize {
    open spec fn enc_ok(m: isize, cfg: u16) -> bool {
        true
    }

    open spec fn enc(m: isize, cfg: u16) -> Seq<u8> {
        wire::signed_enc(m as int, cfg, usize::BITS as nat)
    }

    fn encode<const CONFIG: u16>(&self, c: &mut Vec<u8>) -> (r: Result<(), Error>) {
        proof {
            lemma2_to64();
            vstd::arithmetic::power2::lemma2_to64_rest();
        }
        wire::put_signed(c, CONFIG, *self as i128, usize::BITS);
        Ok(())
    }
}

impl<'de> Decode<'de> for isize {
    open spec fn dec(bytes: Seq<u8>, cfg: u16) -> Result<(isize, int), Error> {
        match wire::signed_dec(bytes, cfg, usize::BITS as nat) {
            Ok((v, n)) => Ok((v as isize, n)),
            Err(e) => Err(e),
        }
    }

    proof fn lemma_dec_bound(bytes: Seq<u8>, cfg: u16) {
        wire::lemma_signed_dec_bound(bytes, cfg, usize::BITS as nat);
    }

    fn decode<const CONFIG: u16>(c: &mut &'de [u8]) -> (r: Result<Self, Error>) {
        proof {
            wire::lemma_signed_dec_bound(c@, CONFIG, usize::BITS as nat);
            lemma2_to64();
            vstd::arithmetic::power2::lemma2_to64_rest();
        }
        match wire::take_signed(c, CONFIG, usize::BITS) {
            Ok(v) => Ok(v as isize),
            Err(e) => Err(e),
        }
    }
}

impl<'de> Codec<'de> for isize {
    proof fn lemma_round_trip(m: isize, cfg: u16, rest: Seq<u8>) {
        lemma2_to64();
        vstd::arithmetic::power2::lemma2_to64_rest();
        wire::lemma_signed_round_trip(m as int, cfg, usize::BITS as nat, rest);
    }
}

} // verus!
