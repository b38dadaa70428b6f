//! The length-override wrapper.
//!
//! [`Record`] pairs a length type with a payload, letting one field use a
//! narrower or wider length prefix than the ambient configuration default:
//! the payload's length is written with the fixed-width integer type `L`
//! under the configured numeric mode. Encoding fails with an integer
//! overflow when the payload length does not fit `L`; decoding reads the
//! length back and then exactly that much payload.
use vstd::prelude::*;

verus! {

use vstd::arithmetic::power2::lemma2_to64;
use vstd::slice::slice_subrange;
use vstd::utf8::{valid_utf8, decode_utf8, encode_utf8, encode_utf8_valid_utf8, encode_utf8_decode_utf8};
use vstd::string::StringSliceAdditionalSpecFns;
use crate::{Codec, Decode, Encode};
use crate::collection::{
    elems_enc,
    elems_enc_ok,
    elems_dec,
    lemma_elems_enc_push,
    lemma_elems_round_trip,
    try_collect,
};
use crate::config;
use crate::error::Error;
use crate::wire;

/// A fixed-width unsigned integer type that can carry the length of a
/// [`Record`] payload on the wire.
pub trait LenType: Sized {
    /// The largest payload length this type can carry.
    spec fn max_len() -> nat;

    /// The bytes of a length value under configuration `cfg`.
    spec fn length_enc(l: nat, cfg: u16) -> Seq<u8>;

    /// Decoding a length value: the length and the bytes consumed, or the
    /// error; a length above the address-space limit is an overflow.
    spec fn length_dec(bytes: Seq<u8>, cfg: u16) -> Result<(nat, int), Error>;

    /// Appends the length prefix, or reports overflow when `l` exceeds
    /// [`LenType::max_len`].
    fn put_length<const CONFIG: u16>(c: &mut Vec<u8>, l: usize) -> (r: Result<(), Error>)
        requires
            config::cfg_wf(CONFIG),
        ensures
            l <= Self::max_len() ==> r is Ok && final(c)@ == old(c)@ + Self::length_enc(
                l as nat,
                CONFIG,
            ),
            l > Self::max_len() ==> r == Err::<(), Error>(Error::integer_overflow()) && final(c)@
                == old(c)@,
    ;

    /// Reads a length prefix from the front of the cursor.
    fn take_length<const CONFIG: u16>(c: &mut &[u8]) -> (r: Result<usize, Error>)
        requires
            config::cfg_wf(CONFIG),
        ensures
            match Self::length_dec(old(c)@, CONFIG) {
                Ok((l, n)) => r matches Ok(x) && x == l && final(c)@ == old(c)@.skip(n),
                Err(e) => r matches Err(e2) && e2 == e,
            },
    ;

    /// A decoded length consumed at least one byte of the input.
    proof fn lemma_length_dec_bound(bytes: Seq<u8>, cfg: u16)
        ensures
            Self::length_dec(bytes, cfg) matches Ok((l, n)) ==> 1 <= n <= bytes.len(),
    ;

    /// Law: reading back a written length yields the length.
    proof fn lemma_length_round_trip(l: nat, cfg: u16, rest: Seq<u8>)
        requires
            config::cfg_wf(cfg),
            l <= Self::max_len(),
        ensures
            Self::length_dec(Self::length_enc(l, cfg) + rest, cfg) matches Ok((v, n)) && v == l && n
                == Self::length_enc(l, cfg).len(),
    ;
}

impl LenType for u8 {
    open spec fn max_len() -> nat {
        255
    }

    open spec fn length_enc(l: nat, cfg: u16) -> Seq<u8> {
        seq![l as u8]
    }

    open spec fn length_dec(bytes: Seq<u8>, cfg: u16) -> Result<(nat, int), Error> {
        if bytes.len() < 1 {
            Err(Error::insufficient_bytes())
        } else {
            Ok((bytes[0] as nat, 1))
        }
    }

    fn put_length<const CONFIG: u16>(c: &mut Vec<u8>, l: usize) -> (r: Result<(), Error>) {
        if l > 255 {
            return Err(Error::IntegerOverflow(crate::error::IntegerOverflow));
        }
        let ghost pre = c@;
        c.push(l as u8);
        proof {
            assert(c@ =~= pre + Self::length_enc(l as nat, CONFIG));
        }
        Ok(())
    }

    fn take_length<const CONFIG: u16>(c: &mut &[u8]) -> (r: Result<usize, Error>) {
        if c.len() < 1 {
            return Err(Error::InsufficientBytes(crate::error::InsufficientBytes));
        }
        let b = c[0];
        *c = slice_subrange(*c, 1, c.len());
        Ok(b as usize)
    }

    proof fn lemma_length_dec_bound(bytes: Seq<u8>, cfg: u16) {
    }

    proof fn lemma_length_round_trip(l: nat, cfg: u16, rest: Seq<u8>) {
        assert((Self::length_enc(l, cfg) + rest)[0] == l as u8);
    }
}

impl LenType for u16 {
    open spec fn max_len() -> nat {
        0xFFFF
    }

    open spec fn length_enc(l: nat, cfg: u16) -> Seq<u8> {
        wire::unsigned_enc(l, cfg, 16)
    }

    open spec fn length_dec(bytes: Seq<u8>, cfg: u16) -> Result<(nat, int), Error> {
        wire::unsigned_dec(bytes, cfg, 16)
    }

    fn put_length<const CONFIG: u16>(c: &mut Vec<u8>, l: usize) -> (r: Result<(), Error>) {
        if l > 0xFFFF {
            return Err(Error::IntegerOverflow(crate::error::IntegerOverflow));
        }
        proof {
            lemma2_to64();
        }
        wire::put_unsigned(c, CONFIG, l as u128, 16);
        Ok(())
    }

    fn take_length<const CONFIG: u16>(c: &mut &[u8]) -> (r: Result<usize, Error>) {
        proof {
            wire::lemma_unsigned_dec_bound(c@, CONFIG, 16);
            lemma2_to64();
        }
        match wire::take_unsigned(c, CONFIG, 16) {
            Ok(v) => Ok(v as usize),
            Err(e) => Err(e),
        }
    }

    proof fn lemma_length_dec_bound(bytes: Seq<u8>, cfg: u16) {
        wire::lemma_unsigned_dec_bound(bytes, cfg, 16);
    }

    proof fn lemma_length_round_trip(l: nat, cfg: u16, rest: Seq<u8>) {
        lemma2_to64();
        wire::lemma_unsigned_round_trip(l, cfg, 16, rest);
    }
}

impl LenType for u32 {
    open spec fn max_len() -> nat {
        0xFFFFFFFF
    }

    open spec fn length_enc(l: nat, cfg: u16) -> Seq<u8> {
        wire::unsigned_enc(l, cfg, 32)
    }

    open spec fn length_dec(bytes: Seq<u8>, cfg: u16) -> Result<(nat, int), Error> {
        wire::unsigned_dec(bytes, cfg, 32)
    }

    fn put_length<const CONFIG: u16>(c: &mut Vec<u8>, l: usize) -> (r: Result<(), Error>) {
        if l > 0xFFFFFFFF {
            return Err(Error::IntegerOverflow(crate::error::IntegerOverflow));
        }
        proof {
            lemma2_to64();
        }
        wire::put_unsigned(c, CONFIG, l as u128, 32);
        Ok(())
    }

    fn take_length<const CONFIG: u16>(c: &mut &[u8]) -> (r: Result<usize, Error>) {
        proof {
            wire::lemma_unsigned_dec_bound(c@, CONFIG, 32);
            lemma2_to64();
        }
        match wire::take_unsigned(c, CONFIG, 32) {
            Ok(v) => Ok(v as usize),
            Err(e) => Err(e),
        }
    }

    proof fn lemma_length_dec_bound(bytes: Seq<u8>, cfg: u16) {
        wire::lemma_unsigned_dec_bound(bytes, cfg, 32);
    }

    proof fn lemma_length_round_trip(l: nat, cfg: u16, rest: Seq<u8>) {
        lemma2_to64();
        wire::lemma_unsigned_round_trip(l, cfg, 32, rest);
    }
}

impl LenType for u64 {
    open spec fn max_len() -> nat {
        usize::MAX as nat
    }

    open spec fn length_enc(l: nat, cfg: u16) -> Seq<u8> {
        wire::unsigned_enc(l, cfg, 64)
    }

    open spec fn length_dec(bytes: Seq<u8>, cfg: u16) -> Result<(nat, int), Error> {
        match wire::unsigned_dec(bytes, cfg, 64) {
            Ok((v, n)) => if v <= usize::MAX as nat {
                Ok((v, n))
            } else {
                Err(Error::integer_overflow())
            },
            Err(e) => Err(e),
        }
    }

    fn put_length<const CONFIG: u16>(c: &mut Vec<u8>, l: usize) -> (r: Result<(), Error>) {
        proof {
            lemma2_to64();
            vstd::arithmetic::power2::lemma2_to64_rest();
        }
        wire::put_unsigned(c, CONFIG, l as u128, 64);
        Ok(())
    }

    fn take_length<const CONFIG: u16>(c: &mut &[u8]) -> (r: Result<usize, Error>) {
        proof {
            wire::lemma_unsigned_dec_bound(c@, CONFIG, 64);
            lemma2_to64();
            vstd::arithmetic::power2::lemma2_to64_rest();
        }
        match wire::take_unsigned(c, CONFIG, 64) {
            Ok(v) => {
                if v > usize::MAX as u128 {
                    Err(Error::IntegerOverflow(crate::error::IntegerOverflow))
                } else {
                    Ok(v as usize)
                }
            },
            Err(e) => Err(e),
        }
    }

    proof fn lemma_length_dec_bound(bytes: Seq<u8>, cfg: u16) {
        wire::lemma_unsigned_dec_bound(bytes, cfg, 64);
    }

    proof fn lemma_length_round_trip(l: nat, cfg: u16, rest: Seq<u8>) {
        lemma2_to64();
        vstd::arithmetic::power2::lemma2_to64_rest();
        wire::lemma_unsigned_round_trip(l, cfg, 64, rest);
    }
}

impl LenType for usize {
    open spec fn max_len() -> nat {
        usize::MAX as nat
    }

    open spec fn length_enc(l: nat, cfg: u16) -> Seq<u8> {
        wire::unsigned_enc(l, cfg, usize::BITS as nat)
    }

    open spec fn length_dec(bytes: Seq<u8>, cfg: u16) -> Result<(nat, int), Error> {
        wire::unsigned_dec(bytes, cfg, usize::BITS as nat)
    }

    fn put_length<const CONFIG: u16>(c: &mut Vec<u8>, l: usize) -> (r: Result<(), Error>) {
        proof {
            lemma2_to64();
        }
        wire::put_unsigned(c, CONFIG, l as u128, usize::BITS);
        Ok(())
    }

    fn take_length<const CONFIG: u16>(c: &mut &[u8]) -> (r: Result<usize, Error>) {
        proof {
            wire::lemma_unsigned_dec_bound(c@, CONFIG, usize::BITS as nat);
            lemma2_to64();
        }
        match wire::take_unsigned(c, CONFIG, usize::BITS) {
            Ok(v) => Ok(v as usize),
            Err(e) => Err(e),
        }
    }

    proof fn lemma_length_dec_bound(bytes: Seq<u8>, cfg: u16) {
        wire::lemma_unsigned_dec_bound(bytes, cfg, usize::BITS as nat);
    }

    proof fn lemma_length_round_trip(l: nat, cfg: u16, rest: Seq<u8>) {
        lemma2_to64();
        wire::lemma_unsigned_round_trip(l, cfg, usize::BITS as nat, rest);
    }
}

/// `Record` represents its payload with a caller-chosen fixed-width length
/// prefix instead of the configuration's variable-length default.
///
/// It accepts a fixed-width unsigned integer type `L` (`u8`, `u32`,
/// `usize`, ...) and a payload type `T` (`Vec<T>`, `String`, ...).
#[derive(Debug, PartialEq, Eq)]
pub struct Record<L: LenType, T> {
    /// The wrapped payload.
    pub data: T,
    /// The zero-size tag naming the length type.
    pub _marker: core::marker::PhantomData<L>,
}

impl<L: LenType, T> Record<L, T> {
    /// Wraps a payload.
    pub fn new(data: T) -> (r: Self)
        ensures
            r.data == data,
    {
        Record { data, _marker: core::marker::PhantomData }
    }
}

impl<L: LenType, T: DeepView> DeepView for Record<L, T> {
    type V = T::V;

    open spec fn deep_view(&self) -> T::V {
        self.data.deep_view()
    }
}

impl<L: LenType, T: View> View for Record<L, T> {
    type V = T::V;

    open spec fn view(&self) -> T::V {
        self.data.view()
    }
}

impl<'a, L: LenType> Encode for Record<L, &'a [u8]> {
    open spec fn enc_ok(m: Seq<u8>, cfg: u16) -> bool {
        m.len() <= L::max_len()
    }

    open spec fn enc(m: Seq<u8>, cfg: u16) -> Seq<u8> {
        L::length_enc(m.len() as nat, cfg) + m
    }

    fn encode<const CONFIG: u16>(&self, c: &mut Vec<u8>) -> (r: Result<(), Error>) {
        let ghost m = self.deep_view();
        proof {
            assert(self.data.deep_view() =~= self.data@);
            assert(Self::enc_ok(m, CONFIG) == (m.len() <= L::max_len()));
            assert(Self::enc(m, CONFIG) == L::length_enc(m.len() as nat, CONFIG) + m);
        }
        match L::put_length::<CONFIG>(c, self.data.len()) {
            Ok(_) => {},
            Err(e) => {
                return Err(e);
            },
        }
        let ghost base = c@;
        let mut i: usize = 0;
        proof {
            assert(base + self.data@.take(0) =~= base);
        }
        while i < self.data.len()
            invariant
                i <= self.data@.len(),
                c@ == base + self.data@.take(i as int),
            decreases self.data@.len() - i,
        {
            c.push(self.data[i]);
            proof {
                assert(base + self.data@.take(i as int) + seq![self.data@[i as int]] =~= base
                    + self.data@.take(i + 1));
            }
            i = i + 1;
        }
        proof {
            assert(self.data@.take(self.data@.len() as int) =~= self.data@);
            assert(c@ =~= old(c)@ + (L::length_enc(self.data@.len() as nat, CONFIG)
                + self.data@));
        }
        Ok(())
    }
}

impl<'de, L: LenType> Decode<'de> for Record<L, &'de [u8]> {
    open spec fn dec(bytes: Seq<u8>, cfg: u16) -> Result<(Seq<u8>, int), Error> {
        match L::length_dec(bytes, cfg) {
            Ok((l, n)) => if bytes.len() >= n + l {
                Ok((bytes.subrange(n, n + l), n + l))
            } else {
                Err(Error::insufficient_bytes())
            },
            Err(e) => Err(e),
        }
    }

    proof fn lemma_dec_bound(bytes: Seq<u8>, cfg: u16) {
        L::lemma_length_dec_bound(bytes, cfg);
    }

    fn decode<const CONFIG: u16>(c: &mut &'de [u8]) -> (r: Result<Self, Error>) {
        let ghost orig = c@;
        proof {
            L::lemma_length_dec_bound(orig, CONFIG);
            assert(<Record<L, &'de [u8]> as Decode<'de>>::dec(orig, CONFIG) == (match L::length_dec(
                orig,
                CONFIG,
            ) {
                Ok((l, n)) => if orig.len() >= n + l {
                    Ok::<(Seq<u8>, int), Error>((orig.subrange(n, n + l), n + l))
                } else {
                    Err(Error::insufficient_bytes())
                },
                Err(e) => Err(e),
            }));
        }
        let l = match L::take_length::<CONFIG>(c) {
            Ok(l) => l,
            Err(e) => {
                return Err(e);
            },
        };
        if c.len() < l {
            return Err(Error::InsufficientBytes(crate::error::InsufficientBytes));
        }
        let ghost n = L::length_dec(orig, CONFIG).unwrap().1;
        let window = slice_subrange(*c, 0, l);
        *c = slice_subrange(*c, l, c.len());
        proof {
            assert(orig.subrange(n, n + l as int) =~= orig.skip(n).take(l as int));
            assert(orig.skip(n + l as int) =~= orig.skip(n).skip(l as int));
            assert(window@ =~= orig.skip(n).take(l as int));
            assert(window.deep_view() =~= window@);
        }
        Ok(Record::new(window))
    }
}

impl<'de, L: LenType> Codec<'de> for Record<L, &'de [u8]> {
    proof fn lemma_round_trip(m: Seq<u8>, cfg: u16, rest: Seq<u8>) {
        let lbytes = L::length_enc(m.len() as nat, cfg);
        L::lemma_length_round_trip(m.len() as nat, cfg, m + rest);
        assert(Self::enc(m, cfg) + rest =~= lbytes + (m + rest));
        let whole = lbytes + (m + rest);
        assert(whole.subrange(lbytes.len() as int, lbytes.len() + m.len() as int) =~= m);
    }
}

impl<'a, L: LenType> Encode for Record<L, &'a str> {
    open spec fn enc_ok(m: Seq<char>, cfg: u16) -> bool {
        encode_utf8(m).len() <= L::max_len()
    }

    open spec fn enc(m: Seq<char>, cfg: u16) -> Seq<u8> {
        L::length_enc(encode_utf8(m).len(), cfg) + encode_utf8(m)
    }

    fn encode<const CONFIG: u16>(&self, c: &mut Vec<u8>) -> (r: Result<(), Error>) {
        let bytes_record: Record<L, &[u8]> = Record::new(self.data.as_bytes());
        proof {
            let m = self.deep_view();
            assert(bytes_record.deep_view() =~= encode_utf8(m));
            assert(Self::enc_ok(m, CONFIG) == (encode_utf8(m).len() <= L::max_len()));
            assert(Self::enc(m, CONFIG) == L::length_enc(encode_utf8(m).len(), CONFIG)
                + encode_utf8(m));
        }
        bytes_record.encode::<CONFIG>(c)
    }
}

impl<L: LenType> Encode for Record<L, String> {
    open spec fn enc_ok(m: Seq<char>, cfg: u16) -> bool {
        encode_utf8(m).len() <= L::max_len()
    }

    open spec fn enc(m: Seq<char>, cfg: u16) -> Seq<u8> {
        L::length_enc(encode_utf8(m).len(), cfg) + encode_utf8(m)
    }

    fn encode<const CONFIG: u16>(&self, c: &mut Vec<u8>) -> (r: Result<(), Error>) {
        let bytes_record: Record<L, &[u8]> = Record::new(self.data.as_str().as_bytes());
        proof {
            let m = self.deep_view();
            assert(bytes_record.deep_view() =~= encode_utf8(m));
            assert(Self::enc_ok(m, CONFIG) == (encode_utf8(m).len() <= L::max_len()));
            assert(Self::enc(m, CONFIG) == L::length_enc(encode_utf8(m).len(), CONFIG)
                + encode_utf8(m));
        }
        bytes_record.encode::<CONFIG>(c)
    }
}

impl<'de, L: LenType> Decode<'de> for Record<L, &'de str> {
    open spec fn dec(bytes: Seq<u8>, cfg: u16) -> Result<(Seq<char>, int), Error> {
        match <Record<L, &'de [u8]> as Decode<'de>>::dec(bytes, cfg) {
            Ok((win, n)) => if valid_utf8(win) {
                Ok((decode_utf8(win), n))
            } else {
                Err(Error::invalid_utf8())
            },
            Err(e) => Err(e),
        }
    }

    proof fn lemma_dec_bound(bytes: Seq<u8>, cfg: u16) {
        <Record<L, &'de [u8]> as Decode<'de>>::lemma_dec_bound(bytes, cfg);
    }

    fn decode<const CONFIG: u16>(c: &mut &'de [u8]) -> (r: Result<Self, Error>) {
        let ghost orig = c@;
        let window = match <Record<L, &'de [u8]>>::decode::<CONFIG>(c) {
            Ok(w) => w,
            Err(e) => {
                return Err(e);
            },
        };
        proof {
            assert(window.data.deep_view() =~= window.data@);
        }
        let ghost win = <Record<L, &'de [u8]> as Decode<'de>>::dec(orig, CONFIG).unwrap().0;
        match crate::text::utf8_from(window.data) {
            Some(s) => {
                proof {
                    broadcast use encode_utf8_valid_utf8, encode_utf8_decode_utf8;

                    assert(win == window.data@);
                    assert(valid_utf8(win));
                    assert(s.spec_bytes() == encode_utf8(s@));
                    assert(decode_utf8(win) == s@);
                }
                Ok(Record::new(s))
            },
            None => {
                proof {
                    assert(win == window.data@);
                }
                Err(Error::InvalidUtf8(crate::error::InvalidUtf8))
            },
        }
    }
}

impl<'de, L: LenType> Codec<'de> for Record<L, &'de str> {
    proof fn lemma_round_trip(m: Seq<char>, cfg: u16, rest: Seq<u8>) {
        broadcast use encode_utf8_valid_utf8, encode_utf8_decode_utf8;

        let payload = encode_utf8(m);
        assert(Self::enc(m, cfg) + rest =~= <Record<L, &'de [u8]> as Encode>::enc(payload, cfg)
            + rest);
        <Record<L, &'de [u8]> as Codec<'de>>::lemma_round_trip(payload, cfg, rest);
    }
}

impl<'de, L: LenType> Decode<'de> for Record<L, String> {
    open spec fn dec(bytes: Seq<u8>, cfg: u16) -> Result<(Seq<char>, int), Error> {
        <Record<L, &'de str> as Decode<'de>>::dec(bytes, cfg)
    }

    proof fn lemma_dec_bound(bytes: Seq<u8>, cfg: u16) {
        <Record<L, &'de str> as Decode<'de>>::lemma_dec_bound(bytes, cfg);
    }

    fn decode<const CONFIG: u16>(c: &mut &'de [u8]) -> (r: Result<Self, Error>) {
        match <Record<L, &'de str>>::decode::<CONFIG>(c) {
            Ok(s) => Ok(Record::new(s.data.to_owned())),
            Err(e) => Err(e),
        }
    }
}

impl<'de, L: LenType> Codec<'de> for Record<L, String> {
    proof fn lemma_round_trip(m: Seq<char>, cfg: u16, rest: Seq<u8>) {
        <Record<L, &'de str> as Codec<'de>>::lemma_round_trip(m, cfg, rest);
    }
}

impl<L: LenType, T: Encode> Encode for Record<L, Vec<T>> {
    open spec fn enc_ok(m: Seq<T::V>, cfg: u16) -> bool {
        m.len() <= L::max_len() && elems_enc_ok::<T>(m, cfg)
    }

    open spec fn enc(m: Seq<T::V>, cfg: u16) -> Seq<u8> {
        L::length_enc(m.len() as nat, cfg) + elems_enc::<T>(m, cfg)
    }

    fn encode<const CONFIG: u16>(&self, c: &mut Vec<u8>) -> (r: Result<(), Error>) {
        let ghost m = self.data.deep_view();
        match L::put_length::<CONFIG>(c, self.data.len()) {
            Ok(_) => {},
            Err(e) => {
                return Err(e);
            },
        }
        let ghost base = c@;
        let mut i: usize = 0;
        proof {
            assert(elems_enc::<T>(m.take(0), CONFIG) =~= Seq::<u8>::empty());
            assert(base + Seq::<u8>::empty() =~= base);
        }
        while i < self.data.len()
            invariant
                config::cfg_wf(CONFIG),
                i <= self.data@.len(),
                m == self.data.deep_view(),
                m.len() == self.data@.len(),
                base == old(c)@ + L::length_enc(m.len() as nat, CONFIG),
                m.len() <= L::max_len(),
                c@ == base + elems_enc::<T>(m.take(i as int), CONFIG),
                forall|j: int| 0 <= j < i ==> T::enc_ok(#[trigger] m[j], CONFIG),
            decreases self.data@.len() - i,
        {
            match self.data[i].encode::<CONFIG>(c) {
                Ok(_) => {},
                Err(e) => {
                    proof {
                        assert(self.data@[i as int].deep_view() == m[i as int]);
                        assert(!T::enc_ok(m[i as int], CONFIG));
                    }
                    return Err(e);
                },
            }
            proof {
                assert(self.data@[i as int].deep_view() == m[i as int]);
                lemma_elems_enc_push::<T>(m.take(i as int), m[i as int], CONFIG);
                assert(m.take(i as int).push(m[i as int]) =~= m.take(i + 1));
                assert(c@ =~= base + elems_enc::<T>(m.take(i + 1), CONFIG));
            }
            i = i + 1;
        }
        proof {
            assert(m.take(m.len() as int) =~= m);
            assert(c@ =~= old(c)@ + (L::length_enc(m.len() as nat, CONFIG) + elems_enc::<T>(
                m,
                CONFIG,
            )));
        }
        Ok(())
    }
}

impl<'de, L: LenType, T: Decode<'de>> Decode<'de> for Record<L, Vec<T>> {
    open spec fn dec(bytes: Seq<u8>, cfg: u16) -> Result<(Seq<T::V>, int), Error> {
        match L::length_dec(bytes, cfg) {
            Ok((l, n)) => match elems_dec::<T>(bytes.skip(n), l, cfg) {
                Ok((ms, n2)) => Ok((ms, n + n2)),
                Err(e) => Err(e),
            },
            Err(e) => Err(e),
        }
    }

    proof fn lemma_dec_bound(bytes: Seq<u8>, cfg: u16) {
        L::lemma_length_dec_bound(bytes, cfg);
        if let Ok((l, n)) = L::length_dec(bytes, cfg) {
            crate::collection::lemma_elems_dec_bound::<T>(bytes.skip(n), l, cfg);
        }
    }

    fn decode<const CONFIG: u16>(c: &mut &'de [u8]) -> (r: Result<Self, Error>) {
        let ghost orig = c@;
        proof {
            L::lemma_length_dec_bound(orig, CONFIG);
        }
        let l = match L::take_length::<CONFIG>(c) {
            Ok(l) => l,
            Err(e) => {
                return Err(e);
            },
        };
        let ghost n1 = L::length_dec(orig, CONFIG).unwrap().1;
        let ghost mid = c@;
        match try_collect::<T, CONFIG>(c, l) {
            Ok(v) => {
                proof {
                    let n2 = elems_dec::<T>(mid, l as nat, CONFIG).unwrap().1;
                    assert(orig.skip(n1 + n2) =~= orig.skip(n1).skip(n2));
                }
                Ok(Record::new(v))
            },
            Err(e) => Err(e),
        }
    }
}

impl<'de, L: LenType, T: Codec<'de>> Codec<'de> for Record<L, Vec<T>> {
    proof fn lemma_round_trip(m: Seq<T::V>, cfg: u16, rest: Seq<u8>) {
        let lbytes = L::length_enc(m.len() as nat, cfg);
        let ebytes = elems_enc::<T>(m, cfg);
        assert(Self::enc(m, cfg) + rest =~= lbytes + (ebytes + rest));
        L::lemma_length_round_trip(m.len() as nat, cfg, ebytes + rest);
        assert((lbytes + (ebytes + rest)).skip(lbytes.len() as int) =~= ebytes + rest);
        lemma_elems_round_trip::<T>(m, cfg, rest);
    }
}

} // verus!
