//! Variable-length integer encoding.
//!
//! Support types are [`BEU15`], [`BEU22`], [`BEU29`], [`BEU30`].
//! By default, the length of a collection is represented with [`BEU30`].
//!
//! The encoding is straightforward: the most significant bits of the first
//! byte record how many bytes the number occupies, and the remaining bytes
//! follow in big-endian order. Every value in `0..=MAX` has exactly one
//! encoding, the smallest tier that covers it.
use vstd::prelude::*;

verus! {

use vstd::slice::slice_subrange;
use crate::{Codec, Decode, Encode};
use crate::error::Error;

/// The bytes of a [`BEU15`] value: `0xxxxxxx`, or `1xxxxxxx xxxxxxxx`.
pub open spec fn beu15_bytes(n: nat) -> Seq<u8>
    recommends
        n <= 0x7FFF,
{
    if n < 128 {
        seq![n as u8]
    } else {
        seq![(128 + n / 256) as u8, (n % 256) as u8]
    }
}

/// Decoding a [`BEU15`] value: the value and the bytes consumed, or the
/// error.
pub open spec fn beu15_dec(s: Seq<u8>) -> Result<(nat, int), Error> {
    if s.len() < 1 {
        Err(Error::insufficient_bytes())
    } else if s[0] < 128 {
        Ok((s[0] as nat, 1))
    } else if s.len() < 2 {
        Err(Error::insufficient_bytes())
    } else {
        Ok((((s[0] - 128) * 256 + s[1]) as nat, 2))
    }
}

/// The bytes of a [`BEU22`] value: `0xxxxxxx`, `10xxxxxx xxxxxxxx`, or
/// `11xxxxxx xxxxxxxx xxxxxxxx`.
pub open spec fn beu22_bytes(n: nat) -> Seq<u8>
    recommends
        n < 0x400000,
{
    if n < 128 {
        seq![n as u8]
    } else if n < 16384 {
        seq![(128 + n / 256) as u8, (n % 256) as u8]
    } else {
        seq![(192 + n / 65536) as u8, ((n / 256) % 256) as u8, (n % 256) as u8]
    }
}

/// Decoding a [`BEU22`] value.
pub open spec fn beu22_dec(s: Seq<u8>) -> Result<(nat, int), Error> {
    if s.len() < 1 {
        Err(Error::insufficient_bytes())
    } else if s[0] < 128 {
        Ok((s[0] as nat, 1))
    } else if s[0] < 192 {
        if s.len() < 2 {
            Err(Error::insufficient_bytes())
        } else {
            Ok((((s[0] - 128) * 256 + s[1]) as nat, 2))
        }
    } else if s.len() < 3 {
        Err(Error::insufficient_bytes())
    } else {
        Ok((((s[0] - 192) * 65536 + s[1] * 256 + s[2]) as nat, 3))
    }
}

/// The bytes of a [`BEU29`] value: tiers `0…`, `10…`, `110…`, `111…`.
pub open spec fn beu29_bytes(n: nat) -> Seq<u8>
    recommends
        n < 0x20000000,
{
    if n < 128 {
        seq![n as u8]
    } else if n < 16384 {
        seq![(128 + n / 256) as u8, (n % 256) as u8]
    } else if n < 2097152 {
        seq![(192 + n / 65536) as u8, ((n / 256) % 256) as u8, (n % 256) as u8]
    } else {
        seq![
            (224 + n / 16777216) as u8,
            ((n / 65536) % 256) as u8,
            ((n / 256) % 256) as u8,
            (n % 256) as u8,
        ]
    }
}

/// Decoding a [`BEU29`] value.
pub open spec fn beu29_dec(s: Seq<u8>) -> Result<(nat, int), Error> {
    if s.len() < 1 {
        Err(Error::insufficient_bytes())
    } else if s[0] < 128 {
        Ok((s[0] as nat, 1))
    } else if s[0] < 192 {
        if s.len() < 2 {
            Err(Error::insufficient_bytes())
        } else {
            Ok((((s[0] - 128) * 256 + s[1]) as nat, 2))
        }
    } else if s[0] < 224 {
        if s.len() < 3 {
            Err(Error::insufficient_bytes())
        } else {
            Ok((((s[0] - 192) * 65536 + s[1] * 256 + s[2]) as nat, 3))
        }
    } else if s.len() < 4 {
        Err(Error::insufficient_bytes())
    } else {
        Ok((((s[0] - 224) * 16777216 + s[1] * 65536 + s[2] * 256 + s[3]) as nat, 4))
    }
}

/// The bytes of a [`BEU30`] value: tiers `00…`, `01…`, `10…`, `11…`.
pub open spec fn beu30_bytes(n: nat) -> Seq<u8>
    recommends
        n < 0x40000000,
{
    if n < 64 {
        seq![n as u8]
    } else if n < 16384 {
        seq![(64 + n / 256) as u8, (n % 256) as u8]
    } else if n < 4194304 {
        seq![(128 + n / 65536) as u8, ((n / 256) % 256) as u8, (n % 256) as u8]
    } else {
        seq![
            (192 + n / 16777216) as u8,
            ((n / 65536) % 256) as u8,
            ((n / 256) % 256) as u8,
            (n % 256) as u8,
        ]
    }
}

/// Decoding a [`BEU30`] value.
pub open spec fn beu30_dec(s: Seq<u8>) -> Result<(nat, int), Error> {
    if s.len() < 1 {
        Err(Error::insufficient_bytes())
    } else if s[0] < 64 {
        Ok((s[0] as nat, 1))
    } else if s[0] < 128 {
        if s.len() < 2 {
            Err(Error::insufficient_bytes())
        } else {
            Ok((((s[0] - 64) * 256 + s[1]) as nat, 2))
        }
    } else if s[0] < 192 {
        if s.len() < 3 {
            Err(Error::insufficient_bytes())
        } else {
            Ok((((s[0] - 128) * 65536 + s[1] * 256 + s[2]) as nat, 3))
        }
    } else if s.len() < 4 {
        Err(Error::insufficient_bytes())
    } else {
        Ok((((s[0] - 192) * 16777216 + s[1] * 65536 + s[2] * 256 + s[3]) as nat, 4))
    }
}

/// The bytes of a value split at each power of 256 recompose to the value.
proof fn lemma_byte_digits(n: int)
    requires
        0 <= n < 0x100000000,
    ensures
        n == (n / 16777216) * 16777216 + ((n / 65536) % 256) * 65536 + ((n / 256) % 256) * 256 + n
            % 256,
        n / 65536 == (n / 16777216) * 256 + (n / 65536) % 256,
        n / 256 == (n / 65536) * 256 + (n / 256) % 256,
        n == (n / 65536) * 65536 + ((n / 256) % 256) * 256 + n % 256,
        n == (n / 256) * 256 + n % 256,
        n / 16777216 <= 255,
        (n / 65536) % 256 < 256,
        (n / 256) % 256 < 256,
        n % 256 < 256,
{
    vstd::arithmetic::div_mod::lemma_fundamental_div_mod(n, 256);
    vstd::arithmetic::div_mod::lemma_fundamental_div_mod(n / 256, 256);
    vstd::arithmetic::div_mod::lemma_fundamental_div_mod(n / 65536, 256);
    assert((n / 256) / 256 == n / 65536) by (nonlinear_arith)
        requires
            n >= 0,
    {
        vstd::arithmetic::div_mod::lemma_div_denominator(n, 256, 256);
    }
    assert((n / 65536) / 256 == n / 16777216) by (nonlinear_arith)
        requires
            n >= 0,
    {
        vstd::arithmetic::div_mod::lemma_div_denominator(n, 65536, 256);
    }
}

/// Round trip for [`beu15_bytes`].
pub proof fn lemma_beu15_round_trip(n: nat, rest: Seq<u8>)
    requires
        n <= 0x7FFF,
    ensures
        beu15_dec(beu15_bytes(n) + rest) matches Ok((v, k)) && v == n && k == beu15_bytes(n).len(),
{
    lemma_byte_digits(n as int);
}

/// Round trip for [`beu22_bytes`].
pub proof fn lemma_beu22_round_trip(n: nat, rest: Seq<u8>)
    requires
        n < 0x400000,
    ensures
        beu22_dec(beu22_bytes(n) + rest) matches Ok((v, k)) && v == n && k == beu22_bytes(n).len(),
{
    lemma_byte_digits(n as int);
}

/// Round trip for [`beu29_bytes`].
pub proof fn lemma_beu29_round_trip(n: nat, rest: Seq<u8>)
    requires
        n < 0x20000000,
    ensures
        beu29_dec(beu29_bytes(n) + rest) matches Ok((v, k)) && v == n && k == beu29_bytes(n).len(),
{
    lemma_byte_digits(n as int);
}

/// Round trip for [`beu30_bytes`].
pub proof fn lemma_beu30_round_trip(n: nat, rest: Seq<u8>)
    requires
        n < 0x40000000,
    ensures
        beu30_dec(beu30_bytes(n) + rest) matches Ok((v, k)) && v == n && k == beu30_bytes(n).len(),
{
    lemma_byte_digits(n as int);
}

/// [`BEU15`] is a variable-length encoder type for non-negative integer
/// values.
///
/// The discriminant of an `enum` is represented by [`BEU15`].
///
/// |  MSB  | Length | Usable Bits | Range    |
/// | :---: | :----: | :---------: | :------- |
/// |   0   |   1    |      7      | 0..128   |
/// |   1   |   2    |     15      | 0..32768 |
#[derive(Default, Debug, Clone, Copy, PartialEq, Eq, Hash, PartialOrd, Ord)]
pub struct BEU15(pub u16);

/// [`BEU22`] is a variable-length encoder type for non-negative integer
/// values.
///
/// |  MSB  | Length | Usable Bits | Range      |
/// | :---: | :----: | :---------: | :--------- |
/// |  0    |   1    |      7      | 0..128     |
/// |  10   |   2    |     14      | 0..16384   |
/// |  11   |   3    |     22      | 0..4194304 |
#[derive(Default, Debug, Clone, Copy, PartialEq, Eq, Hash, PartialOrd, Ord)]
pub struct BEU22(pub u32);

/// [`BEU29`] is a variable-length encoder type for non-negative integer
/// values.
///
/// |  MSB   | Length | Usable Bits | Range        |
/// | :---:  | :----: | :---------: | :----------- |
/// |  0     |   1    |      7      | 0..128       |
/// |  10    |   2    |     14      | 0..16384     |
/// |  110   |   3    |     21      | 0..2097152   |
/// |  111   |   4    |     29      | 0..536870912 |
#[derive(Default, Debug, Clone, Copy, PartialEq, Eq, Hash, PartialOrd, Ord)]
pub struct BEU29(pub u32);

/// [`BEU30`] is a variable-length encoder type for non-negative integer
/// values.
///
/// By default, the length of a collection is represented with [`BEU30`].
///
/// |  MSB  | Length | Usable Bits | Range         |
/// | :---: | :----: | :---------: | :-----------  |
/// |  00   |   1    |      6      | 0..64         |
/// |  01   |   2    |     14      | 0..16384      |
/// |  10   |   3    |     22      | 0..4194304    |
/// |  11   |   4    |     30      | 0..1073741824 |
#[derive(Default, Debug, Clone, Copy, PartialEq, Eq, Hash, PartialOrd, Ord)]
pub struct BEU30(pub u32);

impl View for BEU15 {
    type V = BEU15;

    open spec fn view(&self) -> BEU15 {
        *self
    }
}

impl DeepView for BEU15 {
    type V = BEU15;

    open spec fn deep_view(&self) -> BEU15 {
        *self
    }
}

impl View for BEU22 {
    type V = BEU22;

    open spec fn view(&self) -> BEU22 {
        *self
    }
}

impl DeepView for BEU22 {
    type V = BEU22;

    open spec fn deep_view(&self) -> BEU22 {
        *self
    }
}

impl View for BEU29 {
    type V = BEU29;

    open spec fn view(&self) -> BEU29 {
        *self
    }
}

impl DeepView for BEU29 {
    type V = BEU29;

    open spec fn deep_view(&self) -> BEU29 {
        *self
    }
}

impl View for BEU30 {
    type V = BEU30;

    open spec fn view(&self) -> BEU30 {
        *self
    }
}

impl DeepView for BEU30 {
    type V = BEU30;

    open spec fn deep_view(&self) -> BEU30 {
        *self
    }
}

impl BEU15 {
    /// The largest value that can be represented by this integer type.
    pub const MAX: u16 = 0x7FFF;

    /// The smallest value that can be represented by this integer type.
    pub const MIN: u16 = 0;

    /// The size of this integer type in bits.
    pub const BITS: u32 = 15;

    /// Validated conversion from a size; values above `MAX` are rejected.
    pub fn try_from(num: usize) -> (r: Result<Self, crate::error::IntegerOverflow>)
        ensures
            num <= 0x7FFF ==> (r matches Ok(v) && v.0 == num),
            num > 0x7FFF ==> r is Err,
    {
        if num > 0x7FFF {
            Err(crate::error::IntegerOverflow)
        } else {
            Ok(BEU15(num as u16))
        }
    }
}

impl BEU22 {
    /// The largest value that can be represented by this integer type.
    pub const MAX: u32 = 0x3FFFFF;

    /// The smallest value that can be represented by this integer type.
    pub const MIN: u32 = 0;

    /// The size of this integer type in bits.
    pub const BITS: u32 = 22;

    /// Validated conversion from a size; values above `MAX` are rejected.
    pub fn try_from(num: usize) -> (r: Result<Self, crate::error::IntegerOverflow>)
        ensures
            num <= 0x3FFFFF ==> (r matches Ok(v) && v.0 == num),
            num > 0x3FFFFF ==> r is Err,
    {
        if num > 0x3FFFFF {
            Err(crate::error::IntegerOverflow)
        } else {
            Ok(BEU22(num as u32))
        }
    }
}

impl BEU29 {
    /// The largest value that can be represented by this integer type.
    pub const MAX: u32 = 0x1FFFFFFF;

    /// The smallest value that can be represented by this integer type.
    pub const MIN: u32 = 0;

    /// The size of this integer type in bits.
    pub const BITS: u32 = 29;

    /// Validated conversion from a size; values above `MAX` are rejected.
    pub fn try_from(num: usize) -> (r: Result<Self, crate::error::IntegerOverflow>)
        ensures
            num <= 0x1FFFFFFF ==> (r matches Ok(v) && v.0 == num),
            num > 0x1FFFFFFF ==> r is Err,
    {
        if num > 0x1FFFFFFF {
            Err(crate::error::IntegerOverflow)
        } else {
            Ok(BEU29(num as u32))
        }
    }
}

impl BEU30 {
    /// The largest value that can be represented by this integer type.
    pub const MAX: u32 = 0x3FFFFFFF;

    /// The smallest value that can be represented by this integer type.
    pub const MIN: u32 = 0;

    /// The size of this integer type in bits.
    pub const BITS: u32 = 30;

    /// Validated conversion from a size; values above `MAX` are rejected.
    pub fn try_from(num: usize) -> (r: Result<Self, crate::error::IntegerOverflow>)
        ensures
            num <= 0x3FFFFFFF ==> (r matches Ok(v) && v.0 == num),
            num > 0x3FFFFFFF ==> r is Err,
    {
        if num > 0x3FFFFFFF {
            Err(crate::error::IntegerOverflow)
        } else {
            Ok(BEU30(num as u32))
        }
    }
}

impl Encode for BEU15 {
    open spec fn enc_ok(m: BEU15, cfg: u16) -> bool {
        m.0 <= 0x7FFF
    }

    open spec fn enc(m: BEU15, cfg: u16) -> Seq<u8> {
        beu15_bytes(m.0 as nat)
    }

    #[verifier::rlimit(100)]
    fn encode<const CONFIG: u16>(&self, c: &mut Vec<u8>) -> (r: Result<(), Error>) {
        let num = self.0;
        if num > 0x7FFF {
            return Err(Error::IntegerOverflow(crate::error::IntegerOverflow));
        }
        let ghost pre = c@;
        proof {
            assert(<BEU15 as Encode>::enc_ok(self.deep_view(), CONFIG));
            assert(<BEU15 as Encode>::enc(self.deep_view(), CONFIG) == beu15_bytes(num as nat));
        }
        if num < 128 {
            c.push(num as u8);
            assert(c@ =~= pre + beu15_bytes(num as nat));
        } else {
            c.push((128 + num / 256) as u8);
            c.push((num % 256) as u8);
            assert(c@ =~= pre + beu15_bytes(num as nat));
        }
        Ok(())
    }
}

impl<'de> Decode<'de> for BEU15 {
    open spec fn dec(bytes: Seq<u8>, cfg: u16) -> Result<(BEU15, int), Error> {
        match beu15_dec(bytes) {
            Ok((v, n)) => Ok((BEU15(v as u16), n)),
            Err(e) => Err(e),
        }
    }

    proof fn lemma_dec_bound(bytes: Seq<u8>, cfg: u16) {
    }

    fn decode<const CONFIG: u16>(c: &mut &'de [u8]) -> (r: Result<Self, Error>) {
        proof {
            assert(<BEU15 as Decode<'de>>::dec(c@, CONFIG) == (match beu15_dec(c@) {
                Ok((v, n)) => Ok::<(BEU15, int), Error>((BEU15(v as u16), n)),
                Err(e) => Err(e),
            }));
        }
        if c.len() < 1 {
            return Err(Error::InsufficientBytes(crate::error::InsufficientBytes));
        }
        let b1 = c[0];
        if b1 < 128 {
            *c = slice_subrange(*c, 1, c.len());
            return Ok(BEU15(b1 as u16));
        }
        if c.len() < 2 {
            return Err(Error::InsufficientBytes(crate::error::InsufficientBytes));
        }
        let b2 = c[1];
        *c = slice_subrange(*c, 2, c.len());
        Ok(BEU15(((b1 - 128) as u16) * 256 + (b2 as u16)))
    }
}

impl<'de> Codec<'de> for BEU15 {
    proof fn lemma_round_trip(m: BEU15, cfg: u16, rest: Seq<u8>) {
        lemma_beu15_round_trip(m.0 as nat, rest);
    }
}

impl Encode for BEU22 {
    open spec fn enc_ok(m: BEU22, cfg: u16) -> bool {
        m.0 < 0x400000
    }

    open spec fn enc(m: BEU22, cfg: u16) -> Seq<u8> {
        beu22_bytes(m.0 as nat)
    }

    fn encode<const CONFIG: u16>(&self, c: &mut Vec<u8>) -> (r: Result<(), Error>) {
        let num = self.0;
        if num > 0x3FFFFF {
            return Err(Error::IntegerOverflow(crate::error::IntegerOverflow));
        }
        let ghost pre = c@;
        proof {
            assert(<BEU22 as Encode>::enc_ok(self.deep_view(), CONFIG));
            assert(<BEU22 as Encode>::enc(self.deep_view(), CONFIG) == beu22_bytes(
                num as nat,
            ));
        }
        if num < 128 {
            c.push(num as u8);
            assert(c@ =~= pre + beu22_bytes(num as nat));
        } else if num < 16384 {
            c.push((128 + num / 256) as u8);
            c.push((num % 256) as u8);
            assert(c@ =~= pre + beu22_bytes(num as nat));
        } else {
            c.push((192 + num / 65536) as u8);
            c.push(((num / 256) % 256) as u8);
            c.push((num % 256) as u8);
            assert(c@ =~= pre + beu22_bytes(num as nat));
        }
        Ok(())
    }
}

impl<'de> Decode<'de> for BEU22 {
    open spec fn dec(bytes: Seq<u8>, cfg: u16) -> Result<(BEU22, int), Error> {
        match beu22_dec(bytes) {
            Ok((v, n)) => Ok((BEU22(v as u32), n)),
            Err(e) => Err(e),
        }
    }

    proof fn lemma_dec_bound(bytes: Seq<u8>, cfg: u16) {
    }

    fn decode<const CONFIG: u16>(c: &mut &'de [u8]) -> (r: Result<Self, Error>) {
        proof {
            assert(<BEU22 as Decode<'de>>::dec(c@, CONFIG) == (match beu22_dec(c@) {
                Ok((v, n)) => Ok::<(BEU22, int), Error>((BEU22(v as u32), n)),
                Err(e) => Err(e),
            }));
        }
        if c.len() < 1 {
            return Err(Error::InsufficientBytes(crate::error::InsufficientBytes));
        }
        let b1 = c[0];
        if b1 < 128 {
            *c = slice_subrange(*c, 1, c.len());
            return Ok(BEU22(b1 as u32));
        }
        if b1 < 192 {
            if c.len() < 2 {
                return Err(Error::InsufficientBytes(crate::error::InsufficientBytes));
            }
            let b2 = c[1];
            *c = slice_subrange(*c, 2, c.len());
            return Ok(BEU22(((b1 - 128) as u32) * 256 + (b2 as u32)));
        }
        if c.len() < 3 {
            return Err(Error::InsufficientBytes(crate::error::InsufficientBytes));
        }
        let b2 = c[1];
        let b3 = c[2];
        *c = slice_subrange(*c, 3, c.len());
        Ok(BEU22(((b1 - 192) as u32) * 65536 + (b2 as u32) * 256 + (b3 as u32)))
    }
}

impl<'de> Codec<'de> for BEU22 {
    proof fn lemma_round_trip(m: BEU22, cfg: u16, rest: Seq<u8>) {
        lemma_beu22_round_trip(m.0 as nat, rest);
    }
}

impl Encode for BEU29 {
    open spec fn enc_ok(m: BEU29, cfg: u16) -> bool {
        m.0 < 0x20000000
    }

    open spec fn enc(m: BEU29, cfg: u16) -> Seq<u8> {
        beu29_bytes(m.0 as nat)
    }

    fn encode<const CONFIG: u16>(&self, c: &mut Vec<u8>) -> (r: Result<(), Error>) {
        let num = self.0;
        if num > 0x1FFFFFFF {
            return Err(Error::IntegerOverflow(crate::error::IntegerOverflow));
        }
        let ghost pre = c@;
        proof {
            assert(<BEU29 as Encode>::enc_ok(self.deep_view(), CONFIG));
            assert(<BEU29 as Encode>::enc(self.deep_view(), CONFIG) == beu29_bytes(
                num as nat,
            ));
        }
        if num < 128 {
            c.push(num as u8);
            assert(c@ =~= pre + beu29_bytes(num as nat));
        } else if num < 16384 {
            c.push((128 + num / 256) as u8);
            c.push((num % 256) as u8);
            assert(c@ =~= pre + beu29_bytes(num as nat));
        } else if num < 2097152 {
            c.push((192 + num / 65536) as u8);
            c.push(((num / 256) % 256) as u8);
            c.push((num % 256) as u8);
            assert(c@ =~= pre + beu29_bytes(num as nat));
        } else {
            c.push((224 + num / 16777216) as u8);
            c.push(((num / 65536) % 256) as u8);
            c.push(((num / 256) % 256) as u8);
            c.push((num % 256) as u8);
            assert(c@ =~= pre + beu29_bytes(num as nat));
        }
        Ok(())
    }
}

impl<'de> Decode<'de> for BEU29 {
    open spec fn dec(bytes: Seq<u8>, cfg: u16) -> Result<(BEU29, int), Error> {
        match beu29_dec(bytes) {
            Ok((v, n)) => Ok((BEU29(v as u32), n)),
            Err(e) => Err(e),
        }
    }

    proof fn lemma_dec_bound(bytes: Seq<u8>, cfg: u16) {
    }

    fn decode<const CONFIG: u16>(c: &mut &'de [u8]) -> (r: Result<Self, Error>) {
        proof {
            assert(<BEU29 as Decode<'de>>::dec(c@, CONFIG) == (match beu29_dec(c@) {
                Ok((v, n)) => Ok::<(BEU29, int), Error>((BEU29(v as u32), n)),
                Err(e) => Err(e),
            }));
        }
        if c.len() < 1 {
            return Err(Error::InsufficientBytes(crate::error::InsufficientBytes));
        }
        let b1 = c[0];
        if b1 < 128 {
            *c = slice_subrange(*c, 1, c.len());
            return Ok(BEU29(b1 as u32));
        }
        if b1 < 192 {
            if c.len() < 2 {
                return Err(Error::InsufficientBytes(crate::error::InsufficientBytes));
            }
            let b2 = c[1];
            *c = slice_subrange(*c, 2, c.len());
            return Ok(BEU29(((b1 - 128) as u32) * 256 + (b2 as u32)));
        }
        if b1 < 224 {
            if c.len() < 3 {
                return Err(Error::InsufficientBytes(crate::error::InsufficientBytes));
            }
            let b2 = c[1];
            let b3 = c[2];
            *c = slice_subrange(*c, 3, c.len());
            return Ok(BEU29(((b1 - 192) as u32) * 65536 + (b2 as u32) * 256 + (b3 as u32)));
        }
        if c.len() < 4 {
            return Err(Error::InsufficientBytes(crate::error::InsufficientBytes));
        }
        let b2 = c[1];
        let b3 = c[2];
        let b4 = c[3];
        *c = slice_subrange(*c, 4, c.len());
        Ok(
            BEU29(
                ((b1 - 224) as u32) * 16777216 + (b2 as u32) * 65536 + (b3 as u32) * 256 + (
                b4 as u32),
            ),
        )
    }
}

impl<'de> Codec<'de> for BEU29 {
    proof fn lemma_round_trip(m: BEU29, cfg: u16, rest: Seq<u8>) {
        lemma_beu29_round_trip(m.0 as nat, rest);
    }
}

impl Encode for BEU30 {
    open spec fn enc_ok(m: BEU30, cfg: u16) -> bool {
        m.0 < 0x40000000
    }

    open spec fn enc(m: BEU30, cfg: u16) -> Seq<u8> {
        beu30_bytes(m.0 as nat)
    }

    fn encode<const CONFIG: u16>(&self, c: &mut Vec<u8>) -> (r: Result<(), Error>) {
        let num = self.0;
        if num > 0x3FFFFFFF {
            return Err(Error::IntegerOverflow(crate::error::IntegerOverflow));
        }
        let ghost pre = c@;
        proof {
            assert(<BEU30 as Encode>::enc_ok(self.deep_view(), CONFIG));
            assert(<BEU30 as Encode>::enc(self.deep_view(), CONFIG) == beu30_bytes(
                num as nat,
            ));
        }
        if num < 64 {
            c.push(num as u8);
            assert(c@ =~= pre + beu30_bytes(num as nat));
        } else if num < 16384 {
            c.push((64 + num / 256) as u8);
            c.push((num % 256) as u8);
            assert(c@ =~= pre + beu30_bytes(num as nat));
        } else if num < 4194304 {
            c.push((128 + num / 65536) as u8);
            c.push(((num / 256) % 256) as u8);
            c.push((num % 256) as u8);
            assert(c@ =~= pre + beu30_bytes(num as nat));
        } else {
            c.push((192 + num / 16777216) as u8);
            c.push(((num / 65536) % 256) as u8);
            c.push(((num / 256) % 256) as u8);
            c.push((num % 256) as u8);
            assert(c@ =~= pre + beu30_bytes(num as nat));
        }
        Ok(())
    }
}

impl<'de> Decode<'de> for BEU30 {
    open spec fn dec(bytes: Seq<u8>, cfg: u16) -> Result<(BEU30, int), Error> {
        match beu30_dec(bytes) {
            Ok((v, n)) => Ok((BEU30(v as u32), n)),
            Err(e) => Err(e),
        }
    }

    proof fn lemma_dec_bound(bytes: Seq<u8>, cfg: u16) {
    }

    fn decode<const CONFIG: u16>(c: &mut &'de [u8]) -> (r: Result<Self, Error>) {
        proof {
            assert(<BEU30 as Decode<'de>>::dec(c@, CONFIG) == (match beu30_dec(c@) {
                Ok((v, n)) => Ok::<(BEU30, int), Error>((BEU30(v as u32), n)),
                Err(e) => Err(e),
            }));
        }
        if c.len() < 1 {
            return Err(Error::InsufficientBytes(crate::error::InsufficientBytes));
        }
        let b1 = c[0];
        if b1 < 64 {
            *c = slice_subrange(*c, 1, c.len());
            return Ok(BEU30(b1 as u32));
        }
        if b1 < 128 {
            if c.len() < 2 {
                return Err(Error::InsufficientBytes(crate::error::InsufficientBytes));
            }
            let b2 = c[1];
            *c = slice_subrange(*c, 2, c.len());
            return Ok(BEU30(((b1 - 64) as u32) * 256 + (b2 as u32)));
        }
        if b1 < 192 {
            if c.len() < 3 {
                return Err(Error::InsufficientBytes(crate::error::InsufficientBytes));
            }
            let b2 = c[1];
            let b3 = c[2];
            *c = slice_subrange(*c, 3, c.len());
            return Ok(BEU30(((b1 - 128) as u32) * 65536 + (b2 as u32) * 256 + (b3 as u32)));
        }
        if c.len() < 4 {
            return Err(Error::InsufficientBytes(crate::error::InsufficientBytes));
        }
        let b2 = c[1];
        let b3 = c[2];
        let b4 = c[3];
        *c = slice_subrange(*c, 4, c.len());
        Ok(
            BEU30(
                ((b1 - 192) as u32) * 16777216 + (b2 as u32) * 65536 + (b3 as u32) * 256 + (
                b4 as u32),
            ),
        )
    }
}

impl<'de> Codec<'de> for BEU30 {
    proof fn lemma_round_trip(m: BEU30, cfg: u16, rest: Seq<u8>) {
        lemma_beu30_round_trip(m.0 as nat, rest);
    }
}

} // verus!
