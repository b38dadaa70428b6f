//! The byte-level model of the wire format.
//!
//! The specification functions here define, in pure mathematics, every byte
//! layout the library produces: fixed-width little- and big-endian integers,
//! LEB128 with its zig-zag transform for signed values, and the per-width
//! overflow rule applied when a LEB128 sequence is decoded into a bounded
//! integer. The executable helpers in this module are the single
//! implementation all scalar codecs funnel through, each verified against
//! its specification function.
use vstd::prelude::*;

verus! {

use vstd::arithmetic::power2::{
    pow2,
    lemma_pow2_adds,
    lemma_pow2_pos,
    lemma_pow2_strictly_increases,
    lemma2_to64,
};
use vstd::arithmetic::div_mod::{lemma_fundamental_div_mod, lemma_mod_multiples_basic};
use vstd::slice::slice_subrange;
use crate::error::Error;

/// The little-endian bytes of the `w`-byte value `n` (low byte first). When
/// `n` does not fit in `w` bytes only its low `w` bytes appear.
pub open spec fn le_bytes(n: int, w: nat) -> Seq<u8>
    decreases w,
{
    if w == 0 {
        Seq::empty()
    } else {
        seq![(n % 256) as u8] + le_bytes(n / 256, (w - 1) as nat)
    }
}

/// The value read from a little-endian byte sequence.
pub open spec fn from_le(s: Seq<u8>) -> int
    decreases s.len(),
{
    if s.len() == 0 {
        0
    } else {
        s[0] + 256 * from_le(s.skip(1))
    }
}

/// The big-endian bytes of the `w`-byte value `n` (high byte first).
pub open spec fn be_bytes(n: int, w: nat) -> Seq<u8> {
    le_bytes(n, w).reverse()
}

/// The value read from a big-endian byte sequence.
pub open spec fn from_be(s: Seq<u8>) -> int {
    from_le(s.reverse())
}

pub broadcast proof fn lemma_le_bytes_len(n: int, w: nat)
    ensures
        (#[trigger] le_bytes(n, w)).len() == w,
    decreases w,
{
    if w > 0 {
        lemma_le_bytes_len(n / 256, (w - 1) as nat);
    }
}

pub proof fn lemma_from_le_bound(s: Seq<u8>)
    ensures
        0 <= from_le(s) < pow2(8 * s.len()),
    decreases s.len(),
{
    if s.len() == 0 {
        lemma2_to64();
    } else {
        lemma_from_le_bound(s.skip(1));
        lemma_pow2_adds(8, 8 * (s.len() - 1) as nat);
        lemma2_to64();
    }
}

/// Reading back the little-endian bytes of a value in range yields the value.
pub proof fn lemma_le_round_trip(n: int, w: nat)
    requires
        0 <= n < pow2(8 * w),
    ensures
        from_le(le_bytes(n, w)) == n,
    decreases w,
{
    if w == 0 {
        lemma2_to64();
    } else {
        let tail = le_bytes(n / 256, (w - 1) as nat);
        assert((seq![(n % 256) as u8] + tail).skip(1) =~= tail);
        lemma_pow2_adds(8, 8 * (w - 1) as nat);
        lemma2_to64();
        lemma_pow2_pos(8 * (w - 1) as nat);
        assert(n / 256 < pow2(8 * (w - 1) as nat)) by {
            assert(n < 256 * pow2(8 * (w - 1) as nat));
            assert(n / 256 < pow2(8 * (w - 1) as nat)) by (nonlinear_arith)
                requires
                    n < 256 * pow2(8 * (w - 1) as nat),
                    0 <= n,
                    pow2(8 * (w - 1) as nat) > 0,
            ;
        }
        lemma_le_round_trip(n / 256, (w - 1) as nat);
        lemma_fundamental_div_mod(n, 256);
    }
}

/// Reading a big-endian byte sequence extended by one low byte.
pub proof fn lemma_from_be_push(s: Seq<u8>, b: u8)
    ensures
        from_be(s.push(b)) == 256 * from_be(s) + b,
{
    assert(s.push(b).reverse() =~= seq![b] + s.reverse());
    assert((seq![b] + s.reverse()).skip(1) =~= s.reverse());
}

pub proof fn lemma_from_be_bound(s: Seq<u8>)
    ensures
        0 <= from_be(s) < pow2(8 * s.len()),
{
    lemma_from_le_bound(s.reverse());
}

/// Reading back the big-endian bytes of a value in range yields the value.
pub proof fn lemma_be_round_trip(n: int, w: nat)
    requires
        0 <= n < pow2(8 * w),
    ensures
        from_be(be_bytes(n, w)) == n,
{
    lemma_le_round_trip(n, w);
    assert(be_bytes(n, w).reverse() =~= le_bytes(n, w));
}

/// The LEB128 bytes of a non-negative value: seven payload bits per byte,
/// low bits first, the high bit of a byte set exactly when more follow.
pub open spec fn leb_bytes(n: nat) -> Seq<u8>
    decreases n,
{
    if n < 128 {
        seq![n as u8]
    } else {
        seq![(128 + n % 128) as u8] + leb_bytes(n / 128)
    }
}

/// The shift at which a LEB128 decode into a `bits`-wide integer must apply
/// its overflow check: the last multiple of seven below `bits`.
pub open spec fn leb_boundary(bits: nat) -> nat {
    (7 * ((bits - 1) / 7)) as nat
}

/// Decoding a LEB128 sequence into a `bits`-wide integer, `shift` payload
/// bits already consumed. Yields the decoded value and the count of bytes
/// read, or the exact error: insufficient bytes when the continuation chain
/// outruns the input, and integer overflow when the byte at the boundary
/// shift carries bits that cannot fit the target width.
pub open spec fn leb_dec(s: Seq<u8>, shift: nat, bits: nat) -> Result<(nat, int), Error>
    decreases s.len(),
{
    if s.len() == 0 {
        Err(Error::insufficient_bytes())
    } else {
        let b = s[0] as nat;
        if shift == leb_boundary(bits) && b >= pow2((bits - shift) as nat) {
            Err(Error::integer_overflow())
        } else if b < 128 {
            Ok((b * pow2(shift), 1))
        } else {
            match leb_dec(s.skip(1), shift + 7, bits) {
                Ok((v, n)) => Ok((((b - 128) * pow2(shift) + v) as nat, n + 1)),
                Err(e) => Err(e),
            }
        }
    }
}

/// A successful LEB128 decode stays under the target width and consumes at
/// least one byte; its value is a multiple of the starting shift's weight.
pub proof fn lemma_leb_dec_bound(s: Seq<u8>, shift: nat, bits: nat)
    requires
        shift % 7 == 0,
        shift <= leb_boundary(bits),
        16 <= bits,
    ensures
        leb_dec(s, shift, bits) matches Ok((v, n)) ==> v < pow2(bits) && v % pow2(shift) == 0 && 1
            <= n <= s.len(),
    decreases s.len(),
{
    if s.len() != 0 {
        let b = s[0] as nat;
        lemma_pow2_pos(shift);
        if !(shift == leb_boundary(bits) && b >= pow2((bits - shift) as nat)) {
            if b < 128 {
                // terminal byte: value is b * 2^shift, and b fits the room left
                assert(b < pow2((bits - shift) as nat)) by {
                    if shift < leb_boundary(bits) {
                        // at least eight bits of room remain
                        assert(leb_boundary(bits) <= bits - 1);
                        assert(shift + 7 <= leb_boundary(bits));
                        lemma_pow2_strictly_increases(7, (bits - shift) as nat);
                        lemma2_to64();
                    }
                }
                lemma_pow2_adds(shift, (bits - shift) as nat);
                assert(b * pow2(shift) < pow2((bits - shift) as nat) * pow2(shift))
                    by (nonlinear_arith)
                    requires
                        b < pow2((bits - shift) as nat),
                        pow2(shift) > 0,
                ;
                assert((b * pow2(shift)) % pow2(shift) == 0) by (nonlinear_arith)
                    requires
                        pow2(shift) > 0,
                ;
            } else {
                assert(shift < leb_boundary(bits)) by {
                    if shift == leb_boundary(bits) {
                        // any continuation byte at the boundary is caught by the check
                        assert(bits - shift <= 7) by {
                            assert(leb_boundary(bits) >= bits - 7);
                        }
                        lemma_pow2_le(((bits - shift) as nat), 7);
                        lemma2_to64();
                    }
                }
                assert((shift + 7) % 7 == 0);
                assert(shift + 7 <= leb_boundary(bits));
                lemma_leb_dec_bound(s.skip(1), shift + 7, bits);
                if let Ok((v, n)) = leb_dec(s.skip(1), shift + 7, bits) {
                    lemma_pow2_adds(shift, 7);
                    lemma_pow2_pos(shift + 7);
                    lemma2_to64();
                    assert(pow2(shift + 7) == pow2(shift) * 128);
                    assert(pow2(bits) % pow2(shift + 7) == 0) by {
                        assert(shift + 7 <= bits) by {
                            assert(7 * ((bits - 1) / 7) <= bits - 1) by (nonlinear_arith)
                                requires
                                    bits >= 1,
                            ;
                        }
                        lemma_pow2_adds(shift + 7, (bits - shift - 7) as nat);
                        assert(pow2(bits) == pow2((bits - shift - 7) as nat) * pow2(shift + 7))
                            by (nonlinear_arith)
                            requires
                                pow2(bits) == pow2(shift + 7) * pow2((bits - shift - 7) as nat),
                        ;
                        lemma_mod_multiples_basic(
                            pow2((bits - shift - 7) as nat) as int,
                            pow2(shift + 7) as int,
                        );
                    }
                    // v is a multiple of 2^(shift+7) below 2^bits, so it leaves
                    // room for the seven payload bits at this shift
                    assert(v <= pow2(bits) - pow2(shift + 7)) by (nonlinear_arith)
                        requires
                            v < pow2(bits),
                            v % pow2(shift + 7) == 0,
                            pow2(shift + 7) > 0,
                            pow2(bits) % pow2(shift + 7) == 0,
                    {
                        lemma_fundamental_div_mod(v as int, pow2(shift + 7) as int);
                        lemma_fundamental_div_mod(pow2(bits) as int, pow2(shift + 7) as int);
                    }
                    assert((b - 128) * pow2(shift) + v < pow2(bits)) by (nonlinear_arith)
                        requires
                            b < 256,
                            128 <= b,
                            v <= pow2(bits) - pow2(shift + 7),
                            pow2(shift + 7) == pow2(shift) * 128,
                            pow2(shift) > 0,
                    ;
                    assert(((b - 128) * pow2(shift) + v) as int % (pow2(shift) as int) == 0) by {
                        lemma_mod_multiples_basic_pair(
                            b as int - 128,
                            v as int,
                            pow2(shift) as int,
                        );
                    }
                }
            }
        }
    }
}

/// Helper: `pow2` is monotone (non-strict).
proof fn lemma_pow2_le(e1: nat, e2: nat)
    requires
        e1 <= e2,
    ensures
        pow2(e1) <= pow2(e2),
{
    if e1 < e2 {
        lemma_pow2_strictly_increases(e1, e2);
    }
}

/// Helper: `(a * d + v) % d == 0` when `v % (d * 128) == 0`.
proof fn lemma_mod_multiples_basic_pair(a: int, v: int, d: int)
    requires
        d > 0,
        v % (d * 128) == 0,
    ensures
        (a * d + v) % d == 0,
{
    let k = v / (d * 128);
    assert(d * 128 > 0) by (nonlinear_arith)
        requires
            d > 0,
    ;
    lemma_fundamental_div_mod(v, d * 128);
    assert(v == (d * 128) * k);
    assert(a * d + v == (a + 128 * k) * d) by (nonlinear_arith)
        requires
            v == (d * 128) * k,
    ;
    lemma_mod_multiples_basic(a + 128 * k, d);
}

/// Round trip for LEB128: decoding the bytes of `n`, with anything after
/// them, yields `n` (scaled by the shift already consumed) and consumes
/// exactly the bytes of `n`.
pub proof fn lemma_leb_round_trip(n: nat, shift: nat, bits: nat, rest: Seq<u8>)
    requires
        shift % 7 == 0,
        shift <= leb_boundary(bits),
        16 <= bits,
        n < pow2((bits - shift) as nat),
    ensures
        leb_dec(leb_bytes(n) + rest, shift, bits) matches Ok((v, k)) && v == n * pow2(shift) && k
            == leb_bytes(n).len(),
    decreases n,
{
    let s = leb_bytes(n) + rest;
    lemma_pow2_pos(shift);
    if n < 128 {
        assert(s[0] == n as u8);
        if shift == leb_boundary(bits) {
            // n is under the room left at the boundary, so no overflow fires
            assert(n < pow2((bits - shift) as nat));
        } else {
            assert(s[0] < 128);
        }
    } else {
        assert(s[0] == (128 + n % 128) as u8);
        let b = s[0] as nat;
        assert(b == 128 + n % 128);
        assert(shift < leb_boundary(bits)) by {
            if shift == leb_boundary(bits) {
                assert(bits - shift <= 7) by {
                    assert(leb_boundary(bits) >= bits - 7);
                }
                lemma_pow2_strictly_increases((bits - shift) as nat, 8);
                lemma2_to64();
                // then n < 2^(bits-shift) <= 128 contradicts n >= 128
            }
        }
        assert(s.skip(1) =~= leb_bytes(n / 128) + rest);
        assert(n / 128 < pow2((bits - shift - 7) as nat)) by {
            lemma_pow2_adds(7, (bits - shift - 7) as nat);
            lemma2_to64();
            lemma_pow2_pos((bits - shift - 7) as nat);
            assert(n / 128 < pow2((bits - shift - 7) as nat)) by (nonlinear_arith)
                requires
                    n < 128 * pow2((bits - shift - 7) as nat),
                    pow2((bits - shift - 7) as nat) > 0,
            ;
        }
        lemma_leb_round_trip(n / 128, shift + 7, bits, rest);
        if let Ok((v, k)) = leb_dec(s.skip(1), shift + 7, bits) {
            assert(v == (n / 128) * pow2(shift + 7));
            lemma_pow2_adds(shift, 7);
            lemma2_to64();
            assert((b - 128) * pow2(shift) + (n / 128) * (pow2(shift) * 128) == n * pow2(shift))
                by (nonlinear_arith)
                requires
                    b == 128 + n % 128,
                    n >= 0,
                    pow2(shift) > 0,
            {
                lemma_fundamental_div_mod(n as int, 128);
            }
        }
        assert(leb_bytes(n).len() == 1 + leb_bytes(n / 128).len());
    }
}

/// The zig-zag transform: a bijection folding signed integers onto
/// non-negative codes so small magnitudes get small codes.
pub open spec fn zigzag(v: int) -> nat {
    if v >= 0 {
        (2 * v) as nat
    } else {
        (-(2 * v) - 1) as nat
    }
}

/// The inverse of [`zigzag`].
pub open spec fn unzigzag(n: nat) -> int {
    if n % 2 == 0 {
        (n / 2) as int
    } else {
        -((n / 2) as int) - 1
    }
}

pub broadcast proof fn lemma_zigzag_round_trip(v: int)
    ensures
        unzigzag(#[trigger] zigzag(v)) == v,
{
}

/// Zig-zag maps the `bits`-wide signed range exactly onto the `bits`-wide
/// unsigned range.
pub proof fn lemma_zigzag_range(v: int, bits: nat)
    requires
        bits >= 1,
        -pow2((bits - 1) as nat) <= v < pow2((bits - 1) as nat),
    ensures
        zigzag(v) < pow2(bits),
{
    lemma_pow2_adds((bits - 1) as nat, 1);
    lemma2_to64();
}

pub proof fn lemma_unzigzag_range(n: nat, bits: nat)
    requires
        bits >= 1,
        n < pow2(bits),
    ensures
        -pow2((bits - 1) as nat) <= unzigzag(n) < pow2((bits - 1) as nat),
{
    lemma_pow2_adds((bits - 1) as nat, 1);
    lemma2_to64();
}

/// The two's-complement image of a `bits`-wide signed value.
pub open spec fn to_twos(v: int, bits: nat) -> int {
    if v >= 0 {
        v
    } else {
        v + pow2(bits)
    }
}

/// The signed value of a `bits`-wide two's-complement image.
pub open spec fn from_twos(n: int, bits: nat) -> int {
    if n < pow2((bits - 1) as nat) {
        n
    } else {
        n - pow2(bits)
    }
}

pub proof fn lemma_twos_round_trip(v: int, bits: nat)
    requires
        bits >= 1,
        -pow2((bits - 1) as nat) <= v < pow2((bits - 1) as nat),
    ensures
        0 <= to_twos(v, bits) < pow2(bits),
        from_twos(to_twos(v, bits), bits) == v,
{
    lemma_pow2_adds((bits - 1) as nat, 1);
    lemma2_to64();
}

/// `2^e` as a `u128`.
pub fn pow2_u128(e: u32) -> (r: u128)
    requires
        e <= 127,
    ensures
        r == pow2(e as nat),
{
    let mut r: u128 = 1;
    let mut i: u32 = 0;
    proof {
        lemma2_to64();
    }
    while i < e
        invariant
            i <= e <= 127,
            r == pow2(i as nat),
        decreases e - i,
    {
        proof {
            lemma_pow2_adds(i as nat, 1);
            lemma2_to64();
            lemma_pow2_le(i as nat + 1, 127);
            pow2_128_fact();
        }
        r = r * 2;
        i = i + 1;
    }
    r
}

/// Appends the `w` low little-endian bytes of `n` to the sink.
pub fn put_le(c: &mut Vec<u8>, n: u128, w: usize)
    ensures
        final(c)@ == old(c)@ + le_bytes(n as int, w as nat),
{
    let mut num = n;
    let mut i: usize = 0;
    while i < w
        invariant
            i <= w,
            c@ + le_bytes(num as int, (w - i) as nat) == old(c)@ + le_bytes(n as int, w as nat),
        decreases w - i,
    {
        let ghost pre = c@;
        let ghost prenum = num as int;
        c.push((num % 256) as u8);
        num = num / 256;
        i = i + 1;
        proof {
            assert(le_bytes(prenum, (w - i + 1) as nat) == seq![(prenum % 256) as u8] + le_bytes(
                prenum / 256,
                (w - i) as nat,
            ));
            assert(pre + le_bytes(prenum, (w - i + 1) as nat) =~= c@ + le_bytes(
                num as int,
                (w - i) as nat,
            ));
        }
    }
    assert(c@ =~= c@ + le_bytes(num as int, 0));
}

/// Appends the `w` low bytes of `n` to the sink in big-endian order.
pub fn put_be(c: &mut Vec<u8>, n: u128, w: usize)
    ensures
        final(c)@ == old(c)@ + be_bytes(n as int, w as nat),
{
    let mut tmp: Vec<u8> = Vec::new();
    put_le(&mut tmp, n, w);
    proof {
        lemma_le_bytes_len(n as int, w as nat);
    }
    let mut i: usize = tmp.len();
    while i > 0
        invariant
            i <= tmp@.len() == w,
            tmp@ == le_bytes(n as int, w as nat),
            c@ == old(c)@ + tmp@.subrange(i as int, w as int).reverse(),
        decreases i,
    {
        let ghost pre = c@;
        i = i - 1;
        c.push(tmp[i]);
        proof {
            assert(tmp@.subrange(i as int, w as int).reverse() =~= tmp@.subrange(
                i as int + 1,
                w as int,
            ).reverse().push(tmp@[i as int]));
            assert(c@ =~= old(c)@ + tmp@.subrange(i as int, w as int).reverse());
        }
    }
    assert(tmp@.subrange(0, w as int) =~= tmp@);
}

/// Reads `w` bytes from the front of the cursor as a little-endian value.
pub fn take_le(c: &mut &[u8], w: usize) -> (r: Result<u128, Error>)
    requires
        1 <= w <= 16,
    ensures
        match r {
            Ok(v) => old(c)@.len() >= w && v == from_le(old(c)@.take(w as int)) && final(c)@ == old(
                c,
            )@.skip(w as int),
            Err(e) => old(c)@.len() < w && e == Error::insufficient_bytes() && final(c)@ == old(
                c,
            )@,
        },
{
    if c.len() < w {
        return Err(Error::InsufficientBytes(crate::error::InsufficientBytes));
    }
    let ghost s = c@.take(w as int);
    let mut num: u128 = 0;
    let mut i: usize = w;
    proof {
        lemma2_to64();
        assert(s.subrange(w as int, w as int) =~= Seq::<u8>::empty());
    }
    while i > 0
        invariant
            i <= w <= 16,
            c@.len() >= w,
            s == c@.take(w as int),
            num == from_le(s.subrange(i as int, w as int)),
            num < pow2(8 * ((w - i) as nat)),
        decreases i,
    {
        i = i - 1;
        proof {
            assert(s.subrange(i as int, w as int).skip(1) =~= s.subrange(i as int + 1, w as int));
            assert(s.subrange(i as int, w as int)[0] == c@[i as int]);
            lemma_pow2_adds(8, 8 * ((w - i - 1) as nat));
            lemma2_to64();
            lemma_pow2_le(8 * ((w - i) as nat), 128);
            pow2_128_fact();
        }
        num = num * 256 + (c[i] as u128);
    }
    assert(s.subrange(0, w as int) =~= s);
    *c = slice_subrange(*c, w, c.len());
    Ok(num)
}

/// Reads `w` bytes from the front of the cursor as a big-endian value.
pub fn take_be(c: &mut &[u8], w: usize) -> (r: Result<u128, Error>)
    requires
        1 <= w <= 16,
    ensures
        match r {
            Ok(v) => old(c)@.len() >= w && v == from_be(old(c)@.take(w as int)) && final(c)@ == old(
                c,
            )@.skip(w as int),
            Err(e) => old(c)@.len() < w && e == Error::insufficient_bytes() && final(c)@ == old(
                c,
            )@,
        },
{
    if c.len() < w {
        return Err(Error::InsufficientBytes(crate::error::InsufficientBytes));
    }
    let ghost s = c@.take(w as int);
    let mut num: u128 = 0;
    let mut i: usize = 0;
    proof {
        lemma2_to64();
        assert(s.subrange(0, 0) =~= Seq::<u8>::empty());
    }
    while i < w
        invariant
            i <= w <= 16,
            c@.len() >= w,
            s == c@.take(w as int),
            num == from_be(s.subrange(0, i as int)),
            num < pow2(8 * (i as nat)),
        decreases w - i,
    {
        proof {
            assert(s.subrange(0, i as int + 1) =~= s.subrange(0, i as int).push(c@[i as int]));
            lemma_from_be_push(s.subrange(0, i as int), c@[i as int]);
            lemma_pow2_adds(8, 8 * (i as nat));
            lemma2_to64();
            lemma_pow2_le(8 * ((i + 1) as nat), 128);
            pow2_128_fact();
        }
        num = num * 256 + (c[i] as u128);
        i = i + 1;
    }
    assert(s.subrange(0, w as int) =~= s);
    *c = slice_subrange(*c, w, c.len());
    Ok(num)
}

/// `u128` holds every value below `2^128`.
pub proof fn pow2_128_fact()
    ensures
        pow2(128) == 0x100000000000000000000000000000000,
        pow2(127) == 0x80000000000000000000000000000000,
{
    lemma_pow2_adds(64, 64);
    lemma_pow2_adds(64, 63);
    lemma2_to64();
    vstd::arithmetic::power2::lemma2_to64_rest();
    assert(pow2(128) == 0x10000000000000000 * 0x10000000000000000);
    assert(pow2(127) == 0x10000000000000000 * 0x8000000000000000);
}

/// Appends the LEB128 bytes of `n` to the sink.
pub fn put_leb128(c: &mut Vec<u8>, n: u128)
    ensures
        final(c)@ == old(c)@ + leb_bytes(n as nat),
{
    let mut num = n;
    while num > 127
        invariant
            c@ + leb_bytes(num as nat) == old(c)@ + leb_bytes(n as nat),
        decreases num,
    {
        let ghost pre = c@;
        let ghost prenum = num as nat;
        c.push((num % 128 + 128) as u8);
        num = num / 128;
        proof {
            assert(leb_bytes(prenum) == seq![(128 + prenum % 128) as u8] + leb_bytes(prenum / 128));
            assert(pre + leb_bytes(prenum) =~= c@ + leb_bytes(num as nat));
        }
    }
    let ghost pre = c@;
    c.push(num as u8);
    proof {
        assert(pre + leb_bytes(num as nat) =~= c@);
    }
}

/// Reads a LEB128 sequence from the cursor into a `bits`-wide value,
/// starting at the given shift.
fn take_leb128_rec(c: &mut &[u8], shift: u32, bits: u32) -> (r: Result<u128, Error>)
    requires
        16 <= bits <= 128,
        shift % 7 == 0,
        shift <= leb_boundary(bits as nat),
    ensures
        match leb_dec(old(c)@, shift as nat, bits as nat) {
            Ok((v, n)) => r matches Ok(x) && x == v && final(c)@ == old(c)@.skip(n),
            Err(e) => r matches Err(e2) && e2 == e,
        },
    decreases c@.len(),
{
    proof {
        assert(7 * ((bits - 1) as int / 7) <= bits - 1) by (nonlinear_arith)
            requires
                bits >= 1,
        ;
    }
    if c.len() == 0 {
        return Err(Error::InsufficientBytes(crate::error::InsufficientBytes));
    }
    let b = c[0];
    let boundary = 7 * ((bits - 1) / 7);
    if shift == boundary && (b as u128) >= pow2_u128(bits - boundary) {
        return Err(Error::IntegerOverflow(crate::error::IntegerOverflow));
    }
    let ghost s0 = c@;
    *c = slice_subrange(*c, 1, c.len());
    let weight = pow2_u128(shift);
    proof {
        lemma_leb_dec_bound(s0, shift as nat, bits as nat);
        lemma_pow2_le(bits as nat, 128);
        pow2_128_fact();
    }
    if b < 128 {
        Ok((b as u128) * weight)
    } else {
        proof {
            assert(shift < leb_boundary(bits as nat)) by {
                if shift == leb_boundary(bits as nat) {
                    assert(bits - shift <= 7);
                    lemma_pow2_le((bits - shift) as nat, 7);
                    lemma2_to64();
                }
            }
            lemma_leb_dec_bound(s0.skip(1), shift as nat + 7, bits as nat);
        }
        match take_leb128_rec(c, shift + 7, bits) {
            Ok(v) => {
                proof {
                    lemma_pow2_adds(shift as nat, 7);
                    lemma2_to64();
                }
                Ok(((b - 128) as u128) * weight + v)
            },
            Err(e) => Err(e),
        }
    }
}

/// Reads a LEB128 sequence from the cursor into a `bits`-wide value.
pub fn take_leb128(c: &mut &[u8], bits: u32) -> (r: Result<u128, Error>)
    requires
        16 <= bits <= 128,
    ensures
        match leb_dec(old(c)@, 0, bits as nat) {
            Ok((v, n)) => r matches Ok(x) && x == v && final(c)@ == old(c)@.skip(n),
            Err(e) => r matches Err(e2) && e2 == e,
        },
{
    take_leb128_rec(c, 0, bits)
}

/// The zig-zag code of a signed value.
pub fn zigzag_u128(v: i128) -> (r: u128)
    ensures
        r == zigzag(v as int),
{
    if v >= 0 {
        (v as u128) * 2
    } else {
        let m = -(v + 1);
        (m as u128) * 2 + 1
    }
}

/// The signed value of a zig-zag code.
pub fn unzigzag_u128(n: u128) -> (r: i128)
    ensures
        r == unzigzag(n as nat),
{
    if n % 2 == 0 {
        (n / 2) as i128
    } else {
        -((n / 2) as i128) - 1
    }
}

/// The bytes of the `w`-byte value `n` in the byte order of the machine the
/// program runs on, as abstracted by [`vstd::endian::endianness`].
pub open spec fn ne_bytes(n: int, w: nat) -> Seq<u8> {
    if vstd::endian::endianness() == vstd::endian::Endian::Big {
        be_bytes(n, w)
    } else {
        le_bytes(n, w)
    }
}

/// The value read from a byte sequence in the machine's byte order.
pub open spec fn from_ne(s: Seq<u8>) -> int {
    if vstd::endian::endianness() == vstd::endian::Endian::Big {
        from_be(s)
    } else {
        from_le(s)
    }
}

/// Relies on `u16::from_ne_bytes`: the two-byte value `[0, 1]` reads as `1`
/// exactly on a machine whose native integer representation is big-endian,
/// which is the fact `vstd::endian::endianness()` abstracts.
#[verifier::external_body]
fn native_big_endian() -> (r: bool)
    ensures
        r == (vstd::endian::endianness() == vstd::endian::Endian::Big),
{
    u16::from_ne_bytes([0, 1]) == 1
}

/// Appends the `w` low bytes of `n` to the sink in native byte order.
pub fn put_ne(c: &mut Vec<u8>, n: u128, w: usize)
    ensures
        final(c)@ == old(c)@ + ne_bytes(n as int, w as nat),
{
    if native_big_endian() {
        put_be(c, n, w);
    } else {
        put_le(c, n, w);
    }
}

/// Reads `w` bytes from the front of the cursor in native byte order.
pub fn take_ne(c: &mut &[u8], w: usize) -> (r: Result<u128, Error>)
    requires
        1 <= w <= 16,
    ensures
        match r {
            Ok(v) => old(c)@.len() >= w && v == from_ne(old(c)@.take(w as int)) && final(c)@ == old(
                c,
            )@.skip(w as int),
            Err(e) => old(c)@.len() < w && e == Error::insufficient_bytes() && final(c)@ == old(
                c,
            )@,
        },
{
    if native_big_endian() {
        take_be(c, w)
    } else {
        take_le(c, w)
    }
}

/// The bytes of the unsigned value `m` under the numeric mode of `cfg`:
/// fixed `bits/8`-byte little-, big- or native-endian, or LEB128.
pub open spec fn unsigned_enc(m: nat, cfg: u16, bits: nat) -> Seq<u8> {
    let mode = crate::config::spec_num_mode(cfg);
    if mode == crate::config::num::LEB128 {
        leb_bytes(m)
    } else if mode == crate::config::num::BE {
        be_bytes(m as int, bits / 8)
    } else if mode == crate::config::num::NE {
        ne_bytes(m as int, bits / 8)
    } else {
        le_bytes(m as int, bits / 8)
    }
}

/// Decoding an unsigned `bits`-wide value under the numeric mode of `cfg`:
/// the value and the count of bytes consumed, or the exact error.
pub open spec fn unsigned_dec(bytes: Seq<u8>, cfg: u16, bits: nat) -> Result<(nat, int), Error> {
    let mode = crate::config::spec_num_mode(cfg);
    if mode == crate::config::num::LEB128 {
        leb_dec(bytes, 0, bits)
    } else {
        let w = bits / 8;
        if bytes.len() < w {
            Err(Error::insufficient_bytes())
        } else {
            let v = if mode == crate::config::num::BE {
                from_be(bytes.take(w as int))
            } else if mode == crate::config::num::NE {
                from_ne(bytes.take(w as int))
            } else {
                from_le(bytes.take(w as int))
            };
            Ok((v as nat, w as int))
        }
    }
}

/// A successful unsigned decode stays under the target width and consumes
/// at least one byte.
pub proof fn lemma_unsigned_dec_bound(bytes: Seq<u8>, cfg: u16, bits: nat)
    requires
        16 <= bits,
        bits % 8 == 0,
    ensures
        unsigned_dec(bytes, cfg, bits) matches Ok((v, n)) ==> v < pow2(bits) && 1 <= n
            <= bytes.len(),
{
    let mode = crate::config::spec_num_mode(cfg);
    if mode == crate::config::num::LEB128 {
        lemma_leb_dec_bound(bytes, 0, bits);
    } else {
        let w = bits / 8;
        if bytes.len() >= w {
            lemma_from_le_bound(bytes.take(w as int));
            lemma_from_be_bound(bytes.take(w as int));
            assert(8 * (bytes.take(w as int).len() as nat) == bits);
        }
    }
}

/// Round trip for unsigned values: under every numeric mode, decoding the
/// encoding of `m` (with anything after it) yields `m` back and consumes
/// exactly the encoding.
pub proof fn lemma_unsigned_round_trip(m: nat, cfg: u16, bits: nat, rest: Seq<u8>)
    requires
        16 <= bits,
        bits % 8 == 0,
        m < pow2(bits),
    ensures
        unsigned_dec(unsigned_enc(m, cfg, bits) + rest, cfg, bits) matches Ok((v, n)) && v == m && n
            == unsigned_enc(m, cfg, bits).len(),
{
    let mode = crate::config::spec_num_mode(cfg);
    let w = bits / 8;
    if mode == crate::config::num::LEB128 {
        lemma_leb_round_trip(m, 0, bits, rest);
        lemma2_to64();
    } else {
        let enc = unsigned_enc(m, cfg, bits);
        lemma_le_bytes_len(m as int, w);
        assert(be_bytes(m as int, w).len() == w);
        assert((enc + rest).take(w as int) =~= enc);
        assert(8 * w == bits);
        lemma_le_round_trip(m as int, w);
        lemma_be_round_trip(m as int, w);
    }
}

/// The bytes of the signed value `m` under the numeric mode of `cfg`: its
/// two's complement in a fixed mode, its zig-zag code under LEB128.
pub open spec fn signed_enc(m: int, cfg: u16, bits: nat) -> Seq<u8> {
    let mode = crate::config::spec_num_mode(cfg);
    if mode == crate::config::num::LEB128 {
        leb_bytes(zigzag(m))
    } else {
        unsigned_enc(to_twos(m, bits) as nat, cfg, bits)
    }
}

/// Decoding a signed `bits`-wide value under the numeric mode of `cfg`.
pub open spec fn signed_dec(bytes: Seq<u8>, cfg: u16, bits: nat) -> Result<(int, int), Error> {
    let mode = crate::config::spec_num_mode(cfg);
    if mode == crate::config::num::LEB128 {
        match leb_dec(bytes, 0, bits) {
            Ok((v, n)) => Ok((unzigzag(v), n)),
            Err(e) => Err(e),
        }
    } else {
        match unsigned_dec(bytes, cfg, bits) {
            Ok((v, n)) => Ok((from_twos(v as int, bits), n)),
            Err(e) => Err(e),
        }
    }
}

/// A successful signed decode stays in the `bits`-wide signed range.
pub proof fn lemma_signed_dec_bound(bytes: Seq<u8>, cfg: u16, bits: nat)
    requires
        16 <= bits,
        bits % 8 == 0,
    ensures
        signed_dec(bytes, cfg, bits) matches Ok((v, n)) ==> -pow2((bits - 1) as nat) <= v < pow2(
            (bits - 1) as nat,
        ) && 1 <= n <= bytes.len(),
{
    let mode = crate::config::spec_num_mode(cfg);
    lemma_unsigned_dec_bound(bytes, cfg, bits);
    if mode == crate::config::num::LEB128 {
        if let Ok((v, n)) = leb_dec(bytes, 0, bits) {
            lemma_leb_dec_bound(bytes, 0, bits);
            lemma_unzigzag_range(v, bits);
        }
    } else {
        if let Ok((v, n)) = unsigned_dec(bytes, cfg, bits) {
            lemma_pow2_adds((bits - 1) as nat, 1);
            lemma2_to64();
        }
    }
}

/// Round trip for signed values under every numeric mode.
pub proof fn lemma_signed_round_trip(m: int, cfg: u16, bits: nat, rest: Seq<u8>)
    requires
        16 <= bits,
        bits % 8 == 0,
        -pow2((bits - 1) as nat) <= m < pow2((bits - 1) as nat),
    ensures
        signed_dec(signed_enc(m, cfg, bits) + rest, cfg, bits) matches Ok((v, n)) && v == m && n
            == signed_enc(m, cfg, bits).len(),
{
    let mode = crate::config::spec_num_mode(cfg);
    if mode == crate::config::num::LEB128 {
        lemma_zigzag_range(m, bits);
        lemma_leb_round_trip(zigzag(m), 0, bits, rest);
        lemma2_to64();
    } else {
        lemma_twos_round_trip(m, bits);
        lemma_unsigned_round_trip(to_twos(m, bits) as nat, cfg, bits, rest);
    }
}

/// The two's-complement image of `v` in `bits` bits, as a `u128`.
pub fn twos_of(v: i128, bits: u32) -> (r: u128)
    requires
        16 <= bits <= 128,
        bits % 8 == 0,
        -pow2((bits - 1) as nat) <= v < pow2((bits - 1) as nat),
    ensures
        r == to_twos(v as int, bits as nat),
{
    proof {
        lemma_pow2_le((bits - 1) as nat, 127);
        pow2_128_fact();
    }
    if v >= 0 {
        v as u128
    } else if bits < 128 {
        proof {
            lemma_pow2_strictly_increases(bits as nat, 127);
            lemma_pow2_adds((bits - 1) as nat, 1);
            lemma2_to64();
        }
        (v + (pow2_u128(bits) as i128)) as u128
    } else {
        u128::MAX - ((-(v + 1)) as u128)
    }
}

/// The signed value of the two's-complement image `u` in `bits` bits.
pub fn untwos(u: u128, bits: u32) -> (r: i128)
    requires
        16 <= bits <= 128,
        bits % 8 == 0,
        u < pow2(bits as nat),
    ensures
        r == from_twos(u as int, bits as nat),
{
    proof {
        lemma_pow2_le((bits - 1) as nat, 127);
        lemma_pow2_le(bits as nat, 128);
        pow2_128_fact();
    }
    if u < pow2_u128(bits - 1) {
        u as i128
    } else if bits < 128 {
        proof {
            lemma_pow2_strictly_increases(bits as nat, 127);
        }
        (u as i128) - (pow2_u128(bits) as i128)
    } else {
        -((u128::MAX - u) as i128) - 1
    }
}

/// Appends the encoding of the unsigned value `m` under `cfg` to the sink.
pub fn put_unsigned(c: &mut Vec<u8>, cfg: u16, m: u128, bits: u32)
    requires
        crate::config::cfg_wf(cfg),
        16 <= bits <= 128,
        bits % 8 == 0,
        m < pow2(bits as nat),
    ensures
        final(c)@ == old(c)@ + unsigned_enc(m as nat, cfg, bits as nat),
{
    let mode = crate::config::num_mode(cfg);
    if mode == crate::config::num::LEB128 {
        put_leb128(c, m);
    } else if mode == crate::config::num::BE {
        put_be(c, m, (bits / 8) as usize);
    } else if mode == crate::config::num::NE {
        put_ne(c, m, (bits / 8) as usize);
    } else {
        put_le(c, m, (bits / 8) as usize);
    }
}

/// Reads the encoding of an unsigned `bits`-wide value under `cfg` from the
/// front of the cursor.
pub fn take_unsigned(c: &mut &[u8], cfg: u16, bits: u32) -> (r: Result<u128, Error>)
    requires
        crate::config::cfg_wf(cfg),
        16 <= bits <= 128,
        bits % 8 == 0,
    ensures
        match unsigned_dec(old(c)@, cfg, bits as nat) {
            Ok((v, n)) => r matches Ok(x) && x == v && v < pow2(bits as nat) && final(c)@ == old(
                c,
            )@.skip(n),
            Err(e) => r matches Err(e2) && e2 == e,
        },
{
    proof {
        lemma_unsigned_dec_bound(old(c)@, cfg, bits as nat);
        lemma_from_le_bound(old(c)@.take((bits / 8) as int));
        lemma_from_be_bound(old(c)@.take((bits / 8) as int));
    }
    let mode = crate::config::num_mode(cfg);
    if mode == crate::config::num::LEB128 {
        take_leb128(c, bits)
    } else if mode == crate::config::num::BE {
        take_be(c, (bits / 8) as usize)
    } else if mode == crate::config::num::NE {
        take_ne(c, (bits / 8) as usize)
    } else {
        take_le(c, (bits / 8) as usize)
    }
}

/// Appends the encoding of the signed value `m` under `cfg` to the sink.
pub fn put_signed(c: &mut Vec<u8>, cfg: u16, m: i128, bits: u32)
    requires
        crate::config::cfg_wf(cfg),
        16 <= bits <= 128,
        bits % 8 == 0,
        -pow2((bits - 1) as nat) <= m < pow2((bits - 1) as nat),
    ensures
        final(c)@ == old(c)@ + signed_enc(m as int, cfg, bits as nat),
{
    let mode = crate::config::num_mode(cfg);
    if mode == crate::config::num::LEB128 {
        proof {
            lemma_zigzag_range(m as int, bits as nat);
        }
        put_leb128(c, zigzag_u128(m));
    } else {
        proof {
            lemma_twos_round_trip(m as int, bits as nat);
        }
        put_unsigned(c, cfg, twos_of(m, bits), bits);
    }
}

/// Reads the encoding of a signed `bits`-wide value under `cfg` from the
/// front of the cursor.
pub fn take_signed(c: &mut &[u8], cfg: u16, bits: u32) -> (r: Result<i128, Error>)
    requires
        crate::config::cfg_wf(cfg),
        16 <= bits <= 128,
        bits % 8 == 0,
    ensures
        match signed_dec(old(c)@, cfg, bits as nat) {
            Ok((v, n)) => r matches Ok(x) && x == v && -pow2((bits - 1) as nat) <= v < pow2(
                (bits - 1) as nat,
            ) && final(c)@ == old(c)@.skip(n),
            Err(e) => r matches Err(e2) && e2 == e,
        },
{
    proof {
        lemma_signed_dec_bound(old(c)@, cfg, bits as nat);
    }
    let mode = crate::config::num_mode(cfg);
    if mode == crate::config::num::LEB128 {
        match take_leb128(c, bits) {
            Ok(v) => {
                proof {
                    lemma_leb_dec_bound(old(c)@, 0, bits as nat);
                    lemma_unzigzag_range(v as nat, bits as nat);
                }
                Ok(unzigzag_u128(v))
            },
            Err(e) => Err(e),
        }
    } else {
        match take_unsigned(c, cfg, bits) {
            Ok(v) => Ok(untwos(v, bits)),
            Err(e) => Err(e),
        }
    }
}

/// The LEB128 bytes of an odd code differ from those of the preceding even
/// code only in the first byte, which is one greater.
pub proof fn lemma_leb_bytes_adjacent(n: nat)
    requires
        n % 2 == 0,
    ensures
        leb_bytes(n + 1).len() == leb_bytes(n).len(),
        leb_bytes(n + 1)[0] == leb_bytes(n)[0] + 1,
        leb_bytes(n + 1).skip(1) == leb_bytes(n).skip(1),
{
    if n < 128 {
        assert(leb_bytes(n + 1).skip(1) =~= leb_bytes(n).skip(1));
    } else {
        lemma_fundamental_div_mod(n as int, 128);
        lemma_fundamental_div_mod(n as int + 1, 128);
        assert(n % 128 != 127) by {
            assert(n % 2 == 0);
            assert((n % 128) % 2 == 0) by (nonlinear_arith)
                requires
                    n % 2 == 0,
            {
                lemma_fundamental_div_mod(n as int, 128);
            }
        }
        assert((n + 1) / 128 == n / 128 && (n + 1) % 128 == n % 128 + 1) by (nonlinear_arith)
            requires
                n % 128 != 127,
                n >= 0,
        ;
        assert(leb_bytes(n + 1).skip(1) =~= leb_bytes(n).skip(1));
    }
}

/// Law: under LEB128, the encoding of a signed width's minimum value equals
/// the encoding of its maximum value with the first byte one greater — the
/// two extremes receive adjacent zig-zag codes.
pub proof fn lemma_zigzag_extremes(cfg: u16, bits: nat)
    requires
        crate::config::spec_num_mode(cfg) == crate::config::num::LEB128,
        16 <= bits,
    ensures
        ({
            let emin = signed_enc(-pow2((bits - 1) as nat), cfg, bits);
            let emax = signed_enc(pow2((bits - 1) as nat) - 1, cfg, bits);
            emin.len() == emax.len() && emin[0] == emax[0] + 1 && emin.skip(1) == emax.skip(1)
        }),
{
    lemma_pow2_adds((bits - 1) as nat, 1);
    lemma2_to64();
    lemma_pow2_pos((bits - 1) as nat);
    let top = pow2(bits);
    assert(2 * pow2((bits - 1) as nat) == top);
    assert(zigzag(-pow2((bits - 1) as nat)) == top - 1);
    assert(zigzag(pow2((bits - 1) as nat) - 1) == top - 2);
    assert((top - 2) % 2 == 0) by {
        lemma_pow2_even(bits);
    }
    lemma_leb_bytes_adjacent((top - 2) as nat);
}

/// A power of two with positive exponent is even.
proof fn lemma_pow2_even(e: nat)
    requires
        e >= 1,
    ensures
        pow2(e) % 2 == 0,
{
    lemma_pow2_adds((e - 1) as nat, 1);
    lemma2_to64();
    lemma_pow2_pos((e - 1) as nat);
    assert((pow2((e - 1) as nat) * 2) % 2 == 0) by (nonlinear_arith);
}

/// Law: in a fixed-width numeric mode, a buffer shorter than the value's
/// width fails to decode with the insufficient-bytes error, for unsigned
/// and signed values alike.
pub proof fn lemma_fixed_insufficient(bytes: Seq<u8>, cfg: u16, bits: nat)
    requires
        crate::config::spec_num_mode(cfg) != crate::config::num::LEB128,
        bytes.len() < bits / 8,
    ensures
        unsigned_dec(bytes, cfg, bits) == Err::<(nat, int), Error>(Error::insufficient_bytes()),
        signed_dec(bytes, cfg, bits) == Err::<(int, int), Error>(Error::insufficient_bytes()),
{
}

} // verus!
