//! Length-prefixed collections.
//!
//! A collection is written as its element count, encoded with the
//! variable-length integer the configuration selects, followed by every
//! element in order. Decoding reads the count and then exactly that many
//! elements, aborting on the first element error: a partial collection is
//! never returned.
use vstd::prelude::*;

verus! {

use crate::{Codec, Decode, Encode};
use crate::config;
use crate::error::Error;
use crate::var_int::{
    BEU15,
    BEU22,
    BEU29,
    BEU30,
    beu15_bytes,
    beu15_dec,
    beu22_bytes,
    beu22_dec,
    beu29_bytes,
    beu29_dec,
    beu30_bytes,
    beu30_dec,
    lemma_beu15_round_trip,
    lemma_beu22_round_trip,
    lemma_beu29_round_trip,
    lemma_beu30_round_trip,
};

/// The largest collection length the configured length prefix can carry.
pub open spec fn len_max(cfg: u16) -> nat {
    let mode = config::spec_len_mode(cfg);
    if mode == config::len::BEU15 {
        0x7FFF
    } else if mode == config::len::BEU22 {
        0x3FFFFF
    } else if mode == config::len::BEU29 {
        0x1FFFFFFF
    } else {
        0x3FFFFFFF
    }
}

/// The bytes of a collection length under the configured length prefix.
pub open spec fn len_enc(l: nat, cfg: u16) -> Seq<u8>
    recommends
        l <= len_max(cfg),
{
    let mode = config::spec_len_mode(cfg);
    if mode == config::len::BEU15 {
        beu15_bytes(l)
    } else if mode == config::len::BEU22 {
        beu22_bytes(l)
    } else if mode == config::len::BEU29 {
        beu29_bytes(l)
    } else {
        beu30_bytes(l)
    }
}

/// Decoding a collection length under the configured length prefix.
pub open spec fn len_dec(bytes: Seq<u8>, cfg: u16) -> Result<(nat, int), Error> {
    let mode = config::spec_len_mode(cfg);
    if mode == config::len::BEU15 {
        beu15_dec(bytes)
    } else if mode == config::len::BEU22 {
        beu22_dec(bytes)
    } else if mode == config::len::BEU29 {
        beu29_dec(bytes)
    } else {
        beu30_dec(bytes)
    }
}

/// A decoded length is within the prefix's range and consumed 1 to 4 bytes.
pub proof fn lemma_len_dec_bound(bytes: Seq<u8>, cfg: u16)
    ensures
        len_dec(bytes, cfg) matches Ok((l, n)) ==> l <= len_max(cfg) && 1 <= n <= bytes.len(),
{
}

/// Round trip for the length prefix.
pub proof fn lemma_len_round_trip(l: nat, cfg: u16, rest: Seq<u8>)
    requires
        l <= len_max(cfg),
    ensures
        len_dec(len_enc(l, cfg) + rest, cfg) matches Ok((v, n)) && v == l && n == len_enc(
            l,
            cfg,
        ).len(),
{
    let mode = config::spec_len_mode(cfg);
    if mode == config::len::BEU15 {
        lemma_beu15_round_trip(l, rest);
    } else if mode == config::len::BEU22 {
        lemma_beu22_round_trip(l, rest);
    } else if mode == config::len::BEU29 {
        lemma_beu29_round_trip(l, rest);
    } else {
        lemma_beu30_round_trip(l, rest);
    }
}

/// Appends the length prefix for a collection of `l` elements, or reports
/// integer overflow when `l` does not fit the configured prefix.
pub fn put_len<const CONFIG: u16>(c: &mut Vec<u8>, l: usize) -> (r: Result<(), Error>)
    requires
        config::cfg_wf(CONFIG),
    ensures
        l <= len_max(CONFIG) ==> r is Ok && final(c)@ == old(c)@ + len_enc(l as nat, CONFIG),
        l > len_max(CONFIG) ==> r == Err::<(), Error>(Error::integer_overflow()) && final(c)@ == old(
            c,
        )@,
{
    let mode = config::len_mode(CONFIG);
    if mode == config::len::BEU15 {
        if l > 0x7FFF {
            return Err(Error::IntegerOverflow(crate::error::IntegerOverflow));
        }
        let _ = BEU15(l as u16).encode::<CONFIG>(c);
        Ok(())
    } else if mode == config::len::BEU22 {
        if l > 0x3FFFFF {
            return Err(Error::IntegerOverflow(crate::error::IntegerOverflow));
        }
        let _ = BEU22(l as u32).encode::<CONFIG>(c);
        Ok(())
    } else if mode == config::len::BEU29 {
        if l > 0x1FFFFFFF {
            return Err(Error::IntegerOverflow(crate::error::IntegerOverflow));
        }
        let _ = BEU29(l as u32).encode::<CONFIG>(c);
        Ok(())
    } else {
        if l > 0x3FFFFFFF {
            return Err(Error::IntegerOverflow(crate::error::IntegerOverflow));
        }
        let _ = BEU30(l as u32).encode::<CONFIG>(c);
        Ok(())
    }
}

/// Reads the length prefix of a collection from the front of the cursor.
pub fn take_len<const CONFIG: u16>(c: &mut &[u8]) -> (r: Result<usize, Error>)
    requires
        config::cfg_wf(CONFIG),
    ensures
        match len_dec(old(c)@, CONFIG) {
            Ok((l, n)) => r matches Ok(x) && x == l && l <= len_max(CONFIG) && final(c)@ == old(
                c,
            )@.skip(n),
            Err(e) => r matches Err(e2) && e2 == e,
        },
{
    proof {
        lemma_len_dec_bound(old(c)@, CONFIG);
    }
    let mode = config::len_mode(CONFIG);
    if mode == config::len::BEU15 {
        match BEU15::decode::<CONFIG>(c) {
            Ok(v) => Ok(v.0 as usize),
            Err(e) => Err(e),
        }
    } else if mode == config::len::BEU22 {
        match BEU22::decode::<CONFIG>(c) {
            Ok(v) => Ok(v.0 as usize),
            Err(e) => Err(e),
        }
    } else if mode == config::len::BEU29 {
        match BEU29::decode::<CONFIG>(c) {
            Ok(v) => Ok(v.0 as usize),
            Err(e) => Err(e),
        }
    } else {
        match BEU30::decode::<CONFIG>(c) {
            Ok(v) => Ok(v.0 as usize),
            Err(e) => Err(e),
        }
    }
}

/// The concatenated encodings of a sequence of element models.
pub open spec fn elems_enc<T: Encode>(s: Seq<T::V>, cfg: u16) -> Seq<u8>
    decreases s.len(),
{
    if s.len() == 0 {
        Seq::empty()
    } else {
        T::enc(s[0], cfg) + elems_enc::<T>(s.skip(1), cfg)
    }
}

/// Whether every element model of a sequence encodes successfully.
pub open spec fn elems_enc_ok<T: Encode>(s: Seq<T::V>, cfg: u16) -> bool {
    forall|i: int| 0 <= i < s.len() ==> T::enc_ok(#[trigger] s[i], cfg)
}

/// Appending one element to a sequence appends its encoding to the bytes.
pub proof fn lemma_elems_enc_push<T: Encode>(s: Seq<T::V>, x: T::V, cfg: u16)
    ensures
        elems_enc::<T>(s.push(x), cfg) == elems_enc::<T>(s, cfg) + T::enc(x, cfg),
    decreases s.len(),
{
    if s.len() == 0 {
        assert(s.push(x).skip(1) =~= Seq::<T::V>::empty());
        assert(s.push(x)[0] == x);
        assert(elems_enc::<T>(s.push(x), cfg) == T::enc(x, cfg) + elems_enc::<T>(
            Seq::<T::V>::empty(),
            cfg,
        ));
        assert(elems_enc::<T>(Seq::<T::V>::empty(), cfg) =~= Seq::<u8>::empty());
        assert(T::enc(x, cfg) + Seq::<u8>::empty() =~= T::enc(x, cfg));
        assert(elems_enc::<T>(s, cfg) =~= Seq::<u8>::empty());
        assert(Seq::<u8>::empty() + T::enc(x, cfg) =~= T::enc(x, cfg));
    } else {
        assert(s.push(x).skip(1) =~= s.skip(1).push(x));
        lemma_elems_enc_push::<T>(s.skip(1), x, cfg);
        assert(elems_enc::<T>(s.push(x), cfg) =~= elems_enc::<T>(s, cfg) + T::enc(x, cfg));
    }
}

/// Decoding `count` consecutive elements: the sequence of element models
/// and the total bytes consumed, or the first element error, exactly as the
/// fail-fast iteration reports it.
pub open spec fn elems_dec<'de, T: Decode<'de>>(bytes: Seq<u8>, count: nat, cfg: u16) -> Result<
    (Seq<T::V>, int),
    Error,
>
    decreases count,
{
    if count == 0 {
        Ok((Seq::empty(), 0))
    } else {
        match T::dec(bytes, cfg) {
            Ok((m, n)) => match elems_dec::<T>(bytes.skip(n), (count - 1) as nat, cfg) {
                Ok((ms, n2)) => Ok((seq![m] + ms, n + n2)),
                Err(e) => Err(e),
            },
            Err(e) => Err(e),
        }
    }
}

/// Round trip for element sequences, by induction over the sequence.
pub proof fn lemma_elems_round_trip<'de, T: Codec<'de>>(s: Seq<T::V>, cfg: u16, rest: Seq<u8>)
    requires
        config::cfg_wf(cfg),
        elems_enc_ok::<T>(s, cfg),
    ensures
        elems_dec::<T>(elems_enc::<T>(s, cfg) + rest, s.len() as nat, cfg) matches Ok((ms, n)) && ms
            == s && n == elems_enc::<T>(s, cfg).len(),
    decreases s.len(),
{
    if s.len() > 0 {
        let head_bytes = T::enc(s[0], cfg);
        let tail_bytes = elems_enc::<T>(s.skip(1), cfg);
        assert(elems_enc::<T>(s, cfg) + rest =~= head_bytes + (tail_bytes + rest));
        T::lemma_round_trip(s[0], cfg, tail_bytes + rest);
        assert((head_bytes + (tail_bytes + rest)).skip(head_bytes.len() as int) =~= tail_bytes
            + rest);
        lemma_elems_round_trip::<T>(s.skip(1), cfg, rest);
        assert(seq![s[0]] + s.skip(1) =~= s);
    }
}

/// Reads exactly `len` elements from the front of the cursor, aborting on
/// the first element error; on success the collection is complete, on
/// failure no partial collection is returned.
pub fn try_collect<'de, T: Decode<'de>, const CONFIG: u16>(c: &mut &'de [u8], len: usize) -> (r:
    Result<Vec<T>, Error>)
    requires
        config::cfg_wf(CONFIG),
    ensures
        match r {
            Ok(v) => elems_dec::<T>(old(c)@, len as nat, CONFIG) matches Ok((ms, n)) && ms
                == v.deep_view() && 0 <= n <= old(c)@.len() && final(c)@ == old(c)@.skip(n),
            Err(e) => elems_dec::<T>(old(c)@, len as nat, CONFIG) matches Err(e2) && e == e2,
        },
{
    let mut out: Vec<T> = Vec::new();
    let mut i: usize = 0;
    let ghost consumed: int = 0;
    proof {
        assert(out.deep_view() =~= Seq::<T::V>::empty());
    }
    while i < len
        invariant
            config::cfg_wf(CONFIG),
            i <= len,
            out.deep_view().len() == i,
            0 <= consumed <= old(c)@.len(),
            c@ == old(c)@.skip(consumed),
            elems_dec::<T>(old(c)@, len as nat, CONFIG) == (match elems_dec::<T>(
                c@,
                (len - i) as nat,
                CONFIG,
            ) {
                Ok((ms, n)) => Ok::<_, Error>((out.deep_view() + ms, consumed + n)),
                Err(e) => Err::<(Seq<T::V>, int), _>(e),
            }),
        decreases len - i,
    {
        let ghost pre = c@;
        let ghost pre_out = out.deep_view();
        match T::decode::<CONFIG>(c) {
            Ok(x) => {
                proof {
                    let (m, n) = T::dec(pre, CONFIG).unwrap();
                    assert(pre.skip(n) == c@);
                    assert(old(c)@.skip(consumed + n) =~= old(c)@.skip(consumed).skip(n));
                }
                let ghost n = T::dec(pre, CONFIG).unwrap().1;
                out.push(x);
                i = i + 1;
                proof {
                    consumed = consumed + n;
                    assert(out.deep_view() =~= pre_out.push(x.deep_view()));
                    if let Ok((ms, n2)) = elems_dec::<T>(c@, (len - i) as nat, CONFIG) {
                        assert(pre_out + (seq![x.deep_view()] + ms) =~= out.deep_view() + ms);
                    }
                }
            },
            Err(e) => {
                return Err(e);
            },
        }
    }
    proof {
        assert(out.deep_view() + Seq::<T::V>::empty() =~= out.deep_view());
    }
    Ok(out)
}

impl<T: Encode> Encode for Vec<T> {
    open spec fn enc_ok(m: Seq<T::V>, cfg: u16) -> bool {
        m.len() <= len_max(cfg) && elems_enc_ok::<T>(m, cfg)
    }

    open spec fn enc(m: Seq<T::V>, cfg: u16) -> Seq<u8> {
        len_enc(m.len() as nat, cfg) + elems_enc::<T>(m, cfg)
    }

    fn encode<const CONFIG: u16>(&self, c: &mut Vec<u8>) -> (r: Result<(), Error>) {
        let ghost m = self.deep_view();
        match put_len::<CONFIG>(c, self.len()) {
            Ok(_) => {},
            Err(e) => {
                return Err(e);
            },
        }
        let ghost base = c@;
        let mut i: usize = 0;
        proof {
            assert(elems_enc::<T>(m.take(0), CONFIG) =~= Seq::<u8>::empty());
            assert(base + Seq::<u8>::empty() =~= base);
        }
        while i < self.len()
            invariant
                config::cfg_wf(CONFIG),
                i <= self@.len(),
                m == self.deep_view(),
                m.len() == self@.len(),
                base == old(c)@ + len_enc(m.len() as nat, CONFIG),
                m.len() <= len_max(CONFIG),
                c@ == base + elems_enc::<T>(m.take(i as int), CONFIG),
                forall|j: int| 0 <= j < i ==> T::enc_ok(#[trigger] m[j], CONFIG),
            decreases self@.len() - i,
        {
            let ghost pre = c@;
            match self[i].encode::<CONFIG>(c) {
                Ok(_) => {},
                Err(e) => {
                    proof {
                        assert(self@[i as int].deep_view() == m[i as int]);
                        assert(!T::enc_ok(m[i as int], CONFIG));
                    }
                    return Err(e);
                },
            }
            proof {
                assert(self@[i as int].deep_view() == m[i as int]);
                lemma_elems_enc_push::<T>(m.take(i as int), m[i as int], CONFIG);
                assert(m.take(i as int).push(m[i as int]) =~= m.take(i + 1));
                assert(c@ =~= base + elems_enc::<T>(m.take(i + 1), CONFIG));
            }
            i = i + 1;
        }
        proof {
            assert(m.take(m.len() as int) =~= m);
            assert(c@ =~= old(c)@ + (len_enc(m.len() as nat, CONFIG) + elems_enc::<T>(m, CONFIG)));
        }
        Ok(())
    }
}

impl<'de, T: Decode<'de>> Decode<'de> for Vec<T> {
    open spec fn dec(bytes: Seq<u8>, cfg: u16) -> Result<(Seq<T::V>, int), Error> {
        match len_dec(bytes, cfg) {
            Ok((l, n)) => match elems_dec::<T>(bytes.skip(n), l, cfg) {
                Ok((ms, n2)) => Ok((ms, n + n2)),
                Err(e) => Err(e),
            },
            Err(e) => Err(e),
        }
    }

    proof fn lemma_dec_bound(bytes: Seq<u8>, cfg: u16) {
        lemma_len_dec_bound(bytes, cfg);
        if let Ok((l, n)) = len_dec(bytes, cfg) {
            lemma_elems_dec_bound::<T>(bytes.skip(n), l, cfg);
        }
    }

    fn decode<const CONFIG: u16>(c: &mut &'de [u8]) -> (r: Result<Self, Error>) {
        let ghost orig = c@;
        let l = match take_len::<CONFIG>(c) {
            Ok(l) => l,
            Err(e) => {
                return Err(e);
            },
        };
        let ghost n1 = len_dec(orig, CONFIG).unwrap().1;
        let ghost mid = c@;
        match try_collect::<T, CONFIG>(c, l) {
            Ok(v) => {
                proof {
                    let n2 = elems_dec::<T>(mid, l as nat, CONFIG).unwrap().1;
                    assert(orig.skip(n1 + n2) =~= orig.skip(n1).skip(n2));
                }
                Ok(v)
            },
            Err(e) => Err(e),
        }
    }
}

impl<'de, T: Codec<'de>> Codec<'de> for Vec<T> {
    proof fn lemma_round_trip(m: Seq<T::V>, cfg: u16, rest: Seq<u8>) {
        let lbytes = len_enc(m.len() as nat, cfg);
        let ebytes = elems_enc::<T>(m, cfg);
        assert(Self::enc(m, cfg) + rest =~= lbytes + (ebytes + rest));
        lemma_len_round_trip(m.len() as nat, cfg, ebytes + rest);
        assert((lbytes + (ebytes + rest)).skip(lbytes.len() as int) =~= ebytes + rest);
        lemma_elems_round_trip::<T>(m, cfg, rest);
    }
}

impl<T: Encode> Encode for [T] {
    open spec fn enc_ok(m: Seq<T::V>, cfg: u16) -> bool {
        m.len() <= len_max(cfg) && elems_enc_ok::<T>(m, cfg)
    }

    open spec fn enc(m: Seq<T::V>, cfg: u16) -> Seq<u8> {
        len_enc(m.len() as nat, cfg) + elems_enc::<T>(m, cfg)
    }

    fn encode<const CONFIG: u16>(&self, c: &mut Vec<u8>) -> (r: Result<(), Error>) {
        let ghost m = self.deep_view();
        match put_len::<CONFIG>(c, self.len()) {
            Ok(_) => {},
            Err(e) => {
                return Err(e);
            },
        }
        let ghost base = c@;
        let mut i: usize = 0;
        proof {
            assert(elems_enc::<T>(m.take(0), CONFIG) =~= Seq::<u8>::empty());
            assert(base + Seq::<u8>::empty() =~= base);
        }
        while i < self.len()
            invariant
                config::cfg_wf(CONFIG),
                i <= self@.len(),
                m == self.deep_view(),
                m.len() == self@.len(),
                base == old(c)@ + len_enc(m.len() as nat, CONFIG),
                m.len() <= len_max(CONFIG),
                c@ == base + elems_enc::<T>(m.take(i as int), CONFIG),
                forall|j: int| 0 <= j < i ==> T::enc_ok(#[trigger] m[j], CONFIG),
            decreases self@.len() - i,
        {
            let ghost pre = c@;
            match self[i].encode::<CONFIG>(c) {
                Ok(_) => {},
                Err(e) => {
                    proof {
                        assert(self@[i as int].deep_view() == m[i as int]);
                        assert(!T::enc_ok(m[i as int], CONFIG));
                    }
                    return Err(e);
                },
            }
            proof {
                assert(self@[i as int].deep_view() == m[i as int]);
                lemma_elems_enc_push::<T>(m.take(i as int), m[i as int], CONFIG);
                assert(m.take(i as int).push(m[i as int]) =~= m.take(i + 1));
                assert(c@ =~= base + elems_enc::<T>(m.take(i + 1), CONFIG));
            }
            i = i + 1;
        }
        proof {
            assert(m.take(m.len() as int) =~= m);
            assert(c@ =~= old(c)@ + (len_enc(m.len() as nat, CONFIG) + elems_enc::<T>(m, CONFIG)));
        }
        Ok(())
    }
}

impl<T: Encode> Encode for Option<T> {
    open spec fn enc_ok(m: Option<T::V>, cfg: u16) -> bool {
        match m {
            Some(x) => T::enc_ok(x, cfg),
            None => true,
        }
    }

    open spec fn enc(m: Option<T::V>, cfg: u16) -> Seq<u8> {
        match m {
            Some(x) => seq![1u8] + T::enc(x, cfg),
            None => seq![0u8],
        }
    }

    fn encode<const CONFIG: u16>(&self, c: &mut Vec<u8>) -> (r: Result<(), Error>) {
        match self {
            Some(val) => {
                let ghost pre = c@;
                c.push(1);
                match val.encode::<CONFIG>(c) {
                    Ok(_) => {
                        assert(c@ =~= pre + (seq![1u8] + T::enc(val.deep_view(), CONFIG)));
                        Ok(())
                    },
                    Err(e) => Err(e),
                }
            },
            None => {
                let ghost pre = c@;
                c.push(0);
                assert(c@ =~= pre + seq![0u8]);
                Ok(())
            },
        }
    }
}

impl<'de, T: Decode<'de>> Decode<'de> for Option<T> {
    open spec fn dec(bytes: Seq<u8>, cfg: u16) -> Result<(Option<T::V>, int), Error> {
        match <bool as Decode<'de>>::dec(bytes, cfg) {
            Ok((tag, n)) => if tag {
                match T::dec(bytes.skip(n), cfg) {
                    Ok((m, n2)) => Ok((Some(m), n + n2)),
                    Err(e) => Err(e),
                }
            } else {
                Ok((None, n))
            },
            Err(e) => Err(e),
        }
    }

    proof fn lemma_dec_bound(bytes: Seq<u8>, cfg: u16) {
        if let Ok((tag, n)) = <bool as Decode<'de>>::dec(bytes, cfg) {
            if tag {
                T::lemma_dec_bound(bytes.skip(n), cfg);
            }
        }
    }

    fn decode<const CONFIG: u16>(c: &mut &'de [u8]) -> (r: Result<Self, Error>) {
        let ghost orig = c@;
        match bool::decode::<CONFIG>(c) {
            Ok(tag) => {
                if tag {
                    match T::decode::<CONFIG>(c) {
                        Ok(v) => {
                            proof {
                                let n = <bool as Decode<'de>>::dec(orig, CONFIG).unwrap().1;
                                let n2 = T::dec(orig.skip(n), CONFIG).unwrap().1;
                                assert(orig.skip(n + n2) =~= orig.skip(n).skip(n2));
                            }
                            Ok(Some(v))
                        },
                        Err(e) => Err(e),
                    }
                } else {
                    Ok(None)
                }
            },
            Err(e) => Err(e),
        }
    }
}

impl<'de, T: Codec<'de>> Codec<'de> for Option<T> {
    proof fn lemma_round_trip(m: Option<T::V>, cfg: u16, rest: Seq<u8>) {
        match m {
            Some(x) => {
                let payload = T::enc(x, cfg);
                assert(Self::enc(m, cfg) + rest =~= seq![1u8] + (payload + rest));
                assert((seq![1u8] + (payload + rest))[0] == 1u8);
                assert((seq![1u8] + (payload + rest)).skip(1) =~= payload + rest);
                T::lemma_round_trip(x, cfg, rest);
            },
            None => {
                assert((Self::enc(m, cfg) + rest)[0] == 0u8);
            },
        }
    }
}

/// For bytes the element encoding is the byte itself, so the elements of a
/// byte string encode to exactly that byte string.
pub proof fn lemma_elems_enc_u8(s: Seq<u8>, cfg: u16)
    ensures
        elems_enc::<u8>(s, cfg) == s,
    decreases s.len(),
{
    if s.len() == 0 {
        assert(elems_enc::<u8>(s, cfg) =~= s);
    } else {
        lemma_elems_enc_u8(s.skip(1), cfg);
        assert(elems_enc::<u8>(s, cfg) =~= s);
    }
}

impl<T: Encode + ?Sized> Encode for &T {
    open spec fn enc_ok(m: T::V, cfg: u16) -> bool {
        T::enc_ok(m, cfg)
    }

    open spec fn enc(m: T::V, cfg: u16) -> Seq<u8> {
        T::enc(m, cfg)
    }

    fn encode<const CONFIG: u16>(&self, c: &mut Vec<u8>) -> (r: Result<(), Error>) {
        (*self).encode::<CONFIG>(c)
    }
}

impl Encode for () {
    open spec fn enc_ok(m: (), cfg: u16) -> bool {
        true
    }

    open spec fn enc(m: (), cfg: u16) -> Seq<u8> {
        Seq::empty()
    }

    fn encode<const CONFIG: u16>(&self, c: &mut Vec<u8>) -> (r: Result<(), Error>) {
        proof {
            assert(c@ =~= c@ + Seq::<u8>::empty());
        }
        Ok(())
    }
}

impl<'de> Decode<'de> for () {
    open spec fn dec(bytes: Seq<u8>, cfg: u16) -> Result<((), int), Error> {
        Ok(((), 0))
    }

    proof fn lemma_dec_bound(bytes: Seq<u8>, cfg: u16) {
    }

    fn decode<const CONFIG: u16>(c: &mut &'de [u8]) -> (r: Result<Self, Error>) {
        proof {
            assert(c@.skip(0) =~= c@);
        }
        Ok(())
    }
}

impl<'de> Codec<'de> for () {
    proof fn lemma_round_trip(m: (), cfg: u16, rest: Seq<u8>) {
        assert(Self::enc(m, cfg) =~= Seq::<u8>::empty());
    }
}

impl<A: Encode, B: Encode> Encode for (A, B) {
    open spec fn enc_ok(m: (A::V, B::V), cfg: u16) -> bool {
        A::enc_ok(m.0, cfg) && B::enc_ok(m.1, cfg)
    }

    open spec fn enc(m: (A::V, B::V), cfg: u16) -> Seq<u8> {
        A::enc(m.0, cfg) + B::enc(m.1, cfg)
    }

    fn encode<const CONFIG: u16>(&self, c: &mut Vec<u8>) -> (r: Result<(), Error>) {
        let ghost m = self.deep_view();
        proof {
            assert(m == (self.0.deep_view(), self.1.deep_view()));
            assert(Self::enc(m, CONFIG) == A::enc(m.0, CONFIG) + B::enc(m.1, CONFIG));
            assert(Self::enc_ok(m, CONFIG) == (A::enc_ok(m.0, CONFIG) && B::enc_ok(m.1, CONFIG)));
        }
        match self.0.encode::<CONFIG>(c) {
            Ok(_) => {},
            Err(e) => {
                return Err(e);
            },
        }
        match self.1.encode::<CONFIG>(c) {
            Ok(_) => {},
            Err(e) => {
                return Err(e);
            },
        }
        Ok(())
    }
}

impl<'de, A: Decode<'de>, B: Decode<'de>> Decode<'de> for (A, B) {
    open spec fn dec(bytes: Seq<u8>, cfg: u16) -> Result<((A::V, B::V), int), Error> {
        match A::dec(bytes, cfg) {
            Ok((ma, na)) => match B::dec(bytes.skip(na), cfg) {
                Ok((mb, nb)) => Ok(((ma, mb), na + nb)),
                Err(e) => Err(e),
            },
            Err(e) => Err(e),
        }
    }

    proof fn lemma_dec_bound(bytes: Seq<u8>, cfg: u16) {
        if let Ok((ma, na)) = A::dec(bytes, cfg) {
            A::lemma_dec_bound(bytes, cfg);
            B::lemma_dec_bound(bytes.skip(na), cfg);
        }
    }

    fn decode<const CONFIG: u16>(c: &mut &'de [u8]) -> (r: Result<Self, Error>) {
        let ghost orig = c@;
        let a = match A::decode::<CONFIG>(c) {
            Ok(a) => a,
            Err(e) => {
                return Err(e);
            },
        };
        let ghost na = A::dec(orig, CONFIG).unwrap().1;
        let b = match B::decode::<CONFIG>(c) {
            Ok(b) => b,
            Err(e) => {
                return Err(e);
            },
        };
        proof {
            let nb = B::dec(orig.skip(na), CONFIG).unwrap().1;
            assert(orig.skip(na + nb) =~= orig.skip(na).skip(nb));
            assert((a, b).deep_view() == (a.deep_view(), b.deep_view()));
        }
        Ok((a, b))
    }
}

impl<'de, A: Codec<'de>, B: Codec<'de>> Codec<'de> for (A, B) {
    proof fn lemma_round_trip(m: (A::V, B::V), cfg: u16, rest: Seq<u8>) {
        let abytes = A::enc(m.0, cfg);
        let bbytes = B::enc(m.1, cfg);
        assert(Self::enc(m, cfg) + rest =~= abytes + (bbytes + rest));
        A::lemma_round_trip(m.0, cfg, bbytes + rest);
        assert((abytes + (bbytes + rest)).skip(abytes.len() as int) =~= bbytes + rest);
        B::lemma_round_trip(m.1, cfg, rest);
    }
}

impl<T: Encode> Encode for Box<T> {
    open spec fn enc_ok(m: T::V, cfg: u16) -> bool {
        T::enc_ok(m, cfg)
    }

    open spec fn enc(m: T::V, cfg: u16) -> Seq<u8> {
        T::enc(m, cfg)
    }

    fn encode<const CONFIG: u16>(&self, c: &mut Vec<u8>) -> (r: Result<(), Error>) {
        (**self).encode::<CONFIG>(c)
    }
}

impl<'de, T: Decode<'de>> Decode<'de> for Box<T> {
    open spec fn dec(bytes: Seq<u8>, cfg: u16) -> Result<(T::V, int), Error> {
        T::dec(bytes, cfg)
    }

    proof fn lemma_dec_bound(bytes: Seq<u8>, cfg: u16) {
        T::lemma_dec_bound(bytes, cfg);
    }

    fn decode<const CONFIG: u16>(c: &mut &'de [u8]) -> (r: Result<Self, Error>) {
        match T::decode::<CONFIG>(c) {
            Ok(v) => Ok(Box::new(v)),
            Err(e) => Err(e),
        }
    }
}

impl<'de, T: Codec<'de>> Codec<'de> for Box<T> {
    proof fn lemma_round_trip(m: T::V, cfg: u16, rest: Seq<u8>) {
        T::lemma_round_trip(m, cfg, rest);
    }
}

/// A successful element-sequence decode consumes no more bytes than the
/// input holds and yields exactly the declared count of elements.
pub proof fn lemma_elems_dec_bound<'de, T: Decode<'de>>(bytes: Seq<u8>, count: nat, cfg: u16)
    ensures
        elems_dec::<T>(bytes, count, cfg) matches Ok((ms, n)) ==> 0 <= n <= bytes.len() && ms.len()
            == count,
    decreases count,
{
    if count > 0 {
        if let Ok((m0, n0)) = T::dec(bytes, cfg) {
            T::lemma_dec_bound(bytes, cfg);
            lemma_elems_dec_bound::<T>(bytes.skip(n0), (count - 1) as nat, cfg);
        }
    }
}

/// Law: element decoding is fail-fast. When the first `k` elements of a
/// declared-longer sequence decode and the next element is malformed, the
/// whole decode yields exactly that element's error — never a partial
/// sequence.
pub proof fn lemma_fail_fast<'de, T: Decode<'de>>(bytes: Seq<u8>, count: nat, k: nat, cfg: u16)
    requires
        k < count,
        elems_dec::<T>(bytes, k, cfg) is Ok,
        T::dec(bytes.skip(elems_dec::<T>(bytes, k, cfg).unwrap().1), cfg) is Err,
    ensures
        ({
            let at = elems_dec::<T>(bytes, k, cfg).unwrap().1;
            T::dec(bytes.skip(at), cfg) matches Err(e) && elems_dec::<T>(bytes, count, cfg)
                == Err::<(Seq<T::V>, int), Error>(e)
        }),
    decreases k,
{
    if k == 0 {
        assert(bytes.skip(0) =~= bytes);
    } else {
        let (m0, n0) = T::dec(bytes, cfg).unwrap();
        T::lemma_dec_bound(bytes, cfg);
        let tail = bytes.skip(n0);
        let n_rest = elems_dec::<T>(tail, (k - 1) as nat, cfg).unwrap().1;
        lemma_elems_dec_bound::<T>(tail, (k - 1) as nat, cfg);
        assert(bytes.skip(n0 + n_rest) =~= tail.skip(n_rest));
        lemma_fail_fast::<T>(tail, (count - 1) as nat, (k - 1) as nat, cfg);
    }
}

impl<T: Encode, const N: usize> Encode for [T; N] {
    open spec fn enc_ok(m: Seq<T::V>, cfg: u16) -> bool {
        elems_enc_ok::<T>(m, cfg)
    }

    open spec fn enc(m: Seq<T::V>, cfg: u16) -> Seq<u8> {
        elems_enc::<T>(m, cfg)
    }

    fn encode<const CONFIG: u16>(&self, c: &mut Vec<u8>) -> (r: Result<(), Error>) {
        let ghost m = self.deep_view();
        let ghost base = c@;
        let mut i: usize = 0;
        proof {
            assert(elems_enc::<T>(m.take(0), CONFIG) =~= Seq::<u8>::empty());
            assert(base + Seq::<u8>::empty() =~= base);
        }
        while i < N
            invariant
                config::cfg_wf(CONFIG),
                i <= N,
                m == self.deep_view(),
                m.len() == N,
                base == old(c)@,
                c@ == base + elems_enc::<T>(m.take(i as int), CONFIG),
                forall|j: int| 0 <= j < i ==> T::enc_ok(#[trigger] m[j], CONFIG),
            decreases N - i,
        {
            match self[i].encode::<CONFIG>(c) {
                Ok(_) => {},
                Err(e) => {
                    proof {
                        assert(self@[i as int].deep_view() == m[i as int]);
                        assert(!T::enc_ok(m[i as int], CONFIG));
                    }
                    return Err(e);
                },
            }
            proof {
                assert(self@[i as int].deep_view() == m[i as int]);
                lemma_elems_enc_push::<T>(m.take(i as int), m[i as int], CONFIG);
                assert(m.take(i as int).push(m[i as int]) =~= m.take(i + 1));
                assert(c@ =~= base + elems_enc::<T>(m.take(i + 1), CONFIG));
            }
            i = i + 1;
        }
        proof {
            assert(m.take(m.len() as int) =~= m);
        }
        Ok(())
    }
}

} // verus!
