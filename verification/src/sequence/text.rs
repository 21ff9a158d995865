//! The text form of a sequence Uid: its bytes in URL-safe base64 without
//! padding. The bytes are three variable-length quantities: the position
//! as one number (a one bit, then the bits of each level, level `i`
//! taking `20 + i` bits), the site id and the counter.

use crate::error::Error;
use crate::sequence::uid::Uid;
use crate::sequence::bits::{
    bits_value, lemma_bits_value_add, lemma_bits_value_bound, lemma_bits_value_lead, lemma_level_bits_of_value,
    lemma_level_bits_pad, lemma_level_bits_value, lemma_strip_zeros, level_bits, strip, zeros,
};
use crate::sequence::uid::{level_bound, max_levels, valid_position};
use crate::vlq::{
    decode_u32, decoded, digits, encode_u32, encoding, lemma_decode_encoding, lemma_digits_small, lemma_terminator_skip,
    terminator,
};
use vstd::arithmetic::div_mod::lemma_fundamental_div_mod_converse;
use vstd::arithmetic::power2::{lemma2_to64, pow2};
use vstd::prelude::*;

verus! {

/// The text that the base64 crate's `encode_config` writes for `bytes`
/// with the `URL_SAFE_NO_PAD` configuration.
pub uninterp spec fn url_safe_base64(bytes: Seq<u8>) -> Seq<char>;

/// What the base64 crate's `decode_config` reads from `text` with the
/// `URL_SAFE_NO_PAD` configuration: the bytes, or `None` on an error.
pub uninterp spec fn from_url_safe_base64(text: Seq<char>) -> Option<Seq<u8>>;

/// Calls the base64 crate's `encode_config` with `URL_SAFE_NO_PAD`.
/// Claimed of it: the text is `url_safe_base64(bytes)`, and
/// `decode_config` with the same configuration reads the bytes back. It
/// panics only where the length of the text overflows a `usize`, which
/// `requires` rules out.
#[verifier::external_body]
fn encode_url_safe_no_pad(bytes: &[u8]) -> (text: String)
    requires
        bytes@.len() <= usize::MAX / 2,
    ensures
        text@ == url_safe_base64(bytes@),
        from_url_safe_base64(text@) == Some(bytes@),
{
    base64::encode_config(bytes, base64::URL_SAFE_NO_PAD)
}

/// Calls the base64 crate's `decode_config` with `URL_SAFE_NO_PAD`.
/// Claimed of it: the result is `from_url_safe_base64(text)`, an error
/// becoming `None`. It panics only where the length of its buffer
/// overflows a `usize`, which `requires` rules out.
#[verifier::external_body]
fn decode_url_safe_no_pad(text: &str) -> (bytes: Option<Vec<u8>>)
    requires
        text@.len() <= usize::MAX / 8,
    ensures
        match bytes {
            Some(b) => from_url_safe_base64(text@) == Some(b@),
            None => from_url_safe_base64(text@) is None,
        },
{
    match base64::decode_config(text, base64::URL_SAFE_NO_PAD) {
        Ok(b) => Some(b),
        Err(_) => None,
    }
}

/// The bits of the levels of a position from level `i` on: level `i`
/// takes `20 + i` bits.
pub open spec fn levels_bits(p: Seq<u64>, i: nat) -> Seq<bool>
    decreases p.len(),
{
    if p.len() == 0 {
        Seq::empty()
    } else {
        level_bits(p[0] as nat, 20 + i) + levels_bits(p.drop_first(), i + 1)
    }
}

/// The bits of a position: a one, then the bits of its levels.
pub open spec fn position_bits(p: Seq<u64>) -> Seq<bool> {
    seq![true] + levels_bits(p, 0)
}

/// A position as one number.
pub open spec fn position_value(p: Seq<u64>) -> nat {
    bits_value(position_bits(p))
}

/// The base-128 digits of a run of bits, most significant first: groups
/// of seven bits from the end.
pub open spec fn bit_digits(bs: Seq<bool>) -> Seq<u8>
    decreases bs.len(),
{
    if bs.len() <= 7 {
        seq![bits_value(bs) as u8]
    } else {
        bit_digits(bs.subrange(0, bs.len() - 7)).push(bits_value(bs.subrange(bs.len() - 7, bs.len() as int)) as u8)
    }
}

/// The bits of a run of base-128 digits, seven for each (continuation
/// bits ignored).
pub open spec fn bytes_bits(ds: Seq<u8>) -> Seq<bool>
    decreases ds.len(),
{
    if ds.len() == 0 {
        Seq::empty()
    } else {
        bytes_bits(ds.drop_last()) + level_bits((ds.last() % 128) as nat, 7)
    }
}

/// Reading levels from a run of bits, from level `i` on: each level takes
/// `20 + i` bits; a run that does not end at the end of a level, or that
/// goes past the levels a position can hold, gives `None`.
pub open spec fn split_levels(bs: Seq<bool>, i: nat) -> Option<Seq<u64>>
    decreases bs.len(),
{
    if bs.len() == 0 {
        Some(Seq::empty())
    } else if i >= max_levels() || bs.len() < 20 + i {
        None
    } else {
        match split_levels(bs.subrange(20 + i as int, bs.len() as int), i + 1) {
            Some(rest) => Some(seq![bits_value(bs.subrange(0, 20 + i as int)) as u64] + rest),
            None => None,
        }
    }
}

/// The position that a run of base-128 digits spells: the bits after the
/// leading one, read as levels.
pub open spec fn position_of_digits(ds: Seq<u8>) -> Option<Seq<u64>> {
    let s = strip(bytes_bits(ds));
    if s.len() == 0 {
        None
    } else {
        split_levels(s.drop_first(), 0)
    }
}

/// The bytes of a Uid: its position as one number, its site id and its
/// counter, each a variable-length quantity.
pub open spec fn uid_bytes(u: &Uid) -> Seq<u8> {
    encoding(position_value(u.position@)) + encoding(u.site_id as nat) + encoding(u.counter as nat)
}

/// Reading a Uid from its bytes: the position, the site id and the
/// counter, or the first error. A position that is not a whole number of
/// levels is refused with `DeserializeSequenceUID`.
pub open spec fn parse_uid_bytes(bytes: Seq<u8>) -> Result<(Seq<u64>, u32, u32), Error> {
    match terminator(bytes, 0) {
        None => Err(Error::VLQNoTerminatingByte),
        Some(t) => match position_of_digits(bytes.subrange(0, t + 1)) {
            None => Err(Error::DeserializeSequenceUID),
            Some(p) => match decoded(bytes, t + 1) {
                Ok((site_id, at)) => match decoded(bytes, at as int) {
                    Ok((counter, _)) => Ok((p, site_id, counter)),
                    Err(e) => Err(e),
                },
                Err(e) => Err(e),
            },
        },
    }
}

/// The Uid `u` holds what a parse gave.
pub open spec fn parsed_as(r: Result<Uid, Error>, p: Result<(Seq<u64>, u32, u32), Error>) -> bool {
    match (r, p) {
        (Ok(u), Ok((levels, site_id, counter))) => u.position@ == levels && u.site_id == site_id && u.counter == counter,
        (Err(e), Err(f)) => e == f,
        _ => false,
    }
}

/// For a run that starts with a one, its groups of seven bits are the
/// base-128 digits of the number it spells.
proof fn lemma_bit_digits(bs: Seq<bool>)
    requires
        bs.len() >= 1,
        bs[0],
    ensures
        bit_digits(bs) == digits(bits_value(bs)),
    decreases bs.len(),
{
    lemma2_to64();
    lemma_bits_value_bound(bs);
    if bs.len() <= 7 {
        if bs.len() < 7 {
            vstd::arithmetic::power2::lemma_pow2_strictly_increases(bs.len(), 7);
        }
    } else {
        let n = bs.len() as int;
        let a = bs.subrange(0, n - 7);
        let b = bs.subrange(n - 7, n);
        assert(a + b =~= bs);
        lemma_bits_value_add(a, b);
        lemma_bits_value_bound(b);
        lemma_bits_value_lead(bs);
        if n - 1 > 7 {
            vstd::arithmetic::power2::lemma_pow2_strictly_increases(7, (n - 1) as nat);
        }
        let v = bits_value(bs);
        lemma_fundamental_div_mod_converse(v as int, 128, bits_value(a) as int, bits_value(b) as int);
        lemma_bit_digits(a);
    }
}

/// The bits of a run's groups of seven, for a run that starts with a one,
/// are the run with zeros in front.
proof fn lemma_bytes_bits_of_digits(bs: Seq<bool>)
    requires
        bs.len() >= 1,
        bs[0],
    ensures
        strip(bytes_bits(bit_digits(bs))) == bs,
    decreases bs.len(),
{
    lemma2_to64();
    lemma_bits_value_bound(bs);
    let n = bs.len() as int;
    if n <= 7 {
        let v = bits_value(bs);
        if n < 7 {
            vstd::arithmetic::power2::lemma_pow2_strictly_increases(bs.len(), 7);
        }
        let ds = bit_digits(bs);
        assert(ds.drop_last() =~= Seq::<u8>::empty());
        assert((ds.last() % 128) as nat == v);
        lemma_level_bits_pad(v, bs.len(), (7 - n) as nat);
        lemma_level_bits_of_value(bs);
        assert(bs.len() + (7 - n) as nat == 7);
        assert(level_bits(v, 7) == zeros((7 - n) as nat) + bs);
        assert(bytes_bits(ds.drop_last()) =~= Seq::<bool>::empty());
        assert(bytes_bits(ds) == bytes_bits(ds.drop_last()) + level_bits((ds.last() % 128) as nat, 7));
        assert(bytes_bits(ds) =~= zeros((7 - n) as nat) + bs);
        lemma_strip_zeros((7 - n) as nat, bs);
    } else {
        let a = bs.subrange(0, n - 7);
        let b = bs.subrange(n - 7, n);
        lemma_bits_value_bound(b);
        let ds = bit_digits(bs);
        assert(ds.drop_last() == bit_digits(a));
        assert((ds.last() % 128) as nat == bits_value(b));
        lemma_level_bits_of_value(b);
        lemma_bytes_bits_of_digits(a);
        lemma_bytes_bits_zeros(bit_digits(a), a);
        let k = choose|k: nat| bytes_bits(bit_digits(a)) == zeros(k) + a;
        assert(bytes_bits(ds) =~= zeros(k) + bs);
        lemma_strip_zeros(k, bs);
    }
}

/// Where stripping the leading zeros of a run of digits' bits leaves a
/// run that starts with a one, the bits are that run with zeros in front.
proof fn lemma_bytes_bits_zeros(ds: Seq<u8>, a: Seq<bool>)
    requires
        a.len() >= 1,
        a[0],
        strip(bytes_bits(ds)) == a,
    ensures
        exists|k: nat| bytes_bits(ds) == zeros(k) + a,
{
    lemma_strip_shape(bytes_bits(ds));
}

/// A run is its stripped run with zeros in front.
proof fn lemma_strip_shape(bs: Seq<bool>)
    ensures
        exists|k: nat| bs == zeros(k) + strip(bs),
    decreases bs.len(),
{
    if bs.len() == 0 || bs[0] {
        assert(bs =~= zeros(0) + strip(bs));
    } else {
        lemma_strip_shape(bs.drop_first());
        let k = choose|k: nat| bs.drop_first() == zeros(k) + strip(bs.drop_first());
        assert(strip(bs) == strip(bs.drop_first()));
        assert(bs =~= seq![false] + bs.drop_first());
        assert(seq![false] + (zeros(k) + strip(bs)) =~= zeros(k + 1) + strip(bs));
    }
}

/// Continuation bits do not change the bits of a run of digits.
proof fn lemma_bytes_bits_low(x: Seq<u8>, y: Seq<u8>)
    requires
        x.len() == y.len(),
        forall|i: int| 0 <= i < x.len() ==> x[i] % 128 == y[i] % 128,
    ensures
        bytes_bits(x) == bytes_bits(y),
    decreases x.len(),
{
    if x.len() > 0 {
        lemma_bytes_bits_low(x.drop_last(), y.drop_last());
    }
}

/// Reading the bits of valid levels from level `i` on gives the levels.
proof fn lemma_split_levels(p: Seq<u64>, i: nat)
    requires
        i + p.len() <= max_levels(),
        forall|j: int| 0 <= j < p.len() ==> (p[j] as nat) < pow2(20 + i + j as nat),
    ensures
        split_levels(levels_bits(p, i), i) == Some(p),
    decreases p.len(),
{
    let bs = levels_bits(p, i);
    if p.len() == 0 {
        assert(bs =~= Seq::<bool>::empty());
    } else {
        let w = 20 + i;
        let first = level_bits(p[0] as nat, w);
        let rest = levels_bits(p.drop_first(), i + 1);
        lemma_level_bits_value(p[0] as nat, w);
        assert((p[0] as nat) % pow2(w) == p[0] as nat) by {
            vstd::arithmetic::div_mod::lemma_small_mod(p[0] as nat, pow2(w));
        }
        assert(bs.subrange(0, w as int) =~= first);
        assert(bs.subrange(w as int, bs.len() as int) =~= rest);
        assert forall|j: int| 0 <= j < p.drop_first().len() implies (p.drop_first()[j] as nat) < pow2((i + 1) + 20 + j as nat) by {
            assert(p.drop_first()[j] == p[j + 1]);
            assert(20 + i + (j + 1) as nat == (i + 1) + 20 + j as nat);
        }
        assert forall|j: int| 0 <= j < p.drop_first().len() implies (p.drop_first()[j] as nat) < pow2(20 + (i + 1) + j as nat) by {
            assert(20 + (i + 1) + j as nat == (i + 1) + 20 + j as nat);
        }
        lemma_split_levels(p.drop_first(), i + 1);
        assert(seq![p[0]] + p.drop_first() =~= p);
    }
}

/// The bits of the levels from level `i` on: at most 64 for each.
proof fn lemma_levels_bits_len(p: Seq<u64>, i: nat)
    requires
        i + p.len() <= max_levels(),
    ensures
        levels_bits(p, i).len() <= 64 * p.len(),
    decreases p.len(),
{
    if p.len() > 0 {
        lemma_level_bits_value(p[0] as nat, 20 + i);
        lemma_levels_bits_len(p.drop_first(), i + 1);
    }
}

/// A run of bits has no more digits than bits.
proof fn lemma_bit_digits_len(bs: Seq<bool>)
    ensures
        bit_digits(bs).len() <= bs.len() + 1,
        bs.len() >= 1 ==> bit_digits(bs).len() <= bs.len(),
    decreases bs.len(),
{
    if bs.len() > 7 {
        lemma_bit_digits_len(bs.subrange(0, bs.len() - 7));
    }
}

/// Where the bytes of a number's encoding end, in a longer run of bytes.
proof fn lemma_encoding_terminator(n: nat, rest: Seq<u8>)
    ensures
        terminator(encoding(n) + rest, 0) == Some(encoding(n).len() - 1),
        (encoding(n) + rest).subrange(0, encoding(n).len() as int) == encoding(n),
{
    let e = encoding(n);
    lemma_digits_small(n);
    let bytes = e + rest;
    let l = e.len() as int;
    assert forall|j: int| 0 <= j < l - 1 && j < bytes.len() implies bytes[j] >= 128 by {
        assert(bytes[j] == e[j]);
    }
    lemma_terminator_skip(bytes, 0, l - 1);
    assert(bytes[l - 1] == e[l - 1]);
    assert(bytes.subrange(0, l) =~= e);
}

/// Reading a Uid back from its bytes gives its position, site id and
/// counter, for a valid position of at most the levels a position can
/// hold.
pub proof fn lemma_uid_bytes_round_trip(u: &Uid)
    requires
        valid_position(u.position@),
        u.position@.len() <= max_levels(),
    ensures
        parse_uid_bytes(uid_bytes(u)) == Ok::<(Seq<u64>, u32, u32), Error>((u.position@, u.site_id, u.counter)),
{
    let p = u.position@;
    let bs = position_bits(p);
    let v = position_value(p);
    let e = encoding(v);
    let se = encoding(u.site_id as nat);
    let ce = encoding(u.counter as nat);
    let bytes = uid_bytes(u);
    assert(bytes =~= e + (se + ce));
    lemma_encoding_terminator(v, se + ce);
    assert(bs[0]);
    lemma_bit_digits(bs);
    lemma_digits_small(v);
    let d = digits(v);
    assert forall|i: int| 0 <= i < e.len() implies e[i] % 128 == d[i] % 128 by {
        if i < d.len() - 1 {
            assert(d[i] < 128);
        }
    }
    lemma_bytes_bits_low(e, d);
    lemma_bytes_bits_of_digits(bs);
    assert(strip(bytes_bits(e)) == bs);
    assert(bs.drop_first() =~= levels_bits(p, 0));
    assert forall|j: int| 0 <= j < p.len() implies (p[j] as nat) < pow2(20 + 0 + j as nat) by {
        assert(p[j] < level_bound(j as nat));
    }
    lemma_split_levels(p, 0);
    lemma_levels_bits_len(p, 0);
    lemma_bit_digits_len(bs);
    crate::vlq::lemma_encoding_len(u.site_id);
    crate::vlq::lemma_encoding_len(u.counter);
    assert(bytes =~= e + se + ce);
    lemma_decode_encoding(e, u.site_id, ce);
    assert(bytes =~= (e + se) + ce + Seq::<u8>::empty());
    lemma_decode_encoding(e + se, u.counter, Seq::<u8>::empty());
}

/// `a`, then the levels a read gave, where it gave some.
spec fn prepend_levels(a: Seq<u64>, o: Option<Seq<u64>>) -> Option<Seq<u64>> {
    match o {
        Some(r) => Some(a + r),
        None => None,
    }
}

/// Appends the lowest `w` bits of `v`, most significant first.
fn push_level_bits(bits: &mut Vec<bool>, v: u64, w: usize)
    ensures
        final(bits)@ == old(bits)@ + level_bits(v as nat, w as nat),
    decreases w,
{
    if w > 0 {
        push_level_bits(bits, v / 2, w - 1);
        bits.push(v % 2 == 1);
        proof {
            assert(level_bits(v as nat, w as nat) == level_bits((v / 2) as nat, (w - 1) as nat).push(v % 2 == 1));
            assert(bits@ =~= old(bits)@ + level_bits(v as nat, w as nat));
        }
    } else {
        assert(bits@ =~= old(bits)@ + level_bits(v as nat, w as nat));
    }
}

/// Appends the bits of the levels of `p` from level `k` on.
fn push_levels_bits(bits: &mut Vec<bool>, p: &Vec<u64>, k: usize)
    requires
        k <= p@.len(),
        p@.len() <= max_levels(),
    ensures
        final(bits)@ == old(bits)@ + levels_bits(p@.subrange(k as int, p@.len() as int), k as nat),
    decreases p@.len() - k,
{
    let ghost s = p@.subrange(k as int, p@.len() as int);
    if k < p.len() {
        push_level_bits(bits, p[k], 20 + k);
        let ghost mid = bits@;
        push_levels_bits(bits, p, k + 1);
        proof {
            assert(s.drop_first() =~= p@.subrange(k + 1, p@.len() as int));
            assert(s[0] == p@[k as int]);
            assert(levels_bits(s, k as nat) == level_bits(p@[k as int] as nat, 20 + k as nat) + levels_bits(s.drop_first(), (k + 1) as nat));
            assert(bits@ =~= old(bits)@ + levels_bits(s, k as nat));
        }
    } else {
        assert(s =~= Seq::<u64>::empty());
        assert(bits@ =~= old(bits)@ + levels_bits(s, k as nat));
    }
}

/// The number that bits `a..b` spell.
fn bits_number(bits: &Vec<bool>, a: usize, b: usize) -> (r: u64)
    requires
        a <= b <= bits@.len(),
        b - a <= 63,
    ensures
        r as nat == bits_value(bits@.subrange(a as int, b as int)),
{
    let mut r: u64 = 0;
    let mut i: usize = a;
    assert(bits@.subrange(a as int, a as int) =~= Seq::<bool>::empty());
    while i < b
        invariant
            a <= i <= b,
            b <= bits@.len(),
            b - a <= 63,
            r as nat == bits_value(bits@.subrange(a as int, i as int)),
        decreases b - i,
    {
        proof {
            lemma2_to64();
            vstd::arithmetic::power2::lemma2_to64_rest();
            lemma_bits_value_bound(bits@.subrange(a as int, i as int));
            assert(bits@.subrange(a as int, i as int).len() == (i - a) as nat);
            assert(pow2(62) == 0x4000_0000_0000_0000);
            if i - a < 62 {
                vstd::arithmetic::power2::lemma_pow2_strictly_increases((i - a) as nat, 62);
            }
            assert(bits@.subrange(a as int, i + 1).drop_last() =~= bits@.subrange(a as int, i as int));
        }
        let bit: u64 = if bits[i] { 1 } else { 0 };
        r = r * 2 + bit;
        i = i + 1;
    }
    r
}

/// The groups of seven of the first `end` bits, as digits.
fn bits_digits(bits: &Vec<bool>, end: usize) -> (r: Vec<u8>)
    requires
        end <= bits@.len(),
    ensures
        r@ == bit_digits(bits@.subrange(0, end as int)),
    decreases end,
{
    let ghost x = bits@.subrange(0, end as int);
    proof {
        lemma2_to64();
    }
    if end <= 7 {
        let v = bits_number(bits, 0, end);
        proof {
            lemma_bits_value_bound(x);
            if end < 7 {
                vstd::arithmetic::power2::lemma_pow2_strictly_increases(end as nat, 7);
            }
        }
        let mut r: Vec<u8> = Vec::new();
        r.push(v as u8);
        assert(r@ =~= bit_digits(x));
        r
    } else {
        let mut r = bits_digits(bits, end - 7);
        let v = bits_number(bits, end - 7, end);
        proof {
            let y = bits@.subrange((end - 7) as int, end as int);
            lemma_bits_value_bound(y);
            assert(x.subrange(0, x.len() - 7) =~= bits@.subrange(0, end - 7));
            assert(x.subrange(x.len() - 7, x.len() as int) =~= y);
        }
        r.push(v as u8);
        r
    }
}

/// The bits of the digits `bytes[..=t]`, seven for each.
fn digit_bits(bytes: &[u8], t: usize) -> (bits: Vec<bool>)
    requires
        t < bytes@.len(),
    ensures
        bits@ == bytes_bits(bytes@.subrange(0, t + 1)),
{
    let mut bits: Vec<bool> = Vec::new();
    let mut j: usize = 0;
    assert(bytes@.subrange(0, 0) =~= Seq::<u8>::empty());
    while j <= t
        invariant
            t < bytes@.len(),
            j <= t + 1,
            bits@ == bytes_bits(bytes@.subrange(0, j as int)),
        decreases t + 1 - j,
    {
        push_level_bits(&mut bits, (bytes[j] % 128) as u64, 7);
        proof {
            let x = bytes@.subrange(0, j + 1);
            assert(x.drop_last() =~= bytes@.subrange(0, j as int));
            assert(x.last() == bytes@[j as int]);
        }
        j = j + 1;
    }
    bits
}

/// The levels after the leading one of `bits` (see `position_of_digits`).
fn levels_of_bits(bits: &Vec<bool>) -> (r: Option<Vec<u64>>)
    ensures
        match (r, if strip(bits@).len() == 0 { None } else { split_levels(strip(bits@).drop_first(), 0) }) {
            (Some(p), Some(q)) => p@ == q,
            (None, None) => true,
            _ => false,
        },
{
    let ghost all = bits@;
    let n = bits.len();
    let mut f: usize = 0;
    assert(all.subrange(0, n as int) =~= all);
    while f < n && !bits[f]
        invariant
            n == bits@.len(),
            all == bits@,
            f <= n,
            strip(all) == strip(all.subrange(f as int, n as int)),
        decreases n - f,
    {
        proof {
            let x = all.subrange(f as int, n as int);
            assert(x.drop_first() =~= all.subrange(f + 1, n as int));
        }
        f = f + 1;
    }
    if f >= n {
        proof {
            assert(all.subrange(f as int, n as int) =~= Seq::<bool>::empty());
        }
        return None;
    }
    let ghost body = all.subrange(f + 1, n as int);
    proof {
        let x = all.subrange(f as int, n as int);
        assert(strip(x) == x);
        assert(x.drop_first() =~= body);
    }
    let mut position: Vec<u64> = Vec::new();
    let mut pos: usize = f + 1;
    let mut i: usize = 0;
    proof {
        assert(all.subrange(pos as int, n as int) == body);
        assert(prepend_levels(position@, split_levels(body, 0)) == split_levels(body, 0)) by {
            match split_levels(body, 0) {
                Some(r) => {
                    assert(position@ + r =~= r);
                },
                None => {},
            }
        }
    }
    while pos < n
        invariant
            n == bits@.len(),
            all == bits@,
            f + 1 <= pos <= n,
            i <= max_levels(),
            body == all.subrange(f + 1, n as int),
            strip(all).len() > 0,
            strip(all).drop_first() == body,
            split_levels(body, 0) == prepend_levels(position@, split_levels(all.subrange(pos as int, n as int), i as nat)),
        decreases n - pos,
    {
        let ghost rest = all.subrange(pos as int, n as int);
        if i >= 44 || n - pos < 20 + i {
            proof {
                assert(rest.len() > 0);
                assert(split_levels(rest, i as nat) is None);
            }
            return None;
        }
        let w = 20 + i;
        let v = bits_number(bits, pos, pos + w);
        proof {
            assert(rest.subrange(0, w as int) =~= all.subrange(pos as int, (pos + w) as int));
            assert(rest.subrange(w as int, rest.len() as int) =~= all.subrange((pos + w) as int, n as int));
            let later = split_levels(all.subrange((pos + w) as int, n as int), (i + 1) as nat);
            match later {
                Some(r) => {
                    assert(position@.push(v) + r =~= position@ + (seq![v] + r));
                },
                None => {},
            }
        }
        position.push(v);
        pos = pos + w;
        i = i + 1;
    }
    proof {
        assert(all.subrange(pos as int, n as int) =~= Seq::<bool>::empty());
        assert(position@ + Seq::<u64>::empty() =~= position@);
    }
    Some(position)
}

impl Uid {
    /// The Uid's bytes (see `uid_bytes`).
    pub fn to_vlq(&self) -> (bytes: Vec<u8>)
        requires
            self.position@.len() <= max_levels(),
        ensures
            bytes@ == uid_bytes(self),
    {
        let mut bits: Vec<bool> = Vec::new();
        bits.push(true);
        push_levels_bits(&mut bits, &self.position, 0);
        let ghost bs = position_bits(self.position@);
        proof {
            assert(self.position@.subrange(0, self.position@.len() as int) =~= self.position@);
            assert(bits@ =~= bs);
            lemma_bit_digits(bs);
            lemma_digits_small(position_value(self.position@));
        }
        let n = bits.len();
        let ds = bits_digits(&bits, n);
        let ghost e = encoding(position_value(self.position@));
        proof {
            assert(bits@.subrange(0, n as int) =~= bits@);
        }
        let mut bytes: Vec<u8> = Vec::new();
        let m = ds.len();
        let mut i: usize = 0;
        while i < m
            invariant
                m == ds@.len(),
                i <= m,
                ds@ == digits(position_value(self.position@)),
                forall|k: int| 0 <= k < ds@.len() ==> #[trigger] ds@[k] < 128,
                e == encoding(position_value(self.position@)),
                bytes@ == e.subrange(0, i as int),
            decreases m - i,
        {
            let d = ds[i];
            if i + 1 < m {
                bytes.push(d + 128);
            } else {
                bytes.push(d);
            }
            assert(bytes@ =~= e.subrange(0, i + 1));
            i = i + 1;
        }
        assert(bytes@ =~= e);
        let mut site = encode_u32(self.site_id);
        let mut counter = encode_u32(self.counter);
        bytes.append(&mut site);
        bytes.append(&mut counter);
        bytes
    }

    /// Reads a Uid from its bytes (see `parse_uid_bytes`): a byte run that
    /// ends before a quantity does fails with `VLQNoTerminatingByte`, a
    /// position that is not a whole number of levels with
    /// `DeserializeSequenceUID`.
    pub fn from_vlq(bytes: &[u8]) -> (r: Result<Uid, Error>)
        ensures
            parsed_as(r, parse_uid_bytes(bytes@)),
    {
        let mut t: usize = 0;
        while t < bytes.len() && bytes[t] >= 128
            invariant
                t <= bytes@.len(),
                forall|k: int| 0 <= k < t ==> bytes@[k] >= 128,
            decreases bytes@.len() - t,
        {
            t = t + 1;
        }
        proof {
            lemma_terminator_skip(bytes@, 0, t as int);
        }
        if t >= bytes.len() {
            return Err(Error::VLQNoTerminatingByte);
        }
        let bits = digit_bits(bytes, t);
        let position = match levels_of_bits(&bits) {
            Some(p) => p,
            None => return Err(Error::DeserializeSequenceUID),
        };
        proof {
            assert(bytes@.subrange(0, t + 1) == bytes@.subrange(0, t as int + 1));
        }
        let (site_id, after_site) = match decode_u32(bytes, t + 1) {
            Ok(x) => x,
            Err(e) => return Err(e),
        };
        let (counter, _) = match decode_u32(bytes, after_site) {
            Ok(x) => x,
            Err(e) => return Err(e),
        };
        Ok(Uid::new(position, site_id, counter))
    }

    /// The Uid's text: its bytes in URL-safe base64 without padding,
    /// which `from_str` reads back.
    pub fn to_string(&self) -> (s: String)
        requires
            self.position@.len() <= max_levels(),
        ensures
            s@ == url_safe_base64(uid_bytes(self)),
            from_url_safe_base64(s@) == Some(uid_bytes(self)),
    {
        let bytes = self.to_vlq();
        proof {
            let bs = position_bits(self.position@);
            lemma_levels_bits_len(self.position@, 0);
            lemma_bit_digits_len(bs);
            lemma_bit_digits(bs);
            crate::vlq::lemma_encoding_len(self.site_id);
            crate::vlq::lemma_encoding_len(self.counter);
        }
        encode_url_safe_no_pad(bytes.as_slice())
    }

    /// Reads a Uid from its text: text that is not URL-safe base64 fails
    /// with `DeserializeSequenceUID`; its bytes are read as `from_vlq`
    /// reads them.
    pub fn from_str(s: &str) -> (r: Result<Uid, Error>)
        requires
            s@.len() <= usize::MAX / 8,
        ensures
            match from_url_safe_base64(s@) {
                None => r == Err::<Uid, Error>(Error::DeserializeSequenceUID),
                Some(b) => parsed_as(r, parse_uid_bytes(b)),
            },
    {
        match decode_url_safe_no_pad(s) {
            Some(bytes) => Uid::from_vlq(bytes.as_slice()),
            None => Err(Error::DeserializeSequenceUID),
        }
    }
}

} // verus!
