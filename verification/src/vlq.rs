//! Variable-length quantities: an unsigned integer written as base-128
//! digits, most significant first, every byte but the last carrying
//! the continuation bit (0x80).

use crate::error::Error;
use vstd::prelude::*;

verus! {

/// The base-128 digits of `n`, most significant first (at least one).
pub open spec fn digits(n: nat) -> Seq<u8>
    decreases n,
{
    if n < 128 {
        seq![n as u8]
    } else {
        digits(n / 128).push((n % 128) as u8)
    }
}

/// The bytes that encode `n`: its digits, with the continuation bit on
/// every digit but the last.
pub open spec fn encoding(n: nat) -> Seq<u8> {
    let d = digits(n);
    Seq::new(d.len(), |i: int| if i < d.len() - 1 { (d[i] + 128) as u8 } else { d[i] })
}

/// The value of a run of 7-bit digits (continuation bits ignored), kept
/// to 32 bits as a `u32` shift-and-or accumulator keeps it.
pub open spec fn digits_value(ds: Seq<u8>) -> nat
    decreases ds.len(),
{
    if ds.len() == 0 {
        0
    } else {
        ((digits_value(ds.drop_last()) * 128 + (ds.last() % 128) as nat) % 0x1_0000_0000) as nat
    }
}

/// The index of the first byte of `bytes` at or after `from` without
/// the continuation bit, if there is one.
pub open spec fn terminator(bytes: Seq<u8>, from: int) -> Option<int>
    decreases bytes.len() - from,
{
    if from < 0 || from >= bytes.len() {
        None
    } else if bytes[from] < 128 {
        Some(from)
    } else {
        terminator(bytes, from + 1)
    }
}

/// What decoding one quantity that starts at `from` gives: its value and
/// the index just past it, or an error when no byte ends it.
pub open spec fn decoded(bytes: Seq<u8>, from: int) -> Result<(u32, usize), Error> {
    match terminator(bytes, from) {
        Some(t) => Ok((digits_value(bytes.subrange(from, t + 1)) as u32, (t + 1) as usize)),
        None => Err(Error::VLQNoTerminatingByte),
    }
}

/// `128` raised to the power `k`.
pub open spec fn pow128(k: nat) -> nat
    decreases k,
{
    if k == 0 { 1 } else { 128 * pow128((k - 1) as nat) }
}

proof fn lemma_digits_len(n: nat, k: nat)
    requires
        k >= 1,
        n < pow128(k),
    ensures
        digits(n).len() <= k,
    decreases k,
{
    if n >= 128 {
        assert(k >= 2) by {
            if k == 1 {
                assert(pow128(1) == 128 * pow128(0));
            }
        }
        assert(pow128(k) == 128 * pow128((k - 1) as nat));
        lemma_digits_len(n / 128, (k - 1) as nat);
    }
}

/// A `u32` takes at most five bytes.
pub proof fn lemma_encoding_len(n: u32)
    ensures
        1 <= encoding(n as nat).len() <= 5,
{
    assert(pow128(0) == 1);
    assert(pow128(1) == 128);
    assert(pow128(2) == 16384);
    assert(pow128(3) == 2097152);
    assert(pow128(4) == 268435456);
    assert(pow128(5) == 34359738368);
    lemma_digits_len(n as nat, 5);
    lemma_digits_small(n as nat);
}

/// The digits of a number are below 128, and there is at least one.
pub proof fn lemma_digits_small(n: nat)
    ensures
        digits(n).len() >= 1,
        forall|i: int| 0 <= i < digits(n).len() ==> #[trigger] digits(n)[i] < 128,
    decreases n,
{
    if n >= 128 {
        lemma_digits_small(n / 128);
    }
}

/// Encodes `value` as a variable-length quantity.
pub fn encode_u32(value: u32) -> (bytes: Vec<u8>)
    ensures
        bytes@ == encoding(value as nat),
{
    // collect the digits, least significant first
    let mut rev: Vec<u8> = Vec::new();
    let mut m: u32 = value;
    loop
        invariant_except_break
            digits(value as nat) == digits(m as nat) + rev@.reverse(),
        invariant
            forall|k: int| 0 <= k < rev.len() ==> #[trigger] rev[k] < 128,
        ensures
            digits(value as nat) == rev@.reverse(),
            forall|k: int| 0 <= k < rev.len() ==> #[trigger] rev[k] < 128,
        decreases m,
    {
        let d = (m % 128) as u8;
        let ghost before = rev@;
        rev.push(d);
        assert(rev@.reverse() =~= seq![d] + before.reverse());
        if m < 128 {
            break;
        }
        assert(digits(m as nat) == digits((m / 128) as nat).push(d));
        assert(digits((m / 128) as nat).push(d) + before.reverse() =~= digits((m / 128) as nat) + rev@.reverse());
        m = m / 128;
    }
    let mut bytes: Vec<u8> = Vec::new();
    let n = rev.len();
    let ghost ds = digits(value as nat);
    let mut i = n;
    while i > 0
        invariant
            i <= n,
            n == rev.len(),
            ds == rev@.reverse(),
            ds.len() == n,
            forall|k: int| 0 <= k < rev.len() ==> #[trigger] rev[k] < 128,
            bytes.len() == n - i,
            forall|j: int| 0 <= j < bytes.len() ==> #[trigger] bytes[j] == (if j < n - 1 { (ds[j] + 128) as u8 } else { ds[j] }),
        decreases i,
    {
        i = i - 1;
        let d = rev[i];
        assert(ds[n - 1 - i] == d);
        if i > 0 {
            bytes.push(d + 128);
        } else {
            bytes.push(d);
        }
    }
    assert(bytes@ =~= encoding(value as nat));
    bytes
}

/// Decodes the quantity that starts at index `start` of `bytes`, returning
/// its value and the index just past its last byte.
pub fn decode_u32(bytes: &[u8], start: usize) -> (r: Result<(u32, usize), Error>)
    ensures
        r == decoded(bytes@, start as int),
{
    if start >= bytes.len() {
        return Err(Error::VLQNoTerminatingByte);
    }
    let mut value: u32 = 0;
    let mut i = start;
    assert(bytes@.subrange(start as int, start as int) =~= Seq::<u8>::empty());
    while i < bytes.len()
        invariant
            start <= i <= bytes.len(),
            forall|j: int| start <= j < i ==> bytes@[j] >= 128,
            terminator(bytes@, start as int) == terminator(bytes@, i as int),
            value as nat == digits_value(bytes@.subrange(start as int, i as int)),
        decreases bytes.len() - i,
    {
        let b = bytes[i];
        let ghost prefix = bytes@.subrange(start as int, i as int);
        let ghost next = bytes@.subrange(start as int, i + 1);
        assert(next.drop_last() =~= prefix);
        value = (((value as u64) * 128 + ((b % 128) as u64)) % 0x1_0000_0000) as u32;
        if b < 128 {
            return Ok((value, i + 1));
        }
        proof {
            lemma_terminator_skip(bytes@, start as int, i + 1);
        }
        i = i + 1;
    }
    Err(Error::VLQNoTerminatingByte)
}

/// Skipping bytes that carry the continuation bit does not change where
/// the quantity ends.
pub proof fn lemma_terminator_skip(bytes: Seq<u8>, from: int, to: int)
    requires
        0 <= from <= to,
        forall|j: int| from <= j < to && j < bytes.len() ==> bytes[j] >= 128,
    ensures
        terminator(bytes, from) == terminator(bytes, to),
    decreases to - from,
{
    if from < to {
        lemma_terminator_skip(bytes, from + 1, to);
    }
}

proof fn lemma_digits_value_low_bits(a: Seq<u8>, b: Seq<u8>)
    requires
        a.len() == b.len(),
        forall|j: int| 0 <= j < a.len() ==> a[j] % 128 == b[j] % 128,
    ensures
        digits_value(a) == digits_value(b),
    decreases a.len(),
{
    if a.len() > 0 {
        lemma_digits_value_low_bits(a.drop_last(), b.drop_last());
    }
}

proof fn lemma_digits_value_of_digits(n: nat)
    requires
        n < 0x1_0000_0000,
    ensures
        digits_value(digits(n)) == n,
    decreases n,
{
    if n >= 128 {
        lemma_digits_value_of_digits(n / 128);
        let ds = digits(n);
        assert(ds.drop_last() == digits(n / 128));
        assert(ds.last() == (n % 128) as u8);
        assert((ds.last() % 128) as nat == n % 128);
        assert((n / 128) * 128 + n % 128 == n);
        assert(digits_value(ds) == ((digits_value(ds.drop_last()) * 128 + (ds.last() % 128) as nat) % 0x1_0000_0000) as nat);
    } else {
        let ds = digits(n);
        assert(ds.drop_last() =~= Seq::<u8>::empty());
        assert(ds.last() == n as u8);
        assert(digits_value(ds) == ((digits_value(ds.drop_last()) * 128 + (ds.last() % 128) as nat) % 0x1_0000_0000) as nat);
    }
}

/// Decoding gives back what encoding wrote, wherever the quantity stands
/// in a longer run of bytes.
pub proof fn lemma_decode_encoding(prefix: Seq<u8>, n: u32, rest: Seq<u8>)
    ensures
        decoded(prefix + encoding(n as nat) + rest, prefix.len() as int)
            == Ok::<(u32, usize), Error>((n, (prefix.len() + encoding(n as nat).len()) as usize)),
{
    let e = encoding(n as nat);
    let ds = digits(n as nat);
    lemma_digits_small(n as nat);
    let bytes = prefix + e + rest;
    let p = prefix.len() as int;
    let l = e.len() as int;
    assert forall|j: int| p <= j < p + l - 1 && j < bytes.len() implies bytes[j] >= 128 by {
        assert(bytes[j] == e[j - p]);
    }
    lemma_terminator_skip(bytes, p, p + l - 1);
    assert(bytes[p + l - 1] == e[l - 1]);
    assert(terminator(bytes, p + l - 1) == Some(p + l - 1));
    assert(bytes.subrange(p, p + l) =~= e);
    assert forall|j: int| 0 <= j < e.len() implies e[j] % 128 == ds[j] % 128 by {
        if j < l - 1 {
            assert(ds[j] < 128);
        }
    }
    lemma_digits_value_low_bits(e, ds);
    lemma_digits_value_of_digits(n as nat);
}

} // verus!
