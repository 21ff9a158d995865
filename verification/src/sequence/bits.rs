//! Runs of bits, most significant first, and the numbers they spell.

use vstd::arithmetic::div_mod::{lemma_fundamental_div_mod_converse, lemma_mod_breakdown};
use vstd::arithmetic::power2::{lemma_pow2_pos, lemma_pow2_unfold, pow2};
use vstd::prelude::*;

verus! {

/// The number that a run of bits spells, most significant first.
pub open spec fn bits_value(bs: Seq<bool>) -> nat
    decreases bs.len(),
{
    if bs.len() == 0 {
        0
    } else {
        bits_value(bs.drop_last()) * 2 + if bs.last() { 1nat } else { 0nat }
    }
}

/// The lowest `w` bits of `v`, most significant first.
pub open spec fn level_bits(v: nat, w: nat) -> Seq<bool>
    decreases w,
{
    if w == 0 {
        Seq::empty()
    } else {
        level_bits(v / 2, (w - 1) as nat).push(v % 2 == 1)
    }
}

/// `k` zero bits.
pub open spec fn zeros(k: nat) -> Seq<bool> {
    Seq::new(k, |i: int| false)
}

/// The run without its leading zero bits.
pub open spec fn strip(bs: Seq<bool>) -> Seq<bool>
    decreases bs.len(),
{
    if bs.len() == 0 {
        bs
    } else if !bs[0] {
        strip(bs.drop_first())
    } else {
        bs
    }
}

/// The bits of two runs, one after the other, spell the first number
/// shifted past the second.
pub proof fn lemma_bits_value_add(a: Seq<bool>, b: Seq<bool>)
    ensures
        bits_value(a + b) == bits_value(a) * pow2(b.len()) + bits_value(b),
    decreases b.len(),
{
    if b.len() == 0 {
        assert(a + b =~= a);
        vstd::arithmetic::power2::lemma2_to64();
    } else {
        let b1 = b.drop_last();
        assert((a + b).drop_last() =~= a + b1);
        assert((a + b).last() == b.last());
        lemma_bits_value_add(a, b1);
        lemma_pow2_unfold(b.len());
        let x = bits_value(a);
        let p = pow2(b1.len());
        let y = bits_value(b1);
        let l: nat = if b.last() { 1nat } else { 0nat };
        assert((x * p + y) * 2 + l == x * (2 * p) + (y * 2 + l)) by (nonlinear_arith);
    }
}

/// A run of bits spells a number below two to its length.
pub proof fn lemma_bits_value_bound(bs: Seq<bool>)
    ensures
        bits_value(bs) < pow2(bs.len()),
    decreases bs.len(),
{
    if bs.len() == 0 {
        vstd::arithmetic::power2::lemma2_to64();
    } else {
        lemma_bits_value_bound(bs.drop_last());
        lemma_pow2_unfold(bs.len());
    }
}

/// A run that starts with a one spells at least two to its length less
/// one.
pub proof fn lemma_bits_value_lead(bs: Seq<bool>)
    requires
        bs.len() >= 1,
        bs[0],
    ensures
        bits_value(bs) >= pow2((bs.len() - 1) as nat),
{
    let rest = bs.drop_first();
    assert(seq![true] + rest =~= bs);
    lemma_bits_value_add(seq![true], rest);
    let t = seq![true];
    assert(t.drop_last() =~= Seq::<bool>::empty());
    assert(t.last());
    assert(bits_value(t.drop_last()) == 0);
    assert(bits_value(t) == bits_value(t.drop_last()) * 2 + 1);
    assert(bits_value(bs) == bits_value(t) * pow2(rest.len()) + bits_value(rest));
    assert(rest.len() == (bs.len() - 1) as nat);
    assert(bits_value(t) == 1);
    assert(bits_value(t) * pow2(rest.len()) == pow2(rest.len())) by (nonlinear_arith)
        requires
            bits_value(t) == 1,
    ;
}

/// The lowest `w` bits of `v` spell `v` modulo two to `w`.
pub proof fn lemma_level_bits_value(v: nat, w: nat)
    ensures
        level_bits(v, w).len() == w,
        bits_value(level_bits(v, w)) == v % pow2(w),
    decreases w,
{
    if w == 0 {
        vstd::arithmetic::power2::lemma2_to64();
    } else {
        lemma_level_bits_value(v / 2, (w - 1) as nat);
        let bs = level_bits(v, w);
        assert(bs.drop_last() == level_bits(v / 2, (w - 1) as nat));
        lemma_pow2_unfold(w);
        lemma_pow2_pos((w - 1) as nat);
        lemma_mod_breakdown(v as int, 2, pow2((w - 1) as nat) as int);
    }
}

/// The bits of the number a run spells, as many as the run has, are the
/// run.
pub proof fn lemma_level_bits_of_value(c: Seq<bool>)
    ensures
        level_bits(bits_value(c), c.len()) == c,
    decreases c.len(),
{
    if c.len() > 0 {
        let c1 = c.drop_last();
        lemma_level_bits_of_value(c1);
        let v = bits_value(c);
        let l: nat = if c.last() { 1nat } else { 0nat };
        lemma_fundamental_div_mod_converse(v as int, 2, bits_value(c1) as int, l as int);
        assert(level_bits(v, c.len()) =~= c);
    }
}

/// Bits beyond the width of a number are zeros in front of it.
pub proof fn lemma_level_bits_pad(v: nat, w: nat, k: nat)
    requires
        v < pow2(w),
    ensures
        level_bits(v, w + k) == zeros(k) + level_bits(v, w),
    decreases w, k,
{
    if w == 0 {
        vstd::arithmetic::power2::lemma2_to64();
        assert(v == 0);
        if k == 0 {
            assert(level_bits(v, 0) =~= zeros(0) + level_bits(v, 0));
        } else {
            lemma_level_bits_pad(0, 0, (k - 1) as nat);
            assert(level_bits(0, k) =~= zeros(k) + level_bits(0, 0));
        }
    } else {
        lemma_pow2_unfold(w);
        assert(v / 2 < pow2((w - 1) as nat));
        lemma_level_bits_pad(v / 2, (w - 1) as nat, k);
        assert((w + k - 1) as nat == (w - 1) as nat + k);
        assert(level_bits(v, w + k) =~= zeros(k) + level_bits(v, w));
    }
}

/// Stripping leading zeros from zeros in front of a run that starts with
/// a one gives the run.
pub proof fn lemma_strip_zeros(k: nat, bs: Seq<bool>)
    requires
        bs.len() > 0,
        bs[0],
    ensures
        strip(zeros(k) + bs) == bs,
    decreases k,
{
    if k == 0 {
        assert(zeros(0) + bs =~= bs);
    } else {
        assert((zeros(k) + bs).drop_first() =~= zeros((k - 1) as nat) + bs);
        lemma_strip_zeros((k - 1) as nat, bs);
    }
}

} // verus!
