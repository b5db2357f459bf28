//! The mathematical reading of a little-endian sequence of 64-bit limbs,
//! and the facts about it that the limb kernels are proved from.

use vstd::arithmetic::div_mod::{lemma_fundamental_div_mod_converse, lemma_mod_mod};
use vstd::arithmetic::power2::{lemma2_to64, lemma2_to64_rest, lemma_pow2_adds, lemma_pow2_pos, pow2};
use vstd::bits::{lemma_u64_low_bits_mask_is_mod, lemma_u64_pow2_no_overflow, low_bits_mask};
use vstd::prelude::*;

verus! {

/// The radix of the representation: one limb holds a digit below `2^64`.
pub const RADIX: u128 = 0x1_0000_0000_0000_0000;

/// The weight of limb `i`: `2^(64 * i)`.
pub open spec fn weight(i: nat) -> nat {
    pow2(64 * i)
}

/// The natural number that `limbs` denotes, least significant limb first.
pub open spec fn value(limbs: Seq<u64>) -> nat
    decreases limbs.len(),
{
    if limbs.len() == 0 {
        0
    } else {
        value(limbs.drop_last()) + limbs.last() as nat * weight((limbs.len() - 1) as nat)
    }
}

/// How many limbs a value of `bits` bits occupies.
pub open spec fn limbs_for(bits: nat) -> nat {
    if bits % 64 == 0 {
        bits / 64
    } else {
        bits / 64 + 1
    }
}

/// How many bits of the most significant limb belong to a value of `bits` bits.
pub open spec fn top_bits(bits: nat) -> nat {
    if bits % 64 == 0 {
        64
    } else {
        bits % 64
    }
}

/// The largest most significant limb that a value of `bits` bits can have.
pub open spec fn top_mask(bits: nat) -> u64 {
    if bits % 64 == 0 {
        u64::MAX
    } else {
        low_bits_mask(bits % 64) as u64
    }
}

/// Whether every limb of `limbs` is zero.
pub open spec fn all_zero(limbs: Seq<u64>) -> bool {
    forall|i: int| 0 <= i < limbs.len() ==> limbs[i] == 0
}

/// Weights grow by the radix from one limb to the next.
pub proof fn lemma_weight_step(i: nat)
    ensures
        weight(0) == 1,
        weight(i) > 0,
        weight(i + 1) == weight(i) * RADIX,
{
    lemma_pow2_adds(64 * i, 64);
    lemma_pow2_pos(64 * i);
    lemma2_to64();
}

/// The weight of limb `i + j` is the product of the weights of `i` and `j`.
pub proof fn lemma_weight_adds(i: nat, j: nat)
    ensures
        weight(i + j) == weight(i) * weight(j),
        weight(i) > 0,
        weight(j) > 0,
{
    lemma_pow2_adds(64 * i, 64 * j);
    lemma_pow2_pos(64 * i);
    lemma_pow2_pos(64 * j);
}

/// A value of `bits` bits splits into whole limbs below the top one and
/// the bits of the top limb.
pub proof fn lemma_bits_split(bits: nat)
    requires
        bits > 0,
    ensures
        limbs_for(bits) >= 1,
        1 <= top_bits(bits) <= 64,
        bits == 64 * (limbs_for(bits) - 1) + top_bits(bits),
        pow2(bits) == weight((limbs_for(bits) - 1) as nat) * pow2(top_bits(bits)),
        top_mask(bits) == pow2(top_bits(bits)) - 1,
        pow2(top_bits(bits)) <= RADIX,
{
    let n = limbs_for(bits);
    let k = top_bits(bits);
    lemma_pow2_adds((64 * (n - 1)) as nat, k);
    lemma2_to64();
    lemma2_to64_rest();
    if k < 64 {
        vstd::arithmetic::power2::lemma_pow2_strictly_increases(k, 64);
    }
}

/// Taking one more limb adds that limb at its weight.
pub proof fn lemma_value_take_step(s: Seq<u64>, i: int)
    requires
        0 <= i < s.len(),
    ensures
        value(s.take(i + 1)) == value(s.take(i)) + s[i] * weight(i as nat),
{
    let t = s.take(i + 1);
    assert(t.drop_last() =~= s.take(i));
    assert(t.last() == s[i]);
}

/// A sequence of `n` limbs denotes a number below `2^(64 n)`.
pub proof fn lemma_value_bound(s: Seq<u64>)
    ensures
        value(s) < weight(s.len()),
    decreases s.len(),
{
    if s.len() == 0 {
        lemma_weight_step(0);
    } else {
        let n = (s.len() - 1) as nat;
        lemma_value_bound(s.drop_last());
        lemma_weight_step(n);
        let w = weight(n);
        let top = s.last() as nat;
        assert(top * w <= (RADIX - 1) * w) by (nonlinear_arith)
            requires
                top <= RADIX - 1,
                w > 0,
        ;
        assert((RADIX - 1) * w == w * RADIX - w) by (nonlinear_arith);
    }
}

/// A sequence splits at any limb into a low part and a weighted high part.
pub proof fn lemma_value_split(s: Seq<u64>, i: int)
    requires
        0 <= i <= s.len(),
    ensures
        value(s) == value(s.take(i)) + weight(i as nat) * value(s.skip(i)),
    decreases s.len(),
{
    if i == s.len() {
        assert(s.take(i) =~= s);
        assert(s.skip(i).len() == 0);
        assert(weight(i as nat) * value(s.skip(i)) == 0) by (nonlinear_arith)
            requires
                value(s.skip(i)) == 0,
        ;
    } else {
        let n = (s.len() - 1) as nat;
        let low = s.drop_last();
        lemma_value_split(low, i);
        assert(low.take(i) =~= s.take(i));
        assert(s.skip(i).drop_last() =~= low.skip(i));
        assert(s.skip(i).last() == s.last());
        lemma_weight_adds(i as nat, (n - i) as nat);
        let wi = weight(i as nat);
        let wr = weight((n - i) as nat);
        let top = s.last() as nat;
        let rest = value(low.skip(i));
        assert(weight(n) == wi * wr);
        assert(value(s.skip(i)) == rest + top * wr);
        assert(wi * (rest + top * wr) == wi * rest + top * (wi * wr)) by (nonlinear_arith);
    }
}

/// The value of the limbs from `i` upward begins with limb `i`.
pub proof fn lemma_value_skip_step(s: Seq<u64>, i: int)
    requires
        0 <= i < s.len(),
    ensures
        value(s.skip(i)) == s[i] + RADIX * value(s.skip(i + 1)),
{
    let t = s.skip(i);
    lemma_value_split(t, 1);
    lemma_value_take_step(t, 0);
    assert(t.take(0).len() == 0);
    assert(t.skip(1) =~= s.skip(i + 1));
    lemma_weight_step(0);
    let x = t[0] as nat;
    let rest = value(t.skip(1));
    assert(x * weight(0) == x) by (nonlinear_arith)
        requires
            weight(0) == 1,
    ;
    assert(weight(1) * rest == RADIX * rest) by (nonlinear_arith)
        requires
            weight(1) == RADIX,
    ;
}

/// Replacing limb `i` changes the value by the difference at its weight.
pub proof fn lemma_value_update(s: Seq<u64>, i: int, x: u64)
    requires
        0 <= i < s.len(),
    ensures
        value(s.update(i, x)) == value(s) - s[i] * weight(i as nat) + x * weight(i as nat),
    decreases s.len(),
{
    let t = s.update(i, x);
    if i == s.len() - 1 {
        assert(t.drop_last() =~= s.drop_last());
    } else {
        lemma_value_update(s.drop_last(), i, x);
        assert(t.drop_last() =~= s.drop_last().update(i, x));
    }
}

/// Sequences of zero limbs denote zero.
pub proof fn lemma_value_zero(s: Seq<u64>)
    requires
        all_zero(s),
    ensures
        value(s) == 0,
    decreases s.len(),
{
    if s.len() > 0 {
        lemma_value_zero(s.drop_last());
    }
}

/// Sequences whose limbs are all `u64::MAX` denote the largest number of their length.
pub proof fn lemma_value_ones(s: Seq<u64>)
    requires
        forall|i: int| 0 <= i < s.len() ==> s[i] == u64::MAX,
    ensures
        value(s) == weight(s.len()) - 1,
    decreases s.len(),
{
    if s.len() == 0 {
        lemma_weight_step(0);
    } else {
        let n = (s.len() - 1) as nat;
        lemma_value_ones(s.drop_last());
        lemma_weight_step(n);
        let w = weight(n);
        assert((RADIX - 1) * w == w * RADIX - w) by (nonlinear_arith);
    }
}

/// If two sequences of one length agree above limb `i` and differ at it,
/// the one with the smaller limb `i` denotes the smaller number.
pub proof fn lemma_value_ordered_by_top_difference(a: Seq<u64>, b: Seq<u64>, i: int)
    requires
        a.len() == b.len(),
        0 <= i < a.len(),
        a[i] < b[i],
        forall|j: int| i < j < a.len() ==> a[j] == b[j],
    ensures
        value(a) < value(b),
    decreases a.len(),
{
    let n = (a.len() - 1) as nat;
    if i == n {
        lemma_value_bound(a.drop_last());
        lemma_weight_step(n);
        let w = weight(n);
        let x = a[i] as nat;
        let y = b[i] as nat;
        assert(x * w + w <= y * w) by (nonlinear_arith)
            requires
                x + 1 <= y,
        ;
    } else {
        lemma_value_ordered_by_top_difference(a.drop_last(), b.drop_last(), i);
    }
}

/// Two sequences of one length that denote the same number are the same sequence.
pub proof fn lemma_value_injective(a: Seq<u64>, b: Seq<u64>)
    requires
        a.len() == b.len(),
        value(a) == value(b),
    ensures
        a == b,
    decreases a.len(),
{
    if a.len() > 0 {
        let n = (a.len() - 1) as nat;
        if a.last() < b.last() {
            lemma_value_ordered_by_top_difference(a, b, n as int);
        } else if b.last() < a.last() {
            lemma_value_ordered_by_top_difference(b, a, n as int);
        }
        lemma_value_injective(a.drop_last(), b.drop_last());
        assert(a =~= a.drop_last().push(a.last()));
        assert(b =~= b.drop_last().push(b.last()));
    } else {
        assert(a =~= b);
    }
}

/// A sequence of the right length denotes a number of `bits` bits exactly
/// when its most significant limb is within the top mask.
pub proof fn lemma_fits_iff_top_masked(s: Seq<u64>, bits: nat)
    requires
        bits > 0,
        s.len() == limbs_for(bits),
    ensures
        value(s) < pow2(bits) <==> s.last() <= top_mask(bits),
{
    lemma_bits_split(bits);
    let n = (s.len() - 1) as nat;
    let w = weight(n);
    let k = pow2(top_bits(bits));
    let top = s.last() as nat;
    lemma_value_bound(s.drop_last());
    lemma_weight_step(n);
    if top <= k - 1 {
        assert(top * w + w <= k * w) by (nonlinear_arith)
            requires
                top + 1 <= k,
        ;
    } else {
        assert(k * w <= top * w) by (nonlinear_arith)
            requires
                k <= top,
        ;
    }
    assert(w * k == k * w) by (nonlinear_arith);
}

/// Masking the most significant limb reduces the value modulo `2^bits`.
pub proof fn lemma_mask_top_is_mod(s: Seq<u64>, bits: nat)
    requires
        bits > 0,
        s.len() == limbs_for(bits),
    ensures
        value(s.update(s.len() - 1, s.last() & top_mask(bits))) == value(s) % pow2(bits),
{
    lemma_bits_split(bits);
    let n = (s.len() - 1) as nat;
    let w = weight(n);
    let tb = top_bits(bits);
    let k = pow2(tb);
    let top = s.last();
    let kept = top & top_mask(bits);
    lemma_weight_step(n);
    lemma_value_bound(s.drop_last());
    lemma_value_update(s, n as int, kept);
    lemma2_to64();
    lemma2_to64_rest();
    assert(kept == top as nat % k) by {
        if tb < 64 {
            lemma_u64_low_bits_mask_is_mod(top, tb);
            lemma_u64_pow2_no_overflow(tb);
            assert(tb == bits % 64);
            assert(top_mask(bits) == low_bits_mask(tb) as u64);
            assert(kept == top % (pow2(tb) as u64));
            assert(pow2(tb) as u64 == k);
        } else {
            assert(top & u64::MAX == top) by (bit_vector);
            assert(top_mask(bits) == u64::MAX);
            assert(kept == top);
            assert(k == RADIX);
        }
    }
    let q = top as nat / k;
    let low = value(s.drop_last());
    let r = low + kept * w;
    assert(top as nat == k * q + kept) by {
        vstd::arithmetic::div_mod::lemma_fundamental_div_mod(top as int, k as int);
    }
    assert(value(s) == q * (w * k) + r) by (nonlinear_arith)
        requires
            value(s) == low + top * w,
            top == k * q + kept,
            r == low + kept * w,
    ;
    assert(r < w * k) by (nonlinear_arith)
        requires
            r == low + kept * w,
            low < w,
            kept + 1 <= k,
    ;
    lemma_fundamental_div_mod_converse(value(s) as int, (w * k) as int, q as int, r as int);
}

/// A number below the radix occupies the least significant limb alone.
pub proof fn lemma_value_below_radix(s: Seq<u64>)
    requires
        s.len() > 0,
    ensures
        value(s) < RADIX ==> value(s) == s[0],
        all_zero(s.skip(1)) ==> value(s) == s[0],
{
    lemma_value_skip_step(s, 0);
    assert(s.skip(0) =~= s);
    if all_zero(s.skip(1)) {
        lemma_value_zero(s.skip(1));
    }
}

/// The limbs of the largest number of `bits` bits: all ones, and the top
/// mask in the most significant limb.
pub open spec fn ones(bits: nat) -> Seq<u64> {
    Seq::new(
        limbs_for(bits),
        |i: int|
            if i == limbs_for(bits) - 1 {
                top_mask(bits)
            } else {
                u64::MAX
            },
    )
}

/// The all-ones limbs denote `2^bits - 1`.
pub proof fn lemma_value_of_ones(bits: nat)
    ensures
        value(ones(bits)) == pow2(bits) - 1,
{
    lemma2_to64();
    if bits == 0 {
        assert(ones(bits).len() == 0);
    } else {
        lemma_bits_split(bits);
        let s = ones(bits);
        let n = (s.len() - 1) as nat;
        lemma_value_ones(s.drop_last());
        lemma_weight_step(n);
        let w = weight(n) as int;
        let k = pow2(top_bits(bits)) as int;
        assert(w - 1 + (k - 1) * w == w * k - 1) by (nonlinear_arith);
    }
}

/// Reducing modulo `2^(64 n)` first does not change a reduction modulo
/// `2^bits` when the `bits` bits fit in `n` limbs.
pub proof fn lemma_reduce_twice(x: int, bits: nat, n: nat)
    requires
        bits <= 64 * n,
    ensures
        (x % (weight(n) as int)) % (pow2(bits) as int) == x % (pow2(bits) as int),
{
    let rest = (64 * n - bits) as nat;
    lemma_pow2_adds(bits, rest);
    lemma_pow2_pos(bits);
    lemma_pow2_pos(rest);
    lemma_mod_mod(x, pow2(bits) as int, pow2(rest) as int);
}

/// The most significant of `bits` bits is set exactly when the top limb
/// reaches half the range of its share of the bits.
pub proof fn lemma_sign_iff_top_high(s: Seq<u64>, bits: nat)
    requires
        bits > 0,
        s.len() == limbs_for(bits),
    ensures
        value(s) >= pow2((bits - 1) as nat) <==> s.last() >= pow2((top_bits(bits) - 1) as nat),
{
    lemma_bits_split(bits);
    let n = (s.len() - 1) as nat;
    let w = weight(n);
    let half = pow2((top_bits(bits) - 1) as nat);
    let top = s.last() as nat;
    lemma_value_bound(s.drop_last());
    lemma_weight_step(n);
    lemma_pow2_adds(64 * n, (top_bits(bits) - 1) as nat);
    assert(pow2((bits - 1) as nat) == w * half);
    if top >= half {
        assert(w * half <= top * w) by (nonlinear_arith)
            requires
                half <= top,
        ;
    } else {
        assert(top * w + w <= w * half) by (nonlinear_arith)
            requires
                top + 1 <= half,
        ;
    }
}

} // verus!
