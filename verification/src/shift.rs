//! Portable logical shifts on limb arrays.
//!
//! A shift by `n` bits is a multiplication or a division by `2^n`; the
//! kernels are specified that way and accept every shift amount.

use crate::limbs::{
    all_zero, lemma_value_bound, lemma_value_skip_step, lemma_value_split, lemma_value_take_step,
    lemma_value_update, lemma_value_zero, lemma_weight_adds, lemma_weight_step, value, weight,
    RADIX,
};
use vstd::arithmetic::div_mod::{
    lemma_basic_div, lemma_div_denominator, lemma_fundamental_div_mod_converse,
    lemma_mod_multiples_vanish,
};
use vstd::arithmetic::power2::{
    lemma2_to64, lemma_pow2_adds, lemma_pow2_pos, lemma_pow2_strictly_increases, pow2,
};
use vstd::bits::{
    lemma_u128_shr_is_div, lemma_u64_low_bits_mask_is_mod, lemma_u64_pow2_no_overflow,
    lemma_u64_shl_is_mul,
};
use vstd::prelude::*;

verus! {

/// `2^bits` as a limb, for a bit count below 64.
pub(crate) fn limb_pow2(bits: usize) -> (r: u64)
    requires
        bits < 64,
    ensures
        r == pow2(bits as nat),
        0 < r,
{
    proof {
        lemma_u64_pow2_no_overflow(bits as nat);
        lemma_u64_shl_is_mul(1u64, bits as u64);
    }
    1u64 << (bits as u64)
}

/// Shifts a limb array left by `shift` bits and keeps the low `N` limbs.
pub fn shl_limbs<const N: usize>(a: &[u64; N], shift: usize) -> (r: [u64; N])
    ensures
        value(r@) == (value(a@) * pow2(shift as nat)) % weight(N as nat),
{
    let mut out = [0u64; N];
    let skip = shift / 64;
    proof {
        lemma_value_zero(out@);
    }
    if skip >= N {
        proof {
            let extra = (shift - 64 * N) as nat;
            lemma_pow2_adds(64 * (N as nat), extra);
            let m = weight(N as nat) as int;
            let e = pow2(extra) as int;
            let v = value(a@) as int;
            lemma_weight_step(N as nat);
            assert(v * (m * e) == (v * e) * m + 0) by (nonlinear_arith);
            lemma_fundamental_div_mod_converse(v * (m * e), m, v * e, 0);
        }
        return out;
    }
    let factor = limb_pow2(shift % 64);
    let mut carry: u64 = 0;
    let mut i: usize = 0;
    proof {
        assert(a@.take(0).len() == 0);
        assert(0 * weight(skip as nat) == 0) by (nonlinear_arith);
        assert(0 * factor * weight(skip as nat) == 0) by (nonlinear_arith);
    }
    while i < N - skip
        invariant
            skip < N,
            i <= N - skip,
            forall|j: int| i + skip <= j < N ==> out@[j] == 0,
            value(out@) + carry * weight((i + skip) as nat) == value(a@.take(i as int)) * factor
                * weight(skip as nat),
        decreases N - skip - i,
    {
        proof {
            assert(a[i as int] * factor <= 0xFFFF_FFFF_FFFF_FFFF * 0xFFFF_FFFF_FFFF_FFFF)
                by (nonlinear_arith)
                requires
                    0 <= a[i as int] <= 0xFFFF_FFFF_FFFF_FFFF,
                    0 <= factor <= 0xFFFF_FFFF_FFFF_FFFF,
            ;
        }
        let t: u128 = a[i] as u128 * factor as u128 + carry as u128;
        let ghost prev = out@;
        let ghost before = carry as int;
        out[i + skip] = (t % RADIX) as u64;
        carry = (t / RADIX) as u64;
        proof {
            lemma_value_update(prev, (i + skip) as int, out@[(i + skip) as int]);
            lemma_value_take_step(a@, i as int);
            lemma_weight_step((i + skip) as nat);
            lemma_weight_adds(i as nat, skip as nat);
            let p = weight((i + skip) as nat) as int;
            let wi = weight(i as nat) as int;
            let ws = weight(skip as nat) as int;
            let x = out@[(i + skip) as int] as int;
            let c = carry as int;
            let u = a@[i as int] as int;
            let f = factor as int;
            let done = value(a@.take(i as int)) as int;
            assert(prev[(i + skip) as int] == 0);
            assert(0 * p == 0) by (nonlinear_arith);
            assert(x * p + c * (p * RADIX) == u * f * p + before * p) by (nonlinear_arith)
                requires
                    x + c * RADIX == u * f + before,
            ;
            assert((done + u * wi) * f * ws == done * f * ws + u * f * p) by (nonlinear_arith)
                requires
                    p == wi * ws,
            ;
        }
        i += 1;
    }
    proof {
        let keep = (N - skip) as int;
        lemma_value_split(a@, keep);
        lemma_weight_adds(keep as nat, skip as nat);
        lemma_pow2_adds(64 * (skip as nat), (shift % 64) as nat);
        lemma_value_bound(out@);
        let m = weight(N as nat) as int;
        let wk = weight(keep as nat) as int;
        let ws = weight(skip as nat) as int;
        let f = factor as int;
        let low = value(a@.take(keep)) as int;
        let high = value(a@.skip(keep)) as int;
        let v = value(a@) as int;
        let c = carry as int;
        let q = c + high * f;
        assert(pow2(shift as nat) == ws * f);
        assert(v * (ws * f) == low * f * ws + (high * f) * m) by (nonlinear_arith)
            requires
                v == low + wk * high,
                m == wk * ws,
        ;
        assert(q * m == c * m + (high * f) * m) by (nonlinear_arith)
            requires
                q == c + high * f,
        ;
        lemma_fundamental_div_mod_converse(v * (ws * f), m, q, value(out@) as int);
    }
    out
}

/// Shifts a limb array right by `shift` bits, filling with zeros from the top.
pub fn shr_limbs<const N: usize>(a: &[u64; N], shift: usize) -> (r: [u64; N])
    ensures
        value(r@) == value(a@) / pow2(shift as nat),
{
    let mut out = [0u64; N];
    let skip = shift / 64;
    proof {
        lemma_value_zero(out@);
        lemma_value_bound(a@);
    }
    if skip >= N {
        proof {
            if 64 * N < shift {
                lemma_pow2_strictly_increases(64 * (N as nat), shift as nat);
            }
            lemma_basic_div(value(a@) as int, pow2(shift as nat) as int);
        }
        return out;
    }
    let bits = shift % 64;
    let factor = limb_pow2(bits);
    let mask = factor - 1;
    let mut rem: u64 = 0;
    let mut i: usize = N - skip;
    proof {
        assert(a@.skip(N as int).len() == 0);
        assert(all_zero(out@.skip(i as int)));
        lemma_value_zero(out@.skip(i as int));
        assert(0 * factor == 0) by (nonlinear_arith);
    }
    while i > 0
        invariant
            skip < N,
            i <= N - skip,
            bits < 64,
            factor == pow2(bits as nat),
            mask == factor - 1,
            rem < factor,
            value(a@.skip(i + skip)) == value(out@.skip(i as int)) * factor + rem,
        decreases i,
    {
        i -= 1;
        let limb = a[i + skip];
        let t: u128 = rem as u128 * RADIX + limb as u128;
        proof {
            let f = factor as int;
            let r = rem as int;
            lemma_u128_shr_is_div(t, bits as u128);
            lemma_pow2_adds(bits as nat, (64 - bits) as nat);
            lemma_pow2_pos((64 - bits) as nat);
            lemma2_to64();
            let g = pow2((64 - bits) as nat) as int;
            assert(t < f * RADIX) by (nonlinear_arith)
                requires
                    t == r * RADIX + limb,
                    r + 1 <= f,
                    limb < RADIX,
            ;
            vstd::arithmetic::div_mod::lemma_div_by_multiple_is_strongly_ordered(
                t as int,
                f * RADIX,
                RADIX as int,
                f,
            );
            vstd::arithmetic::div_mod::lemma_div_multiples_vanish(RADIX as int, f);
            lemma_u64_low_bits_mask_is_mod(limb, bits as nat);
            assert(t == f * (r * g) + limb) by (nonlinear_arith)
                requires
                    t == r * RADIX + limb,
                    RADIX == f * g,
            ;
            lemma_mod_multiples_vanish(r * g, limb as int, f);
            vstd::arithmetic::div_mod::lemma_fundamental_div_mod(t as int, f);
        }
        let ghost prev = out@;
        let ghost above = value(out@.skip(i + 1)) as int;
        let ghost before = rem as int;
        out[i] = (t >> (bits as u128)) as u64;
        rem = limb & mask;
        proof {
            lemma_value_skip_step(a@, (i + skip) as int);
            lemma_value_skip_step(out@, i as int);
            assert(out@.skip(i + 1) =~= prev.skip(i + 1));
            let f = factor as int;
            let x = out@[i as int] as int;
            let r = rem as int;
            assert((x + RADIX * above) * f + r == limb + RADIX * (above * f + before))
                by (nonlinear_arith)
                requires
                    before * RADIX + limb == f * x + r,
            ;
        }
    }
    proof {
        let f = factor as int;
        let v = value(a@) as int;
        let ws = weight(skip as nat) as int;
        let high = value(a@.skip(skip as int)) as int;
        let low = value(a@.take(skip as int)) as int;
        assert(out@.skip(0) =~= out@);
        lemma_fundamental_div_mod_converse(high, f, value(out@) as int, rem as int);
        lemma_value_split(a@, skip as int);
        lemma_value_bound(a@.take(skip as int));
        lemma_weight_step(skip as nat);
        assert(v == high * ws + low) by (nonlinear_arith)
            requires
                v == low + ws * high,
        ;
        lemma_fundamental_div_mod_converse(v, ws, high, low);
        lemma_div_denominator(v, ws, f);
        lemma_pow2_adds(64 * (skip as nat), bits as nat);
    }
    out
}

} // verus!
