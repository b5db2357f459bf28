//! Portable addition, subtraction and multiplication on limb arrays.
//!
//! Every kernel works on arrays of any length and is specified over the
//! numbers that the arrays denote; none of them knows about bit widths.

use crate::limbs::{
    lemma_value_bound, lemma_value_split, lemma_value_take_step, lemma_value_update,
    lemma_value_zero, lemma_weight_adds, lemma_weight_step, value, weight, RADIX,
};
use vstd::arithmetic::div_mod::lemma_fundamental_div_mod_converse;
use vstd::prelude::*;

verus! {

/// Adds two limb arrays. Returns the low `N` limbs of the sum and whether a
/// carry left the most significant limb.
pub fn add_limbs<const N: usize>(a: &[u64; N], b: &[u64; N]) -> (r: ([u64; N], bool))
    ensures
        value(r.0@) + (if r.1 { weight(N as nat) } else { 0 }) == value(a@) + value(b@),
{
    let mut out = [0u64; N];
    let mut carry: u64 = 0;
    let mut i: usize = 0;
    proof {
        lemma_weight_step(0);
    }
    while i < N
        invariant
            i <= N,
            carry <= 1,
            value(out@.take(i as int)) + carry * weight(i as nat) == value(a@.take(i as int))
                + value(b@.take(i as int)),
        decreases N - i,
    {
        let t: u128 = a[i] as u128 + b[i] as u128 + carry as u128;
        let ghost prev = out@;
        out[i] = (t % RADIX) as u64;
        let next: u64 = (t / RADIX) as u64;
        proof {
            lemma_value_take_step(out@, i as int);
            lemma_value_take_step(a@, i as int);
            lemma_value_take_step(b@, i as int);
            assert(out@.take(i as int) =~= prev.take(i as int));
            lemma_weight_step(i as nat);
            let w = weight(i as nat) as int;
            let x = out@[i as int] as int;
            let n = next as int;
            let s = t as int;
            let c = carry as int;
            let ai = a@[i as int] as int;
            let bi = b@[i as int] as int;
            assert(x * w + n * (w * RADIX) == ai * w + bi * w + c * w) by (nonlinear_arith)
                requires
                    x + n * RADIX == s,
                    s == ai + bi + c,
            ;
        }
        carry = next;
        i += 1;
    }
    proof {
        assert(out@.take(N as int) =~= out@);
        assert(a@.take(N as int) =~= a@);
        assert(b@.take(N as int) =~= b@);
    }
    (out, carry == 1)
}

/// Subtracts `b` from `a`. Returns the low `N` limbs of the difference and
/// whether a borrow left the most significant limb.
pub fn sub_limbs<const N: usize>(a: &[u64; N], b: &[u64; N]) -> (r: ([u64; N], bool))
    ensures
        value(r.0@) + value(b@) == value(a@) + (if r.1 { weight(N as nat) } else { 0 }),
{
    let mut out = [0u64; N];
    let mut borrow: u64 = 0;
    let mut i: usize = 0;
    proof {
        lemma_weight_step(0);
    }
    while i < N
        invariant
            i <= N,
            borrow <= 1,
            value(out@.take(i as int)) + value(b@.take(i as int)) == value(a@.take(i as int))
                + borrow * weight(i as nat),
        decreases N - i,
    {
        let t: u128 = a[i] as u128 + RADIX - b[i] as u128 - borrow as u128;
        let ghost prev = out@;
        out[i] = (t % RADIX) as u64;
        let next: u64 = 1 - (t / RADIX) as u64;
        proof {
            lemma_value_take_step(out@, i as int);
            lemma_value_take_step(a@, i as int);
            lemma_value_take_step(b@, i as int);
            assert(out@.take(i as int) =~= prev.take(i as int));
            lemma_weight_step(i as nat);
            let w = weight(i as nat) as int;
            let x = out@[i as int] as int;
            let n = next as int;
            let c = borrow as int;
            let ai = a@[i as int] as int;
            let bi = b@[i as int] as int;
            assert(x * w + bi * w + c * w == ai * w + n * (w * RADIX)) by (nonlinear_arith)
                requires
                    x + bi + c == ai + n * RADIX,
            ;
        }
        borrow = next;
        i += 1;
    }
    proof {
        assert(out@.take(N as int) =~= out@);
        assert(a@.take(N as int) =~= a@);
        assert(b@.take(N as int) =~= b@);
    }
    (out, borrow == 1)
}

/// Multiplies two limb arrays and keeps the low `N` limbs of the product.
pub fn mul_limbs<const N: usize>(a: &[u64; N], b: &[u64; N]) -> (r: [u64; N])
    ensures
        value(r@) == (value(a@) * value(b@)) % weight(N as nat),
{
    let mut out = [0u64; N];
    // How many multiples of 2^(64 N) have been dropped so far.
    let ghost mut dropped: int = 0;
    let mut i: usize = 0;
    proof {
        lemma_value_zero(out@);
        assert(a@.take(0).len() == 0);
        assert(0 * value(b@) == 0) by (nonlinear_arith);
        assert(0 * weight(N as nat) == 0) by (nonlinear_arith);
    }
    while i < N
        invariant
            i <= N,
            dropped >= 0,
            value(out@) + dropped * weight(N as nat) == value(a@.take(i as int)) * value(b@),
        decreases N - i,
    {
        let ai = a[i];
        let mut carry: u64 = 0;
        let mut j: usize = 0;
        proof {
            assert(b@.take(0).len() == 0);
            assert(0 * weight(i as nat) == 0) by (nonlinear_arith);
            assert(ai * weight(i as nat) * 0 == 0) by (nonlinear_arith);
        }
        while j < N - i
            invariant
                i < N,
                j <= N - i,
                ai == a@[i as int],
                value(out@) + carry * weight((i + j) as nat) + dropped * weight(N as nat) == value(
                    a@.take(i as int),
                ) * value(b@) + ai * weight(i as nat) * value(b@.take(j as int)),
            decreases N - i - j,
        {
            let bj = b[j];
            let old_limb = out[i + j];
            proof {
                assert(ai * bj <= 0xFFFF_FFFF_FFFF_FFFF * 0xFFFF_FFFF_FFFF_FFFF) by (nonlinear_arith)
                    requires
                        0 <= ai <= 0xFFFF_FFFF_FFFF_FFFF,
                        0 <= bj <= 0xFFFF_FFFF_FFFF_FFFF,
                ;
            }
            let t: u128 = ai as u128 * bj as u128 + old_limb as u128 + carry as u128;
            let ghost prev = out@;
            let ghost before = carry as int;
            out[i + j] = (t % RADIX) as u64;
            carry = (t / RADIX) as u64;
            proof {
                lemma_value_update(prev, (i + j) as int, out@[(i + j) as int]);
                lemma_value_take_step(b@, j as int);
                lemma_weight_step((i + j) as nat);
                lemma_weight_adds(i as nat, j as nat);
                let p = weight((i + j) as nat) as int;
                let wi = weight(i as nat) as int;
                let wj = weight(j as nat) as int;
                let x = out@[(i + j) as int] as int;
                let y = old_limb as int;
                let c = carry as int;
                let u = ai as int;
                let v = bj as int;
                let low = value(b@.take(j as int)) as int;
                assert(x * p + c * (p * RADIX) == u * v * p + y * p + before * p)
                    by (nonlinear_arith)
                    requires
                        x + c * RADIX == u * v + y + before,
                ;
                assert(u * wi * (low + v * wj) == u * wi * low + u * v * p) by (nonlinear_arith)
                    requires
                        p == wi * wj,
                ;
            }
            j += 1;
        }
        proof {
            let split = (N - i) as int;
            lemma_value_split(b@, split);
            lemma_value_take_step(a@, i as int);
            lemma_weight_adds(i as nat, split as nat);
            let m = weight(N as nat) as int;
            let wi = weight(i as nat) as int;
            let wr = weight(split as nat) as int;
            let u = ai as int;
            let low = value(b@.take(split)) as int;
            let high = value(b@.skip(split)) as int;
            let whole = value(b@) as int;
            let done = value(a@.take(i as int)) as int;
            let c = carry as int;
            let more = c + u * high;
            let uw = u * wi;
            assert((done + uw) * whole == done * whole + uw * whole) by (nonlinear_arith);
            assert(uw * whole == uw * low + uw * (wr * high)) by (nonlinear_arith)
                requires
                    whole == low + wr * high,
            ;
            assert(uw * (wr * high) == (u * high) * m) by (nonlinear_arith)
                requires
                    uw == u * wi,
                    m == wi * wr,
            ;
            assert((dropped + more) * m == dropped * m + c * m + (u * high) * m)
                by (nonlinear_arith)
                requires
                    more == c + u * high,
            ;
            assert(u * high >= 0) by (nonlinear_arith)
                requires
                    u >= 0,
                    high >= 0,
            ;
            dropped = dropped + more;
        }
        i += 1;
    }
    proof {
        assert(a@.take(N as int) =~= a@);
        lemma_value_bound(out@);
        lemma_fundamental_div_mod_converse(
            (value(a@) * value(b@)) as int,
            weight(N as nat) as int,
            dropped,
            value(out@) as int,
        );
    }
    out
}

} // verus!
