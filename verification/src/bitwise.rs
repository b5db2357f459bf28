//! Portable bitwise operations on limb arrays.

use crate::model::{and_seq, or_seq, xor_seq};
use vstd::arithmetic::power2::{lemma2_to64, pow2};
use vstd::bits::lemma_u64_shr_is_div;
use vstd::prelude::*;

verus! {

/// The exclusive or of two limb arrays, limb by limb.
pub fn xor_limbs<const N: usize>(a: &[u64; N], b: &[u64; N]) -> (r: [u64; N])
    ensures
        r@ == xor_seq(a@, b@),
{
    let mut out = [0u64; N];
    let mut i: usize = 0;
    while i < N
        invariant
            i <= N,
            forall|j: int| 0 <= j < i ==> out@[j] == a@[j] ^ b@[j],
        decreases N - i,
    {
        out[i] = a[i] ^ b[i];
        i += 1;
    }
    assert(out@ =~= xor_seq(a@, b@));
    out
}

/// The conjunction of two limb arrays, limb by limb.
pub fn and_limbs<const N: usize>(a: &[u64; N], b: &[u64; N]) -> (r: [u64; N])
    ensures
        r@ == and_seq(a@, b@),
{
    let mut out = [0u64; N];
    let mut i: usize = 0;
    while i < N
        invariant
            i <= N,
            forall|j: int| 0 <= j < i ==> out@[j] == a@[j] & b@[j],
        decreases N - i,
    {
        out[i] = a[i] & b[i];
        i += 1;
    }
    assert(out@ =~= and_seq(a@, b@));
    out
}

/// The disjunction of two limb arrays, limb by limb.
pub fn or_limbs<const N: usize>(a: &[u64; N], b: &[u64; N]) -> (r: [u64; N])
    ensures
        r@ == or_seq(a@, b@),
{
    let mut out = [0u64; N];
    let mut i: usize = 0;
    while i < N
        invariant
            i <= N,
            forall|j: int| 0 <= j < i ==> out@[j] == a@[j] | b@[j],
        decreases N - i,
    {
        out[i] = a[i] | b[i];
        i += 1;
    }
    assert(out@ =~= or_seq(a@, b@));
    out
}

/// Bitwise operations on two limbs below `2^k` stay below `2^k`.
pub proof fn lemma_bitwise_keeps_width(x: u64, y: u64, k: nat)
    requires
        k <= 64,
        x < pow2(k),
        y < pow2(k),
    ensures
        (x ^ y) < pow2(k),
        (x & y) < pow2(k),
        (x | y) < pow2(k),
{
    lemma2_to64();
    if k < 64 {
        let s = k as u64;
        lemma_u64_shr_is_div(x, s);
        lemma_u64_shr_is_div(y, s);
        lemma_u64_shr_is_div(x ^ y, s);
        lemma_u64_shr_is_div(x & y, s);
        lemma_u64_shr_is_div(x | y, s);
        let p = pow2(k) as int;
        vstd::arithmetic::power2::lemma_pow2_pos(k);
        vstd::arithmetic::div_mod::lemma_basic_div(x as int, p);
        vstd::arithmetic::div_mod::lemma_basic_div(y as int, p);
        assert((x ^ y) >> s == 0 && (x & y) >> s == 0 && (x | y) >> s == 0) by (bit_vector)
            requires
                s < 64,
                x >> s == 0,
                y >> s == 0,
        ;
        if (x ^ y) >= p {
            vstd::arithmetic::div_mod::lemma_div_non_zero((x ^ y) as int, p);
        }
        if (x & y) >= p {
            vstd::arithmetic::div_mod::lemma_div_non_zero((x & y) as int, p);
        }
        if (x | y) >= p {
            vstd::arithmetic::div_mod::lemma_div_non_zero((x | y) as int, p);
        }
    }
}

} // verus!
