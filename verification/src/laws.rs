//! Laws of the operations, proved once from the model and therefore true
//! of every path that meets it.

use crate::limbs::{
    all_zero, lemma_bits_split, lemma_fits_iff_top_masked, lemma_value_injective,
    lemma_value_of_ones, lemma_value_zero, ones, top_bits, value,
};
use crate::model::{
    and_seq, lemma_signed_shift_with_sign, lemma_signed_shift_without_sign, or_seq, ordering_of,
    shifted_left, shifted_right, shifted_right_signed, sign_bit, wrapping_difference,
    wrapping_product, wrapping_sum, xor_seq,
};
use crate::uint::Uint;
use core::cmp::Ordering;
use vstd::arithmetic::div_mod::{
    lemma_basic_div, lemma_fundamental_div_mod_converse, lemma_mod_self_0, lemma_small_mod,
};
use vstd::arithmetic::power2::{lemma2_to64, lemma_pow2_adds, lemma_pow2_pos, pow2};
use vstd::bits::{lemma_u64_low_bits_mask_is_mod, lemma_u64_pow2_no_overflow};
use vstd::prelude::*;

verus! {

/// Two results that denote the same number are the same integer, limb
/// for limb. Every path is held to the number that the model gives, so
/// the accelerated and the portable path agree bit for bit.
pub proof fn law_paths_agree<const BITS: usize, const LIMBS: usize>(
    accelerated: Uint<BITS, LIMBS>,
    portable: Uint<BITS, LIMBS>,
)
    requires
        accelerated@ == portable@,
    ensures
        accelerated == portable,
        accelerated.limbs_view() == portable.limbs_view(),
{
    accelerated.lemma_same_value(portable);
}

/// Two integers have the same limbs exactly when comparing them reports
/// equality.
pub proof fn law_eq_agrees_with_cmp<const BITS: usize, const LIMBS: usize>(
    a: Uint<BITS, LIMBS>,
    b: Uint<BITS, LIMBS>,
)
    ensures
        a.limbs_view() == b.limbs_view() <==> ordering_of(a@, b@) == Ordering::Equal,
        a == b <==> ordering_of(a@, b@) == Ordering::Equal,
{
    a.lemma_limbs_len();
    b.lemma_limbs_len();
    if a@ == b@ {
        lemma_value_injective(a.limbs_view(), b.limbs_view());
        a.lemma_same_limbs(b);
    }
}

/// Every integer compares equal to itself.
pub proof fn law_cmp_reflexive<const BITS: usize, const LIMBS: usize>(a: Uint<BITS, LIMBS>)
    ensures
        ordering_of(a@, a@) == Ordering::Equal,
{
}

/// Swapping the operands of a comparison reverses its result, and only
/// the same integer compares equal.
pub proof fn law_cmp_antisymmetric<const BITS: usize, const LIMBS: usize>(
    a: Uint<BITS, LIMBS>,
    b: Uint<BITS, LIMBS>,
)
    ensures
        ordering_of(a@, b@) == Ordering::Less <==> ordering_of(b@, a@) == Ordering::Greater,
        ordering_of(a@, b@) == Ordering::Equal <==> ordering_of(b@, a@) == Ordering::Equal,
        ordering_of(a@, b@) == Ordering::Equal ==> a == b,
{
    if a@ == b@ {
        a.lemma_same_value(b);
    }
}

/// Comparison is transitive: what is below or equal to something below
/// or equal to a third is below or equal to the third, strictly so as
/// soon as one of the steps is strict.
pub proof fn law_cmp_transitive<const BITS: usize, const LIMBS: usize>(
    a: Uint<BITS, LIMBS>,
    b: Uint<BITS, LIMBS>,
    c: Uint<BITS, LIMBS>,
)
    requires
        ordering_of(a@, b@) != Ordering::Greater,
        ordering_of(b@, c@) != Ordering::Greater,
    ensures
        ordering_of(a@, c@) != Ordering::Greater,
        ordering_of(a@, b@) == Ordering::Less || ordering_of(b@, c@) == Ordering::Less
            ==> ordering_of(a@, c@) == Ordering::Less,
{
}

/// Adding the negation of an integer to it gives zero.
pub proof fn law_add_negation<const BITS: usize, const LIMBS: usize>(a: Uint<BITS, LIMBS>)
    requires
        a.wf(),
    ensures
        wrapping_sum(a@, wrapping_difference(0, a@, BITS as nat), BITS as nat) == 0,
{
    let p = pow2(BITS as nat) as int;
    lemma_pow2_pos(BITS as nat);
    if a@ == 0 {
        lemma_small_mod(0, p as nat);
    } else {
        lemma_fundamental_div_mod_converse(0 - a@, p, -1, p - a@);
        lemma_mod_self_0(p);
    }
}

/// Subtracting what was added gives back the integer, and adding what
/// was subtracted does too.
pub proof fn law_add_sub_cancel<const BITS: usize, const LIMBS: usize>(
    a: Uint<BITS, LIMBS>,
    b: Uint<BITS, LIMBS>,
)
    requires
        a.wf(),
        b.wf(),
    ensures
        wrapping_difference(wrapping_sum(a@, b@, BITS as nat), b@, BITS as nat) == a@,
        wrapping_sum(wrapping_difference(a@, b@, BITS as nat), b@, BITS as nat) == a@,
{
    let p = pow2(BITS as nat) as int;
    lemma_pow2_pos(BITS as nat);
    let sum = wrapping_sum(a@, b@, BITS as nat) as int;
    if a@ + b@ < p {
        lemma_small_mod(a@ + b@, p as nat);
    } else {
        lemma_fundamental_div_mod_converse((a@ + b@) as int, p, 1, a@ + b@ - p);
    }
    if sum >= b@ {
        lemma_small_mod((sum - b@) as nat, p as nat);
    } else {
        lemma_fundamental_div_mod_converse(sum - b@, p, -1, sum - b@ + p);
    }
    let difference = wrapping_difference(a@, b@, BITS as nat) as int;
    if a@ >= b@ {
        lemma_small_mod((a@ - b@) as nat, p as nat);
    } else {
        lemma_fundamental_div_mod_converse(a@ - b@, p, -1, a@ - b@ + p);
    }
    if difference + b@ < p {
        lemma_small_mod((difference + b@) as nat, p as nat);
    } else {
        lemma_fundamental_div_mod_converse(difference + b@, p, 1, difference + b@ - p);
    }
}

/// Addition and multiplication do not depend on the order of their
/// operands.
pub proof fn law_add_mul_commute<const BITS: usize, const LIMBS: usize>(
    a: Uint<BITS, LIMBS>,
    b: Uint<BITS, LIMBS>,
)
    ensures
        wrapping_sum(a@, b@, BITS as nat) == wrapping_sum(b@, a@, BITS as nat),
        wrapping_product(a@, b@, BITS as nat) == wrapping_product(b@, a@, BITS as nat),
{
    assert(a@ * b@ == b@ * a@) by (nonlinear_arith);
}

/// Zero is neutral for addition and subtraction, an integer minus itself
/// is zero, one is neutral for multiplication and zero absorbs it.
pub proof fn law_neutral_elements<const BITS: usize, const LIMBS: usize>(a: Uint<BITS, LIMBS>)
    requires
        a.wf(),
    ensures
        wrapping_sum(a@, 0, BITS as nat) == a@,
        wrapping_difference(a@, 0, BITS as nat) == a@,
        wrapping_difference(a@, a@, BITS as nat) == 0,
        wrapping_product(a@, 1, BITS as nat) == a@,
        wrapping_product(a@, 0, BITS as nat) == 0,
{
    let p = pow2(BITS as nat);
    lemma_pow2_pos(BITS as nat);
    lemma_small_mod(a@, p);
    lemma_small_mod(0, p);
    assert(a@ * 1 == a@) by (nonlinear_arith);
    assert(a@ * 0 == 0) by (nonlinear_arith);
}

/// The exclusive or of an integer with itself is zero.
pub proof fn law_xor_self<const BITS: usize, const LIMBS: usize>(a: Uint<BITS, LIMBS>)
    ensures
        all_zero(xor_seq(a.limbs_view(), a.limbs_view())),
        value(xor_seq(a.limbs_view(), a.limbs_view())) == 0,
{
    let l = a.limbs_view();
    let x = xor_seq(l, l);
    assert forall|i: int| 0 <= i < x.len() implies x[i] == 0 by {
        let v = l[i];
        assert(v ^ v == 0) by (bit_vector);
    }
    lemma_value_zero(x);
}

/// The conjunction of an integer with the largest integer of its width
/// is the integer.
pub proof fn law_and_all_ones<const BITS: usize, const LIMBS: usize>(
    a: Uint<BITS, LIMBS>,
    mask: Uint<BITS, LIMBS>,
)
    requires
        a.wf(),
        mask.wf(),
        mask@ == pow2(BITS as nat) - 1,
    ensures
        mask.limbs_view() == ones(BITS as nat),
        and_seq(a.limbs_view(), mask.limbs_view()) == a.limbs_view(),
{
    let bits = BITS as nat;
    let l = a.limbs_view();
    let m = mask.limbs_view();
    a.lemma_limbs_len();
    mask.lemma_limbs_len();
    lemma_value_of_ones(bits);
    lemma_value_injective(m, ones(bits));
    let x = and_seq(l, m);
    assert forall|i: int| 0 <= i < l.len() implies x[i] == l[i] by {
        let v = l[i];
        if i == l.len() - 1 {
            lemma_bits_split(bits);
            lemma_fits_iff_top_masked(l, bits);
            let k = top_bits(bits);
            if k < 64 {
                lemma_u64_low_bits_mask_is_mod(v, k);
                lemma_u64_pow2_no_overflow(k);
                lemma_small_mod(v as nat, pow2(k));
            } else {
                assert(v & u64::MAX == v) by (bit_vector);
            }
        } else {
            assert(v & u64::MAX == v) by (bit_vector);
        }
    }
    assert(x =~= l);
}

/// The disjunction of an integer with zero is the integer.
pub proof fn law_or_zero<const BITS: usize, const LIMBS: usize>(
    a: Uint<BITS, LIMBS>,
    zero: Uint<BITS, LIMBS>,
)
    requires
        zero@ == 0,
    ensures
        all_zero(zero.limbs_view()),
        or_seq(a.limbs_view(), zero.limbs_view()) == a.limbs_view(),
{
    let l = a.limbs_view();
    let z = zero.limbs_view();
    a.lemma_limbs_len();
    zero.lemma_limbs_len();
    let none = Seq::new(z.len(), |i: int| 0u64);
    lemma_value_zero(none);
    lemma_value_injective(z, none);
    let x = or_seq(l, z);
    assert forall|i: int| 0 <= i < l.len() implies x[i] == l[i] by {
        let v = l[i];
        assert(v | 0 == v) by (bit_vector);
    }
    assert(x =~= l);
}

/// A shift by no bits, in either direction and of either kind, leaves
/// the integer as it is.
pub proof fn law_shift_by_zero<const BITS: usize, const LIMBS: usize>(a: Uint<BITS, LIMBS>)
    requires
        a.wf(),
    ensures
        shifted_left(a@, 0, BITS as nat) == a@,
        shifted_right(a@, 0) == a@,
        shifted_right_signed(a@, 0, BITS as nat) == a@,
{
    let p = pow2(BITS as nat);
    lemma2_to64();
    lemma_small_mod(a@, p);
    assert(a@ * 1 == a@) by (nonlinear_arith);
    if sign_bit(a@, BITS as nat) {
        lemma_signed_shift_with_sign(a@, 0, BITS as nat);
    } else {
        lemma_signed_shift_without_sign(a@, 0, BITS as nat);
    }
}

/// A shift by the full width or more pushes every bit out: logical
/// shifts give zero, and the arithmetic shift gives zero or all ones, by
/// the sign.
pub proof fn law_shift_beyond_width<const BITS: usize, const LIMBS: usize>(
    a: Uint<BITS, LIMBS>,
    shift: nat,
)
    requires
        a.wf(),
        shift >= BITS,
    ensures
        shifted_left(a@, shift, BITS as nat) == 0,
        shifted_right(a@, shift) == 0,
        shifted_right_signed(a@, shift, BITS as nat) == if sign_bit(a@, BITS as nat) {
            pow2(BITS as nat) - 1
        } else {
            0
        },
{
    let bits = BITS as nat;
    let p = pow2(bits) as int;
    let d = pow2(shift) as int;
    let extra = (shift - bits) as nat;
    lemma_pow2_pos(bits);
    lemma_pow2_pos(extra);
    lemma_pow2_adds(bits, extra);
    let e = pow2(extra) as int;
    assert(a@ * (p * e) == (a@ * e) * p + 0) by (nonlinear_arith);
    lemma_fundamental_div_mod_converse(a@ * d, p, a@ * e, 0);
    assert(p <= d) by (nonlinear_arith)
        requires
            d == p * e,
            e >= 1,
            p >= 1,
    ;
    lemma_basic_div(a@ as int, d);
    if sign_bit(a@, bits) {
        lemma_signed_shift_with_sign(a@, shift, bits);
        lemma_basic_div(p - 1 - a@, d);
    } else {
        lemma_signed_shift_without_sign(a@, shift, bits);
    }
}

} // verus!
