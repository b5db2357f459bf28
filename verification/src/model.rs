//! What every operation computes, stated over natural numbers and limb
//! sequences. The portable path and the accelerator contract are both
//! specified with these functions, so the two paths cannot disagree.

use core::cmp::Ordering;
use vstd::arithmetic::div_mod::{
    lemma_div_nonincreasing, lemma_div_pos_is_pos, lemma_fundamental_div_mod,
    lemma_fundamental_div_mod_converse, lemma_mod_bound, lemma_small_mod,
};
use vstd::arithmetic::power2::{lemma_pow2_pos, pow2};
use vstd::prelude::*;

verus! {

/// `a + b` reduced modulo `2^bits`.
pub open spec fn wrapping_sum(a: nat, b: nat, bits: nat) -> nat {
    (a + b) % pow2(bits)
}

/// `a - b` reduced modulo `2^bits`.
pub open spec fn wrapping_difference(a: nat, b: nat, bits: nat) -> nat {
    ((a - b) % (pow2(bits) as int)) as nat
}

/// `a * b` reduced modulo `2^bits`.
pub open spec fn wrapping_product(a: nat, b: nat, bits: nat) -> nat {
    (a * b) % pow2(bits)
}

/// `a` shifted left by `shift` bits within `bits` bits: `a * 2^shift`
/// reduced modulo `2^bits`. A shift by `bits` or more gives zero.
pub open spec fn shifted_left(a: nat, shift: nat, bits: nat) -> nat {
    (a * pow2(shift)) % pow2(bits)
}

/// `a` shifted right by `shift` bits with zeros entering from the top:
/// `a / 2^shift`. Once `2^shift` exceeds `a` this is zero.
pub open spec fn shifted_right(a: nat, shift: nat) -> nat {
    a / pow2(shift)
}

/// Whether the most significant of the `bits` bits of `a` is set.
pub open spec fn sign_bit(a: nat, bits: nat) -> bool {
    bits > 0 && a >= pow2((bits - 1) as nat)
}

/// `a` read as a two's-complement number of `bits` bits.
pub open spec fn signed_value(a: nat, bits: nat) -> int {
    if sign_bit(a, bits) {
        a - pow2(bits)
    } else {
        a as int
    }
}

/// `a` shifted right by `shift` bits with copies of the sign bit entering
/// from the top: the floor of the signed value divided by `2^shift`, read
/// back as an unsigned number of `bits` bits.
pub open spec fn shifted_right_signed(a: nat, shift: nat, bits: nat) -> nat {
    ((signed_value(a, bits) / (pow2(shift) as int)) % (pow2(bits) as int)) as nat
}

/// The limb-wise exclusive or of two sequences of one length.
pub open spec fn xor_seq(a: Seq<u64>, b: Seq<u64>) -> Seq<u64> {
    Seq::new(a.len(), |i: int| a[i] ^ b[i])
}

/// The limb-wise conjunction of two sequences of one length.
pub open spec fn and_seq(a: Seq<u64>, b: Seq<u64>) -> Seq<u64> {
    Seq::new(a.len(), |i: int| a[i] & b[i])
}

/// The limb-wise disjunction of two sequences of one length.
pub open spec fn or_seq(a: Seq<u64>, b: Seq<u64>) -> Seq<u64> {
    Seq::new(a.len(), |i: int| a[i] | b[i])
}

/// How `a` stands to `b` in the order of the natural numbers.
pub open spec fn ordering_of(a: nat, b: nat) -> Ordering {
    if a < b {
        Ordering::Less
    } else if a == b {
        Ordering::Equal
    } else {
        Ordering::Greater
    }
}

/// Without a sign bit the signed shift is the logical shift.
pub proof fn lemma_signed_shift_without_sign(a: nat, shift: nat, bits: nat)
    requires
        a < pow2(bits),
        !sign_bit(a, bits),
    ensures
        shifted_right_signed(a, shift, bits) == shifted_right(a, shift),
{
    let d = pow2(shift) as int;
    lemma_pow2_pos(shift);
    lemma_div_nonincreasing(a as int, d);
    lemma_div_pos_is_pos(a as int, d);
    lemma_small_mod((a as int / d) as nat, pow2(bits));
}

/// With the sign bit set, the signed shift complements the logical shift
/// of the complement: ones enter from the top where the complement would
/// have let zeros in.
pub proof fn lemma_signed_shift_with_sign(a: nat, shift: nat, bits: nat)
    requires
        a < pow2(bits),
        sign_bit(a, bits),
    ensures
        shifted_right((pow2(bits) - 1 - a) as nat, shift) < pow2(bits),
        shifted_right_signed(a, shift, bits) == pow2(bits) - 1 - shifted_right(
            (pow2(bits) - 1 - a) as nat,
            shift,
        ),
{
    let p = pow2(bits) as int;
    let d = pow2(shift) as int;
    let b = p - 1 - a;
    let c = b / d;
    lemma_pow2_pos(shift);
    lemma_div_nonincreasing(b, d);
    lemma_div_pos_is_pos(b, d);
    lemma_fundamental_div_mod(b, d);
    lemma_mod_bound(b, d);
    assert((-c - 1) * d + (d - 1 - b % d) == -b - 1) by (nonlinear_arith)
        requires
            b == d * c + b % d,
    ;
    lemma_fundamental_div_mod_converse(-b - 1, d, -c - 1, d - 1 - b % d);
    lemma_fundamental_div_mod_converse(-c - 1, p, -1, p - 1 - c);
}

} // verus!
