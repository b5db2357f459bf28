//! The contract of an accelerator for 256-bit integers, and a portable
//! accelerator that meets it.
//!
//! An accelerator is a set of routines, one per primitive operation, that
//! the embedding environment supplies. Each routine works on the plain
//! limbs of 256-bit numbers: four 64-bit words, least significant first.
//! Inputs are borrowed and never written; the result is a fresh array of
//! which every word is defined. A routine is pure: its result is a function
//! of its inputs alone, which the contracts below pin down completely.

use crate::limbs::{all_zero, lemma_value_below_radix, lemma_value_bound, value};
use crate::model::{
    and_seq, or_seq, ordering_of, shifted_left, shifted_right, shifted_right_signed,
    wrapping_difference, wrapping_product, wrapping_sum, xor_seq,
};
use crate::uint::Uint;
use core::cmp::Ordering;
use vstd::prelude::*;

verus! {

/// The one bit width that an accelerator serves.
pub const ACCELERATED_BITS: usize = 256;

/// The limbs of a number of the accelerated width.
pub type Words = [u64; 4];

/// The routines of an accelerator for 256-bit integers.
///
/// Whoever implements this trait outside verified code owes the contracts:
/// nothing checks them, and every result that the dispatching shim hands
/// out for the accelerated width is only as good as they are.
pub trait Accelerator {
    /// `a + b` modulo `2^256`.
    fn wrapping_add(&self, a: &Words, b: &Words) -> (r: Words)
        ensures
            value(r@) == wrapping_sum(value(a@), value(b@), 256),
    ;

    /// `a - b` modulo `2^256`.
    fn wrapping_sub(&self, a: &Words, b: &Words) -> (r: Words)
        ensures
            value(r@) == wrapping_difference(value(a@), value(b@), 256),
    ;

    /// `a * b` modulo `2^256`.
    fn wrapping_mul(&self, a: &Words, b: &Words) -> (r: Words)
        ensures
            value(r@) == wrapping_product(value(a@), value(b@), 256),
    ;

    /// The bitwise exclusive or of `a` and `b`.
    fn bitxor(&self, a: &Words, b: &Words) -> (r: Words)
        ensures
            r@ == xor_seq(a@, b@),
    ;

    /// The bitwise and of `a` and `b`.
    fn bitand(&self, a: &Words, b: &Words) -> (r: Words)
        ensures
            r@ == and_seq(a@, b@),
    ;

    /// The bitwise or of `a` and `b`.
    fn bitor(&self, a: &Words, b: &Words) -> (r: Words)
        ensures
            r@ == or_seq(a@, b@),
    ;

    /// `a` shifted left by the number of bits that `b` denotes. The count
    /// comes as a 256-bit number like any operand; it is below 256.
    fn wrapping_shl(&self, a: &Words, b: &Words) -> (r: Words)
        requires
            value(b@) < 256,
        ensures
            value(r@) == shifted_left(value(a@), value(b@), 256),
    ;

    /// `a` shifted right by the number of bits that `b` denotes, zeros
    /// entering from the top. The count is below 256.
    fn wrapping_shr(&self, a: &Words, b: &Words) -> (r: Words)
        requires
            value(b@) < 256,
        ensures
            value(r@) == shifted_right(value(a@), value(b@)),
    ;

    /// `a` shifted right by the number of bits that `b` denotes, copies of
    /// bit 255 entering from the top. The count is below 256.
    fn arithmetic_shr(&self, a: &Words, b: &Words) -> (r: Words)
        requires
            value(b@) < 256,
        ensures
            value(r@) == shifted_right_signed(value(a@), value(b@), 256),
    ;

    /// Whether `a` and `b` are the same number.
    fn eq(&self, a: &Words, b: &Words) -> (r: bool)
        ensures
            r <==> a@ == b@,
    ;

    /// How `a` stands to `b` as unsigned numbers.
    fn cmp(&self, a: &Words, b: &Words) -> (r: Ordering)
        ensures
            r == ordering_of(value(a@), value(b@)),
    ;

    /// A copy of `a`. The routine is handed the limbs of zero as well, so
    /// that it never has to start from storage that nobody has written.
    fn clone(&self, a: &Words, zero: &Words) -> (r: Words)
        requires
            all_zero(zero@),
        ensures
            r@ == a@,
    ;
}

/// An accelerator that computes with the portable limb arithmetic.
///
/// It serves where the environment supplies no routines, and it shows that
/// the contract of [`Accelerator`] can be met.
#[derive(Debug)]
pub struct Portable;

/// Reads four words as a 256-bit integer.
fn integer(words: &Words) -> (r: Uint<256, 4>)
    ensures
        r.wf(),
        r.limbs_view() == words@,
{
    proof {
        lemma_value_bound(words@);
    }
    Uint::from_limbs(*words)
}

/// Reads four words that denote a number below 256 as a shift count.
fn count(words: &Words) -> (r: usize)
    requires
        value(words@) < 256,
    ensures
        r == value(words@),
{
    proof {
        lemma_value_below_radix(words@);
    }
    words[0] as usize
}

impl Accelerator for Portable {
    fn wrapping_add(&self, a: &Words, b: &Words) -> (r: Words) {
        integer(a).wrapping_add(integer(b)).into_limbs()
    }

    fn wrapping_sub(&self, a: &Words, b: &Words) -> (r: Words) {
        integer(a).wrapping_sub(integer(b)).into_limbs()
    }

    fn wrapping_mul(&self, a: &Words, b: &Words) -> (r: Words) {
        integer(a).wrapping_mul(integer(b)).into_limbs()
    }

    fn bitxor(&self, a: &Words, b: &Words) -> (r: Words) {
        integer(a).bitxor(integer(b)).into_limbs()
    }

    fn bitand(&self, a: &Words, b: &Words) -> (r: Words) {
        integer(a).bitand(integer(b)).into_limbs()
    }

    fn bitor(&self, a: &Words, b: &Words) -> (r: Words) {
        integer(a).bitor(integer(b)).into_limbs()
    }

    fn wrapping_shl(&self, a: &Words, b: &Words) -> (r: Words) {
        integer(a).wrapping_shl(count(b)).into_limbs()
    }

    fn wrapping_shr(&self, a: &Words, b: &Words) -> (r: Words) {
        integer(a).wrapping_shr(count(b)).into_limbs()
    }

    fn arithmetic_shr(&self, a: &Words, b: &Words) -> (r: Words) {
        integer(a).arithmetic_shr(count(b)).into_limbs()
    }

    fn eq(&self, a: &Words, b: &Words) -> (r: bool) {
        integer(a) == integer(b)
    }

    fn cmp(&self, a: &Words, b: &Words) -> (r: Ordering) {
        integer(a).cmp(&integer(b))
    }

    fn clone(&self, a: &Words, zero: &Words) -> (r: Words) {
        *a
    }
}

} // verus!
