//! The dispatching shim: one call site per operation that serves integers
//! of the accelerated width through an accelerator and every other width
//! through the portable limb arithmetic.
//!
//! Both paths are specified with the same functions of the model, so a
//! caller sees one result whichever path ran.

use crate::accel::{Accelerator, Words, ACCELERATED_BITS};
use crate::laws::law_shift_beyond_width;
use crate::limbs::{lemma_value_below_radix, lemma_value_bound, value};
use crate::model::{
    and_seq, or_seq, ordering_of, shifted_left, shifted_right, shifted_right_signed,
    wrapping_difference, wrapping_product, wrapping_sum, xor_seq,
};
use crate::uint::Uint;
use core::cmp::Ordering;
use vstd::prelude::*;

verus! {

/// Whether integers of `bits` bits are served by the accelerator.
pub fn is_accelerated(bits: usize) -> (r: bool)
    ensures
        r == (bits == ACCELERATED_BITS),
{
    bits == ACCELERATED_BITS
}

/// Hands the limbs of an integer of the accelerated width out as words.
fn export<const BITS: usize, const LIMBS: usize>(a: &Uint<BITS, LIMBS>) -> (r: Words)
    requires
        BITS == ACCELERATED_BITS,
        a.wf(),
    ensures
        r@ == a.limbs_view(),
        value(r@) == a@,
{
    let limbs = a.as_limbs();
    let r = [limbs[0], limbs[1], limbs[2], limbs[3]];
    assert(r@ =~= limbs@);
    r
}

/// Takes the words that an accelerator returned as an integer.
fn import<const BITS: usize, const LIMBS: usize>(words: Words) -> (r: Uint<BITS, LIMBS>)
    requires
        BITS == ACCELERATED_BITS,
        Uint::<BITS, LIMBS>::layout_ok(),
    ensures
        r.wf(),
        r.limbs_view() == words@,
        r@ == value(words@),
{
    let mut limbs = [0u64; LIMBS];
    limbs[0] = words[0];
    limbs[1] = words[1];
    limbs[2] = words[2];
    limbs[3] = words[3];
    proof {
        assert(limbs@ =~= words@);
        lemma_value_bound(words@);
    }
    Uint::from_limbs(limbs)
}

/// Writes a shift count below 256 as a number of the accelerated width.
fn count_words(shift: usize) -> (r: Words)
    requires
        shift < 256,
    ensures
        value(r@) == shift,
{
    let r = [shift as u64, 0, 0, 0];
    proof {
        lemma_value_below_radix(r@);
    }
    r
}

/// The dispatching shim over the routines of an accelerator `A`.
pub struct Shim<A: Accelerator> {
    routines: A,
}

impl<A: Accelerator> Shim<A> {
    /// The accelerator that the shim dispatches to.
    pub closed spec fn routines(self) -> A {
        self.routines
    }

    /// A shim that serves the accelerated width through `routines`.
    pub fn new(routines: A) -> (r: Self)
        ensures
            r.routines() == routines,
    {
        Shim { routines }
    }

    /// Gives the accelerator back.
    pub fn into_routines(self) -> (r: A)
        ensures
            r == self.routines(),
    {
        self.routines
    }

    /// Addition modulo `2^BITS`.
    pub fn wrapping_add<const BITS: usize, const LIMBS: usize>(
        &self,
        a: Uint<BITS, LIMBS>,
        b: Uint<BITS, LIMBS>,
    ) -> (r: Uint<BITS, LIMBS>)
        requires
            a.wf(),
            b.wf(),
        ensures
            r.wf(),
            r@ == wrapping_sum(a@, b@, BITS as nat),
    {
        if is_accelerated(BITS) {
            import(self.routines.wrapping_add(&export(&a), &export(&b)))
        } else {
            a.wrapping_add(b)
        }
    }

    /// Subtraction modulo `2^BITS`.
    pub fn wrapping_sub<const BITS: usize, const LIMBS: usize>(
        &self,
        a: Uint<BITS, LIMBS>,
        b: Uint<BITS, LIMBS>,
    ) -> (r: Uint<BITS, LIMBS>)
        requires
            a.wf(),
            b.wf(),
        ensures
            r.wf(),
            r@ == wrapping_difference(a@, b@, BITS as nat),
    {
        if is_accelerated(BITS) {
            import(self.routines.wrapping_sub(&export(&a), &export(&b)))
        } else {
            a.wrapping_sub(b)
        }
    }

    /// Multiplication modulo `2^BITS`.
    pub fn wrapping_mul<const BITS: usize, const LIMBS: usize>(
        &self,
        a: Uint<BITS, LIMBS>,
        b: Uint<BITS, LIMBS>,
    ) -> (r: Uint<BITS, LIMBS>)
        requires
            a.wf(),
            b.wf(),
        ensures
            r.wf(),
            r@ == wrapping_product(a@, b@, BITS as nat),
    {
        if is_accelerated(BITS) {
            import(self.routines.wrapping_mul(&export(&a), &export(&b)))
        } else {
            a.wrapping_mul(b)
        }
    }

    /// Bitwise exclusive or.
    pub fn bitxor<const BITS: usize, const LIMBS: usize>(
        &self,
        a: Uint<BITS, LIMBS>,
        b: Uint<BITS, LIMBS>,
    ) -> (r: Uint<BITS, LIMBS>)
        requires
            a.wf(),
            b.wf(),
        ensures
            r.wf(),
            r.limbs_view() == xor_seq(a.limbs_view(), b.limbs_view()),
    {
        if is_accelerated(BITS) {
            import(self.routines.bitxor(&export(&a), &export(&b)))
        } else {
            a.bitxor(b)
        }
    }

    /// Bitwise and.
    pub fn bitand<const BITS: usize, const LIMBS: usize>(
        &self,
        a: Uint<BITS, LIMBS>,
        b: Uint<BITS, LIMBS>,
    ) -> (r: Uint<BITS, LIMBS>)
        requires
            a.wf(),
            b.wf(),
        ensures
            r.wf(),
            r.limbs_view() == and_seq(a.limbs_view(), b.limbs_view()),
    {
        if is_accelerated(BITS) {
            import(self.routines.bitand(&export(&a), &export(&b)))
        } else {
            a.bitand(b)
        }
    }

    /// Bitwise or.
    pub fn bitor<const BITS: usize, const LIMBS: usize>(
        &self,
        a: Uint<BITS, LIMBS>,
        b: Uint<BITS, LIMBS>,
    ) -> (r: Uint<BITS, LIMBS>)
        requires
            a.wf(),
            b.wf(),
        ensures
            r.wf(),
            r.limbs_view() == or_seq(a.limbs_view(), b.limbs_view()),
    {
        if is_accelerated(BITS) {
            import(self.routines.bitor(&export(&a), &export(&b)))
        } else {
            a.bitor(b)
        }
    }

    /// Logical shift left by `shift` bits. A shift by `BITS` or more gives
    /// zero; the accelerator is only ever asked for shorter shifts.
    pub fn wrapping_shl<const BITS: usize, const LIMBS: usize>(
        &self,
        a: Uint<BITS, LIMBS>,
        shift: usize,
    ) -> (r: Uint<BITS, LIMBS>)
        requires
            a.wf(),
        ensures
            r.wf(),
            r@ == shifted_left(a@, shift as nat, BITS as nat),
    {
        if is_accelerated(BITS) {
            if shift >= ACCELERATED_BITS {
                proof {
                    law_shift_beyond_width(a, shift as nat);
                }
                Uint::zero()
            } else {
                import(self.routines.wrapping_shl(&export(&a), &count_words(shift)))
            }
        } else {
            a.wrapping_shl(shift)
        }
    }

    /// Logical shift right by `shift` bits. A shift by `BITS` or more gives
    /// zero; the accelerator is only ever asked for shorter shifts.
    pub fn wrapping_shr<const BITS: usize, const LIMBS: usize>(
        &self,
        a: Uint<BITS, LIMBS>,
        shift: usize,
    ) -> (r: Uint<BITS, LIMBS>)
        requires
            a.wf(),
        ensures
            r.wf(),
            r@ == shifted_right(a@, shift as nat),
    {
        if is_accelerated(BITS) {
            if shift >= ACCELERATED_BITS {
                proof {
                    law_shift_beyond_width(a, shift as nat);
                }
                Uint::zero()
            } else {
                import(self.routines.wrapping_shr(&export(&a), &count_words(shift)))
            }
        } else {
            a.wrapping_shr(shift)
        }
    }

    /// Arithmetic shift right by `shift` bits. A shift by `BITS` or more
    /// gives zero or all ones, by the sign; the accelerator is only ever
    /// asked for shorter shifts.
    pub fn arithmetic_shr<const BITS: usize, const LIMBS: usize>(
        &self,
        a: Uint<BITS, LIMBS>,
        shift: usize,
    ) -> (r: Uint<BITS, LIMBS>)
        requires
            a.wf(),
        ensures
            r.wf(),
            r@ == shifted_right_signed(a@, shift as nat, BITS as nat),
    {
        if is_accelerated(BITS) {
            if shift >= ACCELERATED_BITS {
                proof {
                    law_shift_beyond_width(a, shift as nat);
                }
                if a.sign_bit() {
                    Uint::max_value()
                } else {
                    Uint::zero()
                }
            } else {
                import(self.routines.arithmetic_shr(&export(&a), &count_words(shift)))
            }
        } else {
            a.arithmetic_shr(shift)
        }
    }

    /// Whether `a` and `b` are the same integer.
    pub fn eq<const BITS: usize, const LIMBS: usize>(
        &self,
        a: &Uint<BITS, LIMBS>,
        b: &Uint<BITS, LIMBS>,
    ) -> (r: bool)
        requires
            a.wf(),
            b.wf(),
        ensures
            r <==> *a == *b,
            r <==> a.limbs_view() == b.limbs_view(),
            r <==> a@ == b@,
    {
        proof {
            a.lemma_limbs_len();
            b.lemma_limbs_len();
            if a@ == b@ {
                a.lemma_same_value(*b);
            }
            if a.limbs_view() == b.limbs_view() {
                a.lemma_same_limbs(*b);
            }
        }
        if is_accelerated(BITS) {
            self.routines.eq(&export(a), &export(b))
        } else {
            *a == *b
        }
    }

    /// Three-way comparison of `a` and `b` as unsigned numbers.
    pub fn cmp<const BITS: usize, const LIMBS: usize>(
        &self,
        a: &Uint<BITS, LIMBS>,
        b: &Uint<BITS, LIMBS>,
    ) -> (r: Ordering)
        requires
            a.wf(),
            b.wf(),
        ensures
            r == ordering_of(a@, b@),
    {
        if is_accelerated(BITS) {
            self.routines.cmp(&export(a), &export(b))
        } else {
            a.cmp(b)
        }
    }

    /// An independent copy of `a`.
    pub fn clone<const BITS: usize, const LIMBS: usize>(&self, a: &Uint<BITS, LIMBS>) -> (r: Uint<
        BITS,
        LIMBS,
    >)
        requires
            a.wf(),
        ensures
            r == *a,
    {
        if is_accelerated(BITS) {
            let zero = Uint::<BITS, LIMBS>::zero();
            let r = import(self.routines.clone(&export(a), &export(&zero)));
            proof {
                r.lemma_same_limbs(*a);
            }
            r
        } else {
            *a
        }
    }
}

} // verus!
