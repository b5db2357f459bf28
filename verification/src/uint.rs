//! The fixed-width unsigned integer and its portable operations.

use crate::arith::{add_limbs, mul_limbs, sub_limbs};
use crate::bitwise::{and_limbs, lemma_bitwise_keeps_width, or_limbs, xor_limbs};
use crate::compare::top_difference;
use crate::limbs::{
    all_zero, lemma_bits_split, lemma_fits_iff_top_masked, lemma_mask_top_is_mod,
    lemma_reduce_twice, lemma_sign_iff_top_high, lemma_value_bound, lemma_value_injective,
    lemma_value_of_ones, lemma_value_zero, limbs_for, ones, top_bits, top_mask, value, weight,
};
use crate::model::{
    and_seq, lemma_signed_shift_with_sign, lemma_signed_shift_without_sign, or_seq, ordering_of,
    shifted_left, shifted_right, shifted_right_signed, sign_bit, wrapping_difference,
    wrapping_product, wrapping_sum, xor_seq,
};
use crate::shift::{limb_pow2, shl_limbs, shr_limbs};
use core::cmp::Ordering;
use vstd::arithmetic::div_mod::{
    lemma_div_nonincreasing, lemma_fundamental_div_mod_converse, lemma_mod_bound,
    lemma_small_mod,
};
use vstd::arithmetic::power2::{lemma2_to64, lemma_pow2_pos, pow2};
use vstd::prelude::*;

verus! {

/// An unsigned integer of `BITS` bits, held in `LIMBS` limbs of 64 bits,
/// least significant limb first.
///
/// The two parameters belong together: `LIMBS` is the number of limbs that
/// `BITS` bits occupy. The bits of the most significant limb beyond `BITS`
/// are zero.
#[derive(Clone, Copy, Debug)]
pub struct Uint<const BITS: usize, const LIMBS: usize> {
    limbs: [u64; LIMBS],
}

/// The largest value of the most significant limb of a `bits`-bit integer.
fn top_mask_of(bits: usize) -> (r: u64)
    requires
        bits > 0,
    ensures
        r == top_mask(bits as nat),
{
    let k = bits % 64;
    if k == 0 {
        u64::MAX
    } else {
        limb_pow2(k) - 1
    }
}

impl<const BITS: usize, const LIMBS: usize> View for Uint<BITS, LIMBS> {
    type V = nat;

    /// The number that the integer denotes.
    open spec fn view(&self) -> nat {
        value(self.limbs_view())
    }
}

impl<const BITS: usize, const LIMBS: usize> Uint<BITS, LIMBS> {
    /// The limbs, least significant first.
    pub closed spec fn limbs_view(self) -> Seq<u64> {
        self.limbs@
    }

    /// Whether `LIMBS` is the number of limbs that `BITS` bits occupy.
    pub open spec fn layout_ok() -> bool {
        LIMBS == limbs_for(BITS as nat)
    }

    /// Well-formedness: the layout is consistent and the number fits in
    /// `BITS` bits.
    pub open spec fn wf(self) -> bool {
        &&& Self::layout_ok()
        &&& self@ < pow2(BITS as nat)
    }

    /// There are always `LIMBS` limbs.
    pub proof fn lemma_limbs_len(self)
        ensures
            self.limbs_view().len() == LIMBS,
    {
    }

    /// Two integers with the same limbs are the same integer.
    pub proof fn lemma_same_limbs(self, other: Self)
        requires
            self.limbs_view() == other.limbs_view(),
        ensures
            self == other,
    {
        assert(self.limbs =~= other.limbs);
    }

    /// Integers are told apart by the numbers they denote.
    pub proof fn lemma_same_value(self, other: Self)
        requires
            self@ == other@,
        ensures
            self == other,
    {
        lemma_value_injective(self.limbs@, other.limbs@);
        assert(self.limbs =~= other.limbs);
    }

    /// Whether this instantiation pairs `BITS` with the right `LIMBS`.
    pub fn has_consistent_layout() -> (r: bool)
        ensures
            r == Self::layout_ok(),
    {
        if BITS % 64 == 0 {
            LIMBS == BITS / 64
        } else {
            LIMBS == BITS / 64 + 1
        }
    }

    /// The integer zero.
    pub fn zero() -> (r: Self)
        requires
            Self::layout_ok(),
        ensures
            r.wf(),
            r@ == 0,
            all_zero(r.limbs_view()),
    {
        let r = Uint { limbs: [0u64; LIMBS] };
        proof {
            lemma_value_zero(r.limbs@);
            lemma_pow2_pos(BITS as nat);
        }
        r
    }

    /// The largest integer of `BITS` bits, `2^BITS - 1`.
    pub fn max_value() -> (r: Self)
        requires
            Self::layout_ok(),
        ensures
            r.wf(),
            r@ == pow2(BITS as nat) - 1,
            r.limbs_view() == ones(BITS as nat),
    {
        let mut out = [u64::MAX; LIMBS];
        if LIMBS > 0 {
            out[LIMBS - 1] = top_mask_of(BITS);
        }
        proof {
            assert(out@ =~= ones(BITS as nat));
            lemma_value_of_ones(BITS as nat);
            lemma_pow2_pos(BITS as nat);
        }
        Uint { limbs: out }
    }

    /// Builds an integer from its limbs, least significant first.
    pub fn from_limbs(limbs: [u64; LIMBS]) -> (r: Self)
        requires
            Self::layout_ok(),
            value(limbs@) < pow2(BITS as nat),
        ensures
            r.wf(),
            r.limbs_view() == limbs@,
    {
        Uint { limbs }
    }

    /// Builds an integer from its limbs if they denote a number of `BITS`
    /// bits and the layout is consistent.
    pub fn try_from_limbs(limbs: [u64; LIMBS]) -> (r: Option<Self>)
        ensures
            r is Some <==> Self::layout_ok() && value(limbs@) < pow2(BITS as nat),
            r matches Some(u) ==> u.wf() && u.limbs_view() == limbs@,
    {
        if !Self::has_consistent_layout() {
            return None;
        }
        if LIMBS == 0 {
            proof {
                lemma_pow2_pos(BITS as nat);
            }
            return Some(Uint { limbs });
        }
        proof {
            lemma_fits_iff_top_masked(limbs@, BITS as nat);
        }
        if limbs[LIMBS - 1] <= top_mask_of(BITS) {
            Some(Uint { limbs })
        } else {
            None
        }
    }

    /// The limbs, least significant first.
    pub fn as_limbs(&self) -> (r: &[u64; LIMBS])
        ensures
            r@ == self.limbs_view(),
    {
        &self.limbs
    }

    /// The limbs, least significant first.
    pub fn into_limbs(self) -> (r: [u64; LIMBS])
        ensures
            r@ == self.limbs_view(),
    {
        self.limbs
    }

    /// Clears the bits of the most significant limb beyond `BITS`.
    fn truncate(limbs: [u64; LIMBS]) -> (r: Self)
        requires
            Self::layout_ok(),
        ensures
            r.wf(),
            r@ == value(limbs@) % pow2(BITS as nat),
    {
        proof {
            lemma_pow2_pos(BITS as nat);
            lemma_mod_bound(value(limbs@) as int, pow2(BITS as nat) as int);
        }
        if LIMBS == 0 {
            proof {
                lemma2_to64();
            }
            Uint { limbs }
        } else {
            let mut out = limbs;
            out[LIMBS - 1] = limbs[LIMBS - 1] & top_mask_of(BITS);
            proof {
                lemma_mask_top_is_mod(limbs@, BITS as nat);
            }
            Uint { limbs: out }
        }
    }

    /// The bits fit in the limbs.
    proof fn lemma_bits_fit()
        requires
            Self::layout_ok(),
        ensures
            BITS <= 64 * LIMBS,
    {
        if BITS > 0 {
            lemma_bits_split(BITS as nat);
        }
    }

    /// Addition modulo `2^BITS`.
    pub fn wrapping_add(self, rhs: Self) -> (r: Self)
        requires
            self.wf(),
            rhs.wf(),
        ensures
            r.wf(),
            r@ == wrapping_sum(self@, rhs@, BITS as nat),
    {
        let (sum, carry) = add_limbs(&self.limbs, &rhs.limbs);
        proof {
            let m = weight(LIMBS as nat) as int;
            let q: int = if carry { 1 } else { 0 };
            lemma_value_bound(sum@);
            lemma_fundamental_div_mod_converse((self@ + rhs@) as int, m, q, value(sum@) as int);
            Self::lemma_bits_fit();
            lemma_reduce_twice((self@ + rhs@) as int, BITS as nat, LIMBS as nat);
        }
        Self::truncate(sum)
    }

    /// Subtraction modulo `2^BITS`.
    pub fn wrapping_sub(self, rhs: Self) -> (r: Self)
        requires
            self.wf(),
            rhs.wf(),
        ensures
            r.wf(),
            r@ == wrapping_difference(self@, rhs@, BITS as nat),
    {
        let (difference, borrow) = sub_limbs(&self.limbs, &rhs.limbs);
        proof {
            let m = weight(LIMBS as nat) as int;
            let q: int = if borrow { -1 } else { 0 };
            lemma_value_bound(difference@);
            lemma_fundamental_div_mod_converse(self@ - rhs@, m, q, value(difference@) as int);
            Self::lemma_bits_fit();
            lemma_reduce_twice(self@ - rhs@, BITS as nat, LIMBS as nat);
        }
        Self::truncate(difference)
    }

    /// Multiplication modulo `2^BITS`.
    pub fn wrapping_mul(self, rhs: Self) -> (r: Self)
        requires
            self.wf(),
            rhs.wf(),
        ensures
            r.wf(),
            r@ == wrapping_product(self@, rhs@, BITS as nat),
    {
        let product = mul_limbs(&self.limbs, &rhs.limbs);
        proof {
            Self::lemma_bits_fit();
            lemma_reduce_twice((self@ * rhs@) as int, BITS as nat, LIMBS as nat);
        }
        Self::truncate(product)
    }

    /// Bitwise exclusive or.
    pub fn bitxor(self, rhs: Self) -> (r: Self)
        requires
            self.wf(),
            rhs.wf(),
        ensures
            r.wf(),
            r.limbs_view() == xor_seq(self.limbs_view(), rhs.limbs_view()),
    {
        let out = xor_limbs(&self.limbs, &rhs.limbs);
        proof {
            Self::lemma_top_limbs_combine(self.limbs@, rhs.limbs@, out@);
        }
        Uint { limbs: out }
    }

    /// Bitwise and.
    pub fn bitand(self, rhs: Self) -> (r: Self)
        requires
            self.wf(),
            rhs.wf(),
        ensures
            r.wf(),
            r.limbs_view() == and_seq(self.limbs_view(), rhs.limbs_view()),
    {
        let out = and_limbs(&self.limbs, &rhs.limbs);
        proof {
            Self::lemma_top_limbs_combine(self.limbs@, rhs.limbs@, out@);
        }
        Uint { limbs: out }
    }

    /// Bitwise or.
    pub fn bitor(self, rhs: Self) -> (r: Self)
        requires
            self.wf(),
            rhs.wf(),
        ensures
            r.wf(),
            r.limbs_view() == or_seq(self.limbs_view(), rhs.limbs_view()),
    {
        let out = or_limbs(&self.limbs, &rhs.limbs);
        proof {
            Self::lemma_top_limbs_combine(self.limbs@, rhs.limbs@, out@);
        }
        Uint { limbs: out }
    }

    /// A limb-wise combination of two numbers of `BITS` bits is a number
    /// of `BITS` bits.
    proof fn lemma_top_limbs_combine(a: Seq<u64>, b: Seq<u64>, out: Seq<u64>)
        requires
            Self::layout_ok(),
            a.len() == LIMBS,
            b.len() == LIMBS,
            value(a) < pow2(BITS as nat),
            value(b) < pow2(BITS as nat),
            out == xor_seq(a, b) || out == and_seq(a, b) || out == or_seq(a, b),
        ensures
            value(out) < pow2(BITS as nat),
    {
        if LIMBS == 0 {
            lemma_pow2_pos(BITS as nat);
        } else {
            let bits = BITS as nat;
            lemma_bits_split(bits);
            lemma_fits_iff_top_masked(a, bits);
            lemma_fits_iff_top_masked(b, bits);
            lemma_fits_iff_top_masked(out, bits);
            lemma_bitwise_keeps_width(a.last(), b.last(), top_bits(bits));
        }
    }

    /// Logical shift left by `rhs` bits: multiplication by `2^rhs` modulo
    /// `2^BITS`. A shift by `BITS` or more gives zero.
    pub fn wrapping_shl(self, rhs: usize) -> (r: Self)
        requires
            self.wf(),
        ensures
            r.wf(),
            r@ == shifted_left(self@, rhs as nat, BITS as nat),
    {
        let out = shl_limbs(&self.limbs, rhs);
        proof {
            Self::lemma_bits_fit();
            lemma_reduce_twice((self@ * pow2(rhs as nat)) as int, BITS as nat, LIMBS as nat);
        }
        Self::truncate(out)
    }

    /// Logical shift right by `rhs` bits: division by `2^rhs`. A shift by
    /// `BITS` or more gives zero.
    pub fn wrapping_shr(self, rhs: usize) -> (r: Self)
        requires
            self.wf(),
        ensures
            r.wf(),
            r@ == shifted_right(self@, rhs as nat),
    {
        let out = shr_limbs(&self.limbs, rhs);
        proof {
            lemma_pow2_pos(rhs as nat);
            lemma_div_nonincreasing(self@ as int, pow2(rhs as nat) as int);
        }
        Uint { limbs: out }
    }

    /// Whether the most significant bit, bit `BITS - 1`, is set.
    pub fn sign_bit(&self) -> (r: bool)
        requires
            self.wf(),
        ensures
            r == sign_bit(self@, BITS as nat),
    {
        if LIMBS == 0 {
            return false;
        }
        let k = if BITS % 64 == 0 {
            64
        } else {
            BITS % 64
        };
        proof {
            lemma_sign_iff_top_high(self.limbs@, BITS as nat);
        }
        self.limbs[LIMBS - 1] >= limb_pow2(k - 1)
    }

    /// Arithmetic shift right by `rhs` bits: the most significant bit is
    /// read as a sign and copied into the bits that the shift vacates. A
    /// shift by `BITS` or more gives zero or all ones, by the sign.
    pub fn arithmetic_shr(self, rhs: usize) -> (r: Self)
        requires
            self.wf(),
        ensures
            r.wf(),
            r@ == shifted_right_signed(self@, rhs as nat, BITS as nat),
    {
        if !self.sign_bit() {
            proof {
                lemma_signed_shift_without_sign(self@, rhs as nat, BITS as nat);
            }
            self.wrapping_shr(rhs)
        } else {
            let ones = Self::max_value();
            let complement = ones.wrapping_sub(self);
            let shifted = complement.wrapping_shr(rhs);
            proof {
                let p = pow2(BITS as nat);
                lemma_signed_shift_with_sign(self@, rhs as nat, BITS as nat);
                lemma_small_mod((p - 1 - self@) as nat, p);
                lemma_small_mod((p - 1 - shifted@) as nat, p);
            }
            ones.wrapping_sub(shifted)
        }
    }

    /// Three-way comparison by the numbers denoted.
    pub fn cmp(&self, rhs: &Self) -> (r: Ordering)
        ensures
            r == ordering_of(self@, rhs@),
    {
        match top_difference(&self.limbs, &rhs.limbs) {
            None => Ordering::Equal,
            Some(i) => {
                if self.limbs[i] < rhs.limbs[i] {
                    Ordering::Less
                } else {
                    Ordering::Greater
                }
            },
        }
    }
}

impl<const BITS: usize, const LIMBS: usize> PartialEq for Uint<BITS, LIMBS> {
    /// Limb-wise equality.
    fn eq(&self, other: &Self) -> (r: bool) {
        top_difference(&self.limbs, &other.limbs).is_none()
    }
}

impl<const BITS: usize, const LIMBS: usize> vstd::std_specs::cmp::PartialEqSpecImpl for Uint<BITS, LIMBS> {
    open spec fn obeys_eq_spec() -> bool {
        true
    }

    open spec fn eq_spec(&self, other: &Self) -> bool {
        self.limbs_view() == other.limbs_view()
    }
}

impl<const BITS: usize, const LIMBS: usize> Eq for Uint<BITS, LIMBS> {

}

} // verus!
