//! Portable comparison of limb arrays.

use crate::limbs::{lemma_value_injective, lemma_value_ordered_by_top_difference, value};
use vstd::prelude::*;

verus! {

/// Finds the most significant limb at which `a` and `b` differ. That limb
/// decides how the two numbers are ordered; without one they are equal.
pub fn top_difference<const N: usize>(a: &[u64; N], b: &[u64; N]) -> (r: Option<usize>)
    ensures
        r is None <==> a@ == b@,
        r is None <==> value(a@) == value(b@),
        r matches Some(i) ==> {
            &&& i < N
            &&& a@[i as int] != b@[i as int]
            &&& forall|j: int| i < j < N ==> a@[j] == b@[j]
            &&& a@[i as int] < b@[i as int] <==> value(a@) < value(b@)
        },
{
    let mut i: usize = N;
    while i > 0
        invariant
            i <= N,
            forall|j: int| i <= j < N ==> a@[j] == b@[j],
        decreases i,
    {
        i -= 1;
        if a[i] != b[i] {
            proof {
                if a@[i as int] < b@[i as int] {
                    lemma_value_ordered_by_top_difference(a@, b@, i as int);
                } else {
                    lemma_value_ordered_by_top_difference(b@, a@, i as int);
                }
            }
            return Some(i);
        }
    }
    proof {
        assert(a@ =~= b@);
        if value(a@) == value(b@) {
            lemma_value_injective(a@, b@);
        }
    }
    None
}

} // verus!
