use std::cmp::Ordering;
use zkvm_uint::{Portable, Shim, Uint};

type U256 = Uint<256, 4>;
type U100 = Uint<100, 2>;
type U64 = Uint<64, 1>;
type U1 = Uint<1, 1>;
type U0 = Uint<0, 0>;

const TOP: u64 = 1 << 63;
const MASK_36: u64 = (1 << 36) - 1;

#[test]
fn one_plus_one_is_two() {
    let a = U256::from_limbs([1, 0, 0, 0]);
    let b = U256::from_limbs([1, 0, 0, 0]);
    let two = U256::from_limbs([2, 0, 0, 0]);
    assert_eq!(a.wrapping_add(b), two);
    assert!(a == b);
    assert_eq!(a.cmp(&b), Ordering::Equal);

    let shim = Shim::new(Portable);
    assert_eq!(shim.wrapping_add(a, b), two);
    assert!(shim.eq(&a, &b));
    assert_eq!(shim.cmp(&a, &b), Ordering::Equal);
}

#[test]
fn addition_carries_across_limbs_and_wraps() {
    let one = U256::from_limbs([1, 0, 0, 0]);
    let low = U256::from_limbs([u64::MAX, 0, 0, 0]);
    assert_eq!(low.wrapping_add(one).into_limbs(), [0, 1, 0, 0]);
    let three = U256::from_limbs([u64::MAX, u64::MAX, u64::MAX, 0]);
    assert_eq!(three.wrapping_add(one).into_limbs(), [0, 0, 0, 1]);
    assert_eq!(U256::max_value().wrapping_add(one), U256::zero());
    assert_eq!(
        U256::max_value().wrapping_add(U256::max_value()).into_limbs(),
        [u64::MAX - 1, u64::MAX, u64::MAX, u64::MAX]
    );
}

#[test]
fn subtraction_borrows_across_limbs_and_wraps() {
    let one = U256::from_limbs([1, 0, 0, 0]);
    let high = U256::from_limbs([0, 0, 0, 1]);
    assert_eq!(high.wrapping_sub(one).into_limbs(), [u64::MAX, u64::MAX, u64::MAX, 0]);
    assert_eq!(U256::zero().wrapping_sub(one), U256::max_value());
    assert_eq!(one.wrapping_sub(one), U256::zero());
    let a = U256::from_limbs([5, 6, 7, 8]);
    let b = U256::from_limbs([9, 6, 7, 8]);
    assert_eq!(a.wrapping_sub(b).into_limbs(), [u64::MAX - 3, u64::MAX, u64::MAX, u64::MAX]);
}

#[test]
fn multiplication_keeps_the_low_bits() {
    let low = U256::from_limbs([u64::MAX, 0, 0, 0]);
    assert_eq!(low.wrapping_mul(low).into_limbs(), [1, u64::MAX - 1, 0, 0]);
    let half = U256::from_limbs([0, 0, 0, TOP]);
    let two = U256::from_limbs([2, 0, 0, 0]);
    assert_eq!(half.wrapping_mul(two), U256::zero());
    let three = U256::from_limbs([3, 0, 0, 0]);
    assert_eq!(half.wrapping_mul(three), half);
    assert_eq!(U256::max_value().wrapping_mul(U256::max_value()).into_limbs(), [1, 0, 0, 0]);
    let a = U256::from_limbs([0, 1, 0, 0]);
    let b = U256::from_limbs([0, 0, 1, 0]);
    assert_eq!(a.wrapping_mul(b).into_limbs(), [0, 0, 0, 1]);
    assert_eq!(b.wrapping_mul(b), U256::zero());
}

#[test]
fn bitwise_operations_work_limb_by_limb() {
    let a = U256::from_limbs([0b1100, 0xF0, 0, u64::MAX]);
    let b = U256::from_limbs([0b1010, 0x0F, 7, 1]);
    assert_eq!(a.bitxor(b).into_limbs(), [0b0110, 0xFF, 7, u64::MAX - 1]);
    assert_eq!(a.bitand(b).into_limbs(), [0b1000, 0, 0, 1]);
    assert_eq!(a.bitor(b).into_limbs(), [0b1110, 0xFF, 7, u64::MAX]);
}

#[test]
fn left_shifts_move_bits_up_and_out() {
    let one = U256::from_limbs([1, 0, 0, 0]);
    assert_eq!(one.wrapping_shl(0), one);
    assert_eq!(one.wrapping_shl(1).into_limbs(), [2, 0, 0, 0]);
    assert_eq!(one.wrapping_shl(65).into_limbs(), [0, 2, 0, 0]);
    assert_eq!(one.wrapping_shl(255).into_limbs(), [0, 0, 0, TOP]);
    assert_eq!(one.wrapping_shl(256), U256::zero());
    assert_eq!(one.wrapping_shl(usize::MAX), U256::zero());
    let a = U256::from_limbs([TOP | 1, 3, 0, TOP]);
    assert_eq!(a.wrapping_shl(1).into_limbs(), [2, 7, 0, 0]);
    assert_eq!(a.wrapping_shl(128).into_limbs(), [0, 0, TOP | 1, 3]);
}

#[test]
fn right_shifts_move_bits_down_and_out() {
    let a = U256::from_limbs([0, 2, 0, 0]);
    assert_eq!(a.wrapping_shr(0), a);
    assert_eq!(a.wrapping_shr(65).into_limbs(), [1, 0, 0, 0]);
    assert_eq!(a.wrapping_shr(66), U256::zero());
    let top = U256::from_limbs([0, 0, 0, TOP]);
    assert_eq!(top.wrapping_shr(255).into_limbs(), [1, 0, 0, 0]);
    assert_eq!(top.wrapping_shr(256), U256::zero());
    assert_eq!(top.wrapping_shr(usize::MAX), U256::zero());
    let b = U256::from_limbs([6, 1, 0, 3]);
    assert_eq!(b.wrapping_shr(1).into_limbs(), [TOP | 3, 0, TOP, 1]);
    assert_eq!(b.wrapping_shr(192).into_limbs(), [3, 0, 0, 0]);
}

#[test]
fn arithmetic_right_shifts_copy_the_sign() {
    let negative = U256::from_limbs([0, 0, 0, TOP]);
    assert!(negative.sign_bit());
    assert_eq!(negative.arithmetic_shr(0), negative);
    assert_eq!(negative.arithmetic_shr(1).into_limbs(), [0, 0, 0, TOP | (TOP >> 1)]);
    assert_eq!(negative.arithmetic_shr(64).into_limbs(), [0, 0, TOP, u64::MAX]);
    assert_eq!(negative.arithmetic_shr(255), U256::max_value());
    assert_eq!(negative.arithmetic_shr(256), U256::max_value());
    assert_eq!(negative.arithmetic_shr(usize::MAX), U256::max_value());

    let positive = U256::from_limbs([8, 0, 0, TOP >> 1]);
    assert!(!positive.sign_bit());
    assert_eq!(positive.arithmetic_shr(1).into_limbs(), [4, 0, 0, TOP >> 2]);
    assert_eq!(positive.arithmetic_shr(255), U256::zero());
    assert_eq!(positive.arithmetic_shr(256), U256::zero());

    let minus_one = U256::max_value();
    assert_eq!(minus_one.arithmetic_shr(17), minus_one);
    let minus_three = U256::from_limbs([u64::MAX - 2, u64::MAX, u64::MAX, u64::MAX]);
    assert_eq!(
        minus_three.arithmetic_shr(1).into_limbs(),
        [u64::MAX - 1, u64::MAX, u64::MAX, u64::MAX]
    );
}

#[test]
fn comparison_goes_by_the_most_significant_difference() {
    let a = U256::from_limbs([u64::MAX, u64::MAX, u64::MAX, 0]);
    let b = U256::from_limbs([0, 0, 0, 1]);
    assert_eq!(a.cmp(&b), Ordering::Less);
    assert_eq!(b.cmp(&a), Ordering::Greater);
    assert_eq!(a.cmp(&a), Ordering::Equal);
    assert!(a != b);
    let c = U256::from_limbs([1, 9, 0, 1]);
    let d = U256::from_limbs([2, 8, 0, 1]);
    assert_eq!(c.cmp(&d), Ordering::Greater);
    assert_eq!(U256::zero().cmp(&U256::max_value()), Ordering::Less);
}

#[test]
fn widths_between_limbs_mask_the_top_limb() {
    assert_eq!(U100::max_value().into_limbs(), [u64::MAX, MASK_36]);
    let one = U100::from_limbs([1, 0]);
    assert_eq!(U100::max_value().wrapping_add(one), U100::zero());
    assert_eq!(U100::zero().wrapping_sub(one), U100::max_value());
    assert_eq!(U100::max_value().wrapping_mul(U100::max_value()), one);
    assert_eq!(one.wrapping_shl(99).into_limbs(), [0, 1 << 35]);
    assert_eq!(one.wrapping_shl(100), U100::zero());
    assert_eq!(U100::max_value().wrapping_shl(4).into_limbs(), [u64::MAX - 15, MASK_36]);
    assert_eq!(U100::max_value().wrapping_shr(64).into_limbs(), [MASK_36, 0]);
    assert_eq!(U100::max_value().wrapping_shr(100), U100::zero());

    let negative = U100::from_limbs([0, 1 << 35]);
    assert!(negative.sign_bit());
    assert_eq!(negative.arithmetic_shr(35).into_limbs(), [0, MASK_36]);
    assert_eq!(negative.arithmetic_shr(36).into_limbs(), [TOP, MASK_36]);
    assert_eq!(negative.arithmetic_shr(100), U100::max_value());
    let positive = U100::from_limbs([0, 1 << 34]);
    assert!(!positive.sign_bit());
    assert_eq!(positive.arithmetic_shr(34).into_limbs(), [0, 1]);
    assert_eq!(positive.arithmetic_shr(100), U100::zero());
}

#[test]
fn single_limb_and_single_bit_widths() {
    let a = U64::from_limbs([u64::MAX]);
    let one = U64::from_limbs([1]);
    assert_eq!(a.wrapping_add(one), U64::zero());
    assert_eq!(a.wrapping_mul(a), one);
    assert_eq!(a.wrapping_shl(63).into_limbs(), [TOP]);
    assert_eq!(a.wrapping_shl(64), U64::zero());
    assert_eq!(a.arithmetic_shr(64), a);
    assert_eq!(U64::max_value(), a);

    let bit = U1::from_limbs([1]);
    assert_eq!(U1::max_value(), bit);
    assert!(bit.sign_bit());
    assert_eq!(bit.wrapping_add(bit), U1::zero());
    assert_eq!(bit.wrapping_mul(bit), bit);
    assert_eq!(bit.wrapping_shl(1), U1::zero());
    assert_eq!(bit.arithmetic_shr(1), bit);
    assert_eq!(U1::zero().wrapping_sub(bit), bit);
}

#[test]
fn the_empty_width_holds_only_zero() {
    let z = U0::zero();
    assert_eq!(U0::max_value(), z);
    assert_eq!(U0::from_limbs([]), z);
    assert_eq!(z.wrapping_add(z), z);
    assert_eq!(z.wrapping_sub(z), z);
    assert_eq!(z.wrapping_mul(z), z);
    assert_eq!(z.bitxor(z), z);
    assert_eq!(z.wrapping_shl(3), z);
    assert_eq!(z.wrapping_shr(3), z);
    assert_eq!(z.arithmetic_shr(3), z);
    assert!(!z.sign_bit());
    assert_eq!(z.cmp(&z), Ordering::Equal);
    let shim = Shim::new(Portable);
    assert_eq!(shim.clone(&z), z);
}

#[test]
fn limbs_are_accepted_only_when_they_fit() {
    assert!(U256::has_consistent_layout());
    assert!(U100::has_consistent_layout());
    assert!(U0::has_consistent_layout());
    assert!(!Uint::<100, 3>::has_consistent_layout());
    assert!(!Uint::<256, 3>::has_consistent_layout());
    assert!(!Uint::<64, 2>::has_consistent_layout());
    assert!(!Uint::<65, 1>::has_consistent_layout());
    assert!(Uint::<65, 2>::has_consistent_layout());

    assert_eq!(U100::try_from_limbs([7, MASK_36]), Some(U100::from_limbs([7, MASK_36])));
    assert_eq!(U100::try_from_limbs([7, MASK_36 + 1]), None);
    assert_eq!(U100::try_from_limbs([0, u64::MAX]), None);
    assert_eq!(
        U256::try_from_limbs([1, 2, 3, u64::MAX]).map(|u| u.into_limbs()),
        Some([1, 2, 3, u64::MAX])
    );
    assert_eq!(U0::try_from_limbs([]), Some(U0::zero()));
    assert_eq!(Uint::<100, 3>::try_from_limbs([0, 0, 0]), None);
    assert_eq!(Uint::<256, 5>::try_from_limbs([0, 0, 0, 0, 0]), None);
    assert_eq!(U1::try_from_limbs([2]), None);
    assert_eq!(U1::try_from_limbs([1]), Some(U1::max_value()));
}

#[test]
fn zero_and_the_largest_value() {
    assert_eq!(U256::zero().into_limbs(), [0, 0, 0, 0]);
    assert_eq!(U256::max_value().into_limbs(), [u64::MAX; 4]);
    assert_eq!(*U256::max_value().as_limbs(), [u64::MAX; 4]);
    assert_eq!(Uint::<65, 2>::max_value().into_limbs(), [u64::MAX, 1]);
    assert_eq!(Uint::<127, 2>::max_value().into_limbs(), [u64::MAX, u64::MAX >> 1]);
    assert!(U256::max_value().sign_bit());
    assert!(!U256::zero().sign_bit());
}
