use zkvm_uint::arith::{add_limbs, mul_limbs, sub_limbs};
use zkvm_uint::bitwise::{and_limbs, or_limbs, xor_limbs};
use zkvm_uint::compare::top_difference;
use zkvm_uint::limbs::RADIX;
use zkvm_uint::shift::{shl_limbs, shr_limbs};

const M: u64 = u64::MAX;

#[test]
fn the_radix_is_two_to_the_64() {
    assert_eq!(RADIX, 1u128 << 64);
    assert_eq!(RADIX, M as u128 + 1);
}

#[test]
fn add_limbs_reports_the_carry() {
    assert_eq!(add_limbs(&[1, 2, 3], &[4, 5, 6]), ([5, 7, 9], false));
    assert_eq!(add_limbs(&[M, M, 0], &[1, 0, 0]), ([0, 0, 1], false));
    assert_eq!(add_limbs(&[M, M, M], &[1, 0, 0]), ([0, 0, 0], true));
    assert_eq!(add_limbs(&[M, M], &[M, M]), ([M - 1, M], true));
    assert_eq!(add_limbs::<0>(&[], &[]), ([], false));
    assert_eq!(add_limbs(&[M], &[0]), ([M], false));
}

#[test]
fn sub_limbs_reports_the_borrow() {
    assert_eq!(sub_limbs(&[5, 7, 9], &[4, 5, 6]), ([1, 2, 3], false));
    assert_eq!(sub_limbs(&[0, 0, 1], &[1, 0, 0]), ([M, M, 0], false));
    assert_eq!(sub_limbs(&[0, 0, 0], &[1, 0, 0]), ([M, M, M], true));
    assert_eq!(sub_limbs(&[3, 1], &[3, 1]), ([0, 0], false));
    assert_eq!(sub_limbs(&[3, 1], &[4, 1]), ([M, M], true));
    assert_eq!(sub_limbs::<0>(&[], &[]), ([], false));
}

#[test]
fn mul_limbs_keeps_the_low_limbs() {
    assert_eq!(mul_limbs(&[3, 0], &[5, 0]), [15, 0]);
    assert_eq!(mul_limbs(&[M, 0], &[M, 0]), [1, M - 1]);
    assert_eq!(mul_limbs(&[M, M], &[M, M]), [1, 0]);
    assert_eq!(mul_limbs(&[0, 1, 0], &[0, 1, 0]), [0, 0, 1]);
    assert_eq!(mul_limbs(&[0, 0, 1], &[0, 1, 0]), [0, 0, 0]);
    assert_eq!(mul_limbs(&[2, 3, 4], &[1, 0, 0]), [2, 3, 4]);
    assert_eq!(mul_limbs(&[M], &[2]), [M - 1]);
    assert_eq!(mul_limbs::<0>(&[], &[]), []);
}

#[test]
fn bitwise_limbs_combine_limb_by_limb() {
    assert_eq!(xor_limbs(&[0b1100, M], &[0b1010, M]), [0b0110, 0]);
    assert_eq!(and_limbs(&[0b1100, M], &[0b1010, 7]), [0b1000, 7]);
    assert_eq!(or_limbs(&[0b1100, 0], &[0b1010, 7]), [0b1110, 7]);
    assert_eq!(xor_limbs::<0>(&[], &[]), []);
}

#[test]
fn shl_limbs_multiplies_by_a_power_of_two() {
    assert_eq!(shl_limbs(&[1, 0, 0], 0), [1, 0, 0]);
    assert_eq!(shl_limbs(&[1, 0, 0], 63), [1 << 63, 0, 0]);
    assert_eq!(shl_limbs(&[1, 0, 0], 64), [0, 1, 0]);
    assert_eq!(shl_limbs(&[M, 0, 0], 68), [0, M << 4, 15]);
    assert_eq!(shl_limbs(&[M, M, M], 1), [M - 1, M, M]);
    assert_eq!(shl_limbs(&[M, M, M], 191), [0, 0, 1 << 63]);
    assert_eq!(shl_limbs(&[M, M, M], 192), [0, 0, 0]);
    assert_eq!(shl_limbs(&[M, M, M], usize::MAX), [0, 0, 0]);
    assert_eq!(shl_limbs::<0>(&[], 5), []);
}

#[test]
fn shr_limbs_divides_by_a_power_of_two() {
    assert_eq!(shr_limbs(&[0, 0, 1], 0), [0, 0, 1]);
    assert_eq!(shr_limbs(&[0, 0, 1], 1), [0, 1 << 63, 0]);
    assert_eq!(shr_limbs(&[0, 0, 1], 64), [0, 1, 0]);
    assert_eq!(shr_limbs(&[0, 0, 1], 128), [1, 0, 0]);
    assert_eq!(shr_limbs(&[M, M, M], 68), [M, M >> 4, 0]);
    assert_eq!(shr_limbs(&[M, M, M], 191), [1, 0, 0]);
    assert_eq!(shr_limbs(&[M, M, M], 192), [0, 0, 0]);
    assert_eq!(shr_limbs(&[M, M, M], usize::MAX), [0, 0, 0]);
    assert_eq!(shr_limbs::<0>(&[], 5), []);
}

#[test]
fn top_difference_finds_the_deciding_limb() {
    assert_eq!(top_difference(&[1, 2, 3], &[1, 2, 3]), None);
    assert_eq!(top_difference(&[0, 2, 3], &[1, 2, 3]), Some(0));
    assert_eq!(top_difference(&[0, 9, 3], &[1, 2, 3]), Some(1));
    assert_eq!(top_difference(&[0, 9, 4], &[1, 2, 3]), Some(2));
    assert_eq!(top_difference::<0>(&[], &[]), None);
}
