use std::cmp::Ordering;
use zkvm_uint::{Portable, Shim, Uint};

fn words<const N: usize>(seed: u64) -> [u64; N] {
    let mut state = seed | 1;
    let mut out = [0u64; N];
    for w in out.iter_mut() {
        state ^= state << 13;
        state ^= state >> 7;
        state ^= state << 17;
        *w = state;
    }
    out
}

fn masked<const BITS: usize, const LIMBS: usize>(raw: [u64; LIMBS]) -> Uint<BITS, LIMBS> {
    let full = Uint::<BITS, LIMBS>::max_value().into_limbs();
    Uint::from_limbs(std::array::from_fn(|i| raw[i] & full[i]))
}

fn one<const BITS: usize, const LIMBS: usize>() -> Uint<BITS, LIMBS> {
    let mut raw = [0u64; LIMBS];
    raw[0] = 1;
    masked(raw)
}

fn samples<const BITS: usize, const LIMBS: usize>() -> Vec<Uint<BITS, LIMBS>> {
    let full = Uint::<BITS, LIMBS>::max_value();
    let mut out = vec![
        Uint::zero(),
        one(),
        full,
        full.wrapping_sub(one()),
        full.wrapping_shr(1),
        full.wrapping_shr(BITS / 2),
        one().wrapping_shl(BITS - 1),
    ];
    for seed in 1..9u64 {
        out.push(masked(words(seed * 0x9E37_79B9)));
    }
    out
}

fn arithmetic_laws<const BITS: usize, const LIMBS: usize>() {
    let zero = Uint::<BITS, LIMBS>::zero();
    for a in samples::<BITS, LIMBS>() {
        assert_eq!(a.wrapping_add(zero.wrapping_sub(a)), zero);
        assert_eq!(a.wrapping_mul(one()), a);
        assert_eq!(a.wrapping_mul(zero), zero);
        assert_eq!(a.wrapping_add(zero), a);
        assert_eq!(a.wrapping_sub(zero), a);
        assert_eq!(a.wrapping_sub(a), zero);
        for b in samples::<BITS, LIMBS>() {
            assert_eq!(a.wrapping_add(b), b.wrapping_add(a));
            assert_eq!(a.wrapping_mul(b), b.wrapping_mul(a));
            assert_eq!(a.wrapping_add(b).wrapping_sub(b), a);
            assert_eq!(a.wrapping_sub(b).wrapping_add(b), a);
        }
    }
}

fn bitwise_laws<const BITS: usize, const LIMBS: usize>() {
    let zero = Uint::<BITS, LIMBS>::zero();
    let full = Uint::<BITS, LIMBS>::max_value();
    for a in samples::<BITS, LIMBS>() {
        assert_eq!(a.bitxor(a), zero);
        assert_eq!(a.bitand(full), a);
        assert_eq!(a.bitor(zero), a);
        assert_eq!(a.bitxor(zero), a);
        assert_eq!(a.bitand(zero), zero);
        assert_eq!(a.bitor(full), full);
    }
}

fn shift_laws<const BITS: usize, const LIMBS: usize>() {
    let zero = Uint::<BITS, LIMBS>::zero();
    let full = Uint::<BITS, LIMBS>::max_value();
    for a in samples::<BITS, LIMBS>() {
        assert_eq!(a.wrapping_shl(0), a);
        assert_eq!(a.wrapping_shr(0), a);
        assert_eq!(a.arithmetic_shr(0), a);
        for s in [BITS, BITS + 1, BITS + 64, 2 * BITS + 3, usize::MAX] {
            assert_eq!(a.wrapping_shl(s), zero);
            assert_eq!(a.wrapping_shr(s), zero);
            assert_eq!(a.arithmetic_shr(s), if a.sign_bit() { full } else { zero });
        }
        for s in 0..BITS {
            let back = a.wrapping_shl(s).wrapping_shr(s);
            assert_eq!(back, a.bitand(full.wrapping_shr(s)));
            let twice = a.wrapping_shr(s / 2).wrapping_shr(s - s / 2);
            assert_eq!(twice, a.wrapping_shr(s));
        }
    }
}

fn order_laws<const BITS: usize, const LIMBS: usize>() {
    let all = samples::<BITS, LIMBS>();
    for a in &all {
        assert_eq!(a.cmp(a), Ordering::Equal);
        for b in &all {
            assert_eq!(a == b, a.cmp(b) == Ordering::Equal);
            assert_eq!(a.cmp(b), b.cmp(a).reverse());
            assert_eq!(a == b, a.as_limbs() == b.as_limbs());
            for c in &all {
                if a.cmp(b) != Ordering::Greater && b.cmp(c) != Ordering::Greater {
                    assert_ne!(a.cmp(c), Ordering::Greater);
                    if a.cmp(b) == Ordering::Less || b.cmp(c) == Ordering::Less {
                        assert_eq!(a.cmp(c), Ordering::Less);
                    }
                }
            }
        }
    }
}

#[test]
fn wraparound_laws_hold_on_samples() {
    arithmetic_laws::<256, 4>();
    arithmetic_laws::<64, 1>();
    arithmetic_laws::<100, 2>();
    arithmetic_laws::<129, 3>();
    arithmetic_laws::<1, 1>();
}

#[test]
fn bitwise_identities_hold_on_samples() {
    bitwise_laws::<256, 4>();
    bitwise_laws::<64, 1>();
    bitwise_laws::<100, 2>();
    bitwise_laws::<129, 3>();
    bitwise_laws::<1, 1>();
}

#[test]
fn shift_boundaries_hold_on_samples() {
    shift_laws::<256, 4>();
    shift_laws::<64, 1>();
    shift_laws::<100, 2>();
    shift_laws::<129, 3>();
    shift_laws::<1, 1>();
}

#[test]
fn comparison_is_a_total_order_on_samples() {
    order_laws::<256, 4>();
    order_laws::<64, 1>();
    order_laws::<100, 2>();
    order_laws::<129, 3>();
    order_laws::<1, 1>();
}

#[test]
fn the_laws_hold_through_the_shim() {
    let shim = Shim::new(Portable);
    let zero = Uint::<256, 4>::zero();
    let full = Uint::<256, 4>::max_value();
    for a in samples::<256, 4>() {
        assert_eq!(shim.wrapping_add(a, shim.wrapping_sub(zero, a)), zero);
        assert_eq!(shim.wrapping_mul(a, one()), a);
        assert_eq!(shim.bitxor(a, a), zero);
        assert_eq!(shim.bitand(a, full), a);
        assert_eq!(shim.bitor(a, zero), a);
        assert_eq!(shim.wrapping_shl(a, 0), a);
        assert_eq!(shim.wrapping_shr(a, 0), a);
        assert_eq!(shim.arithmetic_shr(a, 0), a);
        assert_eq!(shim.wrapping_shl(a, 256), zero);
        assert_eq!(shim.wrapping_shr(a, 256), zero);
        assert_eq!(shim.clone(&a), a);
        for b in samples::<256, 4>() {
            assert_eq!(shim.eq(&a, &b), shim.cmp(&a, &b) == Ordering::Equal);
            assert_eq!(shim.cmp(&a, &b), shim.cmp(&b, &a).reverse());
        }
    }
}
