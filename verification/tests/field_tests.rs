use std::fmt::Debug;
use std::ops::{Add, Mul, Neg};
use zkvm::field::Field;
use zkvm::goldilocks::{Goldilocks, MODULUS};
use zkvm::toyfield::ToyField;

trait TestField: Field + PartialEq + Debug + Add<Output = Self> + Mul<Output = Self> + Neg<Output = Self> {}
impl TestField for ToyField {}
impl TestField for Goldilocks {}

fn check_additive_identity<F: TestField>() {
    let a = F::from_u64(1234567);
    assert_eq!(a + F::zero(), a);
    assert_eq!(F::zero() + a, a);
}

fn check_multiplicative_identity<F: TestField>() {
    let a = F::from_u64(7654321);
    assert_eq!(a * F::one(), a);
    assert_eq!(F::one() * a, a);
}

fn check_additive_inverse<F: TestField>() {
    let a = F::from_u64(42);
    assert_eq!(a + (-a), F::zero());
}

fn check_multiplicative_inverse<F: TestField>() {
    for x in [1u64, 2, 3, 5, 97, 12345] {
        let a = F::from_u64(x);
        if a.is_zero() {
            continue;
        }
        let inv = a.inverse().expect("nonzero element must be invertible");
        assert_eq!(a * inv, F::one());
    }
    assert!(F::zero().inverse().is_none());
}

fn check_distributivity<F: TestField>() {
    let a = F::from_u64(3);
    let b = F::from_u64(11);
    let c = F::from_u64(19);
    assert_eq!(a * (b + c), a * b + a * c);
}

fn check_root_of_unity<F: TestField>() {
    let log_n = 3u32.min(F::two_adicity());
    let n = 1u64 << log_n;
    let root = F::root_of_unity(log_n);
    assert_eq!(root.pow(n), F::one());
    if n > 1 {
        assert_ne!(root.pow(n / 2), F::one());
    }
}

fn run_all<F: TestField>() {
    check_additive_identity::<F>();
    check_multiplicative_identity::<F>();
    check_additive_inverse::<F>();
    check_multiplicative_inverse::<F>();
    check_distributivity::<F>();
    check_root_of_unity::<F>();
}

#[test]
fn toyfield_field_laws_hold() {
    run_all::<ToyField>();
}

#[test]
fn toyfield_reduces_on_construction() {
    assert_eq!(ToyField::new(97).value(), 0);
    assert_eq!(ToyField::new(98).value(), 1);
    assert_eq!(ToyField::new(0).value(), 0);
}

#[test]
fn arithmetic_wraps_mod_97() {
    let a = ToyField::new(90);
    let b = ToyField::new(10);
    assert_eq!((a + b).value(), 3);
    assert_eq!((a * b).value(), 27);
    let c = ToyField::new(5);
    let d = ToyField::new(9);
    assert_eq!((c - d).value(), 93);
}

#[test]
fn generator_has_full_order() {
    let g = ToyField::new(5);
    assert_eq!(g.pow(96), ToyField::one());
    assert_ne!(g.pow(48), ToyField::one());
    assert_ne!(g.pow(32), ToyField::one());
}

#[test]
fn toyfield_root_of_unity_domains_of_various_sizes() {
    for log_n in 0..=5u32 {
        let n = 1u64 << log_n;
        let root = ToyField::root_of_unity(log_n);
        assert_eq!(root.pow(n), ToyField::one(), "root^n != 1 for n=2^{log_n}");
        if n > 1 {
            assert_ne!(root.pow(n / 2), ToyField::one(), "root not primitive for n=2^{log_n}");
        }
    }
}

#[test]
fn goldilocks_field_laws_hold() {
    run_all::<Goldilocks>();
}

#[test]
fn goldilocks_reduces_on_construction() {
    assert_eq!(Goldilocks::new(MODULUS).value(), 0);
    assert_eq!(Goldilocks::new(MODULUS + 5).value(), 5);
}

#[test]
fn add_near_overflow_boundary() {
    let a = Goldilocks::new(MODULUS - 1);
    let b = Goldilocks::new(2);
    assert_eq!((a + b).value(), 1);
}

#[test]
fn root_of_unity_has_order_exactly_2_pow_32() {
    let root = Goldilocks::primitive_root_of_unity();
    assert_eq!(root.pow(1u64 << 32), Goldilocks::one());
    assert_ne!(root.pow(1u64 << 31), Goldilocks::one());
}

#[test]
fn goldilocks_root_of_unity_domains_of_various_sizes() {
    for log_n in [0u32, 1, 2, 3, 8, 16, 32] {
        let n = 1u64 << log_n;
        let root = Goldilocks::root_of_unity(log_n);
        assert_eq!(root.pow(n), Goldilocks::one());
        if n > 1 {
            assert_ne!(root.pow(n / 2), Goldilocks::one());
        }
    }
}

fn ext_euclid_inverse(a: u64, p: u64) -> u64 {
    let (mut old_r, mut r) = (a as i128, p as i128);
    let (mut old_s, mut s) = (1i128, 0i128);
    while r != 0 {
        let q = old_r / r;
        let tmp_r = old_r - q * r;
        old_r = r;
        r = tmp_r;
        let tmp_s = old_s - q * s;
        old_s = s;
        s = tmp_s;
    }
    (((old_s % p as i128) + p as i128) % p as i128) as u64
}

#[test]
fn inverse_matches_extended_euclid_reference() {
    for x in [1u64, 2, 3, 12345, 999_999_999, MODULUS - 1] {
        let a = Goldilocks::new(x);
        let expected = ext_euclid_inverse(a.value(), MODULUS);
        assert_eq!(a.inverse().unwrap().value(), expected);
    }
}

#[test]
fn toy_inverse_of_every_nonzero_element() {
    for x in 1u64..97 {
        let a = ToyField::new(x);
        let inv = a.inverse().unwrap();
        assert_eq!((a * inv).value(), 1);
    }
    assert!(ToyField::zero().inverse().is_none());
}

#[test]
fn from_u64_reduces_and_canonical_round_trips() {
    assert_eq!(ToyField::from_u64(200).to_canonical_u64(), 6);
    assert_eq!(ToyField::modulus(), 97);
    assert_eq!(Goldilocks::modulus(), MODULUS);
    assert_eq!(Goldilocks::from_u64(MODULUS + 7).to_canonical_u64(), 7);
}

#[test]
fn negation_and_subtraction() {
    assert_eq!((-ToyField::new(5)).value(), 92);
    assert_eq!((-ToyField::zero()).value(), 0);
    assert_eq!((Goldilocks::new(3) - Goldilocks::new(5)).value(), MODULUS - 2);
}

#[test]
fn pow_by_square_and_multiply() {
    assert_eq!(ToyField::new(3).pow(4).value(), 81);
    assert_eq!(ToyField::new(3).pow(5).value(), 243 % 97);
    assert_eq!(ToyField::new(7).pow(0).value(), 1);
}

#[test]
fn goldilocks_inverses_multiply_to_one() {
    for x in [1u64, 2, 7, 123_456_789, MODULUS - 1, MODULUS - 2, 0xFFFF_FFFF] {
        let v = Goldilocks::from_u64(x);
        let inv = v.inverse().expect("nonzero elements are invertible");
        assert_eq!(v.fmul(inv), Goldilocks::one());
    }
    assert!(Goldilocks::from_u64(0).inverse().is_none());
}
