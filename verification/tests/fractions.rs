//! Unit tests of the exact fraction arithmetic and the integer helpers.

use math_engine::fraction::{exact_nth_root, gcd, Fraction};

#[test]
fn test_gcd_values() {
    assert_eq!(gcd(12, 18), 6);
    assert_eq!(gcd(-12, 18), 6);
    assert_eq!(gcd(0, 0), 0);
    assert_eq!(gcd(7, 0), 7);
}

#[test]
fn test_new_reduces_and_normalizes_sign() {
    let f = Fraction::new(4, -6);
    assert_eq!(f.num, -2);
    assert_eq!(f.den, 3);
    let g = Fraction::new(-10, -4);
    assert_eq!(g.num, 5);
    assert_eq!(g.den, 2);
}

#[test]
fn test_new_zero_denominator_degenerates() {
    let f = Fraction::new(7, 0);
    assert_eq!(f.num, 0);
    assert_eq!(f.den, 1);
}

#[test]
fn test_constants() {
    assert_eq!(Fraction::zero(), Fraction { num: 0, den: 1 });
    assert_eq!(Fraction::one(), Fraction { num: 1, den: 1 });
    assert_eq!(Fraction::minus_one(), Fraction { num: -1, den: 1 });
}

#[test]
fn test_arithmetic() {
    let a = Fraction::new(1, 3);
    let b = Fraction::new(1, 6);
    assert_eq!(a.add(b), Fraction::new(1, 2));
    assert_eq!(a.sub(b), Fraction::new(1, 6));
    assert_eq!(a.mul(b), Fraction::new(1, 18));
    assert_eq!(a.div(b), Fraction::new(2, 1));
}

#[test]
fn test_division_by_zero_fraction_degenerates() {
    let a = Fraction::new(1, 3);
    assert_eq!(a.div(Fraction::zero()), Fraction { num: 0, den: 1 });
}

#[test]
fn test_pow() {
    let f = Fraction::new(2, 3);
    assert_eq!(f.pow(2), Fraction::new(4, 9));
    assert_eq!(f.pow(-2), Fraction::new(9, 4));
    assert_eq!(f.pow(0), Fraction::one());
    assert_eq!(Fraction::zero().pow(-1), Fraction { num: 0, den: 1 });
}

#[test]
fn test_exact_nth_root() {
    assert_eq!(exact_nth_root(27, 3), Some(3));
    assert_eq!(exact_nth_root(-27, 3), Some(-3));
    assert_eq!(exact_nth_root(26, 3), None);
    assert_eq!(exact_nth_root(-4, 2), None);
    assert_eq!(exact_nth_root(25, 2), Some(5));
    assert_eq!(exact_nth_root(0, 2), Some(0));
    assert_eq!(exact_nth_root(1, 10), Some(1));
}
