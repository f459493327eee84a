//! Exact rational arithmetic on reduced numerator/denominator pairs.
//!
//! Every operation returns a fully reduced, sign-normalized fraction: the
//! denominator is positive and shares no factor with the numerator. A
//! denominator of zero never aborts: construction falls back to the safe
//! degenerate value 0/1, and so does any operation whose exact reduced result
//! would not fit the 64-bit fields.

use vstd::prelude::*;
use vstd::arithmetic::div_mod::lemma_div_nonincreasing;
use vstd::arithmetic::power::{
    lemma0_pow, lemma1_pow, lemma_pow1, lemma_pow_adds, lemma_pow_increases, lemma_pow_positive,
    pow,
};
use crate::num::{
    gcd_nat, lemma_div_exact, lemma_divides_le, lemma_gcd_div_coprime, lemma_gcd_divides,
    lemma_gcd_greatest, lemma_gcd_pos,
};

verus! {

/// Magnitude of an integer, as a natural number.
pub open spec fn nabs(x: int) -> nat {
    if x < 0 {
        (-x) as nat
    } else {
        x as nat
    }
}

/// An exact rational number: `num / den`.
#[derive(Debug, Clone, Copy, PartialEq, Eq, Structural)]
pub struct Fraction {
    pub num: i64,
    pub den: i64,
}

/// A well-formed fraction: positive denominator, reduced to lowest terms.
pub open spec fn frac_wf(f: Fraction) -> bool {
    &&& f.den > 0
    &&& gcd_nat(nabs(f.num as int), f.den as nat) == 1
}

/// Whether the reduced form of `n / d` fits the 64-bit fields.
pub open spec fn reduce_fits(n: int, d: int) -> bool {
    d != 0 && {
        let g = gcd_nat(nabs(n), nabs(d));
        nabs(n) / g <= i64::MAX && nabs(d) / g <= i64::MAX
    }
}

/// The reduced, sign-normalized form of `n / d`; 0/1 when `d` is zero or the
/// reduced pair does not fit the fields.
pub open spec fn spec_reduce(n: int, d: int) -> Fraction {
    if d == 0 {
        Fraction { num: 0, den: 1 }
    } else {
        let g = gcd_nat(nabs(n), nabs(d));
        let rn = nabs(n) / g;
        let rd = nabs(d) / g;
        if rn <= i64::MAX && rd <= i64::MAX {
            let neg = (n < 0) != (d < 0);
            Fraction { num: if neg { (-(rn as int)) as i64 } else { rn as i64 }, den: rd as i64 }
        } else {
            Fraction { num: 0, den: 1 }
        }
    }
}

/// The degenerate fallback value 0/1 is well-formed.
pub proof fn lemma_wf_unit_den(n: int)
    requires
        -1 <= n <= 1,
    ensures
        frac_wf(Fraction { num: n as i64, den: 1 }),
{
    reveal_with_fuel(gcd_nat, 3);
    assert(nabs(n) <= 1);
}

/// The reduced form of any pair is well-formed.
pub proof fn lemma_reduce_wf(n: int, d: int)
    ensures
        frac_wf(spec_reduce(n, d)),
{
    lemma_wf_unit_den(0);
    if d != 0 {
        let na = nabs(n);
        let da = nabs(d);
        let g = gcd_nat(na, da);
        lemma_gcd_pos(na, da);
        lemma_gcd_divides(na, da);
        let kn = choose|k: int| na as int == #[trigger] (g as int * k);
        let kd = choose|k: int| da as int == #[trigger] (g as int * k);
        assert(kn >= 0 && kd >= 1) by (nonlinear_arith)
            requires
                na as int == g as int * kn,
                da as int == g as int * kd,
                g > 0,
                na >= 0,
                da > 0,
        ;
        lemma_div_exact(na as int, g as int, kn);
        lemma_div_exact(da as int, g as int, kd);
        if na / g <= i64::MAX && da / g <= i64::MAX {
            lemma_gcd_div_coprime(na, da);
            let r = spec_reduce(n, d);
            assert(nabs(r.num as int) == na / g);
        }
    }
}

/// Reduction preserves the value: cross-multiplication with the input pair.
pub proof fn lemma_reduce_value(n: int, d: int)
    requires
        reduce_fits(n, d),
    ensures
        spec_reduce(n, d).num * d == n * spec_reduce(n, d).den,
{
    let na = nabs(n);
    let da = nabs(d);
    let g = gcd_nat(na, da);
    lemma_gcd_pos(na, da);
    lemma_gcd_divides(na, da);
    let kn = choose|k: int| na as int == #[trigger] (g as int * k);
    let kd = choose|k: int| da as int == #[trigger] (g as int * k);
    assert(kn >= 0 && kd >= 1) by (nonlinear_arith)
        requires
            na as int == g as int * kn,
            da as int == g as int * kd,
            g > 0,
            na >= 0,
            da > 0,
    ;
    lemma_div_exact(na as int, g as int, kn);
    lemma_div_exact(da as int, g as int, kd);
    let r = spec_reduce(n, d);
    let gi = g as int;
    if n >= 0 && d > 0 {
        assert(kn * (gi * kd) == (gi * kn) * kd) by (nonlinear_arith);
    } else if n < 0 && d > 0 {
        assert((-kn) * (gi * kd) == (-(gi * kn)) * kd) by (nonlinear_arith);
    } else if n >= 0 && d < 0 {
        assert((-kn) * (-(gi * kd)) == (gi * kn) * kd) by (nonlinear_arith);
    } else {
        assert(kn * (-(gi * kd)) == (-(gi * kn)) * kd) by (nonlinear_arith);
    }
}

/// A well-formed fraction's numerator and denominator share no factor
/// above one, and its denominator is positive: what construction
/// guarantees for every nonzero denominator.
pub proof fn lemma_wf_no_common_factor(f: Fraction)
    requires
        frac_wf(f),
    ensures
        f.den > 0,
        forall|d: int|
            d > 1 ==> !(#[trigger] crate::num::divides(d, f.num as int) && crate::num::divides(
                d,
                f.den as int,
            )),
{
    assert forall|d: int|
        d > 1 implies !(#[trigger] crate::num::divides(d, f.num as int)
        && crate::num::divides(d, f.den as int)) by {
        if crate::num::divides(d, f.num as int) && crate::num::divides(d, f.den as int) {
            let k = choose|k: int| f.num as int == #[trigger] (d * k);
            assert((-(f.num as int)) == d * (-k)) by (nonlinear_arith)
                requires
                    f.num as int == d * k,
            ;
            assert(crate::num::divides(d, nabs(f.num as int) as int));
            lemma_gcd_greatest(nabs(f.num as int), f.den as nat, d);
            lemma_divides_le(d, 1);
        }
    }
}

/// Greatest common divisor of the magnitudes of two 64-bit integers.
pub fn gcd(a: i64, b: i64) -> (r: i64)
    requires
        a > i64::MIN,
        b > i64::MIN,
    ensures
        r == gcd_nat(nabs(a as int), nabs(b as int)),
        r >= 0,
{
    let ua = abs_u64(a);
    let ub = abs_u64(b);
    let g = gcd_u64(ua, ub);
    proof {
        if a == 0 && b == 0 {
        } else {
            lemma_gcd_pos(nabs(a as int), nabs(b as int));
            lemma_gcd_divides(nabs(a as int), nabs(b as int));
            if ua > 0 {
                lemma_divides_le(g as int, ua as int);
            } else {
                lemma_divides_le(g as int, ub as int);
            }
        }
    }
    g as i64
}

fn abs_u64(a: i64) -> (r: u64)
    requires
        a > i64::MIN,
    ensures
        r == nabs(a as int),
{
    if a < 0 {
        (-a) as u64
    } else {
        a as u64
    }
}

fn gcd_u64(a: u64, b: u64) -> (r: u64)
    ensures
        r == gcd_nat(a as nat, b as nat),
{
    let mut x = a;
    let mut y = b;
    while y != 0
        invariant
            gcd_nat(x as nat, y as nat) == gcd_nat(a as nat, b as nat),
        decreases y,
    {
        let t = y;
        y = x % y;
        x = t;
    }
    x
}

fn gcd_u128(a: u128, b: u128) -> (r: u128)
    ensures
        r == gcd_nat(a as nat, b as nat),
{
    let mut x = a;
    let mut y = b;
    while y != 0
        invariant
            gcd_nat(x as nat, y as nat) == gcd_nat(a as nat, b as nat),
        decreases y,
    {
        let t = y;
        y = x % y;
        x = t;
    }
    x
}

fn abs_u128(a: i128) -> (r: u128)
    requires
        a > i128::MIN,
    ensures
        r == nabs(a as int),
{
    if a < 0 {
        (-a) as u128
    } else {
        a as u128
    }
}

/// Reduce a wide pair to a fraction; 0/1 when the result does not fit.
pub(crate) fn reduce_i128(n: i128, d: i128) -> (r: Fraction)
    requires
        n > i128::MIN,
        d > i128::MIN,
    ensures
        r == spec_reduce(n as int, d as int),
{
    if d == 0 {
        return Fraction { num: 0, den: 1 };
    }
    let na = abs_u128(n);
    let da = abs_u128(d);
    let g = gcd_u128(na, da);
    proof {
        lemma_gcd_pos(na as nat, da as nat);
    }
    let rn = na / g;
    let rd = da / g;
    if rn <= i64::MAX as u128 && rd <= i64::MAX as u128 {
        let neg = (n < 0) != (d < 0);
        let rni = rn as i64;
        Fraction { num: if neg { -rni } else { rni }, den: rd as i64 }
    } else {
        Fraction { num: 0, den: 1 }
    }
}

impl Fraction {
    /// Build the reduced, sign-normalized fraction `num / den`.
    /// A zero denominator falls back to the degenerate value 0/1.
    pub fn new(num: i64, den: i64) -> (r: Fraction)
        requires
            num > i64::MIN,
            den > i64::MIN,
        ensures
            r == spec_reduce(num as int, den as int),
            frac_wf(r),
            den != 0 ==> r.num * den == num * r.den,
    {
        proof {
            lemma_reduce_wf(num as int, den as int);
            if den != 0 {
                let na = nabs(num as int);
                let da = nabs(den as int);
                let g = gcd_nat(na, da);
                lemma_gcd_pos(na, da);
                lemma_div_nonincreasing(na as int, g as int);
                lemma_div_nonincreasing(da as int, g as int);
                lemma_reduce_value(num as int, den as int);
            }
        }
        let r = reduce_i128(num as i128, den as i128);
        r
    }

    pub fn zero() -> (r: Fraction)
        ensures
            r == (Fraction { num: 0, den: 1 }),
            frac_wf(r),
    {
        proof {
            lemma_wf_unit_den(0);
        }
        Fraction { num: 0, den: 1 }
    }

    pub fn one() -> (r: Fraction)
        ensures
            r == (Fraction { num: 1, den: 1 }),
            frac_wf(r),
    {
        proof {
            lemma_wf_unit_den(1);
        }
        Fraction { num: 1, den: 1 }
    }

    pub fn minus_one() -> (r: Fraction)
        ensures
            r == (Fraction { num: -1i64, den: 1 }),
            frac_wf(r),
    {
        proof {
            lemma_wf_unit_den(-1);
        }
        Fraction { num: -1, den: 1 }
    }

    /// Exact sum, reduced.
    pub fn add(self, other: Fraction) -> (r: Fraction)
        requires
            frac_wf(self),
            frac_wf(other),
        ensures
            r == spec_frac_add(self, other),
            frac_wf(r),
    {
        proof {
            lemma_wide_bounds(self, other);
            lemma_reduce_wf(
                self.num * other.den + other.num * self.den,
                self.den * other.den,
            );
        }
        let n = (self.num as i128) * (other.den as i128) + (other.num as i128) * (self.den
            as i128);
        let d = (self.den as i128) * (other.den as i128);
        reduce_i128(n, d)
    }

    /// Exact difference, reduced.
    pub fn sub(self, other: Fraction) -> (r: Fraction)
        requires
            frac_wf(self),
            frac_wf(other),
        ensures
            r == spec_frac_sub(self, other),
            frac_wf(r),
    {
        proof {
            lemma_wide_bounds(self, other);
            lemma_reduce_wf(
                self.num * other.den - other.num * self.den,
                self.den * other.den,
            );
        }
        let n = (self.num as i128) * (other.den as i128) - (other.num as i128) * (self.den
            as i128);
        let d = (self.den as i128) * (other.den as i128);
        reduce_i128(n, d)
    }

    /// Exact product, reduced.
    pub fn mul(self, other: Fraction) -> (r: Fraction)
        requires
            frac_wf(self),
            frac_wf(other),
        ensures
            r == spec_frac_mul(self, other),
            frac_wf(r),
    {
        proof {
            lemma_wide_bounds(self, other);
            lemma_reduce_wf(self.num * other.num, self.den * other.den);
        }
        let n = (self.num as i128) * (other.num as i128);
        let d = (self.den as i128) * (other.den as i128);
        reduce_i128(n, d)
    }

    /// Exact quotient, reduced; division by zero gives the degenerate 0/1.
    pub fn div(self, other: Fraction) -> (r: Fraction)
        requires
            frac_wf(self),
            frac_wf(other),
        ensures
            r == spec_frac_div(self, other),
            frac_wf(r),
    {
        proof {
            lemma_wide_bounds(self, other);
            lemma_reduce_wf(self.num * other.den, self.den * other.num);
        }
        let n = (self.num as i128) * (other.den as i128);
        let d = (self.den as i128) * (other.num as i128);
        reduce_i128(n, d)
    }

    /// Integer power: 0 gives 1, a negative exponent raises the reciprocal.
    /// When an exact power would overflow the wide intermediates, the
    /// degenerate 0/1 is returned.
    pub fn pow(self, exp: i32) -> (r: Fraction)
        ensures
            r == spec_frac_pow(self, exp as int),
            frac_wf(r),
    {
        if exp == 0 {
            return Fraction::one();
        }
        let p: u32 = if exp < 0 {
            (-(exp as i64)) as u32
        } else {
            exp as u32
        };
        let np = pow_i128_checked(self.num, p);
        let dp = pow_i128_checked(self.den, p);
        match (np, dp) {
            (Some(nv), Some(dv)) => {
                proof {
                    lemma_reduce_wf(
                        if exp < 0 {
                            pow(self.den as int, nabs(exp as int))
                        } else {
                            pow(self.num as int, nabs(exp as int))
                        },
                        if exp < 0 {
                            pow(self.num as int, nabs(exp as int))
                        } else {
                            pow(self.den as int, nabs(exp as int))
                        },
                    );
                }
                if exp < 0 {
                    reduce_i128(dv, nv)
                } else {
                    reduce_i128(nv, dv)
                }
            },
            _ => {
                proof {
                    lemma_wf_unit_den(0);
                }
                Fraction { num: 0, den: 1 }
            },
        }
    }
}

/// The exact reduced sum of two fractions.
pub open spec fn spec_frac_add(a: Fraction, b: Fraction) -> Fraction {
    spec_reduce(a.num * b.den + b.num * a.den, a.den * b.den)
}

/// The exact reduced difference of two fractions.
pub open spec fn spec_frac_sub(a: Fraction, b: Fraction) -> Fraction {
    spec_reduce(a.num * b.den - b.num * a.den, a.den * b.den)
}

/// The exact reduced product of two fractions.
pub open spec fn spec_frac_mul(a: Fraction, b: Fraction) -> Fraction {
    spec_reduce(a.num * b.num, a.den * b.den)
}

/// The exact reduced quotient of two fractions (0/1 when dividing by zero).
pub open spec fn spec_frac_div(a: Fraction, b: Fraction) -> Fraction {
    spec_reduce(a.num * b.den, a.den * b.num)
}

/// Whether a value fits the symmetric wide intermediate range.
pub open spec fn fits_wide(x: int) -> bool {
    -(i128::MAX as int) <= x <= i128::MAX as int
}

/// The exact reduced power of a fraction, with the documented fallbacks.
pub open spec fn spec_frac_pow(f: Fraction, e: int) -> Fraction {
    if e == 0 {
        Fraction { num: 1, den: 1 }
    } else {
        let p = nabs(e);
        let np = pow(f.num as int, p);
        let dp = pow(f.den as int, p);
        if fits_wide(np) && fits_wide(dp) {
            if e < 0 {
                spec_reduce(dp, np)
            } else {
                spec_reduce(np, dp)
            }
        } else {
            Fraction { num: 0, den: 1 }
        }
    }
}

/// Products of two well-formed fractions' fields stay inside the wide range.
proof fn lemma_wide_bounds(a: Fraction, b: Fraction)
    requires
        frac_wf(a),
        frac_wf(b),
    ensures
        -0x3fff_ffff_ffff_ffff_8000_0000_0000_0000
            <= #[trigger] (a.num * b.den) <= 0x3fff_ffff_ffff_ffff_8000_0000_0000_0000,
        -0x4000_0000_0000_0000_0000_0000_0000_0000
            <= #[trigger] (a.num * b.num) <= 0x4000_0000_0000_0000_0000_0000_0000_0000,
        1 <= #[trigger] (a.den * b.den) <= 0x3fff_ffff_ffff_ffff_8000_0000_0000_0000,
        -0x3fff_ffff_ffff_ffff_8000_0000_0000_0000
            <= #[trigger] (a.den * b.num) <= 0x3fff_ffff_ffff_ffff_8000_0000_0000_0000,
        -0x3fff_ffff_ffff_ffff_8000_0000_0000_0000
            <= #[trigger] (b.num * a.den) <= 0x3fff_ffff_ffff_ffff_8000_0000_0000_0000,
{
    assert forall|x: int, y: int|
        -0x8000_0000_0000_0000 <= x <= 0x7fff_ffff_ffff_ffff && 1 <= y
            <= 0x7fff_ffff_ffff_ffff implies -0x3fff_ffff_ffff_ffff_8000_0000_0000_0000 <= #[trigger] (
    x * y) <= 0x3fff_ffff_ffff_ffff_8000_0000_0000_0000 by {
        assert(-0x3fff_ffff_ffff_ffff_8000_0000_0000_0000 <= x * y
            <= 0x3fff_ffff_ffff_ffff_8000_0000_0000_0000) by (nonlinear_arith)
            requires
                -0x8000_0000_0000_0000 <= x <= 0x7fff_ffff_ffff_ffff,
                1 <= y <= 0x7fff_ffff_ffff_ffff,
        ;
    }
    assert(a.num * b.num == b.num * a.num) by (nonlinear_arith);
    assert(-0x4000_0000_0000_0000_0000_0000_0000_0000 <= a.num * b.num
        <= 0x4000_0000_0000_0000_0000_0000_0000_0000) by (nonlinear_arith)
        requires
            -0x8000_0000_0000_0000 <= a.num <= 0x7fff_ffff_ffff_ffff,
            -0x8000_0000_0000_0000 <= b.num <= 0x7fff_ffff_ffff_ffff,
    ;
    assert(a.den * b.den >= 1) by (nonlinear_arith)
        requires
            a.den >= 1,
            b.den >= 1,
    ;
    assert(a.num * b.den == b.den * a.num) by (nonlinear_arith);
    assert(a.den * b.num == b.num * a.den) by (nonlinear_arith);
}

/// The magnitude of a product is the product of the magnitudes.
proof fn lemma_nabs_mul(x: int, y: int)
    ensures
        nabs(x * y) == nabs(x) * nabs(y),
{
    if x >= 0 && y >= 0 {
        assert(x * y >= 0) by (nonlinear_arith)
            requires
                x >= 0,
                y >= 0,
        ;
    } else if x < 0 && y >= 0 {
        assert(x * y <= 0 && (-x) * y == -(x * y)) by (nonlinear_arith)
            requires
                x < 0,
                y >= 0,
        ;
    } else if x >= 0 && y < 0 {
        assert(x * y <= 0 && x * (-y) == -(x * y)) by (nonlinear_arith)
            requires
                x >= 0,
                y < 0,
        ;
    } else {
        assert(x * y >= 0 && (-x) * (-y) == x * y) by (nonlinear_arith)
            requires
                x < 0,
                y < 0,
        ;
    }
}

/// The magnitude of a power is the power of the magnitude.
proof fn lemma_pow_nabs(b: int, e: nat)
    ensures
        nabs(pow(b, e)) == pow(nabs(b) as int, e),
    decreases e,
{
    reveal(pow);
    if e == 0 {
    } else {
        lemma_pow_nabs(b, (e - 1) as nat);
        assert(pow(b, e) == b * pow(b, (e - 1) as nat));
        lemma_nabs_mul(b, pow(b, (e - 1) as nat));
    }
}

/// For a nonzero base, the magnitude of a power grows with the exponent.
proof fn lemma_pow_nabs_mono(b: int, e1: nat, e2: nat)
    requires
        b != 0,
        e1 <= e2,
    ensures
        nabs(pow(b, e1)) <= nabs(pow(b, e2)),
{
    lemma_pow_nabs(b, e1);
    lemma_pow_nabs(b, e2);
    lemma_pow_increases(nabs(b), e1, e2);
}

/// Raise a 64-bit base to a power inside the wide symmetric range;
/// `None` exactly when the true power falls outside it.
fn pow_i128_checked(base: i64, p: u32) -> (r: Option<i128>)
    ensures
        match r {
            Some(v) => v == pow(base as int, p as nat) && fits_wide(v as int),
            None => !fits_wide(pow(base as int, p as nat)),
        },
{
    proof {
        reveal(pow);
    }
    let wide = base as i128;
    let mut acc: i128 = 1;
    let mut i: u32 = 0;
    while i < p
        invariant
            i <= p,
            wide as int == base as int,
            acc == pow(base as int, i as nat),
            fits_wide(acc as int),
        decreases p - i,
    {
        let ghost prev = acc as int;
        let next = acc.checked_mul(wide);
        proof {
            reveal(pow);
            assert(pow(base as int, (i + 1) as nat) == base as int * pow(base as int, i as nat));
            assert(wide as int == base as int);
            assert(base as int * prev == prev * (wide as int)) by (nonlinear_arith)
                requires
                    wide as int == base as int,
            ;
        }
        match next {
            Some(v) => {
                if v == i128::MIN {
                    proof {
                        assert(base != 0) by {
                            if base == 0 {
                                assert(prev * (wide as int) == 0) by (nonlinear_arith)
                                    requires
                                        wide as int == 0,
                                ;
                            }
                        }
                        lemma_pow_nabs_mono(base as int, (i + 1) as nat, p as nat);
                    }
                    return None;
                }
                acc = v;
                i = i + 1;
            },
            None => {
                proof {
                    assert(base != 0) by {
                        if base == 0 {
                            assert(prev * (wide as int) == 0) by (nonlinear_arith)
                                requires
                                    wide as int == 0,
                            ;
                        }
                    }
                    lemma_pow_nabs_mono(base as int, (i + 1) as nat, p as nat);
                }
                return None;
            },
        }
    }
    Some(acc)
}

/// Results of the four arithmetic operations are always well-formed.
pub proof fn lemma_frac_ops_wf(a: Fraction, b: Fraction)
    ensures
        frac_wf(spec_frac_add(a, b)),
        frac_wf(spec_frac_sub(a, b)),
        frac_wf(spec_frac_mul(a, b)),
        frac_wf(spec_frac_div(a, b)),
{
    lemma_reduce_wf(a.num * b.den + b.num * a.den, a.den * b.den);
    lemma_reduce_wf(a.num * b.den - b.num * a.den, a.den * b.den);
    lemma_reduce_wf(a.num * b.num, a.den * b.den);
    lemma_reduce_wf(a.num * b.den, a.den * b.num);
}

/// Results of the power operation are always well-formed.
pub proof fn lemma_frac_pow_wf(f: Fraction, e: int)
    ensures
        frac_wf(spec_frac_pow(f, e)),
{
    if e == 0 {
        lemma_wf_unit_den(1);
    } else {
        let p = nabs(e);
        let np = pow(f.num as int, p);
        let dp = pow(f.den as int, p);
        if fits_wide(np) && fits_wide(dp) {
            lemma_reduce_wf(dp, np);
            lemma_reduce_wf(np, dp);
        } else {
            lemma_wf_unit_den(0);
        }
    }
}

/// Powers of nonnegative bases are nonnegative and grow with the base.
proof fn lemma_pow_base_mono(b1: int, b2: int, e: nat)
    requires
        0 <= b1 <= b2,
    ensures
        0 <= pow(b1, e) <= pow(b2, e),
    decreases e,
{
    reveal(pow);
    if e == 0 {
    } else {
        lemma_pow_base_mono(b1, b2, (e - 1) as nat);
        assert(0 <= b1 * pow(b1, (e - 1) as nat) <= b2 * pow(b2, (e - 1) as nat))
            by (nonlinear_arith)
            requires
                0 <= b1 <= b2,
                0 <= pow(b1, (e - 1) as nat) <= pow(b2, (e - 1) as nat),
        ;
    }
}

/// An even power of any integer is nonnegative.
proof fn lemma_pow_even_nonneg(b: int, e: nat)
    requires
        e % 2 == 0,
    ensures
        pow(b, e) >= 0,
{
    let m = e / 2;
    assert(e == m + m);
    lemma_pow_adds(b, m, m);
    assert(pow(b, m) * pow(b, m) >= 0) by (nonlinear_arith);
}

/// Negating the base negates odd powers and keeps even ones.
proof fn lemma_pow_neg_base(b: int, e: nat)
    ensures
        pow(-b, e) == if e % 2 == 0 {
            pow(b, e)
        } else {
            -pow(b, e)
        },
    decreases e,
{
    reveal(pow);
    if e == 0 {
    } else {
        let e1 = (e - 1) as nat;
        lemma_pow_neg_base(b, e1);
        if e1 % 2 == 0 {
            assert((-b) * pow(b, e1) == -(b * pow(b, e1))) by (nonlinear_arith);
        } else {
            assert((-b) * (-pow(b, e1)) == b * pow(b, e1)) by (nonlinear_arith);
        }
    }
}

/// Compare `k` raised to the `n`-th power against `a`:
/// negative, zero or positive as the power is below, at or above `a`.
fn pow_cmp(k: u64, n: u32, a: u64) -> (c: i32)
    requires
        k <= 0x1_0000_0000,
        n >= 1,
    ensures
        c == 0 <==> pow(k as int, n as nat) == a as int,
        c < 0 <==> pow(k as int, n as nat) < a as int,
        c > 0 <==> pow(k as int, n as nat) > a as int,
{
    proof {
        reveal(pow);
    }
    let wide = a as u128;
    let mut acc: u128 = 1;
    let mut i: u32 = 0;
    while i < n
        invariant
            i <= n,
            n >= 1,
            k <= 0x1_0000_0000,
            wide == a as u128,
            acc == pow(k as int, i as nat),
            i == 0 ==> acc == 1,
            i > 0 ==> acc <= wide,
        decreases n - i,
    {
        proof {
            reveal(pow);
            assert(pow(k as int, (i + 1) as nat) == k as int * pow(k as int, i as nat));
            assert(k as int * acc as int == acc as int * k as int) by (nonlinear_arith);
            assert(acc as int * k as int <= 0xffff_ffff_ffff_ffff * 0x1_0000_0000)
                by (nonlinear_arith)
                requires
                    0 <= acc as int <= 0xffff_ffff_ffff_ffff,
                    0 <= k as int <= 0x1_0000_0000,
            ;
        }
        acc = acc * (k as u128);
        i = i + 1;
        if acc > wide {
            proof {
                assert(k >= 1) by {
                    if k == 0 {
                        lemma0_pow(i as nat);
                    }
                }
                lemma_pow_increases(k as nat, i as nat, n as nat);
            }
            return 1;
        }
    }
    if acc == wide {
        0
    } else {
        -1
    }
}

/// Search for a nonnegative integer whose `n`-th power is exactly `a`.
fn nth_root_u64(a: u64, n: u32) -> (r: Option<u64>)
    requires
        n >= 2,
    ensures
        match r {
            Some(k) => k <= 0x1_0000_0000 && pow(k as int, n as nat) == a as int,
            None => forall|k: int| k >= 0 ==> pow(k, n as nat) != a as int,
        },
{
    let mut lo: u64 = 0;
    let mut hi: u64 = 0x1_0000_0000;
    proof {
        lemma0_pow(n as nat);
        reveal_with_fuel(pow, 3);
        assert(pow(0x1_0000_0000, 2) == 0x1_0000_0000_0000_0000);
        lemma_pow_increases(0x1_0000_0000nat, 2nat, n as nat);
    }
    while lo + 1 < hi
        invariant
            lo < hi <= 0x1_0000_0000,
            n >= 2,
            pow(lo as int, n as nat) <= a as int,
            pow(hi as int, n as nat) > a as int,
        decreases hi - lo,
    {
        let mid = lo + (hi - lo) / 2;
        let c = pow_cmp(mid, n, a);
        if c <= 0 {
            lo = mid;
        } else {
            hi = mid;
        }
    }
    let c = pow_cmp(lo, n, a);
    if c == 0 {
        Some(lo)
    } else {
        proof {
            assert forall|k: int| k >= 0 implies pow(k, n as nat) != a as int by {
                if k <= lo as int {
                    lemma_pow_base_mono(k, lo as int, n as nat);
                } else {
                    lemma_pow_base_mono(hi as int, k, n as nat);
                }
            }
        }
        None
    }
}

/// Whether `k` has the sign the integer root of `v` is reported with.
pub open spec fn root_sign_ok(v: int, k: int) -> bool {
    (v >= 0 ==> k >= 0) && (v < 0 ==> k < 0)
}

/// The exact integer `n`-th root of `v`, when `v` is a perfect power.
pub open spec fn spec_nth_root(v: int, n: nat) -> Option<int> {
    if exists|k: int| #[trigger] pow(k, n) == v && root_sign_ok(v, k) {
        Some(choose|k: int| #[trigger] pow(k, n) == v && root_sign_ok(v, k))
    } else {
        None
    }
}

/// Powers of nonnegative bases grow strictly with the base.
proof fn lemma_pow_base_strict(b1: int, b2: int, e: nat)
    requires
        0 <= b1 < b2,
        e >= 1,
    ensures
        pow(b1, e) < pow(b2, e),
{
    reveal(pow);
    let e1 = (e - 1) as nat;
    lemma_pow_base_mono(b1, b2, e1);
    lemma_pow_positive(b2, e1);
    assert(b1 * pow(b1, e1) < b2 * pow(b2, e1)) by (nonlinear_arith)
        requires
            0 <= b1 < b2,
            0 <= pow(b1, e1) <= pow(b2, e1),
            pow(b2, e1) > 0,
    ;
}

/// A sign-normalized perfect root is unique.
proof fn lemma_root_unique(v: int, n: nat, k1: int, k2: int)
    requires
        n >= 1,
        pow(k1, n) == v,
        pow(k2, n) == v,
        root_sign_ok(v, k1),
        root_sign_ok(v, k2),
    ensures
        k1 == k2,
{
    if v >= 0 {
        if k1 < k2 {
            lemma_pow_base_strict(k1, k2, n);
        } else if k2 < k1 {
            lemma_pow_base_strict(k2, k1, n);
        }
    } else {
        if n % 2 == 0 {
            lemma_pow_even_nonneg(k1, n);
        } else {
            lemma_pow_neg_base(-k1, n);
            lemma_pow_neg_base(-k2, n);
            if -k1 < -k2 {
                lemma_pow_base_strict(-k1, -k2, n);
            } else if -k2 < -k1 {
                lemma_pow_base_strict(-k2, -k1, n);
            }
        }
    }
}

/// The integer `n`-th root of `val`, only when `val` is a perfect `n`-th
/// power (negative values handled for odd `n`); `None` otherwise.
pub fn exact_nth_root(val: i64, n: i32) -> (r: Option<i64>)
    requires
        n >= 1,
    ensures
        match r {
            Some(k) => pow(k as int, n as nat) == val as int && (val >= 0 ==> k >= 0) && (val < 0
                ==> k < 0),
            None => forall|k: int| #[trigger] pow(k, n as nat) != val as int,
        },
        r == match spec_nth_root(val as int, n as nat) {
            Some(k) => Some(k as i64),
            None => None::<i64>,
        },
{
    proof {
        lemma_exact_nth_root_canonical(val as int, n as nat);
    }
    if n == 1 {
        proof {
            lemma_pow1(val as int);
        }
        return Some(val);
    }
    let nn = n as u32;
    let a: u64 = if val < 0 {
        (-(val as i128)) as u64
    } else {
        val as u64
    };
    if val < 0 && n % 2 == 0 {
        proof {
            assert forall|k: int| #[trigger] pow(k, nn as nat) != val as int by {
                lemma_pow_even_nonneg(k, nn as nat);
            }
        }
        return None;
    }
    let root = nth_root_u64(a, nn);
    match root {
        Some(k) => {
            if val < 0 {
                proof {
                    lemma_pow_neg_base(k as int, nn as nat);
                    assert(k >= 1) by {
                        if k == 0 {
                            lemma0_pow(nn as nat);
                        }
                    }
                }
                Some(-(k as i64))
            } else {
                Some(k as i64)
            }
        },
        None => {
            proof {
                assert forall|k: int| #[trigger] pow(k, nn as nat) != val as int by {
                    if k >= 0 {
                        if val < 0 {
                            lemma_pow_base_mono(0, k, nn as nat);
                            lemma0_pow(nn as nat);
                        }
                    } else {
                        lemma_pow_neg_base(-k, nn as nat);
                        if nn % 2 == 0 {
                        } else {
                            if val >= 0 {
                                assert(pow(-k, nn as nat) > 0) by {
                                    lemma_pow_positive(-k, nn as nat);
                                }
                            }
                        }
                    }
                }
            }
            None
        },
    }
}

/// Ties the descriptive root contract to the canonical root function.
pub proof fn lemma_exact_nth_root_canonical(v: int, n: nat)
    requires
        n >= 1,
    ensures
        forall|k: int|
            #[trigger] pow(k, n) == v && root_sign_ok(v, k) ==> spec_nth_root(v, n) == Some(k),
        (forall|k: int| #[trigger] pow(k, n) != v) ==> spec_nth_root(v, n) is None,
{
    assert forall|k: int| #[trigger] pow(k, n) == v && root_sign_ok(v, k) implies spec_nth_root(
        v,
        n,
    ) == Some(k) by {
        let kc = choose|kk: int| #[trigger] pow(kk, n) == v && root_sign_ok(v, kk);
        lemma_root_unique(v, n, k, kc);
    }
}

} // verus!
