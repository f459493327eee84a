//! Divisibility and greatest-common-divisor facts used by the fraction type.

use vstd::prelude::*;
use vstd::arithmetic::div_mod::{
    lemma_fundamental_div_mod, lemma_mod_division_less_than_divisor, lemma_mod_is_zero,
};
use vstd::arithmetic::mul::{lemma_mul_inequality, lemma_mul_is_commutative};

verus! {

/// `d` divides `n` exactly.
pub open spec fn divides(d: int, n: int) -> bool {
    exists|k: int| n == #[trigger] (d * k)
}

/// Greatest common divisor of two naturals, by Euclid's algorithm.
pub open spec fn gcd_nat(a: nat, b: nat) -> nat
    decreases b,
{
    if b == 0 {
        a
    } else {
        gcd_nat(b, (a % b) as nat)
    }
}

/// A common divisor of `a` and `b` also divides `a % b`.
pub proof fn lemma_divides_mod(d: int, a: int, b: int)
    requires
        divides(d, a),
        divides(d, b),
        b != 0,
    ensures
        divides(d, a % b),
{
    let k1 = choose|k: int| a == #[trigger] (d * k);
    let k2 = choose|k: int| b == #[trigger] (d * k);
    lemma_fundamental_div_mod(a, b);
    let q = a / b;
    assert(a % b == a - b * q);
    assert(a - b * q == d * (k1 - k2 * q)) by (nonlinear_arith)
        requires
            a == d * k1,
            b == d * k2,
    ;
}

/// A divisor of `b` and of `a % b` also divides `a`.
pub proof fn lemma_divides_mod_back(d: int, a: int, b: int)
    requires
        divides(d, b),
        divides(d, a % b),
        b != 0,
    ensures
        divides(d, a),
{
    let k1 = choose|k: int| b == #[trigger] (d * k);
    let k2 = choose|k: int| a % b == #[trigger] (d * k);
    lemma_fundamental_div_mod(a, b);
    let q = a / b;
    assert(a == b * q + a % b);
    assert(b * q + a % b == d * (k1 * q + k2)) by (nonlinear_arith)
        requires
            b == d * k1,
            a % b == d * k2,
    ;
}

/// The gcd divides both of its arguments.
pub proof fn lemma_gcd_divides(a: nat, b: nat)
    ensures
        divides(gcd_nat(a, b) as int, a as int),
        divides(gcd_nat(a, b) as int, b as int),
    decreases b,
{
    if b == 0 {
        assert(a as int == (a as int) * 1);
        assert(0int == (a as int) * 0);
    } else {
        let r = (a as int % b as int) as nat;
        lemma_mod_division_less_than_divisor(a as int, b as int);
        lemma_gcd_divides(b, r);
        let g = gcd_nat(b, r) as int;
        lemma_divides_mod_back(g, a as int, b as int);
    }
}

/// Any common divisor of `a` and `b` divides their gcd.
pub proof fn lemma_gcd_greatest(a: nat, b: nat, d: int)
    requires
        divides(d, a as int),
        divides(d, b as int),
    ensures
        divides(d, gcd_nat(a, b) as int),
    decreases b,
{
    if b == 0 {
    } else {
        let r = (a as int % b as int) as nat;
        lemma_mod_division_less_than_divisor(a as int, b as int);
        lemma_divides_mod(d, a as int, b as int);
        lemma_gcd_greatest(b, r, d);
    }
}

/// The gcd of two naturals, not both zero, is positive.
pub proof fn lemma_gcd_pos(a: nat, b: nat)
    requires
        a > 0 || b > 0,
    ensures
        gcd_nat(a, b) > 0,
    decreases b,
{
    if b == 0 {
    } else {
        let r = (a as int % b as int) as nat;
        lemma_mod_division_less_than_divisor(a as int, b as int);
        lemma_gcd_pos(b, r);
    }
}

/// A positive divisor of a positive number is no larger than it.
pub proof fn lemma_divides_le(d: int, n: int)
    requires
        divides(d, n),
        d > 0,
        n > 0,
    ensures
        d <= n,
{
    let k = choose|kk: int| n == #[trigger] (d * kk);
    assert(k >= 1) by (nonlinear_arith)
        requires
            n == d * k,
            d > 0,
            n > 0,
    ;
    lemma_mul_inequality(1, k, d);
    lemma_mul_is_commutative(d, k);
}

/// After dividing two naturals by their gcd, the results are coprime.
pub proof fn lemma_gcd_div_coprime(a: nat, b: nat)
    requires
        a > 0 || b > 0,
    ensures
        gcd_nat(a / gcd_nat(a, b), b / gcd_nat(a, b)) == 1,
{
    let g = gcd_nat(a, b) as int;
    lemma_gcd_pos(a, b);
    lemma_gcd_divides(a, b);
    let ka = choose|k: int| a as int == #[trigger] (g * k);
    let kb = choose|k: int| b as int == #[trigger] (g * k);
    assert(ka >= 0) by (nonlinear_arith)
        requires
            a as int == g * ka,
            g > 0,
            a >= 0,
    ;
    assert(kb >= 0) by (nonlinear_arith)
        requires
            b as int == g * kb,
            g > 0,
            b >= 0,
    ;
    lemma_div_exact(a as int, g, ka);
    lemma_div_exact(b as int, g, kb);
    let h = gcd_nat(ka as nat, kb as nat) as int;
    assert(g * 0 == 0);
    assert(ka > 0 || kb > 0);
    lemma_gcd_pos(ka as nat, kb as nat);
    lemma_gcd_divides(ka as nat, kb as nat);
    let ha = choose|k: int| ka == #[trigger] (h * k);
    let hb = choose|k: int| kb == #[trigger] (h * k);
    assert(a as int == (g * h) * ha) by (nonlinear_arith)
        requires
            a as int == g * ka,
            ka == h * ha,
    ;
    assert(b as int == (g * h) * hb) by (nonlinear_arith)
        requires
            b as int == g * kb,
            kb == h * hb,
    ;
    lemma_gcd_greatest(a, b, g * h);
    assert(g * h > 0) by (nonlinear_arith)
        requires
            g > 0,
            h > 0,
    ;
    lemma_divides_le(g * h, g);
    assert(h == 1) by (nonlinear_arith)
        requires
            g * h <= g,
            g > 0,
            h > 0,
    ;
}

/// Exact division: when `n == d * k` with `d != 0`, then `n / d == k`.
pub proof fn lemma_div_exact(n: int, d: int, k: int)
    requires
        n == d * k,
        d > 0,
    ensures
        n / d == k,
{
    lemma_mod_is_zero_general(n, d, k);
    lemma_fundamental_div_mod(n, d);
    assert(n == d * (n / d));
    assert(n / d == k) by (nonlinear_arith)
        requires
            n == d * (n / d),
            n == d * k,
            d > 0,
    ;
}

proof fn lemma_mod_is_zero_general(n: int, d: int, k: int)
    requires
        n == d * k,
        d > 0,
    ensures
        n % d == 0,
{
    lemma_mul_is_commutative(d, k);
    vstd::arithmetic::div_mod::lemma_mod_multiples_basic(k, d);
}

} // verus!
