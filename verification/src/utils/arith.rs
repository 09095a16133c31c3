//! Integer facts behind the normal form of a fraction: greatest common
//! divisors, coprimality and the uniqueness of lowest terms.

use vstd::arithmetic::div_mod::lemma_fundamental_div_mod;
use vstd::arithmetic::div_mod::lemma_mod_multiples_basic;
use vstd::arithmetic::div_mod::lemma_truncate_middle;
use vstd::prelude::*;

verus! {

/// Absolute value of a mathematical integer.
pub open spec fn abs(a: int) -> nat {
    if a < 0 {
        (-a) as nat
    } else {
        a as nat
    }
}

/// Greatest common divisor by Euclid's recurrence; `gcd(0, 0)` is `0`.
pub open spec fn gcd(a: nat, b: nat) -> nat
    decreases b,
{
    if b == 0 {
        a
    } else {
        gcd(b, a % b)
    }
}

/// A multiple of `g` times anything, plus a multiple of `g`, is a multiple of `g`.
pub proof fn lemma_multiple_combination(g: int, x: int, q: int, y: int)
    requires
        g > 0,
        x % g == 0,
        y % g == 0,
    ensures
        (x * q + y) % g == 0,
{
    lemma_fundamental_div_mod(x, g);
    lemma_fundamental_div_mod(y, g);
    let k = (x / g) * q + (y / g);
    assert(x * q + y == k * g) by (nonlinear_arith)
        requires
            x == g * (x / g),
            y == g * (y / g),
            k == (x / g) * q + (y / g),
    ;
    lemma_mod_multiples_basic(k, g);
}

/// The greatest common divisor of two numbers, not both zero, is positive
/// and divides each of them.
pub proof fn lemma_gcd_divides(a: nat, b: nat)
    requires
        a > 0 || b > 0,
    ensures
        gcd(a, b) > 0,
        a % gcd(a, b) == 0,
        b % gcd(a, b) == 0,
    decreases b,
{
    if b == 0 {
        lemma_mod_multiples_basic(1, a as int);
        lemma_mod_multiples_basic(0, a as int);
    } else {
        lemma_gcd_divides(b, a % b);
        let g = gcd(b, a % b) as int;
        lemma_fundamental_div_mod(a as int, b as int);
        lemma_multiple_combination(g, b as int, (a / b) as int, (a % b) as int);
    }
}

/// Every common divisor of two numbers divides their greatest common divisor.
pub proof fn lemma_gcd_greatest(a: nat, b: nat, d: nat)
    requires
        d > 0,
        a % d == 0,
        b % d == 0,
    ensures
        gcd(a, b) % d == 0,
    decreases b,
{
    if b != 0 {
        lemma_fundamental_div_mod(a as int, b as int);
        lemma_multiple_combination(d as int, b as int, -((a / b) as int), a as int);
        assert((b as int) * (-((a / b) as int)) + (a as int) == (a % b) as int) by (nonlinear_arith)
            requires
                a as int == (b as int) * ((a / b) as int) + ((a % b) as int),
        ;
        lemma_gcd_greatest(b, a % b, d);
    }
}

/// Scaling both arguments scales the greatest common divisor.
pub proof fn lemma_gcd_scale(a: nat, b: nat, c: nat)
    requires
        c > 0,
    ensures
        gcd(c * a, c * b) == c * gcd(a, b),
    decreases b,
{
    if b == 0 {
        assert(c * b == 0) by (nonlinear_arith)
            requires
                b == 0,
        ;
    } else {
        lemma_truncate_middle(a as int, c as int, b as int);
        assert(c * b > 0) by (nonlinear_arith)
            requires
                c > 0,
                b > 0,
        ;
        assert((c * a) % (c * b) == c * (a % b));
        lemma_gcd_scale(b, a % b, c);
    }
}

/// Two positive numbers that divide each other are equal.
pub proof fn lemma_mutual_divisors_equal(a: nat, b: nat)
    requires
        a > 0,
        b > 0,
        a % b == 0,
        b % a == 0,
    ensures
        a == b,
{
    lemma_fundamental_div_mod(a as int, b as int);
    lemma_fundamental_div_mod(b as int, a as int);
    let p = (a / b) as int;
    let q = (b / a) as int;
    assert(a == b) by (nonlinear_arith)
        requires
            a > 0,
            b > 0,
            a as int == (b as int) * p,
            b as int == (a as int) * q,
    ;
}

/// The greatest common divisor does not depend on the order of its arguments.
pub proof fn lemma_gcd_symmetric(a: nat, b: nat)
    ensures
        gcd(a, b) == gcd(b, a),
{
    if a == 0 && b == 0 {
    } else {
        lemma_gcd_divides(a, b);
        lemma_gcd_divides(b, a);
        lemma_gcd_greatest(a, b, gcd(b, a));
        lemma_gcd_greatest(b, a, gcd(a, b));
        lemma_mutual_divisors_equal(gcd(a, b), gcd(b, a));
    }
}

/// Dividing two numbers by their greatest common divisor leaves them coprime.
pub proof fn lemma_gcd_quotients_coprime(a: nat, b: nat)
    requires
        a > 0 || b > 0,
    ensures
        gcd(a / gcd(a, b), b / gcd(a, b)) == 1,
        a == gcd(a, b) * (a / gcd(a, b)),
        b == gcd(a, b) * (b / gcd(a, b)),
{
    lemma_gcd_divides(a, b);
    let g = gcd(a, b);
    lemma_fundamental_div_mod(a as int, g as int);
    lemma_fundamental_div_mod(b as int, g as int);
    lemma_gcd_scale(a / g, b / g, g);
    let h = gcd(a / g, b / g);
    assert(h == 1) by (nonlinear_arith)
        requires
            g > 0,
            g == g * h,
    ;
}

/// Euclid's lemma: a number coprime to `b` that divides `b * c` divides `c`.
pub proof fn lemma_coprime_divides_product(a: nat, b: nat, c: nat)
    requires
        a > 0,
        gcd(a, b) == 1,
        (b * c) % a == 0,
    ensures
        c % a == 0,
{
    if c == 0 {
        lemma_mod_multiples_basic(0, a as int);
    } else {
        lemma_gcd_scale(a, b, c);
        lemma_mod_multiples_basic(c as int, a as int);
        assert(c * a == (c as int) * (a as int));
        assert(c * b == b * c) by (nonlinear_arith);
        lemma_gcd_greatest(c * a, c * b, a);
        assert(c * gcd(a, b) == c) by (nonlinear_arith)
            requires
                gcd(a, b) == 1,
        ;
    }
}

/// A fraction in lowest terms with a positive denominator is determined by
/// its value: two such fractions with equal cross products are the same.
pub proof fn lemma_lowest_terms_unique(x: int, y: int, u: int, v: int)
    requires
        y > 0,
        v > 0,
        gcd(abs(x), abs(y)) == 1,
        gcd(abs(u), abs(v)) == 1,
        x * v == u * y,
    ensures
        x == u,
        y == v,
{
    let ax = abs(x);
    let au = abs(u);
    let ny = abs(y);
    let nv = abs(v);
    assert(ax * nv == au * ny) by (nonlinear_arith)
        requires
            x * v == u * y,
            y > 0,
            v > 0,
            ax == abs(x),
            au == abs(u),
            ny == abs(y),
            nv == abs(v),
    ;
    lemma_gcd_symmetric(ax, ny);
    lemma_gcd_symmetric(au, nv);
    lemma_mod_multiples_basic(au as int, ny as int);
    lemma_mod_multiples_basic(ax as int, nv as int);
    assert(au * ny == (au as int) * (ny as int));
    assert(ax * nv == (ax as int) * (nv as int));
    lemma_coprime_divides_product(ny, ax, nv);
    lemma_coprime_divides_product(nv, au, ny);
    lemma_mutual_divisors_equal(ny, nv);
    assert(x == u) by (nonlinear_arith)
        requires
            x * v == u * y,
            y == v,
            y > 0,
    ;
}

} // verus!
