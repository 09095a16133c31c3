//! The mathematical model of an extended rational number: a fraction in
//! lowest terms whose zero denominator stands for an infinity.

use crate::utils::arith::abs;
use crate::utils::arith::gcd;
use crate::utils::arith::lemma_gcd_quotients_coprime;
use crate::utils::arith::lemma_lowest_terms_unique;
use crate::utils::text::decimal;
use crate::utils::text::signed_decimal;
use vstd::prelude::*;

verus! {

/// A numerator and a denominator over the mathematical integers.
///
/// A `Ratio` with a positive denominator is the finite number `num / den`;
/// `1 / 0` is positive infinity and `-1 / 0` negative infinity.
pub struct Ratio {
    pub num: int,
    pub den: int,
}

impl Ratio {
    /// Lowest terms with a non-negative denominator. The pair `0 / 0` is not normal.
    pub open spec fn is_normal(self) -> bool {
        self.den >= 0 && gcd(abs(self.num), abs(self.den)) == 1
    }

    /// The normal form of `n / d`: both divided by their greatest common
    /// divisor, with the sign carried by the numerator.
    pub open spec fn normalized(n: int, d: int) -> Ratio {
        let g = gcd(abs(n), abs(d)) as int;
        let m = (abs(n) as int) / g;
        Ratio { num: if (n < 0) != (d < 0) { -m } else { m }, den: (abs(d) as int) / g }
    }

    /// The integer `k` as a ratio.
    pub open spec fn from_int(k: int) -> Ratio {
        Ratio { num: k, den: 1 }
    }

    /// The machine integer `k` as a ratio.
    pub open spec fn of_i64(k: i64) -> Ratio {
        Ratio { num: k as int, den: 1 }
    }

    pub open spec fn zero() -> Ratio {
        Ratio { num: 0, den: 1 }
    }

    pub open spec fn positive_infinity() -> Ratio {
        Ratio { num: 1, den: 0 }
    }

    pub open spec fn negative_infinity() -> Ratio {
        Ratio { num: -1, den: 0 }
    }

    /// Both parts can be held in signed 64-bit integers.
    pub open spec fn fits(self) -> bool {
        i64::MIN <= self.num <= i64::MAX && 0 <= self.den <= i64::MAX
    }

    pub open spec fn negated(self) -> Ratio {
        Ratio { num: -self.num, den: self.den }
    }

    /// A sum is defined unless it adds infinities of opposite sign.
    pub open spec fn plus_defined(self, other: Ratio) -> bool {
        !(self.den == 0 && other.den == 0 && self.num != other.num)
    }

    pub open spec fn plus(self, other: Ratio) -> Ratio {
        if self.den == 0 {
            self
        } else if other.den == 0 {
            other
        } else {
            Ratio::normalized(self.num * other.den + other.num * self.den, self.den * other.den)
        }
    }

    /// A difference is defined unless it subtracts an infinity from itself.
    pub open spec fn minus_defined(self, other: Ratio) -> bool {
        !(self.den == 0 && other.den == 0 && self.num == other.num)
    }

    pub open spec fn minus(self, other: Ratio) -> Ratio {
        if self.den == 0 {
            self
        } else if other.den == 0 {
            other.negated()
        } else {
            Ratio::normalized(self.num * other.den - other.num * self.den, self.den * other.den)
        }
    }

    /// A product is defined unless one factor is zero and the other infinite.
    pub open spec fn times_defined(self, other: Ratio) -> bool {
        !((self.num == 0 && other.den == 0) || (self.den == 0 && other.num == 0))
    }

    pub open spec fn times(self, other: Ratio) -> Ratio {
        Ratio::normalized(self.num * other.num, self.den * other.den)
    }

    /// A quotient is defined unless both operands are zero or both infinite.
    pub open spec fn over_defined(self, other: Ratio) -> bool {
        !(self.num == 0 && other.num == 0) && !(self.den == 0 && other.den == 0)
    }

    pub open spec fn over(self, other: Ratio) -> Ratio {
        Ratio::normalized(self.num * other.den, self.den * other.num)
    }

    /// Strict order of the extended rationals, by cross multiplication.
    pub open spec fn lt(self, other: Ratio) -> bool {
        if self.den == 0 && other.den == 0 {
            self.num < other.num
        } else {
            self.num * other.den < other.num * self.den
        }
    }

    pub open spec fn le(self, other: Ratio) -> bool {
        self.lt(other) || self == other
    }

    /// The text of a ratio: an infinity sign, a bare integer, or `num/den`.
    pub open spec fn text(self) -> Seq<char> {
        if self.den == 0 {
            if self.num > 0 {
                seq!['∞']
            } else {
                seq!['-', '∞']
            }
        } else if self.den == 1 {
            signed_decimal(self.num)
        } else {
            signed_decimal(self.num) + seq!['/'] + decimal(abs(self.den))
        }
    }
}

/// Normalising any pair other than `0 / 0` gives lowest terms with a
/// non-negative denominator, and the same value.
pub proof fn lemma_normalized_is_normal(n: int, d: int)
    requires
        n != 0 || d != 0,
    ensures
        Ratio::normalized(n, d).is_normal(),
        Ratio::normalized(n, d).num * d == n * Ratio::normalized(n, d).den,
        d != 0 ==> Ratio::normalized(n, d).den > 0,
        d == 0 ==> Ratio::normalized(n, d).den == 0,
        (Ratio::normalized(n, d).num == 0) == (n == 0),
{
    let a = abs(n);
    let b = abs(d);
    lemma_gcd_quotients_coprime(a, b);
    let g = gcd(a, b) as int;
    let m = (a as int) / g;
    let e = (b as int) / g;
    let q = Ratio::normalized(n, d);
    assert(a / gcd(a, b) == m);
    assert(b / gcd(a, b) == e);
    assert(abs(q.num) == m);
    assert(abs(q.den) == e);
    assert(g > 0) by {
        crate::utils::arith::lemma_gcd_divides(a, b);
    }
    assert(q.num * d == n * q.den) by (nonlinear_arith)
        requires
            a as int == g * m,
            b as int == g * e,
            a == abs(n),
            b == abs(d),
            q.den == e,
            q.num == (if (n < 0) != (d < 0) { -m } else { m }),
    ;
    assert(d != 0 ==> e > 0) by (nonlinear_arith)
        requires
            b as int == g * e,
            b == abs(d),
            g > 0,
            e >= 0,
    ;
    assert(d == 0 ==> e == 0) by (nonlinear_arith)
        requires
            b as int == g * e,
            b == abs(d),
            g > 0,
    ;
    assert((m == 0) == (n == 0)) by (nonlinear_arith)
        requires
            a as int == g * m,
            a == abs(n),
            g > 0,
    ;
}

/// A normal ratio is the normal form of every pair with the same value.
pub proof fn lemma_normalized_unique(n: int, d: int, r: Ratio)
    requires
        r.is_normal(),
        r.den > 0,
        d != 0,
        r.num * d == n * r.den,
    ensures
        Ratio::normalized(n, d) == r,
{
    lemma_normalized_is_normal(n, d);
    let q = Ratio::normalized(n, d);
    assert(q.num * r.den == r.num * q.den) by (nonlinear_arith)
        requires
            q.num * d == n * q.den,
            r.num * d == n * r.den,
            d != 0,
    ;
    lemma_lowest_terms_unique(q.num, q.den, r.num, r.den);
}

/// A normal ratio is its own normal form.
pub proof fn lemma_normal_is_fixed(r: Ratio)
    requires
        r.is_normal(),
    ensures
        Ratio::normalized(r.num, r.den) == r,
{
    if r.den > 0 {
        lemma_normalized_unique(r.num, r.den, r);
    } else {
        assert(gcd(abs(r.num), 0) == abs(r.num));
        assert(abs(r.num) == 1);
        assert(1int / 1int == 1int);
        assert(0int / 1int == 0int);
    }
}

/// The infinities are the only normal ratios with a zero denominator.
pub proof fn lemma_normal_cases(r: Ratio)
    requires
        r.is_normal(),
    ensures
        r.den > 0 || r == Ratio::positive_infinity() || r == Ratio::negative_infinity(),
{
    if r.den == 0 {
        assert(gcd(abs(r.num), 0) == abs(r.num));
    }
}

/// Adding zero changes nothing.
pub proof fn lemma_plus_zero(r: Ratio)
    requires
        r.is_normal(),
    ensures
        r.plus(Ratio::zero()) == r,
        r.plus_defined(Ratio::zero()),
{
    if r.den != 0 {
        lemma_normal_is_fixed(r);
        assert(r.num * 1 + 0 * r.den == r.num);
        assert(r.den * 1 == r.den);
    }
}

/// Subtracting zero changes nothing.
pub proof fn lemma_minus_zero(r: Ratio)
    requires
        r.is_normal(),
    ensures
        r.minus(Ratio::zero()) == r,
        r.minus_defined(Ratio::zero()),
{
    if r.den != 0 {
        lemma_normal_is_fixed(r);
        assert(r.num * 1 - 0 * r.den == r.num);
        assert(r.den * 1 == r.den);
    }
}

/// Subtracting what was added gives the first number back, whenever
/// neither step meets an indeterminate form.
pub proof fn lemma_plus_minus_cancels(r: Ratio, s: Ratio)
    requires
        r.is_normal(),
        s.is_normal(),
        r.plus_defined(s),
        r.plus(s).minus_defined(s),
    ensures
        r.plus(s).minus(s) == r,
{
    lemma_normal_cases(r);
    lemma_normal_cases(s);
    if r.den > 0 && s.den > 0 {
        let n = r.num * s.den + s.num * r.den;
        let d = r.den * s.den;
        assert(d > 0) by (nonlinear_arith)
            requires
                d == r.den * s.den,
                r.den > 0,
                s.den > 0,
        ;
        lemma_normalized_is_normal(n, d);
        let p = Ratio::normalized(n, d);
        let n2 = p.num * s.den - s.num * p.den;
        let d2 = p.den * s.den;
        assert(d2 > 0) by (nonlinear_arith)
            requires
                d2 == p.den * s.den,
                p.den > 0,
                s.den > 0,
        ;
        assert(p.num * d == p.num * s.den * r.den) by (nonlinear_arith)
            requires
                d == r.den * s.den,
        ;
        assert(n * p.den == r.num * s.den * p.den + s.num * p.den * r.den) by (nonlinear_arith)
            requires
                n == r.num * s.den + s.num * r.den,
        ;
        assert(n2 * r.den == p.num * s.den * r.den - s.num * p.den * r.den) by (nonlinear_arith)
            requires
                n2 == p.num * s.den - s.num * p.den,
        ;
        assert(r.num * d2 == r.num * s.den * p.den) by (nonlinear_arith)
            requires
                d2 == p.den * s.den,
        ;
        lemma_normalized_unique(n2, d2, r);
    }
}

/// Of two different normal ratios one is below the other.
pub proof fn lemma_lt_total(a: Ratio, b: Ratio)
    requires
        a.is_normal(),
        b.is_normal(),
    ensures
        a.lt(b) || b.lt(a) || a == b,
        !(a.lt(b) && b.lt(a)),
{
    lemma_normal_cases(a);
    lemma_normal_cases(b);
    if a.den > 0 && b.den > 0 {
        if a.num * b.den == b.num * a.den {
            lemma_lowest_terms_unique(a.num, a.den, b.num, b.den);
        }
    } else if a.den > 0 {
        assert(a.num * 0 == 0);
        assert(b.num * a.den != 0) by (nonlinear_arith)
            requires
                b.num != 0,
                a.den > 0,
        ;
    } else if b.den > 0 {
        assert(b.num * 0 == 0);
        assert(a.num * b.den != 0) by (nonlinear_arith)
            requires
                a.num != 0,
                b.den > 0,
        ;
    }
}

/// The order is transitive.
pub proof fn lemma_lt_transitive(a: Ratio, b: Ratio, c: Ratio)
    requires
        a.is_normal(),
        b.is_normal(),
        c.is_normal(),
        a.lt(b),
        b.lt(c),
    ensures
        a.lt(c),
{
    lemma_normal_cases(a);
    lemma_normal_cases(b);
    lemma_normal_cases(c);
    assert(a.lt(c)) by (nonlinear_arith)
        requires
            a.den > 0 || (a.den == 0 && (a.num == 1 || a.num == -1)),
            b.den > 0 || (b.den == 0 && (b.num == 1 || b.num == -1)),
            c.den > 0 || (c.den == 0 && (c.num == 1 || c.num == -1)),
            if a.den == 0 && b.den == 0 {
                a.num < b.num
            } else {
                a.num * b.den < b.num * a.den
            },
            if b.den == 0 && c.den == 0 {
                b.num < c.num
            } else {
                b.num * c.den < c.num * b.den
            },
            a.lt(c) == (if a.den == 0 && c.den == 0 {
                a.num < c.num
            } else {
                a.num * c.den < c.num * a.den
            }),
    ;
}

/// Adding a positive integer to a finite ratio gives a greater one.
pub proof fn lemma_plus_positive_is_greater(r: Ratio, k: int)
    requires
        r.is_normal(),
        r.den > 0,
        k > 0,
    ensures
        r.lt(r.plus(Ratio::from_int(k))),
{
    let n = r.num * 1 + k * r.den;
    let d = r.den * 1;
    lemma_normalized_is_normal(n, d);
    let q = Ratio::normalized(n, d);
    assert(r.num * q.den < q.num * r.den) by (nonlinear_arith)
        requires
            q.num * d == n * q.den,
            n == r.num * 1 + k * r.den,
            d == r.den * 1,
            r.den > 0,
            q.den > 0,
            k > 0,
    ;
}

} // verus!
