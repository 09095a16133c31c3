//! Exact rational numbers with signed infinities, always in normal form.

use crate::utils::arith;
use crate::utils::ratio::lemma_normal_is_fixed;
use crate::utils::ratio::lemma_normalized_is_normal;
use crate::utils::ratio::Ratio;
use std::cmp::Ordering;
use crate::utils::text::append_decimal;
use crate::utils::text::append_signed_decimal;
use vstd::prelude::*;
use vstd::string::StringExecFns;
use vstd::std_specs::cmp::PartialEqSpecImpl;
use vstd::std_specs::cmp::PartialOrdSpecImpl;
use vstd::std_specs::convert::FromSpecImpl;
use vstd::std_specs::ops::AddSpecImpl;
use vstd::std_specs::ops::DivSpecImpl;
use vstd::std_specs::ops::MulSpecImpl;
use vstd::std_specs::ops::NegSpecImpl;
use vstd::std_specs::ops::SubSpecImpl;

verus! {

/// A rational number held as a numerator and a denominator of 64 bits each.
///
/// Every value is in normal form: the denominator is never negative, the
/// two parts share no divisor, and a zero denominator stands for an
/// infinity whose sign is that of the numerator.
#[derive(Clone, Copy, Debug)]
pub struct Rational {
    num: i64,
    den: i64,
}

impl View for Rational {
    type V = Ratio;

    closed spec fn view(&self) -> Ratio {
        Ratio { num: self.num as int, den: self.den as int }
    }
}

/// Greatest common divisor of two unsigned numbers, by Euclid's algorithm.
fn gcd(a: u128, b: u128) -> (g: u128)
    ensures
        g == arith::gcd(a as nat, b as nat),
{
    let mut x: u128 = a;
    let mut y: u128 = b;
    while y != 0
        invariant
            arith::gcd(x as nat, y as nat) == arith::gcd(a as nat, b as nat),
        decreases y,
    {
        let r: u128 = x % y;
        x = y;
        y = r;
    }
    x
}

/// The magnitude of a wide integer.
fn magnitude(n: i128) -> (m: u128)
    requires
        n > i128::MIN,
    ensures
        m == arith::abs(n as int),
{
    if n < 0 {
        (-n) as u128
    } else {
        n as u128
    }
}

/// The product of two 64-bit integers stays well inside 128 bits.
proof fn lemma_product_bound(a: int, b: int)
    requires
        i64::MIN <= a <= i64::MAX,
        i64::MIN <= b <= i64::MAX,
    ensures
        -0x4000_0000_0000_0000_0000_0000_0000_0000 <= a * b
            <= 0x4000_0000_0000_0000_0000_0000_0000_0000,
{
    assert(-0x4000_0000_0000_0000_0000_0000_0000_0000 <= a * b
        <= 0x4000_0000_0000_0000_0000_0000_0000_0000) by (nonlinear_arith)
        requires
            -0x8000_0000_0000_0000 <= a <= 0x8000_0000_0000_0000,
            -0x8000_0000_0000_0000 <= b <= 0x8000_0000_0000_0000,
    ;
}

/// The product of a 64-bit integer and a denominator leaves room to add two of them.
proof fn lemma_scaled_bound(a: int, b: int)
    requires
        i64::MIN <= a <= i64::MAX,
        0 <= b <= i64::MAX,
    ensures
        -0x3fff_ffff_ffff_ffff_8000_0000_0000_0000 <= a * b
            <= 0x3fff_ffff_ffff_ffff_8000_0000_0000_0000,
{
    assert(-0x3fff_ffff_ffff_ffff_8000_0000_0000_0000 <= a * b
        <= 0x3fff_ffff_ffff_ffff_8000_0000_0000_0000) by (nonlinear_arith)
        requires
            -0x8000_0000_0000_0000 <= a <= 0x8000_0000_0000_0000,
            0 <= b <= 0x7fff_ffff_ffff_ffff,
    ;
}

impl Rational {
    #[verifier::type_invariant]
    pub closed spec fn well_formed(&self) -> bool {
        self@.is_normal()
    }

    /// The value that holds the parts of `r`.
    pub closed spec fn of(r: Ratio) -> Rational {
        Rational { num: r.num as i64, den: r.den as i64 }
    }

    /// A value is determined by its view, and `of` inverts the view on what fits.
    pub proof fn lemma_view(a: Rational, b: Rational, r: Ratio)
        ensures
            a@ == b@ <==> a == b,
            a.well_formed() ==> a@.fits(),
            r.fits() ==> Rational::of(r)@ == r,
            Rational::of(a@) == a,
    {
    }

    /// Brings `num / den` to normal form.
    fn normalize(num: i128, den: i128) -> (r: Rational)
        requires
            num != 0 || den != 0,
            num > i128::MIN,
            den > i128::MIN,
            Ratio::normalized(num as int, den as int).fits(),
        ensures
            r@ == Ratio::normalized(num as int, den as int),
    {
        let an = magnitude(num);
        let ad = magnitude(den);
        let g = gcd(an, ad);
        proof {
            arith::lemma_gcd_divides(an as nat, ad as nat);
            lemma_normalized_is_normal(num as int, den as int);
        }
        let qn: u128 = an / g;
        let qd: u128 = ad / g;
        let n: i64 = if (num < 0) != (den < 0) {
            (-(qn as i128)) as i64
        } else {
            qn as i64
        };
        Rational { num: n, den: qd as i64 }
    }

    /// Creates the rational `num / den` in normal form.
    ///
    /// The pair `0 / 0` is no number, and the normal form has to fit: negating
    /// the least 64-bit integer does not.
    pub fn new(num: i64, den: i64) -> (r: Rational)
        requires
            num != 0 || den != 0,
            Ratio::normalized(num as int, den as int).fits(),
        ensures
            r@ == Ratio::normalized(num as int, den as int),
            r@.is_normal(),
    {
        proof {
            lemma_normalized_is_normal(num as int, den as int);
        }
        Rational::normalize(num as i128, den as i128)
    }

    /// Creates the rational `num / den`, or nothing where `new` does not apply.
    pub fn checked_new(num: i64, den: i64) -> (r: Option<Rational>)
        ensures
            r.is_some() <==> (num != 0 || den != 0) && Ratio::normalized(
                num as int,
                den as int,
            ).fits(),
            r.is_some() ==> r.unwrap()@ == Ratio::normalized(num as int, den as int),
    {
        if num == 0 && den == 0 {
            return None;
        }
        let an = magnitude(num as i128);
        let ad = magnitude(den as i128);
        let g = gcd(an, ad);
        proof {
            arith::lemma_gcd_divides(an as nat, ad as nat);
        }
        let qn: u128 = an / g;
        let qd: u128 = ad / g;
        let negative = (num < 0) != (den < 0);
        if qd > 0x7fff_ffff_ffff_ffff || qn > 0x8000_0000_0000_0000 || (!negative && qn
            > 0x7fff_ffff_ffff_ffff) {
            return None;
        }
        Some(Rational::normalize(num as i128, den as i128))
    }

    /// The integer `arg` as a rational.
    pub fn from_integer(arg: i64) -> (r: Rational)
        ensures
            r@ == Ratio::from_int(arg as int),
    {
        proof {
            assert(arith::gcd(arith::abs(arg as int), 1) == 1) by {
                assert(arith::gcd(1, 0) == 1);
                assert(arith::abs(arg as int) % 1 == 0);
                reveal_with_fuel(arith::gcd, 3);
            }
        }
        Rational { num: arg, den: 1 }
    }

    /// Zero.
    pub fn zero() -> (r: Rational)
        ensures
            r@ == Ratio::zero(),
    {
        Rational::from_integer(0)
    }

    /// Positive infinity.
    pub fn positive_infinity() -> (r: Rational)
        ensures
            r@ == Ratio::positive_infinity(),
    {
        proof {
            assert(arith::gcd(1, 0) == 1);
        }
        Rational { num: 1, den: 0 }
    }

    /// Negative infinity.
    pub fn negative_infinity() -> (r: Rational)
        ensures
            r@ == Ratio::negative_infinity(),
    {
        proof {
            assert(arith::gcd(1, 0) == 1);
        }
        Rational { num: -1, den: 0 }
    }

    /// The numerator of the normal form.
    pub fn num(&self) -> (n: i64)
        ensures
            n == self@.num,
    {
        self.num
    }

    /// The denominator of the normal form; zero for an infinity.
    pub fn den(&self) -> (d: i64)
        ensures
            d == self@.den,
            d >= 0,
    {
        proof {
            use_type_invariant(self);
        }
        self.den
    }

    /// Every value is in normal form.
    pub fn is_normal(&self) -> (b: bool)
        ensures
            b,
            self@.is_normal(),
    {
        proof {
            use_type_invariant(self);
        }
        true
    }

    /// Adds `other` in place.
    pub fn add_assign(&mut self, other: &Rational)
        requires
            old(self)@.plus_defined(other@),
            old(self)@.plus(other@).fits(),
        ensures
            final(self)@ == old(self)@.plus(other@),
    {
        proof {
            use_type_invariant(&*self);
            use_type_invariant(other);
        }
        if self.den == 0 {
            return ;
        }
        if other.den == 0 {
            *self = *other;
            return ;
        }
        proof {
            lemma_scaled_bound(self.num as int, other.den as int);
            lemma_scaled_bound(other.num as int, self.den as int);
            lemma_product_bound(self.den as int, other.den as int);
            assert(self.den * other.den > 0) by (nonlinear_arith)
                requires
                    self.den > 0,
                    other.den > 0,
            ;
        }
        let n: i128 = (self.num as i128) * (other.den as i128) + (other.num as i128) * (
        self.den as i128);
        let d: i128 = (self.den as i128) * (other.den as i128);
        *self = Rational::normalize(n, d);
    }

    /// Subtracts `other` in place.
    pub fn sub_assign(&mut self, other: &Rational)
        requires
            old(self)@.minus_defined(other@),
            old(self)@.minus(other@).fits(),
        ensures
            final(self)@ == old(self)@.minus(other@),
    {
        proof {
            use_type_invariant(&*self);
            use_type_invariant(other);
        }
        if self.den == 0 {
            return ;
        }
        if other.den == 0 {
            proof {
                assert(arith::gcd(1, 0) == 1);
            }
            *self = Rational { num: -other.num, den: 0 };
            return ;
        }
        proof {
            lemma_scaled_bound(self.num as int, other.den as int);
            lemma_scaled_bound(other.num as int, self.den as int);
            lemma_product_bound(self.den as int, other.den as int);
            assert(self.den * other.den > 0) by (nonlinear_arith)
                requires
                    self.den > 0,
                    other.den > 0,
            ;
        }
        let n: i128 = (self.num as i128) * (other.den as i128) - (other.num as i128) * (
        self.den as i128);
        let d: i128 = (self.den as i128) * (other.den as i128);
        *self = Rational::normalize(n, d);
    }

    /// Multiplies by `other` in place.
    pub fn mul_assign(&mut self, other: &Rational)
        requires
            old(self)@.times_defined(other@),
            old(self)@.times(other@).fits(),
        ensures
            final(self)@ == old(self)@.times(other@),
    {
        proof {
            use_type_invariant(&*self);
            use_type_invariant(other);
            lemma_product_bound(self.num as int, other.num as int);
            lemma_product_bound(self.den as int, other.den as int);
            assert(self.num * other.num != 0 || self.den * other.den != 0) by (nonlinear_arith)
                requires
                    self.num != 0 || self.den != 0,
                    other.num != 0 || other.den != 0,
                    !(self.num == 0 && other.den == 0),
                    !(self.den == 0 && other.num == 0),
            ;
        }
        let n: i128 = (self.num as i128) * (other.num as i128);
        let d: i128 = (self.den as i128) * (other.den as i128);
        *self = Rational::normalize(n, d);
    }

    /// Divides by `other` in place.
    pub fn div_assign(&mut self, other: &Rational)
        requires
            old(self)@.over_defined(other@),
            old(self)@.over(other@).fits(),
        ensures
            final(self)@ == old(self)@.over(other@),
    {
        proof {
            use_type_invariant(&*self);
            use_type_invariant(other);
            lemma_product_bound(self.num as int, other.den as int);
            lemma_product_bound(self.den as int, other.num as int);
            assert(self.num * other.den != 0 || self.den * other.num != 0) by (nonlinear_arith)
                requires
                    self.num != 0 || self.den != 0,
                    other.num != 0 || other.den != 0,
                    !(self.num == 0 && other.num == 0),
                    !(self.den == 0 && other.den == 0),
            ;
        }
        let n: i128 = (self.num as i128) * (other.den as i128);
        let d: i128 = (self.den as i128) * (other.num as i128);
        *self = Rational::normalize(n, d);
    }

    /// Adds the integer `other` in place.
    pub fn add_assign_int(&mut self, other: i64)
        requires
            old(self)@.plus(Ratio::from_int(other as int)).fits(),
        ensures
            final(self)@ == old(self)@.plus(Ratio::from_int(other as int)),
    {
        let o = Rational::from_integer(other);
        self.add_assign(&o);
    }

    /// Subtracts the integer `other` in place.
    pub fn sub_assign_int(&mut self, other: i64)
        requires
            old(self)@.minus(Ratio::from_int(other as int)).fits(),
        ensures
            final(self)@ == old(self)@.minus(Ratio::from_int(other as int)),
    {
        let o = Rational::from_integer(other);
        self.sub_assign(&o);
    }

    /// Multiplies by the integer `other` in place.
    pub fn mul_assign_int(&mut self, other: i64)
        requires
            old(self)@.times_defined(Ratio::from_int(other as int)),
            old(self)@.times(Ratio::from_int(other as int)).fits(),
        ensures
            final(self)@ == old(self)@.times(Ratio::from_int(other as int)),
    {
        let o = Rational::from_integer(other);
        self.mul_assign(&o);
    }

    /// Divides by the integer `other` in place.
    pub fn div_assign_int(&mut self, other: i64)
        requires
            old(self)@.over_defined(Ratio::from_int(other as int)),
            old(self)@.over(Ratio::from_int(other as int)).fits(),
        ensures
            final(self)@ == old(self)@.over(Ratio::from_int(other as int)),
    {
        let o = Rational::from_integer(other);
        self.div_assign(&o);
    }

    /// The opposite number.
    pub fn negate(&self) -> (r: Rational)
        requires
            self@.negated().fits(),
        ensures
            r@ == self@.negated(),
    {
        proof {
            use_type_invariant(self);
        }
        Rational { num: -self.num, den: self.den }
    }

    /// Whether `self` is strictly below `other`.
    pub fn is_less_than(&self, other: &Rational) -> (b: bool)
        ensures
            b == self@.lt(other@),
    {
        proof {
            use_type_invariant(self);
            use_type_invariant(other);
            lemma_product_bound(self.num as int, other.den as int);
            lemma_product_bound(other.num as int, self.den as int);
        }
        if self.den == 0 && other.den == 0 {
            self.num < other.num
        } else {
            (self.num as i128) * (other.den as i128) < (other.num as i128) * (self.den as i128)
        }
    }

    /// Appends the text of the number to `s`.
    pub fn append_to(&self, s: &mut String)
        ensures
            final(s)@ == old(s)@ + self@.text(),
    {
        proof {
            use_type_invariant(self);
        }
        if self.den == 0 {
            if self.num > 0 {
                s.append("∞");
            } else {
                s.append("-∞");
            }
            proof {
                reveal_strlit("∞");
                reveal_strlit("-∞");
            }
        } else if self.den == 1 {
            append_signed_decimal(s, self.num);
        } else {
            append_signed_decimal(s, self.num);
            s.append("/");
            proof {
                reveal_strlit("/");
            }
            append_decimal(s, self.den as u128);
        }
        assert(s@ =~= old(s)@ + self@.text());
    }

    /// The text of the number: `n`, `n/d`, `∞` or `-∞`.
    pub fn to_string(&self) -> (s: String)
        ensures
            s@ == self@.text(),
    {
        let mut s = String::new();
        self.append_to(&mut s);
        assert(s@ =~= self@.text());
        s
    }

    /// Whether the two values are the same number.
    pub fn is_equal_to(&self, other: &Rational) -> (b: bool)
        ensures
            b == (self@ == other@),
            b == (*self == *other),
    {
        self.num == other.num && self.den == other.den
    }
}

impl core::ops::Add<Rational> for Rational {
    type Output = Rational;

    fn add(self, other: Rational) -> (r: Rational)
        ensures
            r@ == self@.plus(other@),
    {
        let mut res = self;
        res.add_assign(&other);
        proof {
            Rational::lemma_view(res, res, res@);
        }
        res
    }
}

impl AddSpecImpl<Rational> for Rational {
    open spec fn obeys_add_spec() -> bool {
        true
    }

    open spec fn add_req(self, other: Rational) -> bool {
        self@.plus_defined(other@) && self@.plus(other@).fits()
    }

    open spec fn add_spec(self, other: Rational) -> Rational {
        Rational::of(self@.plus(other@))
    }
}

impl core::ops::Add<&Rational> for Rational {
    type Output = Rational;

    fn add(self, other: &Rational) -> (r: Rational)
        ensures
            r@ == self@.plus(other@),
    {
        let mut res = self;
        res.add_assign(other);
        proof {
            Rational::lemma_view(res, res, res@);
        }
        res
    }
}

impl AddSpecImpl<&Rational> for Rational {
    open spec fn obeys_add_spec() -> bool {
        true
    }

    open spec fn add_req(self, other: &Rational) -> bool {
        self@.plus_defined(other@) && self@.plus(other@).fits()
    }

    open spec fn add_spec(self, other: &Rational) -> Rational {
        Rational::of(self@.plus(other@))
    }
}

impl core::ops::Add<Rational> for &Rational {
    type Output = Rational;

    fn add(self, other: Rational) -> (r: Rational)
        ensures
            r@ == self@.plus(other@),
    {
        let mut res = *self;
        res.add_assign(&other);
        proof {
            Rational::lemma_view(res, res, res@);
        }
        res
    }
}

impl AddSpecImpl<Rational> for &Rational {
    open spec fn obeys_add_spec() -> bool {
        true
    }

    open spec fn add_req(self, other: Rational) -> bool {
        self@.plus_defined(other@) && self@.plus(other@).fits()
    }

    open spec fn add_spec(self, other: Rational) -> Rational {
        Rational::of(self@.plus(other@))
    }
}

impl core::ops::Add<&Rational> for &Rational {
    type Output = Rational;

    fn add(self, other: &Rational) -> (r: Rational)
        ensures
            r@ == self@.plus(other@),
    {
        let mut res = *self;
        res.add_assign(other);
        proof {
            Rational::lemma_view(res, res, res@);
        }
        res
    }
}

impl AddSpecImpl<&Rational> for &Rational {
    open spec fn obeys_add_spec() -> bool {
        true
    }

    open spec fn add_req(self, other: &Rational) -> bool {
        self@.plus_defined(other@) && self@.plus(other@).fits()
    }

    open spec fn add_spec(self, other: &Rational) -> Rational {
        Rational::of(self@.plus(other@))
    }
}

impl core::ops::Add<i64> for Rational {
    type Output = Rational;

    fn add(self, other: i64) -> (r: Rational)
        ensures
            r@ == self@.plus(Ratio::of_i64(other)),
    {
        let mut res = self;
        res.add_assign(&Rational::from_integer(other));
        proof {
            Rational::lemma_view(res, res, res@);
        }
        res
    }
}

impl AddSpecImpl<i64> for Rational {
    open spec fn obeys_add_spec() -> bool {
        true
    }

    open spec fn add_req(self, other: i64) -> bool {
        self@.plus_defined(Ratio::of_i64(other)) && self@.plus(Ratio::of_i64(other)).fits()
    }

    open spec fn add_spec(self, other: i64) -> Rational {
        Rational::of(self@.plus(Ratio::of_i64(other)))
    }
}

impl core::ops::Add<i64> for &Rational {
    type Output = Rational;

    fn add(self, other: i64) -> (r: Rational)
        ensures
            r@ == self@.plus(Ratio::of_i64(other)),
    {
        let mut res = *self;
        res.add_assign(&Rational::from_integer(other));
        proof {
            Rational::lemma_view(res, res, res@);
        }
        res
    }
}

impl AddSpecImpl<i64> for &Rational {
    open spec fn obeys_add_spec() -> bool {
        true
    }

    open spec fn add_req(self, other: i64) -> bool {
        self@.plus_defined(Ratio::of_i64(other)) && self@.plus(Ratio::of_i64(other)).fits()
    }

    open spec fn add_spec(self, other: i64) -> Rational {
        Rational::of(self@.plus(Ratio::of_i64(other)))
    }
}

impl core::ops::Add<Rational> for i64 {
    type Output = Rational;

    fn add(self, other: Rational) -> (r: Rational)
        ensures
            r@ == Ratio::of_i64(self).plus(other@),
    {
        let mut res = Rational::from_integer(self);
        res.add_assign(&other);
        proof {
            Rational::lemma_view(res, res, res@);
        }
        res
    }
}

impl AddSpecImpl<Rational> for i64 {
    open spec fn obeys_add_spec() -> bool {
        true
    }

    open spec fn add_req(self, other: Rational) -> bool {
        Ratio::of_i64(self).plus_defined(other@) && Ratio::of_i64(self).plus(other@).fits()
    }

    open spec fn add_spec(self, other: Rational) -> Rational {
        Rational::of(Ratio::of_i64(self).plus(other@))
    }
}

impl core::ops::Add<&Rational> for i64 {
    type Output = Rational;

    fn add(self, other: &Rational) -> (r: Rational)
        ensures
            r@ == Ratio::of_i64(self).plus(other@),
    {
        let mut res = Rational::from_integer(self);
        res.add_assign(other);
        proof {
            Rational::lemma_view(res, res, res@);
        }
        res
    }
}

impl AddSpecImpl<&Rational> for i64 {
    open spec fn obeys_add_spec() -> bool {
        true
    }

    open spec fn add_req(self, other: &Rational) -> bool {
        Ratio::of_i64(self).plus_defined(other@) && Ratio::of_i64(self).plus(other@).fits()
    }

    open spec fn add_spec(self, other: &Rational) -> Rational {
        Rational::of(Ratio::of_i64(self).plus(other@))
    }
}

impl core::ops::Sub<Rational> for Rational {
    type Output = Rational;

    fn sub(self, other: Rational) -> (r: Rational)
        ensures
            r@ == self@.minus(other@),
    {
        let mut res = self;
        res.sub_assign(&other);
        proof {
            Rational::lemma_view(res, res, res@);
        }
        res
    }
}

impl SubSpecImpl<Rational> for Rational {
    open spec fn obeys_sub_spec() -> bool {
        true
    }

    open spec fn sub_req(self, other: Rational) -> bool {
        self@.minus_defined(other@) && self@.minus(other@).fits()
    }

    open spec fn sub_spec(self, other: Rational) -> Rational {
        Rational::of(self@.minus(other@))
    }
}

impl core::ops::Sub<&Rational> for Rational {
    type Output = Rational;

    fn sub(self, other: &Rational) -> (r: Rational)
        ensures
            r@ == self@.minus(other@),
    {
        let mut res = self;
        res.sub_assign(other);
        proof {
            Rational::lemma_view(res, res, res@);
        }
        res
    }
}

impl SubSpecImpl<&Rational> for Rational {
    open spec fn obeys_sub_spec() -> bool {
        true
    }

    open spec fn sub_req(self, other: &Rational) -> bool {
        self@.minus_defined(other@) && self@.minus(other@).fits()
    }

    open spec fn sub_spec(self, other: &Rational) -> Rational {
        Rational::of(self@.minus(other@))
    }
}

impl core::ops::Sub<Rational> for &Rational {
    type Output = Rational;

    fn sub(self, other: Rational) -> (r: Rational)
        ensures
            r@ == self@.minus(other@),
    {
        let mut res = *self;
        res.sub_assign(&other);
        proof {
            Rational::lemma_view(res, res, res@);
        }
        res
    }
}

impl SubSpecImpl<Rational> for &Rational {
    open spec fn obeys_sub_spec() -> bool {
        true
    }

    open spec fn sub_req(self, other: Rational) -> bool {
        self@.minus_defined(other@) && self@.minus(other@).fits()
    }

    open spec fn sub_spec(self, other: Rational) -> Rational {
        Rational::of(self@.minus(other@))
    }
}

impl core::ops::Sub<&Rational> for &Rational {
    type Output = Rational;

    fn sub(self, other: &Rational) -> (r: Rational)
        ensures
            r@ == self@.minus(other@),
    {
        let mut res = *self;
        res.sub_assign(other);
        proof {
            Rational::lemma_view(res, res, res@);
        }
        res
    }
}

impl SubSpecImpl<&Rational> for &Rational {
    open spec fn obeys_sub_spec() -> bool {
        true
    }

    open spec fn sub_req(self, other: &Rational) -> bool {
        self@.minus_defined(other@) && self@.minus(other@).fits()
    }

    open spec fn sub_spec(self, other: &Rational) -> Rational {
        Rational::of(self@.minus(other@))
    }
}

impl core::ops::Sub<i64> for Rational {
    type Output = Rational;

    fn sub(self, other: i64) -> (r: Rational)
        ensures
            r@ == self@.minus(Ratio::of_i64(other)),
    {
        let mut res = self;
        res.sub_assign(&Rational::from_integer(other));
        proof {
            Rational::lemma_view(res, res, res@);
        }
        res
    }
}

impl SubSpecImpl<i64> for Rational {
    open spec fn obeys_sub_spec() -> bool {
        true
    }

    open spec fn sub_req(self, other: i64) -> bool {
        self@.minus_defined(Ratio::of_i64(other)) && self@.minus(Ratio::of_i64(other)).fits()
    }

    open spec fn sub_spec(self, other: i64) -> Rational {
        Rational::of(self@.minus(Ratio::of_i64(other)))
    }
}

impl core::ops::Sub<i64> for &Rational {
    type Output = Rational;

    fn sub(self, other: i64) -> (r: Rational)
        ensures
            r@ == self@.minus(Ratio::of_i64(other)),
    {
        let mut res = *self;
        res.sub_assign(&Rational::from_integer(other));
        proof {
            Rational::lemma_view(res, res, res@);
        }
        res
    }
}

impl SubSpecImpl<i64> for &Rational {
    open spec fn obeys_sub_spec() -> bool {
        true
    }

    open spec fn sub_req(self, other: i64) -> bool {
        self@.minus_defined(Ratio::of_i64(other)) && self@.minus(Ratio::of_i64(other)).fits()
    }

    open spec fn sub_spec(self, other: i64) -> Rational {
        Rational::of(self@.minus(Ratio::of_i64(other)))
    }
}

impl core::ops::Sub<Rational> for i64 {
    type Output = Rational;

    fn sub(self, other: Rational) -> (r: Rational)
        ensures
            r@ == Ratio::of_i64(self).minus(other@),
    {
        let mut res = Rational::from_integer(self);
        res.sub_assign(&other);
        proof {
            Rational::lemma_view(res, res, res@);
        }
        res
    }
}

impl SubSpecImpl<Rational> for i64 {
    open spec fn obeys_sub_spec() -> bool {
        true
    }

    open spec fn sub_req(self, other: Rational) -> bool {
        Ratio::of_i64(self).minus_defined(other@) && Ratio::of_i64(self).minus(other@).fits()
    }

    open spec fn sub_spec(self, other: Rational) -> Rational {
        Rational::of(Ratio::of_i64(self).minus(other@))
    }
}

impl core::ops::Sub<&Rational> for i64 {
    type Output = Rational;

    fn sub(self, other: &Rational) -> (r: Rational)
        ensures
            r@ == Ratio::of_i64(self).minus(other@),
    {
        let mut res = Rational::from_integer(self);
        res.sub_assign(other);
        proof {
            Rational::lemma_view(res, res, res@);
        }
        res
    }
}

impl SubSpecImpl<&Rational> for i64 {
    open spec fn obeys_sub_spec() -> bool {
        true
    }

    open spec fn sub_req(self, other: &Rational) -> bool {
        Ratio::of_i64(self).minus_defined(other@) && Ratio::of_i64(self).minus(other@).fits()
    }

    open spec fn sub_spec(self, other: &Rational) -> Rational {
        Rational::of(Ratio::of_i64(self).minus(other@))
    }
}

impl core::ops::Mul<Rational> for Rational {
    type Output = Rational;

    fn mul(self, other: Rational) -> (r: Rational)
        ensures
            r@ == self@.times(other@),
    {
        let mut res = self;
        res.mul_assign(&other);
        proof {
            Rational::lemma_view(res, res, res@);
        }
        res
    }
}

impl MulSpecImpl<Rational> for Rational {
    open spec fn obeys_mul_spec() -> bool {
        true
    }

    open spec fn mul_req(self, other: Rational) -> bool {
        self@.times_defined(other@) && self@.times(other@).fits()
    }

    open spec fn mul_spec(self, other: Rational) -> Rational {
        Rational::of(self@.times(other@))
    }
}

impl core::ops::Mul<&Rational> for Rational {
    type Output = Rational;

    fn mul(self, other: &Rational) -> (r: Rational)
        ensures
            r@ == self@.times(other@),
    {
        let mut res = self;
        res.mul_assign(other);
        proof {
            Rational::lemma_view(res, res, res@);
        }
        res
    }
}

impl MulSpecImpl<&Rational> for Rational {
    open spec fn obeys_mul_spec() -> bool {
        true
    }

    open spec fn mul_req(self, other: &Rational) -> bool {
        self@.times_defined(other@) && self@.times(other@).fits()
    }

    open spec fn mul_spec(self, other: &Rational) -> Rational {
        Rational::of(self@.times(other@))
    }
}

impl core::ops::Mul<Rational> for &Rational {
    type Output = Rational;

    fn mul(self, other: Rational) -> (r: Rational)
        ensures
            r@ == self@.times(other@),
    {
        let mut res = *self;
        res.mul_assign(&other);
        proof {
            Rational::lemma_view(res, res, res@);
        }
        res
    }
}

impl MulSpecImpl<Rational> for &Rational {
    open spec fn obeys_mul_spec() -> bool {
        true
    }

    open spec fn mul_req(self, other: Rational) -> bool {
        self@.times_defined(other@) && self@.times(other@).fits()
    }

    open spec fn mul_spec(self, other: Rational) -> Rational {
        Rational::of(self@.times(other@))
    }
}

impl core::ops::Mul<&Rational> for &Rational {
    type Output = Rational;

    fn mul(self, other: &Rational) -> (r: Rational)
        ensures
            r@ == self@.times(other@),
    {
        let mut res = *self;
        res.mul_assign(other);
        proof {
            Rational::lemma_view(res, res, res@);
        }
        res
    }
}

impl MulSpecImpl<&Rational> for &Rational {
    open spec fn obeys_mul_spec() -> bool {
        true
    }

    open spec fn mul_req(self, other: &Rational) -> bool {
        self@.times_defined(other@) && self@.times(other@).fits()
    }

    open spec fn mul_spec(self, other: &Rational) -> Rational {
        Rational::of(self@.times(other@))
    }
}

impl core::ops::Mul<i64> for Rational {
    type Output = Rational;

    fn mul(self, other: i64) -> (r: Rational)
        ensures
            r@ == self@.times(Ratio::of_i64(other)),
    {
        let mut res = self;
        res.mul_assign(&Rational::from_integer(other));
        proof {
            Rational::lemma_view(res, res, res@);
        }
        res
    }
}

impl MulSpecImpl<i64> for Rational {
    open spec fn obeys_mul_spec() -> bool {
        true
    }

    open spec fn mul_req(self, other: i64) -> bool {
        self@.times_defined(Ratio::of_i64(other)) && self@.times(Ratio::of_i64(other)).fits()
    }

    open spec fn mul_spec(self, other: i64) -> Rational {
        Rational::of(self@.times(Ratio::of_i64(other)))
    }
}

impl core::ops::Mul<i64> for &Rational {
    type Output = Rational;

    fn mul(self, other: i64) -> (r: Rational)
        ensures
            r@ == self@.times(Ratio::of_i64(other)),
    {
        let mut res = *self;
        res.mul_assign(&Rational::from_integer(other));
        proof {
            Rational::lemma_view(res, res, res@);
        }
        res
    }
}

impl MulSpecImpl<i64> for &Rational {
    open spec fn obeys_mul_spec() -> bool {
        true
    }

    open spec fn mul_req(self, other: i64) -> bool {
        self@.times_defined(Ratio::of_i64(other)) && self@.times(Ratio::of_i64(other)).fits()
    }

    open spec fn mul_spec(self, other: i64) -> Rational {
        Rational::of(self@.times(Ratio::of_i64(other)))
    }
}

impl core::ops::Mul<Rational> for i64 {
    type Output = Rational;

    fn mul(self, other: Rational) -> (r: Rational)
        ensures
            r@ == Ratio::of_i64(self).times(other@),
    {
        let mut res = Rational::from_integer(self);
        res.mul_assign(&other);
        proof {
            Rational::lemma_view(res, res, res@);
        }
        res
    }
}

impl MulSpecImpl<Rational> for i64 {
    open spec fn obeys_mul_spec() -> bool {
        true
    }

    open spec fn mul_req(self, other: Rational) -> bool {
        Ratio::of_i64(self).times_defined(other@) && Ratio::of_i64(self).times(other@).fits()
    }

    open spec fn mul_spec(self, other: Rational) -> Rational {
        Rational::of(Ratio::of_i64(self).times(other@))
    }
}

impl core::ops::Mul<&Rational> for i64 {
    type Output = Rational;

    fn mul(self, other: &Rational) -> (r: Rational)
        ensures
            r@ == Ratio::of_i64(self).times(other@),
    {
        let mut res = Rational::from_integer(self);
        res.mul_assign(other);
        proof {
            Rational::lemma_view(res, res, res@);
        }
        res
    }
}

impl MulSpecImpl<&Rational> for i64 {
    open spec fn obeys_mul_spec() -> bool {
        true
    }

    open spec fn mul_req(self, other: &Rational) -> bool {
        Ratio::of_i64(self).times_defined(other@) && Ratio::of_i64(self).times(other@).fits()
    }

    open spec fn mul_spec(self, other: &Rational) -> Rational {
        Rational::of(Ratio::of_i64(self).times(other@))
    }
}

impl core::ops::Div<Rational> for Rational {
    type Output = Rational;

    fn div(self, other: Rational) -> (r: Rational)
        ensures
            r@ == self@.over(other@),
    {
        let mut res = self;
        res.div_assign(&other);
        proof {
            Rational::lemma_view(res, res, res@);
        }
        res
    }
}

impl DivSpecImpl<Rational> for Rational {
    open spec fn obeys_div_spec() -> bool {
        true
    }

    open spec fn div_req(self, other: Rational) -> bool {
        self@.over_defined(other@) && self@.over(other@).fits()
    }

    open spec fn div_spec(self, other: Rational) -> Rational {
        Rational::of(self@.over(other@))
    }
}

impl core::ops::Div<&Rational> for Rational {
    type Output = Rational;

    fn div(self, other: &Rational) -> (r: Rational)
        ensures
            r@ == self@.over(other@),
    {
        let mut res = self;
        res.div_assign(other);
        proof {
            Rational::lemma_view(res, res, res@);
        }
        res
    }
}

impl DivSpecImpl<&Rational> for Rational {
    open spec fn obeys_div_spec() -> bool {
        true
    }

    open spec fn div_req(self, other: &Rational) -> bool {
        self@.over_defined(other@) && self@.over(other@).fits()
    }

    open spec fn div_spec(self, other: &Rational) -> Rational {
        Rational::of(self@.over(other@))
    }
}

impl core::ops::Div<Rational> for &Rational {
    type Output = Rational;

    fn div(self, other: Rational) -> (r: Rational)
        ensures
            r@ == self@.over(other@),
    {
        let mut res = *self;
        res.div_assign(&other);
        proof {
            Rational::lemma_view(res, res, res@);
        }
        res
    }
}

impl DivSpecImpl<Rational> for &Rational {
    open spec fn obeys_div_spec() -> bool {
        true
    }

    open spec fn div_req(self, other: Rational) -> bool {
        self@.over_defined(other@) && self@.over(other@).fits()
    }

    open spec fn div_spec(self, other: Rational) -> Rational {
        Rational::of(self@.over(other@))
    }
}

impl core::ops::Div<&Rational> for &Rational {
    type Output = Rational;

    fn div(self, other: &Rational) -> (r: Rational)
        ensures
            r@ == self@.over(other@),
    {
        let mut res = *self;
        res.div_assign(other);
        proof {
            Rational::lemma_view(res, res, res@);
        }
        res
    }
}

impl DivSpecImpl<&Rational> for &Rational {
    open spec fn obeys_div_spec() -> bool {
        true
    }

    open spec fn div_req(self, other: &Rational) -> bool {
        self@.over_defined(other@) && self@.over(other@).fits()
    }

    open spec fn div_spec(self, other: &Rational) -> Rational {
        Rational::of(self@.over(other@))
    }
}

impl core::ops::Div<i64> for Rational {
    type Output = Rational;

    fn div(self, other: i64) -> (r: Rational)
        ensures
            r@ == self@.over(Ratio::of_i64(other)),
    {
        let mut res = self;
        res.div_assign(&Rational::from_integer(other));
        proof {
            Rational::lemma_view(res, res, res@);
        }
        res
    }
}

impl DivSpecImpl<i64> for Rational {
    open spec fn obeys_div_spec() -> bool {
        true
    }

    open spec fn div_req(self, other: i64) -> bool {
        self@.over_defined(Ratio::of_i64(other)) && self@.over(Ratio::of_i64(other)).fits()
    }

    open spec fn div_spec(self, other: i64) -> Rational {
        Rational::of(self@.over(Ratio::of_i64(other)))
    }
}

impl core::ops::Div<i64> for &Rational {
    type Output = Rational;

    fn div(self, other: i64) -> (r: Rational)
        ensures
            r@ == self@.over(Ratio::of_i64(other)),
    {
        let mut res = *self;
        res.div_assign(&Rational::from_integer(other));
        proof {
            Rational::lemma_view(res, res, res@);
        }
        res
    }
}

impl DivSpecImpl<i64> for &Rational {
    open spec fn obeys_div_spec() -> bool {
        true
    }

    open spec fn div_req(self, other: i64) -> bool {
        self@.over_defined(Ratio::of_i64(other)) && self@.over(Ratio::of_i64(other)).fits()
    }

    open spec fn div_spec(self, other: i64) -> Rational {
        Rational::of(self@.over(Ratio::of_i64(other)))
    }
}

impl core::ops::Div<Rational> for i64 {
    type Output = Rational;

    fn div(self, other: Rational) -> (r: Rational)
        ensures
            r@ == Ratio::of_i64(self).over(other@),
    {
        let mut res = Rational::from_integer(self);
        res.div_assign(&other);
        proof {
            Rational::lemma_view(res, res, res@);
        }
        res
    }
}

impl DivSpecImpl<Rational> for i64 {
    open spec fn obeys_div_spec() -> bool {
        true
    }

    open spec fn div_req(self, other: Rational) -> bool {
        Ratio::of_i64(self).over_defined(other@) && Ratio::of_i64(self).over(other@).fits()
    }

    open spec fn div_spec(self, other: Rational) -> Rational {
        Rational::of(Ratio::of_i64(self).over(other@))
    }
}

impl core::ops::Div<&Rational> for i64 {
    type Output = Rational;

    fn div(self, other: &Rational) -> (r: Rational)
        ensures
            r@ == Ratio::of_i64(self).over(other@),
    {
        let mut res = Rational::from_integer(self);
        res.div_assign(other);
        proof {
            Rational::lemma_view(res, res, res@);
        }
        res
    }
}

impl DivSpecImpl<&Rational> for i64 {
    open spec fn obeys_div_spec() -> bool {
        true
    }

    open spec fn div_req(self, other: &Rational) -> bool {
        Ratio::of_i64(self).over_defined(other@) && Ratio::of_i64(self).over(other@).fits()
    }

    open spec fn div_spec(self, other: &Rational) -> Rational {
        Rational::of(Ratio::of_i64(self).over(other@))
    }
}


impl core::ops::Neg for Rational {
    type Output = Rational;

    fn neg(self) -> (r: Rational)
        ensures
            r@ == self@.negated(),
    {
        let res = self.negate();
        proof {
            Rational::lemma_view(res, res, res@);
        }
        res
    }
}

impl NegSpecImpl for Rational {
    open spec fn obeys_neg_spec() -> bool {
        true
    }

    open spec fn neg_req(self) -> bool {
        self@.negated().fits()
    }

    open spec fn neg_spec(self) -> Rational {
        Rational::of(self@.negated())
    }
}

impl From<i64> for Rational {
    fn from(arg: i64) -> (r: Rational)
        ensures
            r@ == Ratio::of_i64(arg),
    {
        let res = Rational::from_integer(arg);
        proof {
            Rational::lemma_view(res, res, res@);
        }
        res
    }
}

impl FromSpecImpl<i64> for Rational {
    open spec fn obeys_from_spec() -> bool {
        true
    }

    open spec fn from_spec(arg: i64) -> Rational {
        Rational::of(Ratio::of_i64(arg))
    }
}

impl PartialEq for Rational {
    fn eq(&self, other: &Rational) -> (b: bool) {
        self.is_equal_to(other)
    }
}

impl PartialEqSpecImpl for Rational {
    open spec fn obeys_eq_spec() -> bool {
        true
    }

    open spec fn eq_spec(&self, other: &Rational) -> bool {
        self@ == other@
    }
}

impl Eq for Rational {

}

impl PartialEq<i64> for Rational {
    fn eq(&self, other: &i64) -> (b: bool) {
        self.is_equal_to(&Rational::from_integer(*other))
    }
}

impl PartialEqSpecImpl<i64> for Rational {
    open spec fn obeys_eq_spec() -> bool {
        true
    }

    open spec fn eq_spec(&self, other: &i64) -> bool {
        self@ == Ratio::of_i64(*other)
    }
}

impl PartialOrd for Rational {
    fn partial_cmp(&self, other: &Rational) -> (o: Option<Ordering>) {
        if self.is_less_than(other) {
            Some(Ordering::Less)
        } else if other.is_less_than(self) {
            Some(Ordering::Greater)
        } else {
            Some(Ordering::Equal)
        }
    }
}

impl PartialOrdSpecImpl for Rational {
    open spec fn obeys_partial_cmp_spec() -> bool {
        true
    }

    open spec fn partial_cmp_spec(&self, other: &Rational) -> Option<Ordering> {
        if self@.lt(other@) {
            Some(Ordering::Less)
        } else if other@.lt(self@) {
            Some(Ordering::Greater)
        } else {
            Some(Ordering::Equal)
        }
    }
}

impl PartialOrd<i64> for Rational {
    fn partial_cmp(&self, other: &i64) -> (o: Option<Ordering>) {
        let k = Rational::from_integer(*other);
        if self.is_less_than(&k) {
            Some(Ordering::Less)
        } else if k.is_less_than(self) {
            Some(Ordering::Greater)
        } else {
            Some(Ordering::Equal)
        }
    }
}

impl PartialOrdSpecImpl<i64> for Rational {
    open spec fn obeys_partial_cmp_spec() -> bool {
        true
    }

    open spec fn partial_cmp_spec(&self, other: &i64) -> Option<Ordering> {
        if self@.lt(Ratio::of_i64(*other)) {
            Some(Ordering::Less)
        } else if Ratio::of_i64(*other).lt(self@) {
            Some(Ordering::Greater)
        } else {
            Some(Ordering::Equal)
        }
    }
}

} // verus!
