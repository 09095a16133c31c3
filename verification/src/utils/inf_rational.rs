//! Rationals extended with an infinitesimal part, `rat + inf * ε`, where
//! `ε` is positive and smaller than every positive rational. A strict
//! bound `x < b` is held as `x <= b - ε`.

use crate::utils::ratio::lemma_lt_total;
use crate::utils::ratio::lemma_lt_transitive;
use crate::utils::ratio::lemma_plus_positive_is_greater;
use crate::utils::ratio::lemma_plus_zero;
use crate::utils::ratio::Ratio;
use crate::utils::rational::Rational;
use std::cmp::Ordering;
use vstd::prelude::*;
use vstd::string::StringExecFns;
use vstd::std_specs::cmp::PartialEqSpecImpl;
use vstd::std_specs::cmp::PartialOrdSpecImpl;
use vstd::std_specs::convert::FromSpecImpl;
use vstd::std_specs::ops::AddSpecImpl;
use vstd::std_specs::ops::DivSpecImpl;
use vstd::std_specs::ops::MulSpecImpl;
use vstd::std_specs::ops::NegSpecImpl;
use vstd::std_specs::ops::SubSpecImpl;

verus! {

/// The mathematical content of an infinitesimal-augmented rational.
pub struct InfRatio {
    pub rat: Ratio,
    pub inf: Ratio,
}

impl InfRatio {
    pub open spec fn is_normal(self) -> bool {
        self.rat.is_normal() && self.inf.is_normal()
    }

    pub open spec fn fits(self) -> bool {
        self.rat.fits() && self.inf.fits()
    }

    /// The rational `r` with no infinitesimal part.
    pub open spec fn from_ratio(r: Ratio) -> InfRatio {
        InfRatio { rat: r, inf: Ratio::zero() }
    }

    pub open spec fn from_int(k: int) -> InfRatio {
        InfRatio { rat: Ratio::from_int(k), inf: Ratio::zero() }
    }

    pub open spec fn of_i64(k: i64) -> InfRatio {
        InfRatio { rat: Ratio::of_i64(k), inf: Ratio::zero() }
    }

    pub open spec fn zero() -> InfRatio {
        InfRatio { rat: Ratio::zero(), inf: Ratio::zero() }
    }

    pub open spec fn positive_infinity() -> InfRatio {
        InfRatio { rat: Ratio::positive_infinity(), inf: Ratio::zero() }
    }

    pub open spec fn negative_infinity() -> InfRatio {
        InfRatio { rat: Ratio::negative_infinity(), inf: Ratio::zero() }
    }

    /// `k` infinitesimals: `0 + k * ε`.
    pub open spec fn epsilons(k: int) -> InfRatio {
        InfRatio { rat: Ratio::zero(), inf: Ratio::from_int(k) }
    }

    pub open spec fn negated(self) -> InfRatio {
        InfRatio { rat: self.rat.negated(), inf: self.inf.negated() }
    }

    pub open spec fn plus_defined(self, other: InfRatio) -> bool {
        self.rat.plus_defined(other.rat) && self.inf.plus_defined(other.inf)
    }

    /// Component-wise sum.
    pub open spec fn plus(self, other: InfRatio) -> InfRatio {
        InfRatio { rat: self.rat.plus(other.rat), inf: self.inf.plus(other.inf) }
    }

    pub open spec fn plus_rat_defined(self, r: Ratio) -> bool {
        self.rat.plus_defined(r)
    }

    /// Adds a rational to the rational part.
    pub open spec fn plus_rat(self, r: Ratio) -> InfRatio {
        InfRatio { rat: self.rat.plus(r), inf: self.inf }
    }

    pub open spec fn minus_defined(self, other: InfRatio) -> bool {
        self.rat.minus_defined(other.rat) && self.inf.minus_defined(other.inf)
    }

    /// Component-wise difference.
    pub open spec fn minus(self, other: InfRatio) -> InfRatio {
        InfRatio { rat: self.rat.minus(other.rat), inf: self.inf.minus(other.inf) }
    }

    pub open spec fn minus_rat_defined(self, r: Ratio) -> bool {
        self.rat.minus_defined(r)
    }

    /// Subtracts a rational from the rational part.
    pub open spec fn minus_rat(self, r: Ratio) -> InfRatio {
        InfRatio { rat: self.rat.minus(r), inf: self.inf }
    }

    pub open spec fn times_rat_defined(self, s: Ratio) -> bool {
        self.rat.times_defined(s) && self.inf.times_defined(s)
    }

    /// Scales both parts by `s`.
    pub open spec fn times_rat(self, s: Ratio) -> InfRatio {
        InfRatio { rat: self.rat.times(s), inf: self.inf.times(s) }
    }

    pub open spec fn over_rat_defined(self, s: Ratio) -> bool {
        self.rat.over_defined(s) && self.inf.over_defined(s)
    }

    /// Divides both parts by `s`.
    pub open spec fn over_rat(self, s: Ratio) -> InfRatio {
        InfRatio { rat: self.rat.over(s), inf: self.inf.over(s) }
    }

    /// Lexicographic order: by the rational part, then by the infinitesimal part.
    pub open spec fn lt(self, other: InfRatio) -> bool {
        self.rat.lt(other.rat) || (self.rat == other.rat && self.inf.lt(other.inf))
    }

    pub open spec fn le(self, other: InfRatio) -> bool {
        self.lt(other) || self == other
    }

    /// The text of a value: `r`, `kε` or `r + kε`.
    pub open spec fn text(self) -> Seq<char> {
        if self.inf == Ratio::zero() {
            self.rat.text()
        } else if self.rat == Ratio::zero() {
            self.inf.text() + seq!['ε']
        } else {
            self.rat.text() + seq![' ', '+', ' '] + self.inf.text() + seq!['ε']
        }
    }
}

/// Of two different normal values one is below the other, never both.
pub proof fn lemma_inf_lt_total(a: InfRatio, b: InfRatio)
    requires
        a.is_normal(),
        b.is_normal(),
    ensures
        a.lt(b) || b.lt(a) || a == b,
        !(a.lt(b) && b.lt(a)),
        !a.lt(a),
{
    lemma_lt_total(a.rat, b.rat);
    lemma_lt_total(a.inf, b.inf);
}

/// The order is transitive.
pub proof fn lemma_inf_lt_transitive(a: InfRatio, b: InfRatio, c: InfRatio)
    requires
        a.is_normal(),
        b.is_normal(),
        c.is_normal(),
        a.lt(b),
        b.lt(c),
    ensures
        a.lt(c),
{
    lemma_lt_total(a.rat, b.rat);
    lemma_lt_total(b.rat, c.rat);
    if a.rat.lt(b.rat) && b.rat.lt(c.rat) {
        lemma_lt_transitive(a.rat, b.rat, c.rat);
    } else if a.rat == b.rat && b.rat == c.rat {
        lemma_lt_transitive(a.inf, b.inf, c.inf);
    }
}

/// `le` is transitive, and mixes with `lt`.
pub proof fn lemma_inf_le_transitive(a: InfRatio, b: InfRatio, c: InfRatio)
    requires
        a.is_normal(),
        b.is_normal(),
        c.is_normal(),
        a.le(b),
        b.le(c),
    ensures
        a.le(c),
        a.lt(b) || b.lt(c) ==> a.lt(c),
{
    if a.lt(b) && b.lt(c) {
        lemma_inf_lt_transitive(a, b, c);
    }
}

/// Adding a positive number of infinitesimals to a value whose
/// infinitesimal part is finite gives a strictly greater value.
pub proof fn lemma_plus_epsilons_is_greater(a: InfRatio, k: int)
    requires
        a.is_normal(),
        a.inf.den > 0,
        k > 0,
    ensures
        a.plus_defined(InfRatio::epsilons(k)),
        a.lt(a.plus(InfRatio::epsilons(k))),
{
    lemma_plus_zero(a.rat);
    lemma_plus_positive_is_greater(a.inf, k);
}

/// A rational with an infinitesimal part.
#[derive(Clone, Copy, Debug)]
pub struct InfRational {
    rat: Rational,
    inf: Rational,
}

impl View for InfRational {
    type V = InfRatio;

    closed spec fn view(&self) -> InfRatio {
        InfRatio { rat: self.rat@, inf: self.inf@ }
    }
}

impl InfRational {
    /// The value that holds the parts of `v`.
    pub closed spec fn of(v: InfRatio) -> InfRational {
        InfRational { rat: Rational::of(v.rat), inf: Rational::of(v.inf) }
    }

    /// A value is determined by its view, and `of` inverts the view.
    pub proof fn lemma_view(a: InfRational, b: InfRational, v: InfRatio)
        ensures
            a@ == b@ <==> a == b,
            v.fits() ==> InfRational::of(v)@ == v,
            InfRational::of(a@) == a,
    {
        Rational::lemma_view(a.rat, b.rat, v.rat);
        Rational::lemma_view(a.inf, b.inf, v.inf);
    }

    /// The value `rat + inf * ε`.
    pub fn new(rat: Rational, inf: Rational) -> (r: InfRational)
        ensures
            r@ == (InfRatio { rat: rat@, inf: inf@ }),
    {
        InfRational { rat, inf }
    }

    /// The rational `rat` with no infinitesimal part.
    pub fn from_rational(rat: Rational) -> (r: InfRational)
        ensures
            r@ == InfRatio::from_ratio(rat@),
    {
        InfRational { rat, inf: Rational::zero() }
    }

    /// The integer `arg` with no infinitesimal part.
    pub fn from_integer(arg: i64) -> (r: InfRational)
        ensures
            r@ == InfRatio::of_i64(arg),
    {
        InfRational { rat: Rational::from_integer(arg), inf: Rational::zero() }
    }

    pub fn zero() -> (r: InfRational)
        ensures
            r@ == InfRatio::zero(),
    {
        InfRational { rat: Rational::zero(), inf: Rational::zero() }
    }

    pub fn positive_infinity() -> (r: InfRational)
        ensures
            r@ == InfRatio::positive_infinity(),
    {
        InfRational { rat: Rational::positive_infinity(), inf: Rational::zero() }
    }

    pub fn negative_infinity() -> (r: InfRational)
        ensures
            r@ == InfRatio::negative_infinity(),
    {
        InfRational { rat: Rational::negative_infinity(), inf: Rational::zero() }
    }

    /// The rational part.
    pub fn rat(&self) -> (r: Rational)
        ensures
            r@ == self@.rat,
    {
        self.rat
    }

    /// The coefficient of `ε`.
    pub fn inf(&self) -> (r: Rational)
        ensures
            r@ == self@.inf,
    {
        self.inf
    }

    /// Both parts are in normal form.
    pub fn is_normal(&self) -> (b: bool)
        ensures
            b,
            self@.is_normal(),
    {
        self.rat.is_normal() && self.inf.is_normal()
    }

    /// Adds `other` in place, part by part.
    pub fn add_assign(&mut self, other: &InfRational)
        requires
            old(self)@.plus_defined(other@),
            old(self)@.plus(other@).fits(),
        ensures
            final(self)@ == old(self)@.plus(other@),
    {
        self.rat.add_assign(&other.rat);
        self.inf.add_assign(&other.inf);
    }

    /// Adds a rational to the rational part, in place.
    pub fn add_assign_rational(&mut self, other: &Rational)
        requires
            old(self)@.plus_rat_defined(other@),
            old(self)@.plus_rat(other@).fits(),
        ensures
            final(self)@ == old(self)@.plus_rat(other@),
    {
        self.rat.add_assign(other);
    }

    /// Adds an integer to the rational part, in place.
    pub fn add_assign_int(&mut self, other: i64)
        requires
            old(self)@.plus_rat(Ratio::of_i64(other)).fits(),
        ensures
            final(self)@ == old(self)@.plus_rat(Ratio::of_i64(other)),
    {
        self.rat.add_assign_int(other);
    }

    /// Subtracts `other` in place, part by part.
    pub fn sub_assign(&mut self, other: &InfRational)
        requires
            old(self)@.minus_defined(other@),
            old(self)@.minus(other@).fits(),
        ensures
            final(self)@ == old(self)@.minus(other@),
    {
        self.rat.sub_assign(&other.rat);
        self.inf.sub_assign(&other.inf);
    }

    /// Subtracts a rational from the rational part, in place.
    pub fn sub_assign_rational(&mut self, other: &Rational)
        requires
            old(self)@.minus_rat_defined(other@),
            old(self)@.minus_rat(other@).fits(),
        ensures
            final(self)@ == old(self)@.minus_rat(other@),
    {
        self.rat.sub_assign(other);
    }

    /// Subtracts an integer from the rational part, in place.
    pub fn sub_assign_int(&mut self, other: i64)
        requires
            old(self)@.minus_rat(Ratio::of_i64(other)).fits(),
        ensures
            final(self)@ == old(self)@.minus_rat(Ratio::of_i64(other)),
    {
        self.rat.sub_assign_int(other);
    }

    /// Scales both parts by a rational, in place.
    pub fn mul_assign_rational(&mut self, other: &Rational)
        requires
            old(self)@.times_rat_defined(other@),
            old(self)@.times_rat(other@).fits(),
        ensures
            final(self)@ == old(self)@.times_rat(other@),
    {
        self.rat.mul_assign(other);
        self.inf.mul_assign(other);
    }

    /// Scales both parts by an integer, in place.
    pub fn mul_assign_int(&mut self, other: i64)
        requires
            old(self)@.times_rat_defined(Ratio::of_i64(other)),
            old(self)@.times_rat(Ratio::of_i64(other)).fits(),
        ensures
            final(self)@ == old(self)@.times_rat(Ratio::of_i64(other)),
    {
        self.rat.mul_assign_int(other);
        self.inf.mul_assign_int(other);
    }

    /// Divides both parts by a rational, in place.
    pub fn div_assign_rational(&mut self, other: &Rational)
        requires
            old(self)@.over_rat_defined(other@),
            old(self)@.over_rat(other@).fits(),
        ensures
            final(self)@ == old(self)@.over_rat(other@),
    {
        self.rat.div_assign(other);
        self.inf.div_assign(other);
    }

    /// Divides both parts by an integer, in place.
    pub fn div_assign_int(&mut self, other: i64)
        requires
            old(self)@.over_rat_defined(Ratio::of_i64(other)),
            old(self)@.over_rat(Ratio::of_i64(other)).fits(),
        ensures
            final(self)@ == old(self)@.over_rat(Ratio::of_i64(other)),
    {
        self.rat.div_assign_int(other);
        self.inf.div_assign_int(other);
    }

    /// The opposite value: both parts negated.
    pub fn negate(&self) -> (r: InfRational)
        requires
            self@.negated().fits(),
        ensures
            r@ == self@.negated(),
    {
        InfRational { rat: self.rat.negate(), inf: self.inf.negate() }
    }

    /// Appends the text of the value to `s`.
    pub fn append_to(&self, s: &mut String)
        ensures
            final(s)@ == old(s)@ + self@.text(),
    {
        let zero = Rational::zero();
        if self.inf.is_equal_to(&zero) {
            self.rat.append_to(s);
        } else if self.rat.is_equal_to(&zero) {
            self.inf.append_to(s);
            s.append("ε");
            proof {
                reveal_strlit("ε");
            }
        } else {
            self.rat.append_to(s);
            s.append(" + ");
            self.inf.append_to(s);
            s.append("ε");
            proof {
                reveal_strlit("ε");
                reveal_strlit(" + ");
            }
        }
        assert(s@ =~= old(s)@ + self@.text());
    }

    /// The text of the value.
    pub fn to_string(&self) -> (s: String)
        ensures
            s@ == self@.text(),
    {
        let mut s = String::new();
        self.append_to(&mut s);
        assert(s@ =~= self@.text());
        s
    }

    /// Whether `self` is strictly below `other` in the lexicographic order.
    pub fn is_less_than(&self, other: &InfRational) -> (b: bool)
        ensures
            b == self@.lt(other@),
    {
        if self.rat.is_less_than(&other.rat) {
            true
        } else if self.rat.is_equal_to(&other.rat) {
            self.inf.is_less_than(&other.inf)
        } else {
            false
        }
    }

    /// Whether `self` is below or equal to `other`.
    pub fn is_at_most(&self, other: &InfRational) -> (b: bool)
        ensures
            b == self@.le(other@),
    {
        self.is_less_than(other) || self.is_equal_to(other)
    }

    /// Whether the two values are the same.
    pub fn is_equal_to(&self, other: &InfRational) -> (b: bool)
        ensures
            b == (self@ == other@),
            b == (*self == *other),
    {
        proof {
            InfRational::lemma_view(*self, *other, self@);
        }
        self.rat.is_equal_to(&other.rat) && self.inf.is_equal_to(&other.inf)
    }
}

impl core::ops::Add<&InfRational> for InfRational {
    type Output = InfRational;

    fn add(self, other: &InfRational) -> (r: InfRational)
        ensures
            r@ == self@.plus(other@),
    {
        let mut res = self;
        res.add_assign(other);
        proof {
            InfRational::lemma_view(res, res, res@);
        }
        res
    }
}

impl AddSpecImpl<&InfRational> for InfRational {
    open spec fn obeys_add_spec() -> bool {
        true
    }

    open spec fn add_req(self, other: &InfRational) -> bool {
        self@.plus_defined(other@) && self@.plus(other@).fits()
    }

    open spec fn add_spec(self, other: &InfRational) -> InfRational {
        InfRational::of(self@.plus(other@))
    }
}

impl core::ops::Add<&Rational> for InfRational {
    type Output = InfRational;

    fn add(self, other: &Rational) -> (r: InfRational)
        ensures
            r@ == self@.plus_rat(other@),
    {
        let mut res = self;
        res.add_assign_rational(other);
        proof {
            InfRational::lemma_view(res, res, res@);
        }
        res
    }
}

impl AddSpecImpl<&Rational> for InfRational {
    open spec fn obeys_add_spec() -> bool {
        true
    }

    open spec fn add_req(self, other: &Rational) -> bool {
        self@.plus_rat_defined(other@) && self@.plus_rat(other@).fits()
    }

    open spec fn add_spec(self, other: &Rational) -> InfRational {
        InfRational::of(self@.plus_rat(other@))
    }
}

impl core::ops::Add<i64> for InfRational {
    type Output = InfRational;

    fn add(self, other: i64) -> (r: InfRational)
        ensures
            r@ == self@.plus_rat(Ratio::of_i64(other)),
    {
        let mut res = self;
        res.add_assign_int(other);
        proof {
            InfRational::lemma_view(res, res, res@);
        }
        res
    }
}

impl AddSpecImpl<i64> for InfRational {
    open spec fn obeys_add_spec() -> bool {
        true
    }

    open spec fn add_req(self, other: i64) -> bool {
        self@.plus_rat(Ratio::of_i64(other)).fits()
    }

    open spec fn add_spec(self, other: i64) -> InfRational {
        InfRational::of(self@.plus_rat(Ratio::of_i64(other)))
    }
}

impl core::ops::Add<&InfRational> for &InfRational {
    type Output = InfRational;

    fn add(self, other: &InfRational) -> (r: InfRational)
        ensures
            r@ == self@.plus(other@),
    {
        let mut res = *self;
        res.add_assign(other);
        proof {
            InfRational::lemma_view(res, res, res@);
        }
        res
    }
}

impl AddSpecImpl<&InfRational> for &InfRational {
    open spec fn obeys_add_spec() -> bool {
        true
    }

    open spec fn add_req(self, other: &InfRational) -> bool {
        self@.plus_defined(other@) && self@.plus(other@).fits()
    }

    open spec fn add_spec(self, other: &InfRational) -> InfRational {
        InfRational::of(self@.plus(other@))
    }
}

impl core::ops::Add<&Rational> for &InfRational {
    type Output = InfRational;

    fn add(self, other: &Rational) -> (r: InfRational)
        ensures
            r@ == self@.plus_rat(other@),
    {
        let mut res = *self;
        res.add_assign_rational(other);
        proof {
            InfRational::lemma_view(res, res, res@);
        }
        res
    }
}

impl AddSpecImpl<&Rational> for &InfRational {
    open spec fn obeys_add_spec() -> bool {
        true
    }

    open spec fn add_req(self, other: &Rational) -> bool {
        self@.plus_rat_defined(other@) && self@.plus_rat(other@).fits()
    }

    open spec fn add_spec(self, other: &Rational) -> InfRational {
        InfRational::of(self@.plus_rat(other@))
    }
}

impl core::ops::Add<i64> for &InfRational {
    type Output = InfRational;

    fn add(self, other: i64) -> (r: InfRational)
        ensures
            r@ == self@.plus_rat(Ratio::of_i64(other)),
    {
        let mut res = *self;
        res.add_assign_int(other);
        proof {
            InfRational::lemma_view(res, res, res@);
        }
        res
    }
}

impl AddSpecImpl<i64> for &InfRational {
    open spec fn obeys_add_spec() -> bool {
        true
    }

    open spec fn add_req(self, other: i64) -> bool {
        self@.plus_rat(Ratio::of_i64(other)).fits()
    }

    open spec fn add_spec(self, other: i64) -> InfRational {
        InfRational::of(self@.plus_rat(Ratio::of_i64(other)))
    }
}

impl core::ops::Sub<&InfRational> for InfRational {
    type Output = InfRational;

    fn sub(self, other: &InfRational) -> (r: InfRational)
        ensures
            r@ == self@.minus(other@),
    {
        let mut res = self;
        res.sub_assign(other);
        proof {
            InfRational::lemma_view(res, res, res@);
        }
        res
    }
}

impl SubSpecImpl<&InfRational> for InfRational {
    open spec fn obeys_sub_spec() -> bool {
        true
    }

    open spec fn sub_req(self, other: &InfRational) -> bool {
        self@.minus_defined(other@) && self@.minus(other@).fits()
    }

    open spec fn sub_spec(self, other: &InfRational) -> InfRational {
        InfRational::of(self@.minus(other@))
    }
}

impl core::ops::Sub<&Rational> for InfRational {
    type Output = InfRational;

    fn sub(self, other: &Rational) -> (r: InfRational)
        ensures
            r@ == self@.minus_rat(other@),
    {
        let mut res = self;
        res.sub_assign_rational(other);
        proof {
            InfRational::lemma_view(res, res, res@);
        }
        res
    }
}

impl SubSpecImpl<&Rational> for InfRational {
    open spec fn obeys_sub_spec() -> bool {
        true
    }

    open spec fn sub_req(self, other: &Rational) -> bool {
        self@.minus_rat_defined(other@) && self@.minus_rat(other@).fits()
    }

    open spec fn sub_spec(self, other: &Rational) -> InfRational {
        InfRational::of(self@.minus_rat(other@))
    }
}

impl core::ops::Sub<i64> for InfRational {
    type Output = InfRational;

    fn sub(self, other: i64) -> (r: InfRational)
        ensures
            r@ == self@.minus_rat(Ratio::of_i64(other)),
    {
        let mut res = self;
        res.sub_assign_int(other);
        proof {
            InfRational::lemma_view(res, res, res@);
        }
        res
    }
}

impl SubSpecImpl<i64> for InfRational {
    open spec fn obeys_sub_spec() -> bool {
        true
    }

    open spec fn sub_req(self, other: i64) -> bool {
        self@.minus_rat(Ratio::of_i64(other)).fits()
    }

    open spec fn sub_spec(self, other: i64) -> InfRational {
        InfRational::of(self@.minus_rat(Ratio::of_i64(other)))
    }
}

impl core::ops::Sub<&InfRational> for &InfRational {
    type Output = InfRational;

    fn sub(self, other: &InfRational) -> (r: InfRational)
        ensures
            r@ == self@.minus(other@),
    {
        let mut res = *self;
        res.sub_assign(other);
        proof {
            InfRational::lemma_view(res, res, res@);
        }
        res
    }
}

impl SubSpecImpl<&InfRational> for &InfRational {
    open spec fn obeys_sub_spec() -> bool {
        true
    }

    open spec fn sub_req(self, other: &InfRational) -> bool {
        self@.minus_defined(other@) && self@.minus(other@).fits()
    }

    open spec fn sub_spec(self, other: &InfRational) -> InfRational {
        InfRational::of(self@.minus(other@))
    }
}

impl core::ops::Sub<&Rational> for &InfRational {
    type Output = InfRational;

    fn sub(self, other: &Rational) -> (r: InfRational)
        ensures
            r@ == self@.minus_rat(other@),
    {
        let mut res = *self;
        res.sub_assign_rational(other);
        proof {
            InfRational::lemma_view(res, res, res@);
        }
        res
    }
}

impl SubSpecImpl<&Rational> for &InfRational {
    open spec fn obeys_sub_spec() -> bool {
        true
    }

    open spec fn sub_req(self, other: &Rational) -> bool {
        self@.minus_rat_defined(other@) && self@.minus_rat(other@).fits()
    }

    open spec fn sub_spec(self, other: &Rational) -> InfRational {
        InfRational::of(self@.minus_rat(other@))
    }
}

impl core::ops::Sub<i64> for &InfRational {
    type Output = InfRational;

    fn sub(self, other: i64) -> (r: InfRational)
        ensures
            r@ == self@.minus_rat(Ratio::of_i64(other)),
    {
        let mut res = *self;
        res.sub_assign_int(other);
        proof {
            InfRational::lemma_view(res, res, res@);
        }
        res
    }
}

impl SubSpecImpl<i64> for &InfRational {
    open spec fn obeys_sub_spec() -> bool {
        true
    }

    open spec fn sub_req(self, other: i64) -> bool {
        self@.minus_rat(Ratio::of_i64(other)).fits()
    }

    open spec fn sub_spec(self, other: i64) -> InfRational {
        InfRational::of(self@.minus_rat(Ratio::of_i64(other)))
    }
}

impl core::ops::Mul<&Rational> for InfRational {
    type Output = InfRational;

    fn mul(self, other: &Rational) -> (r: InfRational)
        ensures
            r@ == self@.times_rat(other@),
    {
        let mut res = self;
        res.mul_assign_rational(other);
        proof {
            InfRational::lemma_view(res, res, res@);
        }
        res
    }
}

impl MulSpecImpl<&Rational> for InfRational {
    open spec fn obeys_mul_spec() -> bool {
        true
    }

    open spec fn mul_req(self, other: &Rational) -> bool {
        self@.times_rat_defined(other@) && self@.times_rat(other@).fits()
    }

    open spec fn mul_spec(self, other: &Rational) -> InfRational {
        InfRational::of(self@.times_rat(other@))
    }
}

impl core::ops::Mul<i64> for InfRational {
    type Output = InfRational;

    fn mul(self, other: i64) -> (r: InfRational)
        ensures
            r@ == self@.times_rat(Ratio::of_i64(other)),
    {
        let mut res = self;
        res.mul_assign_int(other);
        proof {
            InfRational::lemma_view(res, res, res@);
        }
        res
    }
}

impl MulSpecImpl<i64> for InfRational {
    open spec fn obeys_mul_spec() -> bool {
        true
    }

    open spec fn mul_req(self, other: i64) -> bool {
        self@.times_rat_defined(Ratio::of_i64(other)) && self@.times_rat(Ratio::of_i64(other)).fits()
    }

    open spec fn mul_spec(self, other: i64) -> InfRational {
        InfRational::of(self@.times_rat(Ratio::of_i64(other)))
    }
}

impl core::ops::Mul<&Rational> for &InfRational {
    type Output = InfRational;

    fn mul(self, other: &Rational) -> (r: InfRational)
        ensures
            r@ == self@.times_rat(other@),
    {
        let mut res = *self;
        res.mul_assign_rational(other);
        proof {
            InfRational::lemma_view(res, res, res@);
        }
        res
    }
}

impl MulSpecImpl<&Rational> for &InfRational {
    open spec fn obeys_mul_spec() -> bool {
        true
    }

    open spec fn mul_req(self, other: &Rational) -> bool {
        self@.times_rat_defined(other@) && self@.times_rat(other@).fits()
    }

    open spec fn mul_spec(self, other: &Rational) -> InfRational {
        InfRational::of(self@.times_rat(other@))
    }
}

impl core::ops::Mul<i64> for &InfRational {
    type Output = InfRational;

    fn mul(self, other: i64) -> (r: InfRational)
        ensures
            r@ == self@.times_rat(Ratio::of_i64(other)),
    {
        let mut res = *self;
        res.mul_assign_int(other);
        proof {
            InfRational::lemma_view(res, res, res@);
        }
        res
    }
}

impl MulSpecImpl<i64> for &InfRational {
    open spec fn obeys_mul_spec() -> bool {
        true
    }

    open spec fn mul_req(self, other: i64) -> bool {
        self@.times_rat_defined(Ratio::of_i64(other)) && self@.times_rat(Ratio::of_i64(other)).fits()
    }

    open spec fn mul_spec(self, other: i64) -> InfRational {
        InfRational::of(self@.times_rat(Ratio::of_i64(other)))
    }
}

impl core::ops::Div<&Rational> for InfRational {
    type Output = InfRational;

    fn div(self, other: &Rational) -> (r: InfRational)
        ensures
            r@ == self@.over_rat(other@),
    {
        let mut res = self;
        res.div_assign_rational(other);
        proof {
            InfRational::lemma_view(res, res, res@);
        }
        res
    }
}

impl DivSpecImpl<&Rational> for InfRational {
    open spec fn obeys_div_spec() -> bool {
        true
    }

    open spec fn div_req(self, other: &Rational) -> bool {
        self@.over_rat_defined(other@) && self@.over_rat(other@).fits()
    }

    open spec fn div_spec(self, other: &Rational) -> InfRational {
        InfRational::of(self@.over_rat(other@))
    }
}

impl core::ops::Div<i64> for InfRational {
    type Output = InfRational;

    fn div(self, other: i64) -> (r: InfRational)
        ensures
            r@ == self@.over_rat(Ratio::of_i64(other)),
    {
        let mut res = self;
        res.div_assign_int(other);
        proof {
            InfRational::lemma_view(res, res, res@);
        }
        res
    }
}

impl DivSpecImpl<i64> for InfRational {
    open spec fn obeys_div_spec() -> bool {
        true
    }

    open spec fn div_req(self, other: i64) -> bool {
        self@.over_rat_defined(Ratio::of_i64(other)) && self@.over_rat(Ratio::of_i64(other)).fits()
    }

    open spec fn div_spec(self, other: i64) -> InfRational {
        InfRational::of(self@.over_rat(Ratio::of_i64(other)))
    }
}

impl core::ops::Div<&Rational> for &InfRational {
    type Output = InfRational;

    fn div(self, other: &Rational) -> (r: InfRational)
        ensures
            r@ == self@.over_rat(other@),
    {
        let mut res = *self;
        res.div_assign_rational(other);
        proof {
            InfRational::lemma_view(res, res, res@);
        }
        res
    }
}

impl DivSpecImpl<&Rational> for &InfRational {
    open spec fn obeys_div_spec() -> bool {
        true
    }

    open spec fn div_req(self, other: &Rational) -> bool {
        self@.over_rat_defined(other@) && self@.over_rat(other@).fits()
    }

    open spec fn div_spec(self, other: &Rational) -> InfRational {
        InfRational::of(self@.over_rat(other@))
    }
}

impl core::ops::Div<i64> for &InfRational {
    type Output = InfRational;

    fn div(self, other: i64) -> (r: InfRational)
        ensures
            r@ == self@.over_rat(Ratio::of_i64(other)),
    {
        let mut res = *self;
        res.div_assign_int(other);
        proof {
            InfRational::lemma_view(res, res, res@);
        }
        res
    }
}

impl DivSpecImpl<i64> for &InfRational {
    open spec fn obeys_div_spec() -> bool {
        true
    }

    open spec fn div_req(self, other: i64) -> bool {
        self@.over_rat_defined(Ratio::of_i64(other)) && self@.over_rat(Ratio::of_i64(other)).fits()
    }

    open spec fn div_spec(self, other: i64) -> InfRational {
        InfRational::of(self@.over_rat(Ratio::of_i64(other)))
    }
}

impl core::ops::Add<InfRational> for Rational {
    type Output = InfRational;

    fn add(self, other: InfRational) -> (r: InfRational)
        ensures
            r@ == other@.plus_rat(self@),
    {
        let mut res = other;
        res.add_assign_rational(&self);
        proof {
            InfRational::lemma_view(res, res, res@);
        }
        res
    }
}

impl AddSpecImpl<InfRational> for Rational {
    open spec fn obeys_add_spec() -> bool {
        true
    }

    open spec fn add_req(self, other: InfRational) -> bool {
        other@.plus_rat_defined(self@) && other@.plus_rat(self@).fits()
    }

    open spec fn add_spec(self, other: InfRational) -> InfRational {
        InfRational::of(other@.plus_rat(self@))
    }
}

impl core::ops::Sub<InfRational> for Rational {
    type Output = InfRational;

    fn sub(self, other: InfRational) -> (r: InfRational)
        ensures
            r@ == other@.negated().plus_rat(self@),
    {
        let mut res = other.negate();
        res.add_assign_rational(&self);
        proof {
            InfRational::lemma_view(res, res, res@);
        }
        res
    }
}

impl SubSpecImpl<InfRational> for Rational {
    open spec fn obeys_sub_spec() -> bool {
        true
    }

    open spec fn sub_req(self, other: InfRational) -> bool {
        other@.negated().fits() && other@.negated().plus_rat_defined(self@) && other@.negated().plus_rat(self@).fits()
    }

    open spec fn sub_spec(self, other: InfRational) -> InfRational {
        InfRational::of(other@.negated().plus_rat(self@))
    }
}

impl core::ops::Mul<InfRational> for Rational {
    type Output = InfRational;

    fn mul(self, other: InfRational) -> (r: InfRational)
        ensures
            r@ == other@.times_rat(self@),
    {
        let mut res = other;
        res.mul_assign_rational(&self);
        proof {
            InfRational::lemma_view(res, res, res@);
        }
        res
    }
}

impl MulSpecImpl<InfRational> for Rational {
    open spec fn obeys_mul_spec() -> bool {
        true
    }

    open spec fn mul_req(self, other: InfRational) -> bool {
        other@.times_rat_defined(self@) && other@.times_rat(self@).fits()
    }

    open spec fn mul_spec(self, other: InfRational) -> InfRational {
        InfRational::of(other@.times_rat(self@))
    }
}

impl core::ops::Add<&InfRational> for Rational {
    type Output = InfRational;

    fn add(self, other: &InfRational) -> (r: InfRational)
        ensures
            r@ == other@.plus_rat(self@),
    {
        let mut res = *other;
        res.add_assign_rational(&self);
        proof {
            InfRational::lemma_view(res, res, res@);
        }
        res
    }
}

impl AddSpecImpl<&InfRational> for Rational {
    open spec fn obeys_add_spec() -> bool {
        true
    }

    open spec fn add_req(self, other: &InfRational) -> bool {
        other@.plus_rat_defined(self@) && other@.plus_rat(self@).fits()
    }

    open spec fn add_spec(self, other: &InfRational) -> InfRational {
        InfRational::of(other@.plus_rat(self@))
    }
}

impl core::ops::Sub<&InfRational> for Rational {
    type Output = InfRational;

    fn sub(self, other: &InfRational) -> (r: InfRational)
        ensures
            r@ == other@.negated().plus_rat(self@),
    {
        let mut res = other.negate();
        res.add_assign_rational(&self);
        proof {
            InfRational::lemma_view(res, res, res@);
        }
        res
    }
}

impl SubSpecImpl<&InfRational> for Rational {
    open spec fn obeys_sub_spec() -> bool {
        true
    }

    open spec fn sub_req(self, other: &InfRational) -> bool {
        other@.negated().fits() && other@.negated().plus_rat_defined(self@) && other@.negated().plus_rat(self@).fits()
    }

    open spec fn sub_spec(self, other: &InfRational) -> InfRational {
        InfRational::of(other@.negated().plus_rat(self@))
    }
}

impl core::ops::Mul<&InfRational> for Rational {
    type Output = InfRational;

    fn mul(self, other: &InfRational) -> (r: InfRational)
        ensures
            r@ == other@.times_rat(self@),
    {
        let mut res = *other;
        res.mul_assign_rational(&self);
        proof {
            InfRational::lemma_view(res, res, res@);
        }
        res
    }
}

impl MulSpecImpl<&InfRational> for Rational {
    open spec fn obeys_mul_spec() -> bool {
        true
    }

    open spec fn mul_req(self, other: &InfRational) -> bool {
        other@.times_rat_defined(self@) && other@.times_rat(self@).fits()
    }

    open spec fn mul_spec(self, other: &InfRational) -> InfRational {
        InfRational::of(other@.times_rat(self@))
    }
}

impl core::ops::Add<InfRational> for &Rational {
    type Output = InfRational;

    fn add(self, other: InfRational) -> (r: InfRational)
        ensures
            r@ == other@.plus_rat(self@),
    {
        let mut res = other;
        res.add_assign_rational(self);
        proof {
            InfRational::lemma_view(res, res, res@);
        }
        res
    }
}

impl AddSpecImpl<InfRational> for &Rational {
    open spec fn obeys_add_spec() -> bool {
        true
    }

    open spec fn add_req(self, other: InfRational) -> bool {
        other@.plus_rat_defined(self@) && other@.plus_rat(self@).fits()
    }

    open spec fn add_spec(self, other: InfRational) -> InfRational {
        InfRational::of(other@.plus_rat(self@))
    }
}

impl core::ops::Sub<InfRational> for &Rational {
    type Output = InfRational;

    fn sub(self, other: InfRational) -> (r: InfRational)
        ensures
            r@ == other@.negated().plus_rat(self@),
    {
        let mut res = other.negate();
        res.add_assign_rational(self);
        proof {
            InfRational::lemma_view(res, res, res@);
        }
        res
    }
}

impl SubSpecImpl<InfRational> for &Rational {
    open spec fn obeys_sub_spec() -> bool {
        true
    }

    open spec fn sub_req(self, other: InfRational) -> bool {
        other@.negated().fits() && other@.negated().plus_rat_defined(self@) && other@.negated().plus_rat(self@).fits()
    }

    open spec fn sub_spec(self, other: InfRational) -> InfRational {
        InfRational::of(other@.negated().plus_rat(self@))
    }
}

impl core::ops::Mul<InfRational> for &Rational {
    type Output = InfRational;

    fn mul(self, other: InfRational) -> (r: InfRational)
        ensures
            r@ == other@.times_rat(self@),
    {
        let mut res = other;
        res.mul_assign_rational(self);
        proof {
            InfRational::lemma_view(res, res, res@);
        }
        res
    }
}

impl MulSpecImpl<InfRational> for &Rational {
    open spec fn obeys_mul_spec() -> bool {
        true
    }

    open spec fn mul_req(self, other: InfRational) -> bool {
        other@.times_rat_defined(self@) && other@.times_rat(self@).fits()
    }

    open spec fn mul_spec(self, other: InfRational) -> InfRational {
        InfRational::of(other@.times_rat(self@))
    }
}

impl core::ops::Add<&InfRational> for &Rational {
    type Output = InfRational;

    fn add(self, other: &InfRational) -> (r: InfRational)
        ensures
            r@ == other@.plus_rat(self@),
    {
        let mut res = *other;
        res.add_assign_rational(self);
        proof {
            InfRational::lemma_view(res, res, res@);
        }
        res
    }
}

impl AddSpecImpl<&InfRational> for &Rational {
    open spec fn obeys_add_spec() -> bool {
        true
    }

    open spec fn add_req(self, other: &InfRational) -> bool {
        other@.plus_rat_defined(self@) && other@.plus_rat(self@).fits()
    }

    open spec fn add_spec(self, other: &InfRational) -> InfRational {
        InfRational::of(other@.plus_rat(self@))
    }
}

impl core::ops::Sub<&InfRational> for &Rational {
    type Output = InfRational;

    fn sub(self, other: &InfRational) -> (r: InfRational)
        ensures
            r@ == other@.negated().plus_rat(self@),
    {
        let mut res = other.negate();
        res.add_assign_rational(self);
        proof {
            InfRational::lemma_view(res, res, res@);
        }
        res
    }
}

impl SubSpecImpl<&InfRational> for &Rational {
    open spec fn obeys_sub_spec() -> bool {
        true
    }

    open spec fn sub_req(self, other: &InfRational) -> bool {
        other@.negated().fits() && other@.negated().plus_rat_defined(self@) && other@.negated().plus_rat(self@).fits()
    }

    open spec fn sub_spec(self, other: &InfRational) -> InfRational {
        InfRational::of(other@.negated().plus_rat(self@))
    }
}

impl core::ops::Mul<&InfRational> for &Rational {
    type Output = InfRational;

    fn mul(self, other: &InfRational) -> (r: InfRational)
        ensures
            r@ == other@.times_rat(self@),
    {
        let mut res = *other;
        res.mul_assign_rational(self);
        proof {
            InfRational::lemma_view(res, res, res@);
        }
        res
    }
}

impl MulSpecImpl<&InfRational> for &Rational {
    open spec fn obeys_mul_spec() -> bool {
        true
    }

    open spec fn mul_req(self, other: &InfRational) -> bool {
        other@.times_rat_defined(self@) && other@.times_rat(self@).fits()
    }

    open spec fn mul_spec(self, other: &InfRational) -> InfRational {
        InfRational::of(other@.times_rat(self@))
    }
}

impl core::ops::Add<InfRational> for i64 {
    type Output = InfRational;

    fn add(self, other: InfRational) -> (r: InfRational)
        ensures
            r@ == other@.plus_rat(Ratio::of_i64(self)),
    {
        let mut res = other;
        res.add_assign_int(self);
        proof {
            InfRational::lemma_view(res, res, res@);
        }
        res
    }
}

impl AddSpecImpl<InfRational> for i64 {
    open spec fn obeys_add_spec() -> bool {
        true
    }

    open spec fn add_req(self, other: InfRational) -> bool {
        other@.plus_rat_defined(Ratio::of_i64(self)) && other@.plus_rat(Ratio::of_i64(self)).fits()
    }

    open spec fn add_spec(self, other: InfRational) -> InfRational {
        InfRational::of(other@.plus_rat(Ratio::of_i64(self)))
    }
}

impl core::ops::Sub<InfRational> for i64 {
    type Output = InfRational;

    fn sub(self, other: InfRational) -> (r: InfRational)
        ensures
            r@ == other@.negated().plus_rat(Ratio::of_i64(self)),
    {
        let mut res = other.negate();
        res.add_assign_int(self);
        proof {
            InfRational::lemma_view(res, res, res@);
        }
        res
    }
}

impl SubSpecImpl<InfRational> for i64 {
    open spec fn obeys_sub_spec() -> bool {
        true
    }

    open spec fn sub_req(self, other: InfRational) -> bool {
        other@.negated().fits() && other@.negated().plus_rat_defined(Ratio::of_i64(self)) && other@.negated().plus_rat(Ratio::of_i64(self)).fits()
    }

    open spec fn sub_spec(self, other: InfRational) -> InfRational {
        InfRational::of(other@.negated().plus_rat(Ratio::of_i64(self)))
    }
}

impl core::ops::Mul<InfRational> for i64 {
    type Output = InfRational;

    fn mul(self, other: InfRational) -> (r: InfRational)
        ensures
            r@ == other@.times_rat(Ratio::of_i64(self)),
    {
        let mut res = other;
        res.mul_assign_int(self);
        proof {
            InfRational::lemma_view(res, res, res@);
        }
        res
    }
}

impl MulSpecImpl<InfRational> for i64 {
    open spec fn obeys_mul_spec() -> bool {
        true
    }

    open spec fn mul_req(self, other: InfRational) -> bool {
        other@.times_rat_defined(Ratio::of_i64(self)) && other@.times_rat(Ratio::of_i64(self)).fits()
    }

    open spec fn mul_spec(self, other: InfRational) -> InfRational {
        InfRational::of(other@.times_rat(Ratio::of_i64(self)))
    }
}

impl core::ops::Add<&InfRational> for i64 {
    type Output = InfRational;

    fn add(self, other: &InfRational) -> (r: InfRational)
        ensures
            r@ == other@.plus_rat(Ratio::of_i64(self)),
    {
        let mut res = *other;
        res.add_assign_int(self);
        proof {
            InfRational::lemma_view(res, res, res@);
        }
        res
    }
}

impl AddSpecImpl<&InfRational> for i64 {
    open spec fn obeys_add_spec() -> bool {
        true
    }

    open spec fn add_req(self, other: &InfRational) -> bool {
        other@.plus_rat_defined(Ratio::of_i64(self)) && other@.plus_rat(Ratio::of_i64(self)).fits()
    }

    open spec fn add_spec(self, other: &InfRational) -> InfRational {
        InfRational::of(other@.plus_rat(Ratio::of_i64(self)))
    }
}

impl core::ops::Sub<&InfRational> for i64 {
    type Output = InfRational;

    fn sub(self, other: &InfRational) -> (r: InfRational)
        ensures
            r@ == other@.negated().plus_rat(Ratio::of_i64(self)),
    {
        let mut res = other.negate();
        res.add_assign_int(self);
        proof {
            InfRational::lemma_view(res, res, res@);
        }
        res
    }
}

impl SubSpecImpl<&InfRational> for i64 {
    open spec fn obeys_sub_spec() -> bool {
        true
    }

    open spec fn sub_req(self, other: &InfRational) -> bool {
        other@.negated().fits() && other@.negated().plus_rat_defined(Ratio::of_i64(self)) && other@.negated().plus_rat(Ratio::of_i64(self)).fits()
    }

    open spec fn sub_spec(self, other: &InfRational) -> InfRational {
        InfRational::of(other@.negated().plus_rat(Ratio::of_i64(self)))
    }
}

impl core::ops::Mul<&InfRational> for i64 {
    type Output = InfRational;

    fn mul(self, other: &InfRational) -> (r: InfRational)
        ensures
            r@ == other@.times_rat(Ratio::of_i64(self)),
    {
        let mut res = *other;
        res.mul_assign_int(self);
        proof {
            InfRational::lemma_view(res, res, res@);
        }
        res
    }
}

impl MulSpecImpl<&InfRational> for i64 {
    open spec fn obeys_mul_spec() -> bool {
        true
    }

    open spec fn mul_req(self, other: &InfRational) -> bool {
        other@.times_rat_defined(Ratio::of_i64(self)) && other@.times_rat(Ratio::of_i64(self)).fits()
    }

    open spec fn mul_spec(self, other: &InfRational) -> InfRational {
        InfRational::of(other@.times_rat(Ratio::of_i64(self)))
    }
}


impl core::ops::Neg for InfRational {
    type Output = InfRational;

    fn neg(self) -> (r: InfRational)
        ensures
            r@ == self@.negated(),
    {
        let res = self.negate();
        proof {
            InfRational::lemma_view(res, res, res@);
        }
        res
    }
}

impl NegSpecImpl for InfRational {
    open spec fn obeys_neg_spec() -> bool {
        true
    }

    open spec fn neg_req(self) -> bool {
        self@.negated().fits()
    }

    open spec fn neg_spec(self) -> InfRational {
        InfRational::of(self@.negated())
    }
}

impl From<Rational> for InfRational {
    fn from(arg: Rational) -> (r: InfRational)
        ensures
            r@ == InfRatio::from_ratio(arg@),
    {
        let res = InfRational::from_rational(arg);
        proof {
            InfRational::lemma_view(res, res, res@);
        }
        res
    }
}

impl FromSpecImpl<Rational> for InfRational {
    open spec fn obeys_from_spec() -> bool {
        true
    }

    open spec fn from_spec(arg: Rational) -> InfRational {
        InfRational::of(InfRatio::from_ratio(arg@))
    }
}

impl From<i64> for InfRational {
    fn from(arg: i64) -> (r: InfRational)
        ensures
            r@ == InfRatio::of_i64(arg),
    {
        let res = InfRational::from_integer(arg);
        proof {
            InfRational::lemma_view(res, res, res@);
        }
        res
    }
}

impl FromSpecImpl<i64> for InfRational {
    open spec fn obeys_from_spec() -> bool {
        true
    }

    open spec fn from_spec(arg: i64) -> InfRational {
        InfRational::of(InfRatio::of_i64(arg))
    }
}

impl PartialEq for InfRational {
    fn eq(&self, other: &InfRational) -> (b: bool) {
        self.is_equal_to(other)
    }
}

impl PartialEqSpecImpl for InfRational {
    open spec fn obeys_eq_spec() -> bool {
        true
    }

    open spec fn eq_spec(&self, other: &InfRational) -> bool {
        self@ == other@
    }
}

impl Eq for InfRational {

}

impl PartialEq<&Rational> for InfRational {
    fn eq(&self, other: &&Rational) -> (b: bool) {
        self.is_equal_to(&InfRational::from_rational(**other))
    }
}

impl PartialEqSpecImpl<&Rational> for InfRational {
    open spec fn obeys_eq_spec() -> bool {
        true
    }

    open spec fn eq_spec(&self, other: &&Rational) -> bool {
        self@ == InfRatio::from_ratio(other@)
    }
}

impl PartialEq<i64> for InfRational {
    fn eq(&self, other: &i64) -> (b: bool) {
        self.is_equal_to(&InfRational::from_integer(*other))
    }
}

impl PartialEqSpecImpl<i64> for InfRational {
    open spec fn obeys_eq_spec() -> bool {
        true
    }

    open spec fn eq_spec(&self, other: &i64) -> bool {
        self@ == InfRatio::of_i64(*other)
    }
}

impl PartialOrd for InfRational {
    fn partial_cmp(&self, other: &InfRational) -> (o: Option<Ordering>) {
        if self.is_less_than(other) {
            Some(Ordering::Less)
        } else if other.is_less_than(self) {
            Some(Ordering::Greater)
        } else {
            Some(Ordering::Equal)
        }
    }
}

impl PartialOrdSpecImpl for InfRational {
    open spec fn obeys_partial_cmp_spec() -> bool {
        true
    }

    open spec fn partial_cmp_spec(&self, other: &InfRational) -> Option<Ordering> {
        if self@.lt(other@) {
            Some(Ordering::Less)
        } else if other@.lt(self@) {
            Some(Ordering::Greater)
        } else {
            Some(Ordering::Equal)
        }
    }
}

impl PartialOrd<&Rational> for InfRational {
    fn partial_cmp(&self, other: &&Rational) -> (o: Option<Ordering>) {
        let k = InfRational::from_rational(**other);
        if self.is_less_than(&k) {
            Some(Ordering::Less)
        } else if k.is_less_than(self) {
            Some(Ordering::Greater)
        } else {
            Some(Ordering::Equal)
        }
    }
}

impl PartialOrdSpecImpl<&Rational> for InfRational {
    open spec fn obeys_partial_cmp_spec() -> bool {
        true
    }

    open spec fn partial_cmp_spec(&self, other: &&Rational) -> Option<Ordering> {
        if self@.lt(InfRatio::from_ratio(other@)) {
            Some(Ordering::Less)
        } else if InfRatio::from_ratio(other@).lt(self@) {
            Some(Ordering::Greater)
        } else {
            Some(Ordering::Equal)
        }
    }
}

impl PartialOrd<i64> for InfRational {
    fn partial_cmp(&self, other: &i64) -> (o: Option<Ordering>) {
        let k = InfRational::from_integer(*other);
        if self.is_less_than(&k) {
            Some(Ordering::Less)
        } else if k.is_less_than(self) {
            Some(Ordering::Greater)
        } else {
            Some(Ordering::Equal)
        }
    }
}

impl PartialOrdSpecImpl<i64> for InfRational {
    open spec fn obeys_partial_cmp_spec() -> bool {
        true
    }

    open spec fn partial_cmp_spec(&self, other: &i64) -> Option<Ordering> {
        if self@.lt(InfRatio::of_i64(*other)) {
            Some(Ordering::Less)
        } else if InfRatio::of_i64(*other).lt(self@) {
            Some(Ordering::Greater)
        } else {
            Some(Ordering::Equal)
        }
    }
}

} // verus!
