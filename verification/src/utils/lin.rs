//! Sparse linear forms over the variables of the arithmetic engine.

use crate::utils::lin_form::lemma_coef_at;
use crate::utils::lin_form::lemma_coef_normal;
use crate::utils::lin_form::lemma_empty_coef;
use crate::utils::lin_form::lemma_mapped_coef;
use crate::utils::lin_form::lemma_normalized_zero;
use crate::utils::lin_form::lemma_insert_coef;
use crate::utils::lin_form::lemma_remove_coef;
use crate::utils::lin_form::lemma_update_coef;
use crate::utils::lin_form::LinForm;
use crate::utils::ratio::lemma_normalized_is_normal;
use crate::utils::ratio::lemma_plus_zero;
use crate::utils::ratio::Ratio;
use crate::utils::rational::Rational;
use std::collections::HashMap;
use crate::utils::text::append_decimal;
use vstd::prelude::*;
use vstd::std_specs::cmp::PartialEqSpecImpl;
use vstd::std_specs::ops::AddSpecImpl;
use vstd::std_specs::ops::DivSpecImpl;
use vstd::std_specs::ops::MulSpecImpl;
use vstd::std_specs::ops::NegSpecImpl;
use vstd::std_specs::ops::SubSpecImpl;
use vstd::string::StringExecFns;

verus! {

/// A linear combination of variables plus a known term.
///
/// The terms are kept in ascending order of their variables, and a term
/// whose coefficient becomes zero is dropped. The order is what makes the
/// text of a form canonical and two equal forms equal term by term: a
/// map that is walked in no fixed order would give neither.
#[derive(Debug)]
pub struct Lin {
    terms: Vec<(usize, Rational)>,
    known_term: Rational,
}

impl View for Lin {
    type V = LinForm;

    closed spec fn view(&self) -> LinForm {
        LinForm { terms: terms_view(self.terms@), known: self.known_term@ }
    }
}

/// The terms with each coefficient taken by its view.
pub closed spec fn terms_view(terms: Seq<(usize, Rational)>) -> Seq<(usize, Ratio)> {
    Seq::new(terms.len(), |i: int| (terms[i].0, terms[i].1@))
}

/// The view of the terms, place by place.
proof fn lemma_terms_view(terms: Seq<(usize, Rational)>)
    ensures
        terms_view(terms).len() == terms.len(),
        forall|i: int|
            #![trigger terms_view(terms)[i]]
            #![trigger terms[i]]
            0 <= i < terms.len() ==> terms_view(terms)[i] == (terms[i].0, terms[i].1@),
{
}

impl Lin {
    #[verifier::type_invariant]
    pub closed spec fn well_formed(&self) -> bool {
        self@.is_normal()
    }

    /// The form that is the known term alone.
    pub fn constant(known_term: Rational) -> (l: Lin)
        ensures
            l@ == LinForm::constant(known_term@),
            l@.is_normal(),
    {
        let ok = known_term.is_normal();
        let l = Lin { terms: Vec::new(), known_term };
        assert(l@.terms =~= Seq::empty());
        l
    }

    /// The form `1 * v`.
    pub fn variable(v: usize) -> (l: Lin)
        ensures
            l@ == LinForm::variable(v),
            l@.is_normal(),
    {
        let one = Rational::from_integer(1);
        let zero = Rational::zero();
        let ok = one.is_normal() && zero.is_normal();
        let mut terms: Vec<(usize, Rational)> = Vec::new();
        terms.push((v, one));
        let l = Lin { terms, known_term: zero };
        assert(l@.terms =~= seq![(v, Ratio::from_int(1))]);
        l
    }

    /// Every form is normal: ascending variables and no zero coefficient.
    pub fn is_normal(&self) -> (b: bool)
        ensures
            b,
            self@.is_normal(),
    {
        proof {
            use_type_invariant(self);
        }
        true
    }

    /// The number of terms.
    pub fn len(&self) -> (n: usize)
        ensures
            n == self@.terms.len(),
    {
        self.terms.len()
    }

    /// The variable of the term at place `i`.
    pub fn var_at(&self, i: usize) -> (v: usize)
        requires
            i < self@.terms.len(),
        ensures
            v == self@.terms[i as int].0,
    {
        self.terms[i].0
    }

    /// The coefficient of the term at place `i`.
    pub fn coeff_at(&self, i: usize) -> (c: Rational)
        requires
            i < self@.terms.len(),
        ensures
            c@ == self@.terms[i as int].1,
            c@.is_normal(),
            c@.num != 0,
    {
        proof {
            use_type_invariant(self);
            lemma_terms_view(self.terms@);
        }
        self.terms[i].1
    }

    /// The known term.
    pub fn known_term(&self) -> (k: Rational)
        ensures
            k@ == self@.known,
    {
        self.known_term
    }

    /// The first place whose variable is not below `v`.
    fn find(&self, v: usize) -> (p: usize)
        ensures
            p <= self@.terms.len(),
            forall|i: int| 0 <= i < p ==> (#[trigger] self@.terms[i]).0 < v,
            forall|i: int| p <= i < self@.terms.len() ==> (#[trigger] self@.terms[i]).0 >= v,
    {
        proof {
            use_type_invariant(self);
            lemma_terms_view(self.terms@);
        }
        let mut p: usize = 0;
        while p < self.terms.len() && self.terms[p].0 < v
            invariant
                p <= self.terms.len(),
                forall|i: int| 0 <= i < p ==> (#[trigger] self@.terms[i]).0 < v,
            decreases self.terms.len() - p,
        {
            p += 1;
        }
        assert forall|i: int| p <= i < self@.terms.len() implies (#[trigger] self@.terms[i]).0
            >= v by {
            if i > p {
                assert(self@.terms[p as int].0 < self@.terms[i].0);
            }
        }
        p
    }

    /// The coefficient of `v`; zero where no term mentions it.
    pub fn coefficient(&self, v: usize) -> (c: Rational)
        ensures
            c@ == self@.coef(v),
    {
        proof {
            use_type_invariant(self);
            lemma_terms_view(self.terms@);
        }
        let p = self.find(v);
        if p < self.terms.len() && self.terms[p].0 == v {
            proof {
                lemma_coef_at(self@, p as int);
            }
            self.terms[p].1
        } else {
            proof {
                if self@.has(v) {
                    let q = self@.position(v);
                    assert(self@.terms[q].0 == v);
                }
            }
            Rational::zero()
        }
    }

    /// Whether a term mentions `v`.
    pub fn has(&self, v: usize) -> (b: bool)
        ensures
            b == self@.has(v),
    {
        proof {
            use_type_invariant(self);
            lemma_terms_view(self.terms@);
        }
        let p = self.find(v);
        if p < self.terms.len() && self.terms[p].0 == v {
            true
        } else {
            proof {
                if self@.has(v) {
                    let q = self@.position(v);
                    assert(self@.terms[q].0 == v);
                }
            }
            false
        }
    }

    /// Makes `c` the coefficient of `v`, dropping the term where `c` is zero.
    pub fn set_coefficient(&mut self, v: usize, c: Rational)
        ensures
            final(self)@.known == old(self)@.known,
            forall|u: usize|
                #[trigger] final(self)@.coef(u) == (if u == v {
                    c@
                } else {
                    old(self)@.coef(u)
                }),
    {
        proof {
            use_type_invariant(&*self);
            lemma_terms_view(self.terms@);
        }
        let ok = c.is_normal();
        let p = self.find(v);
        let present = p < self.terms.len() && self.terms[p].0 == v;
        let ghost before = self@;
        let mut terms: Vec<(usize, Rational)> = Vec::new();
        std::mem::swap(&mut self.terms, &mut terms);
        assert(terms_view(self.terms@) =~= Seq::empty());
        assert(terms_view(terms@) == before.terms);
        if c.num() == 0 {
            proof {
                crate::utils::ratio::lemma_normal_cases(c@);
                assert(c@ == Ratio::zero()) by {
                    assert(crate::utils::arith::gcd(0, c@.den as nat) == 1);
                    reveal_with_fuel(crate::utils::arith::gcd, 3);
                }
            }
            if present {
                terms.remove(p);
                proof {
                    lemma_terms_view(terms@);
                    lemma_remove_coef(before, p as int);
                    assert(terms_view(terms@) =~= before.terms.remove(p as int));
                }
            } else {
                proof {
                    if before.has(v) {
                        let q = before.position(v);
                        assert(before.terms[q].0 == v);
                    }
                }
            }
        } else if present {
            terms.set(p, (v, c));
            proof {
                lemma_terms_view(terms@);
                lemma_update_coef(before, p as int, c@);
                assert(terms_view(terms@) =~= before.terms.update(p as int, (v, c@)));
            }
        } else {
            terms.insert(p, (v, c));
            proof {
                lemma_terms_view(terms@);
                lemma_insert_coef(before, p as int, v, c@);
                assert(terms_view(terms@) =~= before.terms.insert(p as int, (v, c@)));
            }
        }
        proof {
            let after = LinForm { terms: terms_view(terms@), known: before.known };
            assert forall|i: int| 0 <= i < after.terms.len() implies (
            #[trigger] after.terms[i]).1.is_normal() && after.terms[i].1.num != 0 by {
                lemma_coef_at(after, i);
                lemma_coef_normal(before, after.terms[i].0);
            }
        }
        self.terms = terms;
    }
}

impl Lin {
    /// A copy of the form.
    pub fn duplicate(&self) -> (l: Lin)
        ensures
            l@ == self@,
    {
        proof {
            use_type_invariant(self);
            lemma_terms_view(self.terms@);
        }
        let n = self.terms.len();
        let mut out: Vec<(usize, Rational)> = Vec::new();
        let mut i: usize = 0;
        while i < n
            invariant
                i <= n,
                n == self.terms@.len(),
                out@.len() == i,
                forall|j: int| 0 <= j < i ==> #[trigger] out@[j] == self.terms@[j],
            decreases n - i,
        {
            out.push(self.terms[i]);
            i += 1;
        }
        proof {
            lemma_terms_view(out@);
            assert(terms_view(out@) =~= self@.terms);
        }
        Lin { terms: out, known_term: self.known_term }
    }

    /// Adds `other`, or subtracts it, coefficient by coefficient.
    fn combine(&mut self, other: &Lin, subtract: bool)
        requires
            subtract ==> LinForm::difference_fits(old(self)@, other@),
            !subtract ==> LinForm::sum_fits(old(self)@, other@),
        ensures
            subtract ==> final(self)@.is_difference_of(old(self)@, other@),
            !subtract ==> final(self)@.is_sum_of(old(self)@, other@),
    {
        let ghost start = self@;
        proof {
            use_type_invariant(&*self);
            use_type_invariant(other);
        }
        let mut k = self.known_term;
        if subtract {
            k.sub_assign(&other.known_term);
        } else {
            k.add_assign(&other.known_term);
        }
        let kn = k.is_normal();
        proof {
            lemma_terms_view(self.terms@);
            let g = LinForm { terms: terms_view(self.terms@), known: k@ };
            assert(start.is_normal());
            assert(g.terms == start.terms);
            assert(g.sorted());
            assert(g.is_normal());
        }
        self.known_term = k;
        proof {
            assert(self@.terms == start.terms);
            assert forall|u: usize| #[trigger] self@.coef(u) == start.coef(u) by {
                assert(self@.has(u) == start.has(u));
            }
        }
        let n = other.len();
        let mut i: usize = 0;
        while i < n
            invariant
                i <= n,
                n == other@.terms.len(),
                other@.is_normal(),
                start.is_normal(),
                subtract ==> LinForm::difference_fits(start, other@),
                !subtract ==> LinForm::sum_fits(start, other@),
                self@.known == (if subtract {
                    start.known.minus(other@.known)
                } else {
                    start.known.plus(other@.known)
                }),
                forall|u: usize|
                    #[trigger] self@.coef(u) == (if other@.has(u) && other@.position(u) < i {
                        if subtract {
                            start.coef(u).minus(other@.coef(u))
                        } else {
                            start.coef(u).plus(other@.coef(u))
                        }
                    } else {
                        start.coef(u)
                    }),
            decreases n - i,
        {
            let v = other.var_at(i);
            let c = other.coeff_at(i);
            proof {
                lemma_coef_at(other@, i as int);
            }
            let mut sum = self.coefficient(v);
            assert(sum@ == start.coef(v));
            if subtract {
                sum.sub_assign(&c);
            } else {
                sum.add_assign(&c);
            }
            let ghost prev = self@;
            self.set_coefficient(v, sum);
            proof {
                assert forall|u: usize| #[trigger] self@.coef(u) == (if other@.has(u)
                    && other@.position(u) < i + 1 {
                    if subtract {
                        start.coef(u).minus(other@.coef(u))
                    } else {
                        start.coef(u).plus(other@.coef(u))
                    }
                } else {
                    start.coef(u)
                }) by {
                    if u != v {
                        assert(self@.coef(u) == prev.coef(u));
                        if other@.has(u) {
                            let q = other@.position(u);
                            assert(other@.terms[q].0 == u);
                        }
                    }
                }
            }
            i += 1;
        }
        proof {
            assert forall|u: usize| #[trigger] self@.coef(u) == (if subtract {
                start.coef(u).minus(other@.coef(u))
            } else {
                start.coef(u).plus(other@.coef(u))
            }) by {
                if !other@.has(u) {
                    lemma_coef_normal(start, u);
                    lemma_plus_zero(start.coef(u));
                    crate::utils::ratio::lemma_minus_zero(start.coef(u));
                }
            }
        }
    }

    /// Adds `other` in place: each coefficient is the sum of the two.
    pub fn add_assign(&mut self, other: &Lin)
        requires
            LinForm::sum_fits(old(self)@, other@),
        ensures
            final(self)@.is_sum_of(old(self)@, other@),
            final(self)@.is_normal(),
    {
        self.combine(other, false);
        let ok = self.is_normal();
    }

    /// Subtracts `other` in place: each coefficient is the difference of the two.
    pub fn sub_assign(&mut self, other: &Lin)
        requires
            LinForm::difference_fits(old(self)@, other@),
        ensures
            final(self)@.is_difference_of(old(self)@, other@),
            final(self)@.is_normal(),
    {
        self.combine(other, true);
        let ok = self.is_normal();
    }

    /// Adds a rational to the known term.
    pub fn add_assign_rational(&mut self, other: &Rational)
        requires
            old(self)@.known.plus_defined(other@),
            old(self)@.known.plus(other@).fits(),
        ensures
            final(self)@ == (LinForm {
                terms: old(self)@.terms,
                known: old(self)@.known.plus(other@),
            }),
    {
        proof {
            use_type_invariant(&*self);
        }
        let mut k = self.known_term;
        k.add_assign(other);
        let kn = k.is_normal();
        self.known_term = k;
    }

    /// Subtracts a rational from the known term.
    pub fn sub_assign_rational(&mut self, other: &Rational)
        requires
            old(self)@.known.minus_defined(other@),
            old(self)@.known.minus(other@).fits(),
        ensures
            final(self)@ == (LinForm {
                terms: old(self)@.terms,
                known: old(self)@.known.minus(other@),
            }),
    {
        proof {
            use_type_invariant(&*self);
        }
        let mut k = self.known_term;
        k.sub_assign(other);
        let kn = k.is_normal();
        self.known_term = k;
    }

    /// Multiplies every coefficient and the known term by `other`.
    pub fn mul_assign(&mut self, other: &Rational)
        requires
            LinForm::product_fits(old(self)@, other@),
        ensures
            final(self)@.is_product_of(old(self)@, other@),
            final(self)@.is_normal(),
    {
        let ghost start = self@;
        let ghost s = other@;
        proof {
            use_type_invariant(&*self);
            lemma_terms_view(self.terms@);
        }
        let on = other.is_normal();
        let mut k = self.known_term;
        k.mul_assign(other);
        let kn = k.is_normal();
        let mut out: Vec<(usize, Rational)> = Vec::new();
        if other.num() != 0 {
            let n = self.terms.len();
            let mut i: usize = 0;
            while i < n
                invariant
                    i <= n,
                    n == self.terms@.len(),
                    self@ == start,
                    s == other@,
                    s.is_normal(),
                    s.num != 0,
                    start.is_normal(),
                    LinForm::product_fits(start, s),
                    out@.len() == i,
                    forall|j: int|
                        0 <= j < i ==> (#[trigger] out@[j]).0 == start.terms[j].0 && out@[j].1@
                            == start.terms[j].1.times(s) && out@[j].1@.is_normal()
                            && out@[j].1@.num != 0,
                decreases n - i,
            {
                proof {
                    lemma_terms_view(self.terms@);
                }
                let v = self.terms[i].0;
                let mut c = self.terms[i].1;
                proof {
                    let a = start.terms[i as int].1;
                    assert(a.times_defined(s));
                    assert(a.num * s.num != 0) by (nonlinear_arith)
                        requires
                            a.num != 0,
                            s.num != 0,
                    ;
                    lemma_normalized_is_normal(a.num * s.num, a.den * s.den);
                }
                c.mul_assign(other);
                let cn = c.is_normal();
                out.push((v, c));
                i += 1;
            }
        }
        proof {
            lemma_terms_view(out@);
            let after = LinForm { terms: terms_view(out@), known: k@ };
            if s.num != 0 {
                lemma_mapped_coef(start, after, |c: Ratio| c.times(s));
            } else {
                lemma_empty_coef(after);
                assert forall|v: usize| start.has(v) implies (#[trigger] start.coef(v)).times(s)
                    == Ratio::zero() by {
                    let p = start.position(v);
                    lemma_coef_at(start, p);
                    let a = start.terms[p].1;
                    assert(a.times_defined(s));
                    crate::utils::ratio::lemma_normal_cases(s);
                    assert(a.num * s.num == 0) by (nonlinear_arith)
                        requires
                            s.num == 0,
                    ;
                    assert(a.den * s.den != 0) by (nonlinear_arith)
                        requires
                            a.den != 0,
                            s.den != 0,
                    ;
                    lemma_normalized_zero(a.den * s.den);
                }
            }
        }
        self.terms = out;
        self.known_term = k;
    }

    /// Divides every coefficient and the known term by `other`.
    pub fn div_assign(&mut self, other: &Rational)
        requires
            LinForm::quotient_fits(old(self)@, other@),
        ensures
            final(self)@.is_quotient_of(old(self)@, other@),
            final(self)@.is_normal(),
    {
        let ghost start = self@;
        let ghost s = other@;
        proof {
            use_type_invariant(&*self);
            lemma_terms_view(self.terms@);
        }
        let on = other.is_normal();
        let mut k = self.known_term;
        k.div_assign(other);
        let kn = k.is_normal();
        let mut out: Vec<(usize, Rational)> = Vec::new();
        if other.den() != 0 {
            let n = self.terms.len();
            let mut i: usize = 0;
            while i < n
                invariant
                    i <= n,
                    n == self.terms@.len(),
                    self@ == start,
                    s == other@,
                    s.is_normal(),
                    s.den != 0,
                    start.is_normal(),
                    LinForm::quotient_fits(start, s),
                    out@.len() == i,
                    forall|j: int|
                        0 <= j < i ==> (#[trigger] out@[j]).0 == start.terms[j].0 && out@[j].1@
                            == start.terms[j].1.over(s) && out@[j].1@.is_normal()
                            && out@[j].1@.num != 0,
                decreases n - i,
            {
                proof {
                    lemma_terms_view(self.terms@);
                }
                let v = self.terms[i].0;
                let mut c = self.terms[i].1;
                proof {
                    let a = start.terms[i as int].1;
                    assert(a.over_defined(s));
                    assert(a.num * s.den != 0) by (nonlinear_arith)
                        requires
                            a.num != 0,
                            s.den != 0,
                    ;
                    lemma_normalized_is_normal(a.num * s.den, a.den * s.num);
                }
                c.div_assign(other);
                let cn = c.is_normal();
                out.push((v, c));
                i += 1;
            }
        }
        proof {
            lemma_terms_view(out@);
            let after = LinForm { terms: terms_view(out@), known: k@ };
            if s.den != 0 {
                lemma_mapped_coef(start, after, |c: Ratio| c.over(s));
            } else {
                lemma_empty_coef(after);
                assert forall|v: usize| start.has(v) implies (#[trigger] start.coef(v)).over(s)
                    == Ratio::zero() by {
                    let p = start.position(v);
                    lemma_coef_at(start, p);
                    let a = start.terms[p].1;
                    assert(a.over_defined(s));
                    crate::utils::ratio::lemma_normal_cases(s);
                    assert(a.num * s.den == 0) by (nonlinear_arith)
                        requires
                            s.den == 0,
                    ;
                    assert(a.den * s.num != 0) by (nonlinear_arith)
                        requires
                            a.den != 0,
                            s.num != 0,
                    ;
                    lemma_normalized_zero(a.den * s.num);
                }
            }
        }
        self.terms = out;
        self.known_term = k;
    }

    /// The opposite form: every coefficient and the known term negated.
    pub fn negate(&self) -> (l: Lin)
        requires
            LinForm::opposite_fits(self@),
        ensures
            l@.is_opposite_of(self@),
            l@.is_normal(),
    {
        let ghost start = self@;
        proof {
            use_type_invariant(self);
            lemma_terms_view(self.terms@);
        }
        let k = self.known_term.negate();
        let kn = k.is_normal();
        let mut out: Vec<(usize, Rational)> = Vec::new();
        let n = self.terms.len();
        let mut i: usize = 0;
        while i < n
            invariant
                i <= n,
                n == self.terms@.len(),
                self@ == start,
                start.is_normal(),
                LinForm::opposite_fits(start),
                out@.len() == i,
                forall|j: int|
                    0 <= j < i ==> (#[trigger] out@[j]).0 == start.terms[j].0 && out@[j].1@
                        == start.terms[j].1.negated() && out@[j].1@.is_normal() && out@[j].1@.num
                        != 0,
            decreases n - i,
        {
            proof {
                lemma_terms_view(self.terms@);
                assert(start.terms[i as int].1.negated().fits());
            }
            let v = self.terms[i].0;
            let c = self.terms[i].1.negate();
            let cn = c.is_normal();
            out.push((v, c));
            i += 1;
        }
        proof {
            lemma_terms_view(out@);
            let after = LinForm { terms: terms_view(out@), known: k@ };
            lemma_mapped_coef(start, after, |c: Ratio| c.negated());
        }
        Lin { terms: out, known_term: k }
    }

    /// Whether the two forms are the same.
    pub fn is_equal_to(&self, other: &Lin) -> (b: bool)
        ensures
            b == (self@ == other@),
    {
        proof {
            lemma_terms_view(self.terms@);
            lemma_terms_view(other.terms@);
        }
        if !self.known_term.is_equal_to(&other.known_term) {
            return false;
        }
        let n = self.terms.len();
        if other.terms.len() != n {
            return false;
        }
        let mut i: usize = 0;
        while i < n
            invariant
                i <= n,
                n == self.terms@.len(),
                n == other.terms@.len(),
                self@.known == other@.known,
                forall|j: int| 0 <= j < i ==> #[trigger] self@.terms[j] == other@.terms[j],
            decreases n - i,
        {
            proof {
                lemma_terms_view(self.terms@);
                lemma_terms_view(other.terms@);
            }
            if self.terms[i].0 != other.terms[i].0 || !self.terms[i].1.is_equal_to(
                &other.terms[i].1,
            ) {
                assert(self@.terms[i as int] != other@.terms[i as int]);
                return false;
            }
            i += 1;
        }
        assert(self@.terms =~= other@.terms);
        true
    }
}

impl Lin {
    /// The form with the coefficients of `vars` and the given known term.
    /// An entry whose coefficient is zero leaves no term.
    pub fn new(vars: HashMap<usize, Rational>, known_term: Rational) -> (l: Lin)
        ensures
            l@.known == known_term@,
            forall|v: usize|
                #[trigger] l@.coef(v) == (if vars@.contains_key(v) {
                    vars@[v]@
                } else {
                    Ratio::zero()
                }),
            l@.is_normal(),
    {
        broadcast use vstd::std_specs::hash::group_hash_axioms;

        let mut l = Lin::constant(known_term);
        proof {
            lemma_empty_coef(l@);
        }
        for entry in it: vars.iter()
            invariant
                l@.known == known_term@,
                forall|v: usize|
                    #[trigger] l@.coef(v) == (if exists|j: int|
                        0 <= j < it.index() && *(#[trigger] it.seq()[j]).0 == v {
                        vars@[v]@
                    } else {
                        Ratio::zero()
                    }),
        {
            let k: usize = *entry.0;
            let c: Rational = *entry.1;
            l.set_coefficient(k, c);
        }
        let ok = l.is_normal();
        l
    }
}

impl Lin {
    /// Replaces the variable `v` by the form `row`: takes the term of `v`
    /// out and adds `c * row`, where `c` was the coefficient of `v`.
    pub fn substitute(&mut self, v: usize, row: &Lin)
        requires
            LinForm::substitution_fits(old(self)@, v, row@),
        ensures
            final(self)@.is_substitution_of(old(self)@, v, row@),
            final(self)@.is_normal(),
    {
        let ghost start = self@;
        let ghost r = row@;
        proof {
            use_type_invariant(&*self);
            use_type_invariant(row);
        }
        if !self.has(v) {
            return ;
        }
        let c = self.coefficient(v);
        let cn = c.is_normal();
        let mut k = self.known_term;
        let mut ck = c;
        ck.mul_assign(&row.known_term);
        k.add_assign(&ck);
        let kn = k.is_normal();
        proof {
            lemma_terms_view(self.terms@);
            let g = LinForm { terms: terms_view(self.terms@), known: k@ };
            assert(g.terms == start.terms);
            assert(g.sorted());
            assert(g.is_normal());
        }
        self.known_term = k;
        proof {
            assert(self@.terms == start.terms);
            assert forall|u: usize| #[trigger] self@.coef(u) == start.coef(u) by {
                assert(self@.has(u) == start.has(u));
            }
        }
        self.set_coefficient(v, Rational::zero());
        let n = row.len();
        let mut i: usize = 0;
        while i < n
            invariant
                i <= n,
                n == r.terms.len(),
                r == row@,
                r.is_normal(),
                start.is_normal(),
                start.has(v),
                c@ == start.coef(v),
                LinForm::substitution_fits(start, v, r),
                self@.known == start.known.plus(c@.times(r.known)),
                forall|u: usize|
                    #[trigger] self@.coef(u) == (if r.has(u) && r.position(u) < i {
                        LinForm::substituted_coef(start, v, r, u)
                    } else if u == v {
                        Ratio::zero()
                    } else {
                        start.coef(u)
                    }),
            decreases n - i,
        {
            let u = row.var_at(i);
            let d = row.coeff_at(i);
            proof {
                lemma_coef_at(r, i as int);
                assert(c@.times_defined(r.terms[i as int].1));
            }
            let mut cd = c;
            cd.mul_assign(&d);
            let mut sum = self.coefficient(u);
            sum.add_assign(&cd);
            let ghost prev = self@;
            self.set_coefficient(u, sum);
            proof {
                assert forall|w: usize| #[trigger] self@.coef(w) == (if r.has(w) && r.position(w)
                    < i + 1 {
                    LinForm::substituted_coef(start, v, r, w)
                } else if w == v {
                    Ratio::zero()
                } else {
                    start.coef(w)
                }) by {
                    if w != u {
                        assert(self@.coef(w) == prev.coef(w));
                        if r.has(w) {
                            let q = r.position(w);
                            assert(r.terms[q].0 == w);
                        }
                    }
                }
            }
            i += 1;
        }
        let ok = self.is_normal();
    }

    /// Appends the text of the term at place `i` to `s`, with a `+`
    /// before a coefficient that is not negative, unless the term is the
    /// first.
    fn append_term(&self, s: &mut String, i: usize)
        requires
            i < self@.terms.len(),
        ensures
            final(s)@ == old(s)@ + self@.term_text(i as int),
    {
        let c = self.coeff_at(i);
        let v = self.var_at(i);
        let mut piece = String::new();
        if i > 0 && c.num() >= 0 {
            piece.append("+");
        }
        c.append_to(&mut piece);
        piece.append("*");
        append_decimal(&mut piece, v as u128);
        proof {
            reveal_strlit("+");
            reveal_strlit("*");
            assert(piece@ =~= self@.term_text(i as int));
        }
        s.append(piece.as_str());
    }

    /// Appends the text of the first `n` terms to `s`.
    fn append_terms(&self, s: &mut String, n: usize)
        requires
            n <= self@.terms.len(),
        ensures
            final(s)@ == old(s)@ + self@.terms_text(n as int),
        decreases n,
    {
        if n == 0 {
            assert(s@ =~= old(s)@ + self@.terms_text(0));
            return ;
        }
        self.append_terms(s, n - 1);
        self.append_term(s, n - 1);
        proof {
            assert(s@ =~= old(s)@ + (self@.terms_text(n as int - 1) + self@.term_text(
                n as int - 1,
            )));
        }
    }

    /// The text of the form.
    pub fn to_string(&self) -> (s: String)
        ensures
            s@ == self@.text(),
    {
        let mut s = String::new();
        self.append_terms(&mut s, self.len());
        if self.len() > 0 && self.known_term.num() >= 0 {
            s.append("+");
        }
        self.known_term.append_to(&mut s);
        proof {
            reveal_strlit("+");
            assert(s@ =~= self@.text());
        }
        s
    }
}

impl Clone for Lin {
    fn clone(&self) -> (l: Lin)
        ensures
            l@ == self@,
    {
        self.duplicate()
    }
}

impl PartialEq for Lin {
    fn eq(&self, other: &Lin) -> (b: bool) {
        self.is_equal_to(other)
    }
}

impl PartialEqSpecImpl for Lin {
    open spec fn obeys_eq_spec() -> bool {
        true
    }

    open spec fn eq_spec(&self, other: &Lin) -> bool {
        self@ == other@
    }
}

impl Eq for Lin {

}

impl core::ops::Add<&Lin> for Lin {
    type Output = Lin;

    fn add(self, other: &Lin) -> (l: Lin)
        ensures
            l@.is_sum_of(self@, other@),
            l@.is_normal(),
    {
        let mut res = self;
        res.add_assign(other);
        res
    }
}

impl AddSpecImpl<&Lin> for Lin {
    open spec fn obeys_add_spec() -> bool {
        false
    }

    open spec fn add_req(self, other: &Lin) -> bool {
        LinForm::sum_fits(self@, other@)
    }

    open spec fn add_spec(self, other: &Lin) -> Lin {
        self
    }
}

impl core::ops::Add<&Rational> for Lin {
    type Output = Lin;

    fn add(self, other: &Rational) -> (l: Lin)
        ensures
            l@ == (LinForm { terms: self@.terms, known: self@.known.plus(other@) }),
    {
        let mut res = self;
        res.add_assign_rational(other);
        res
    }
}

impl AddSpecImpl<&Rational> for Lin {
    open spec fn obeys_add_spec() -> bool {
        false
    }

    open spec fn add_req(self, other: &Rational) -> bool {
        self@.known.plus_defined(other@) && self@.known.plus(other@).fits()
    }

    open spec fn add_spec(self, other: &Rational) -> Lin {
        self
    }
}

impl core::ops::Sub<&Lin> for Lin {
    type Output = Lin;

    fn sub(self, other: &Lin) -> (l: Lin)
        ensures
            l@.is_difference_of(self@, other@),
            l@.is_normal(),
    {
        let mut res = self;
        res.sub_assign(other);
        res
    }
}

impl SubSpecImpl<&Lin> for Lin {
    open spec fn obeys_sub_spec() -> bool {
        false
    }

    open spec fn sub_req(self, other: &Lin) -> bool {
        LinForm::difference_fits(self@, other@)
    }

    open spec fn sub_spec(self, other: &Lin) -> Lin {
        self
    }
}

impl core::ops::Sub<&Rational> for Lin {
    type Output = Lin;

    fn sub(self, other: &Rational) -> (l: Lin)
        ensures
            l@ == (LinForm { terms: self@.terms, known: self@.known.minus(other@) }),
    {
        let mut res = self;
        res.sub_assign_rational(other);
        res
    }
}

impl SubSpecImpl<&Rational> for Lin {
    open spec fn obeys_sub_spec() -> bool {
        false
    }

    open spec fn sub_req(self, other: &Rational) -> bool {
        self@.known.minus_defined(other@) && self@.known.minus(other@).fits()
    }

    open spec fn sub_spec(self, other: &Rational) -> Lin {
        self
    }
}

impl core::ops::Mul<&Rational> for Lin {
    type Output = Lin;

    fn mul(self, other: &Rational) -> (l: Lin)
        ensures
            l@.is_product_of(self@, other@),
            l@.is_normal(),
    {
        let mut res = self;
        res.mul_assign(other);
        res
    }
}

impl MulSpecImpl<&Rational> for Lin {
    open spec fn obeys_mul_spec() -> bool {
        false
    }

    open spec fn mul_req(self, other: &Rational) -> bool {
        LinForm::product_fits(self@, other@)
    }

    open spec fn mul_spec(self, other: &Rational) -> Lin {
        self
    }
}

impl core::ops::Div<&Rational> for Lin {
    type Output = Lin;

    fn div(self, other: &Rational) -> (l: Lin)
        ensures
            l@.is_quotient_of(self@, other@),
            l@.is_normal(),
    {
        let mut res = self;
        res.div_assign(other);
        res
    }
}

impl DivSpecImpl<&Rational> for Lin {
    open spec fn obeys_div_spec() -> bool {
        false
    }

    open spec fn div_req(self, other: &Rational) -> bool {
        LinForm::quotient_fits(self@, other@)
    }

    open spec fn div_spec(self, other: &Rational) -> Lin {
        self
    }
}

impl core::ops::Neg for Lin {
    type Output = Lin;

    fn neg(self) -> (l: Lin)
        ensures
            l@.is_opposite_of(self@),
            l@.is_normal(),
    {
        self.negate()
    }
}

impl NegSpecImpl for Lin {
    open spec fn obeys_neg_spec() -> bool {
        false
    }

    open spec fn neg_req(self) -> bool {
        LinForm::opposite_fits(self@)
    }

    open spec fn neg_spec(self) -> Lin {
        self
    }
}

impl Lin {
    /// The form without its known term.
    pub fn linear_part(&self) -> (l: Lin)
        ensures
            l@ == self@.linear_part(),
            l@.is_normal(),
    {
        proof {
            use_type_invariant(self);
        }
        let mut l = self.duplicate();
        let zero = Rational::zero();
        let zn = zero.is_normal();
        proof {
            use_type_invariant(&l);
            lemma_terms_view(l.terms@);
            let g = LinForm { terms: terms_view(l.terms@), known: zero@ };
            assert(g.terms == self@.terms);
            assert(g.sorted());
            assert(g.is_normal());
        }
        l.known_term = zero;
        l
    }

    /// Whether every variable of the form is below `n`.
    pub fn vars_below(&self, n: usize) -> (b: bool)
        ensures
            b == self@.vars_below(n as nat),
    {
        proof {
            use_type_invariant(self);
            lemma_terms_view(self.terms@);
        }
        let k = self.terms.len();
        if k == 0 {
            return true;
        }
        let last = self.terms[k - 1].0;
        proof {
            if last < n {
                assert forall|i: int| 0 <= i < self@.terms.len() implies (
                #[trigger] self@.terms[i]).0 < n by {
                    if i < k - 1 {
                        assert(self@.terms[i].0 < self@.terms[k - 1].0);
                    }
                }
            } else {
                assert(self@.terms[k - 1].0 >= n);
            }
        }
        last < n
    }
}

} // verus!
