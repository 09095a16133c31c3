//! The mathematical model of a sparse linear form `c1*x1 + ... + cn*xn + k`.

use crate::utils::ratio::Ratio;
use crate::utils::text::decimal;
use vstd::prelude::*;

verus! {

/// The terms of a linear form, in ascending order of their variables, and
/// its known term.
pub struct LinForm {
    pub terms: Seq<(usize, Ratio)>,
    pub known: Ratio,
}

impl LinForm {
    /// Whether the variable `v` occurs in a term.
    pub open spec fn has(self, v: usize) -> bool {
        exists|i: int| 0 <= i < self.terms.len() && (#[trigger] self.terms[i]).0 == v
    }

    /// The place of a term over `v`.
    pub open spec fn position(self, v: usize) -> int {
        choose|i: int| 0 <= i < self.terms.len() && (#[trigger] self.terms[i]).0 == v
    }

    /// The coefficient of `v`: zero where no term mentions it.
    pub open spec fn coef(self, v: usize) -> Ratio {
        if self.has(v) {
            self.terms[self.position(v)].1
        } else {
            Ratio::zero()
        }
    }

    /// The variables strictly ascend, so none occurs twice.
    pub open spec fn sorted(self) -> bool {
        forall|i: int, j: int|
            0 <= i < j < self.terms.len() ==> (#[trigger] self.terms[i]).0 < (
            #[trigger] self.terms[j]).0
    }

    /// Ascending variables, normal coefficients, and none of them zero.
    pub open spec fn is_normal(self) -> bool {
        &&& self.sorted()
        &&& self.known.is_normal()
        &&& forall|i: int|
            0 <= i < self.terms.len() ==> (#[trigger] self.terms[i]).1.is_normal()
                && self.terms[i].1.num != 0
    }

    /// The text of the term at place `i`: its coefficient, `*`, and the
    /// index of its variable, after a `+` where the coefficient is not
    /// negative and the term is not the first.
    pub open spec fn term_text(self, i: int) -> Seq<char> {
        let t = self.terms[i];
        let sign = if i > 0 && t.1.num >= 0 {
            seq!['+']
        } else {
            Seq::empty()
        };
        sign + t.1.text() + seq!['*'] + decimal(t.0 as nat)
    }

    /// The text of the first `n` terms.
    pub open spec fn terms_text(self, n: int) -> Seq<char>
        decreases n,
    {
        if n <= 0 {
            Seq::empty()
        } else {
            self.terms_text(n - 1) + self.term_text(n - 1)
        }
    }

    /// The text of the form: its terms in ascending order of their
    /// variables, then the known term, signs rendered in place.
    pub open spec fn text(self) -> Seq<char> {
        let sign = if self.terms.len() > 0 && self.known.num >= 0 {
            seq!['+']
        } else {
            Seq::empty()
        };
        self.terms_text(self.terms.len() as int) + sign + self.known.text()
    }

    /// The form that is the known term `k` alone.
    pub open spec fn constant(k: Ratio) -> LinForm {
        LinForm { terms: Seq::empty(), known: k }
    }

    /// The form `1 * v`.
    pub open spec fn variable(v: usize) -> LinForm {
        LinForm { terms: seq![(v, Ratio::from_int(1))], known: Ratio::zero() }
    }

    /// `self` has the coefficients and the known term of `a + b`.
    pub open spec fn is_sum_of(self, a: LinForm, b: LinForm) -> bool {
        &&& self.known == a.known.plus(b.known)
        &&& forall|v: usize| #[trigger] self.coef(v) == a.coef(v).plus(b.coef(v))
    }

    /// Every coefficient of `a + b` is defined and fits.
    pub open spec fn sum_fits(a: LinForm, b: LinForm) -> bool {
        &&& a.known.plus_defined(b.known)
        &&& a.known.plus(b.known).fits()
        &&& forall|v: usize|
            (#[trigger] a.coef(v)).plus_defined(b.coef(v)) && a.coef(v).plus(b.coef(v)).fits()
    }

    /// `self` has the coefficients and the known term of `a - b`.
    pub open spec fn is_difference_of(self, a: LinForm, b: LinForm) -> bool {
        &&& self.known == a.known.minus(b.known)
        &&& forall|v: usize| #[trigger] self.coef(v) == a.coef(v).minus(b.coef(v))
    }

    /// Every coefficient of `a - b` is defined and fits.
    pub open spec fn difference_fits(a: LinForm, b: LinForm) -> bool {
        &&& a.known.minus_defined(b.known)
        &&& a.known.minus(b.known).fits()
        &&& forall|v: usize|
            (#[trigger] a.coef(v)).minus_defined(b.coef(v)) && a.coef(v).minus(b.coef(v)).fits()
    }

    /// `self` is `a` with every coefficient and the known term multiplied by `s`.
    pub open spec fn is_product_of(self, a: LinForm, s: Ratio) -> bool {
        &&& self.known == a.known.times(s)
        &&& forall|v: usize|
            #[trigger] self.coef(v) == (if a.has(v) {
                a.coef(v).times(s)
            } else {
                Ratio::zero()
            })
    }

    /// Every stored coefficient of `a`, and its known term, can be multiplied by `s`.
    pub open spec fn product_fits(a: LinForm, s: Ratio) -> bool {
        &&& a.known.times_defined(s)
        &&& a.known.times(s).fits()
        &&& forall|i: int|
            0 <= i < a.terms.len() ==> (#[trigger] a.terms[i]).1.times_defined(s)
                && a.terms[i].1.times(s).fits()
    }

    /// `self` is `a` with every coefficient and the known term divided by `s`.
    pub open spec fn is_quotient_of(self, a: LinForm, s: Ratio) -> bool {
        &&& self.known == a.known.over(s)
        &&& forall|v: usize|
            #[trigger] self.coef(v) == (if a.has(v) {
                a.coef(v).over(s)
            } else {
                Ratio::zero()
            })
    }

    /// Every stored coefficient of `a`, and its known term, can be divided by `s`.
    pub open spec fn quotient_fits(a: LinForm, s: Ratio) -> bool {
        &&& a.known.over_defined(s)
        &&& a.known.over(s).fits()
        &&& forall|i: int|
            0 <= i < a.terms.len() ==> (#[trigger] a.terms[i]).1.over_defined(s)
                && a.terms[i].1.over(s).fits()
    }

    /// `self` is `a` with every coefficient and the known term negated.
    pub open spec fn is_opposite_of(self, a: LinForm) -> bool {
        &&& self.known == a.known.negated()
        &&& forall|v: usize|
            #[trigger] self.coef(v) == (if a.has(v) {
                a.coef(v).negated()
            } else {
                Ratio::zero()
            })
    }

    /// Every stored coefficient of `a`, and its known term, can be negated.
    pub open spec fn opposite_fits(a: LinForm) -> bool {
        &&& a.known.negated().fits()
        &&& forall|i: int| 0 <= i < a.terms.len() ==> (#[trigger] a.terms[i]).1.negated().fits()
    }

    /// The coefficient that `u` has once `v`, with coefficient `c`, has been
    /// taken out of `a` and `c * r` added.
    pub open spec fn substituted_coef(a: LinForm, v: usize, r: LinForm, u: usize) -> Ratio {
        let c = a.coef(v);
        let rest = if u == v {
            Ratio::zero()
        } else {
            a.coef(u)
        };
        if r.has(u) {
            rest.plus(c.times(r.coef(u)))
        } else {
            rest
        }
    }

    /// The form `a + b`.
    pub open spec fn sum(a: LinForm, b: LinForm) -> LinForm {
        choose|d: LinForm| d.is_normal() && d.is_sum_of(a, b)
    }

    /// The form `a - b`.
    pub open spec fn difference(a: LinForm, b: LinForm) -> LinForm {
        choose|d: LinForm| d.is_normal() && d.is_difference_of(a, b)
    }

    /// The form `a` with `v` replaced by the form `r`.
    pub open spec fn substituted(a: LinForm, v: usize, r: LinForm) -> LinForm {
        choose|d: LinForm| d.is_normal() && d.is_substitution_of(a, v, r)
    }

    /// The form without its known term.
    pub open spec fn linear_part(self) -> LinForm {
        LinForm { terms: self.terms, known: Ratio::zero() }
    }

    /// Every variable of the form is below `n`.
    pub open spec fn vars_below(self, n: nat) -> bool {
        forall|i: int| 0 <= i < self.terms.len() ==> (#[trigger] self.terms[i]).0 < n
    }

    /// `self` is `a` with `v` replaced by the form `r`.
    pub open spec fn is_substitution_of(self, a: LinForm, v: usize, r: LinForm) -> bool {
        if a.has(v) {
            &&& self.known == a.known.plus(a.coef(v).times(r.known))
            &&& forall|u: usize| #[trigger] self.coef(u) == LinForm::substituted_coef(a, v, r, u)
        } else {
            self == a
        }
    }

    /// Every product and sum that replacing `v` by `r` in `a` computes is
    /// defined and fits.
    pub open spec fn substitution_fits(a: LinForm, v: usize, r: LinForm) -> bool {
        a.has(v) ==> {
            let c = a.coef(v);
            &&& c.times_defined(r.known)
            &&& c.times(r.known).fits()
            &&& a.known.plus_defined(c.times(r.known))
            &&& a.known.plus(c.times(r.known)).fits()
            &&& forall|i: int|
                0 <= i < r.terms.len() ==> {
                    let u = (#[trigger] r.terms[i]).0;
                    let rest = if u == v {
                        Ratio::zero()
                    } else {
                        a.coef(u)
                    };
                    &&& c.times_defined(r.terms[i].1)
                    &&& c.times(r.terms[i].1).fits()
                    &&& rest.plus_defined(c.times(r.terms[i].1))
                    &&& rest.plus(c.times(r.terms[i].1)).fits()
                }
        }
    }
}

/// In a sorted form the coefficient of the variable at place `i` is the one stored there.
pub proof fn lemma_coef_at(f: LinForm, i: int)
    requires
        f.sorted(),
        0 <= i < f.terms.len(),
    ensures
        f.has(f.terms[i].0),
        f.position(f.terms[i].0) == i,
        f.coef(f.terms[i].0) == f.terms[i].1,
{
    let v = f.terms[i].0;
    assert(f.has(v));
    let p = f.position(v);
    if p < i {
        assert(f.terms[p].0 < f.terms[i].0);
    } else if i < p {
        assert(f.terms[i].0 < f.terms[p].0);
    }
}

/// A form with ascending variables is determined by its coefficients and
/// its known term.
pub proof fn lemma_determined_by_coefficients(a: LinForm, b: LinForm)
    requires
        a.is_normal(),
        b.is_normal(),
        a.known == b.known,
        forall|v: usize| #[trigger] a.coef(v) == b.coef(v),
    ensures
        a == b,
    decreases a.terms.len(),
{
    if a.terms.len() == 0 {
        if b.terms.len() > 0 {
            lemma_coef_at(b, 0);
            assert(!a.has(b.terms[0].0));
            assert(a.coef(b.terms[0].0) == b.coef(b.terms[0].0));
        }
        assert(a.terms =~= b.terms);
    } else {
        let n = a.terms.len() - 1;
        lemma_coef_at(a, n);
        let v = a.terms[n].0;
        assert(b.coef(v) == a.terms[n].1);
        assert(b.has(v));
        let p = b.position(v);
        lemma_coef_at(b, p);
        // the last variable of `a` is also the last of `b`
        if p < b.terms.len() - 1 {
            let m = b.terms.len() - 1;
            lemma_coef_at(b, m);
            let w = b.terms[m].0;
            assert(v < w);
            assert(a.coef(w) == b.terms[m].1);
            assert(a.has(w));
            let q = a.position(w);
            if q < n {
                assert(a.terms[q].0 < a.terms[n].0);
            }
            assert(false);
        }
        let a2 = LinForm { terms: a.terms.drop_last(), known: a.known };
        let b2 = LinForm { terms: b.terms.drop_last(), known: b.known };
        assert forall|u: usize| #[trigger] a2.coef(u) == b2.coef(u) by {
            lemma_drop_last_coef(a, u);
            lemma_drop_last_coef(b, u);
        }
        lemma_determined_by_coefficients(a2, b2);
        assert(a.terms =~= a2.terms.push(a.terms[n]));
        assert(b.terms =~= b2.terms.push(b.terms[p]));
    }
}

/// Dropping the last term of a sorted form only forgets its variable.
pub proof fn lemma_drop_last_coef(f: LinForm, u: usize)
    requires
        f.sorted(),
        f.terms.len() > 0,
    ensures
        (LinForm { terms: f.terms.drop_last(), known: f.known }).sorted(),
        (LinForm { terms: f.terms.drop_last(), known: f.known }).coef(u) == (if u
            == f.terms.last().0 {
            Ratio::zero()
        } else {
            f.coef(u)
        }),
{
    let g = LinForm { terms: f.terms.drop_last(), known: f.known };
    let n = f.terms.len() - 1;
    assert forall|i: int| 0 <= i < g.terms.len() implies g.terms[i] == f.terms[i] by {}
    lemma_coef_at(f, n);
    if g.has(u) {
        let p = g.position(u);
        assert(f.terms[p].0 == u);
        lemma_coef_at(f, p);
        lemma_coef_at(g, p);
        assert(f.terms[p].0 < f.terms[n].0);
    } else {
        if u != f.terms[n].0 {
            if f.has(u) {
                let p = f.position(u);
                assert(p < n);
                assert(g.terms[p].0 == u);
                assert(false);
            }
        }
    }
}

/// Replacing the coefficient stored at place `p` changes that coefficient only.
pub proof fn lemma_update_coef(f: LinForm, p: int, c: Ratio)
    requires
        f.sorted(),
        0 <= p < f.terms.len(),
    ensures
        (LinForm { terms: f.terms.update(p, (f.terms[p].0, c)), known: f.known }).sorted(),
        forall|u: usize|
            #[trigger] (LinForm {
                terms: f.terms.update(p, (f.terms[p].0, c)),
                known: f.known,
            }).coef(u) == (if u == f.terms[p].0 {
                c
            } else {
                f.coef(u)
            }),
{
    let g = LinForm { terms: f.terms.update(p, (f.terms[p].0, c)), known: f.known };
    assert forall|i: int| 0 <= i < g.terms.len() implies (#[trigger] g.terms[i]).0
        == f.terms[i].0 by {}
    assert(g.sorted()) by {
        assert forall|i: int, j: int| 0 <= i < j < g.terms.len() implies (#[trigger] g.terms[i]).0
            < (#[trigger] g.terms[j]).0 by {
            assert(f.terms[i].0 < f.terms[j].0);
        }
    }
    assert forall|u: usize| #[trigger] g.coef(u) == (if u == f.terms[p].0 {
        c
    } else {
        f.coef(u)
    }) by {
        if g.has(u) {
            let q = g.position(u);
            lemma_coef_at(g, q);
            assert(f.terms[q].0 == u);
            lemma_coef_at(f, q);
        } else if f.has(u) {
            let q = f.position(u);
            assert(g.terms[q].0 == u);
        }
    }
}

/// Inserting a term at its place in the order sets the coefficient of its
/// variable and leaves the others.
pub proof fn lemma_insert_coef(f: LinForm, p: int, v: usize, c: Ratio)
    requires
        f.sorted(),
        0 <= p <= f.terms.len(),
        forall|i: int| 0 <= i < p ==> (#[trigger] f.terms[i]).0 < v,
        forall|i: int| p <= i < f.terms.len() ==> (#[trigger] f.terms[i]).0 > v,
    ensures
        (LinForm { terms: f.terms.insert(p, (v, c)), known: f.known }).sorted(),
        forall|u: usize|
            #[trigger] (LinForm { terms: f.terms.insert(p, (v, c)), known: f.known }).coef(u) == (
            if u == v {
                c
            } else {
                f.coef(u)
            }),
{
    let g = LinForm { terms: f.terms.insert(p, (v, c)), known: f.known };
    assert forall|i: int| 0 <= i < g.terms.len() implies #[trigger] g.terms[i] == (if i < p {
        f.terms[i]
    } else if i == p {
        (v, c)
    } else {
        f.terms[i - 1]
    }) by {}
    assert(g.sorted()) by {
        assert forall|i: int, j: int| 0 <= i < j < g.terms.len() implies (#[trigger] g.terms[i]).0
            < (#[trigger] g.terms[j]).0 by {
            let a = if i < p {
                i
            } else {
                i - 1
            };
            let b = if j < p {
                j
            } else {
                j - 1
            };
            if i != p && j != p {
                assert(f.terms[a].0 < f.terms[b].0);
            } else if i == p {
                assert(f.terms[b].0 > v);
            } else {
                assert(f.terms[a].0 < v);
            }
        }
    }
    assert forall|u: usize| #[trigger] g.coef(u) == (if u == v {
        c
    } else {
        f.coef(u)
    }) by {
        if g.has(u) {
            let q = g.position(u);
            lemma_coef_at(g, q);
            if q < p {
                assert(f.terms[q].0 == u);
                lemma_coef_at(f, q);
            } else if q > p {
                assert(f.terms[q - 1].0 == u);
                lemma_coef_at(f, q - 1);
            }
        } else {
            if u == v {
                assert(g.terms[p].0 == v);
            } else if f.has(u) {
                let q = f.position(u);
                if q < p {
                    assert(g.terms[q].0 == u);
                } else {
                    assert(g.terms[q + 1].0 == u);
                }
            }
        }
    }
}

/// Removing the term at place `p` makes the coefficient of its variable
/// zero and leaves the others.
pub proof fn lemma_remove_coef(f: LinForm, p: int)
    requires
        f.sorted(),
        0 <= p < f.terms.len(),
    ensures
        (LinForm { terms: f.terms.remove(p), known: f.known }).sorted(),
        forall|u: usize|
            #[trigger] (LinForm { terms: f.terms.remove(p), known: f.known }).coef(u) == (if u
                == f.terms[p].0 {
                Ratio::zero()
            } else {
                f.coef(u)
            }),
{
    let g = LinForm { terms: f.terms.remove(p), known: f.known };
    assert forall|i: int| 0 <= i < g.terms.len() implies #[trigger] g.terms[i] == (if i < p {
        f.terms[i]
    } else {
        f.terms[i + 1]
    }) by {}
    assert(g.sorted()) by {
        assert forall|i: int, j: int| 0 <= i < j < g.terms.len() implies (#[trigger] g.terms[i]).0
            < (#[trigger] g.terms[j]).0 by {
            let a = if i < p {
                i
            } else {
                i + 1
            };
            let b = if j < p {
                j
            } else {
                j + 1
            };
            assert(f.terms[a].0 < f.terms[b].0);
        }
    }
    lemma_coef_at(f, p);
    assert forall|u: usize| #[trigger] g.coef(u) == (if u == f.terms[p].0 {
        Ratio::zero()
    } else {
        f.coef(u)
    }) by {
        if g.has(u) {
            let q = g.position(u);
            lemma_coef_at(g, q);
            let a = if q < p {
                q
            } else {
                q + 1
            };
            assert(f.terms[a].0 == u);
            lemma_coef_at(f, a);
            if a < p {
                assert(f.terms[a].0 < f.terms[p].0);
            } else {
                assert(f.terms[p].0 < f.terms[a].0);
            }
        } else if f.has(u) {
            let q = f.position(u);
            if q < p {
                assert(g.terms[q].0 == u);
            } else if q > p {
                assert(g.terms[q - 1].0 == u);
            }
        }
    }
}

/// A variable that no term mentions has coefficient zero, and every
/// coefficient of a normal form is normal.
pub proof fn lemma_coef_normal(f: LinForm, u: usize)
    requires
        f.is_normal(),
    ensures
        f.coef(u).is_normal(),
        f.has(u) <==> f.coef(u).num != 0,
{
    assert(Ratio::zero().is_normal()) by {
        reveal_with_fuel(crate::utils::arith::gcd, 3);
    }
    if f.has(u) {
        let p = f.position(u);
        assert(f.terms[p].1.is_normal());
    }
}

/// A form without terms has no coefficient but zero.
pub proof fn lemma_empty_coef(f: LinForm)
    requires
        f.terms.len() == 0,
    ensures
        forall|v: usize| #[trigger] f.coef(v) == Ratio::zero(),
        forall|v: usize| !#[trigger] f.has(v),
        f.sorted(),
{
}

/// Changing every stored coefficient by `g`, term by term, changes the
/// coefficient of every variable that occurs by `g`.
pub proof fn lemma_mapped_coef(a: LinForm, b: LinForm, g: spec_fn(Ratio) -> Ratio)
    requires
        a.sorted(),
        b.terms.len() == a.terms.len(),
        forall|i: int|
            0 <= i < a.terms.len() ==> #[trigger] b.terms[i] == (a.terms[i].0, g(a.terms[i].1)),
    ensures
        b.sorted(),
        forall|v: usize| #[trigger] b.has(v) == a.has(v),
        forall|v: usize|
            #[trigger] b.coef(v) == (if a.has(v) {
                g(a.coef(v))
            } else {
                Ratio::zero()
            }),
{
    assert(b.sorted()) by {
        assert forall|i: int, j: int| 0 <= i < j < b.terms.len() implies (#[trigger] b.terms[i]).0
            < (#[trigger] b.terms[j]).0 by {
            assert(a.terms[i].0 < a.terms[j].0);
        }
    }
    assert forall|v: usize| #[trigger] b.has(v) == a.has(v) by {
        if a.has(v) {
            let p = a.position(v);
            assert(b.terms[p].0 == v);
        }
        if b.has(v) {
            let p = b.position(v);
            assert(a.terms[p].0 == v);
        }
    }
    assert forall|v: usize| #[trigger] b.coef(v) == (if a.has(v) {
        g(a.coef(v))
    } else {
        Ratio::zero()
    }) by {
        assert(b.has(v) == a.has(v));
        if a.has(v) {
            let p = a.position(v);
            lemma_coef_at(a, p);
            assert(b.terms[p].0 == v);
            lemma_coef_at(b, p);
        }
    }
}

/// The normal form of zero over anything is zero.
pub proof fn lemma_normalized_zero(d: int)
    requires
        d != 0,
    ensures
        Ratio::normalized(0, d) == Ratio::zero(),
{
    crate::utils::ratio::lemma_normalized_is_normal(0, d);
    let q = Ratio::normalized(0, d);
    assert(crate::utils::arith::gcd(0, q.den as nat) == q.den) by {
        reveal_with_fuel(crate::utils::arith::gcd, 3);
    }
}

/// Replacing a variable by itself changes nothing: substituting `v`, whose
/// coefficient is finite, by the form `1 * v` gives the same form back.
pub proof fn lemma_substitute_self(a: LinForm, v: usize, b: LinForm)
    requires
        a.is_normal(),
        b.is_normal(),
        a.has(v),
        a.coef(v).den > 0,
        b.is_substitution_of(a, v, LinForm::variable(v)),
    ensures
        b == a,
{
    let r = LinForm::variable(v);
    let c = a.coef(v);
    let one = Ratio::from_int(1);
    lemma_coef_normal(a, v);
    assert(r.terms[0].0 == v);
    assert(r.sorted());
    lemma_coef_at(r, 0);
    assert(c.times(Ratio::zero()) == Ratio::zero()) by {
        assert(c.num * 0 == 0);
        assert(c.den * 1 == c.den);
        lemma_normalized_zero(c.den);
    }
    crate::utils::ratio::lemma_plus_zero(a.known);
    assert(c.times(one) == c) by {
        assert(c.num * 1 == c.num);
        assert(c.den * 1 == c.den);
        crate::utils::ratio::lemma_normal_is_fixed(c);
    }
    assert(Ratio::zero().plus(c) == c) by {
        assert(0 * c.den + c.num * 1 == c.num);
        assert(1 * c.den == c.den);
        crate::utils::ratio::lemma_normal_is_fixed(c);
    }
    assert forall|u: usize| #[trigger] b.coef(u) == a.coef(u) by {
        assert(b.coef(u) == LinForm::substituted_coef(a, v, r, u));
        if u != v {
            if r.has(u) {
                let q = r.position(u);
                assert(r.terms[q].0 == u);
            }
        }
    }
    lemma_determined_by_coefficients(b, a);
}

/// The sum of two forms is the one normal form with its coefficients.
pub proof fn lemma_sum(a: LinForm, b: LinForm, d: LinForm)
    requires
        d.is_normal(),
        d.is_sum_of(a, b),
    ensures
        LinForm::sum(a, b) == d,
{
    let e = LinForm::sum(a, b);
    assert forall|v: usize| #[trigger] e.coef(v) == d.coef(v) by {
        assert(e.coef(v) == a.coef(v).plus(b.coef(v)));
    }
    lemma_determined_by_coefficients(e, d);
}

/// A sum mentions no variable that neither operand mentions.
pub proof fn lemma_sum_vars(a: LinForm, b: LinForm, d: LinForm, n: nat)
    requires
        a.is_normal(),
        b.is_normal(),
        d.is_normal(),
        d.is_sum_of(a, b),
        a.vars_below(n),
        b.vars_below(n),
    ensures
        d.vars_below(n),
{
    assert forall|i: int| 0 <= i < d.terms.len() implies (#[trigger] d.terms[i]).0 < n by {
        let u = d.terms[i].0;
        lemma_coef_at(d, i);
        lemma_coef_normal(d, u);
        lemma_coef_normal(a, u);
        lemma_coef_normal(b, u);
        assert(d.coef(u) == a.coef(u).plus(b.coef(u)));
        if !a.has(u) && !b.has(u) {
            crate::utils::ratio::lemma_plus_zero(Ratio::zero());
        }
        if a.has(u) {
            assert(a.terms[a.position(u)].0 < n);
        }
        if b.has(u) {
            assert(b.terms[b.position(u)].0 < n);
        }
    }
}

/// The difference of two forms is the one normal form with its coefficients.
pub proof fn lemma_difference(a: LinForm, b: LinForm, d: LinForm)
    requires
        d.is_normal(),
        d.is_difference_of(a, b),
    ensures
        LinForm::difference(a, b) == d,
{
    let e = LinForm::difference(a, b);
    assert forall|v: usize| #[trigger] e.coef(v) == d.coef(v) by {
        assert(e.coef(v) == a.coef(v).minus(b.coef(v)));
    }
    lemma_determined_by_coefficients(e, d);
}

/// The result of a substitution is the one normal form with its coefficients.
pub proof fn lemma_substituted(a: LinForm, v: usize, r: LinForm, d: LinForm)
    requires
        d.is_normal(),
        d.is_substitution_of(a, v, r),
    ensures
        LinForm::substituted(a, v, r) == d,
{
    let e = LinForm::substituted(a, v, r);
    if a.has(v) {
        assert forall|u: usize| #[trigger] e.coef(u) == d.coef(u) by {
            assert(e.coef(u) == LinForm::substituted_coef(a, v, r, u));
        }
        lemma_determined_by_coefficients(e, d);
    }
}

/// A difference mentions no variable that neither operand mentions.
pub proof fn lemma_difference_vars(a: LinForm, b: LinForm, d: LinForm, n: nat)
    requires
        a.is_normal(),
        b.is_normal(),
        d.is_normal(),
        d.is_difference_of(a, b),
        a.vars_below(n),
        b.vars_below(n),
    ensures
        d.vars_below(n),
{
    assert forall|i: int| 0 <= i < d.terms.len() implies (#[trigger] d.terms[i]).0 < n by {
        let u = d.terms[i].0;
        lemma_coef_at(d, i);
        lemma_coef_normal(d, u);
        lemma_coef_normal(a, u);
        lemma_coef_normal(b, u);
        assert(d.coef(u) == a.coef(u).minus(b.coef(u)));
        if !a.has(u) && !b.has(u) {
            crate::utils::ratio::lemma_minus_zero(Ratio::zero());
        }
        if a.has(u) {
            assert(a.terms[a.position(u)].0 < n);
        }
        if b.has(u) {
            assert(b.terms[b.position(u)].0 < n);
        }
    }
}

/// A substitution mentions no variable that neither form mentions, and
/// not the replaced variable unless the replacing form does.
pub proof fn lemma_substitution_vars(a: LinForm, v: usize, r: LinForm, d: LinForm, n: nat)
    requires
        a.is_normal(),
        r.is_normal(),
        d.is_normal(),
        d.is_substitution_of(a, v, r),
        a.vars_below(n),
        r.vars_below(n),
    ensures
        d.vars_below(n),
        forall|u: usize| !a.has(u) && !r.has(u) ==> !#[trigger] d.has(u),
        !r.has(v) ==> !d.has(v),
{
    assert forall|u: usize| (!a.has(u) && !r.has(u)) || (u == v && !r.has(v)) implies !#[trigger] d.has(
        u,
    ) by {
        lemma_coef_normal(d, u);
        lemma_coef_normal(a, u);
        if a.has(v) {
            assert(d.coef(u) == LinForm::substituted_coef(a, v, r, u));
        }
    }
    assert forall|i: int| 0 <= i < d.terms.len() implies (#[trigger] d.terms[i]).0 < n by {
        let u = d.terms[i].0;
        lemma_coef_at(d, i);
        if a.has(u) {
            assert(a.terms[a.position(u)].0 < n);
        }
        if r.has(u) {
            assert(r.terms[r.position(u)].0 < n);
        }
    }
}

} // verus!
