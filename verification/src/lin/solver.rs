//! The linear arithmetic engine: variables with bound ledgers, and a
//! tableau of rows that express basic variables by the others.

use crate::lin::var::Var;
use crate::lin::var::VarModel;
use crate::utils::inf_rational::InfRatio;
use crate::utils::inf_rational::InfRational;
use crate::utils::lin::Lin;
use crate::utils::lin_form::lemma_coef_at;
use crate::utils::lin_form::lemma_difference;
use crate::utils::lin_form::lemma_difference_vars;
use crate::utils::lin_form::lemma_substitution_vars;
use crate::utils::lin_form::lemma_substituted;
use crate::utils::lin_form::LinForm;
use crate::utils::ratio::Ratio;
use crate::utils::rational::Rational;
use crate::utils::text::append_decimal;
use crate::utils::text::decimal;
use std::collections::BTreeMap;
use vstd::prelude::*;
use vstd::string::StringExecFns;

verus! {

broadcast use vstd::std_specs::btree::group_btree_axioms;

/// The linear arithmetic engine.
pub struct Solver {
    vars: Vec<Var>,
    /// The rows by their basic variables.
    tableau: BTreeMap<usize, Lin>,
}

/// The rows of `m` whose basic variable is below `n`, in ascending order
/// of the basic variables.
pub closed spec fn rows_below(m: Map<usize, Lin>, n: nat) -> Seq<(usize, LinForm)>
    decreases n,
{
    if n == 0 {
        Seq::empty()
    } else if m.contains_key((n - 1) as usize) {
        rows_below(m, (n - 1) as nat).push(((n - 1) as usize, m[(n - 1) as usize]@))
    } else {
        rows_below(m, (n - 1) as nat)
    }
}

/// One more than the greatest index that a variable can have.
pub open spec fn index_end() -> nat {
    (usize::MAX + 1) as nat
}

/// What `rows_below` lists: each row of `m` below `n`, once, by its
/// basic variable.
proof fn lemma_rows_below(m: Map<usize, Lin>, n: nat)
    requires
        n <= index_end(),
    ensures
        forall|i: int|
            0 <= i < rows_below(m, n).len() ==> {
                let r = #[trigger] rows_below(m, n)[i];
                r.0 < n && m.contains_key(r.0) && r.1 == m[r.0]@
            },
        forall|i: int, j: int|
            0 <= i < j < rows_below(m, n).len() ==> (#[trigger] rows_below(m, n)[i]).0 < (
            #[trigger] rows_below(m, n)[j]).0,
        forall|k: usize|
            k < n && #[trigger] m.contains_key(k) ==> rows_below(m, n).contains((k, m[k]@)),
    decreases n,
{
    if n > 0 {
        let p = rows_below(m, (n - 1) as nat);
        let q = rows_below(m, n);
        let last = (n - 1) as usize;
        lemma_rows_below(m, (n - 1) as nat);
        assert forall|k: usize| k < n && #[trigger] m.contains_key(k) implies q.contains(
            (k, m[k]@),
        ) by {
            if k < n - 1 {
                assert(p.contains((k, m[k]@)));
                let i = choose|i: int| 0 <= i < p.len() && p[i] == (k, m[k]@);
                assert(q[i] == (k, m[k]@));
            } else {
                assert(q[q.len() - 1] == (k, m[k]@));
            }
        }
        assert forall|i: int| 0 <= i < q.len() implies {
            let r = #[trigger] q[i];
            r.0 < n && m.contains_key(r.0) && r.1 == m[r.0]@
        } by {
            if i < p.len() {
                assert(q[i] == p[i]);
            }
        }
        assert forall|i: int, j: int| 0 <= i < j < q.len() implies (#[trigger] q[i]).0 < (
        #[trigger] q[j]).0 by {
            assert(q[i] == p[i]);
            if j < p.len() {
                assert(q[j] == p[j]);
            }
        }
    }
}

/// Where `m` has no row from `a` up to `b`, the rows below `b` are those
/// below `a`.
proof fn lemma_rows_gap(m: Map<usize, Lin>, a: nat, b: nat)
    requires
        a <= b <= index_end(),
        forall|k: usize| a <= k < b ==> !m.contains_key(k),
    ensures
        rows_below(m, b) == rows_below(m, a),
    decreases b,
{
    if a < b {
        lemma_rows_gap(m, a, (b - 1) as nat);
    }
}

/// The rows below `a` are the first of the rows below `b`.
proof fn lemma_rows_prefix(m: Map<usize, Lin>, a: nat, b: nat)
    requires
        a <= b <= index_end(),
    ensures
        rows_below(m, a).len() <= rows_below(m, b).len(),
        rows_below(m, b).subrange(0, rows_below(m, a).len() as int) == rows_below(m, a),
    decreases b,
{
    if a < b {
        lemma_rows_prefix(m, a, (b - 1) as nat);
        let p = rows_below(m, (b - 1) as nat);
        let q = rows_below(m, b);
        let k = rows_below(m, a).len() as int;
        assert(q.subrange(0, k) =~= p.subrange(0, k));
    } else {
        assert(rows_below(m, b).subrange(0, rows_below(m, a).len() as int) =~= rows_below(m, a));
    }
}

/// Two maps with the same rows below `n` list the same rows below `n`.
proof fn lemma_rows_agree(m: Map<usize, Lin>, w: Map<usize, Lin>, n: nat)
    requires
        n <= index_end(),
        forall|k: usize| k < n ==> m.contains_key(k) == w.contains_key(k),
        forall|k: usize| k < n && m.contains_key(k) ==> m[k]@ == w[k]@,
    ensures
        rows_below(m, n) == rows_below(w, n),
    decreases n,
{
    if n > 0 {
        lemma_rows_agree(m, w, (n - 1) as nat);
    }
}

/// A row added for a basic variable above all others is listed last.
proof fn lemma_rows_insert(m: Map<usize, Lin>, s: usize, row: Lin)
    requires
        forall|k: usize| m.contains_key(k) ==> k < s,
    ensures
        rows_below(m.insert(s, row), index_end()) == rows_below(m, index_end()).push((s, row@)),
{
    let w = m.insert(s, row);
    lemma_rows_agree(m, w, s as nat);
    lemma_rows_gap(m, s as nat, index_end());
    lemma_rows_gap(w, (s + 1) as nat, index_end());
    assert(rows_below(w, (s + 1) as nat) == rows_below(w, s as nat).push((s, w[s]@)));
}

/// What recording the lower bound `lb` does to a variable.
pub open spec fn lower_set(
    after: VarModel,
    before: VarModel,
    lb: InfRatio,
    reason: Option<usize>,
    ok: bool,
) -> bool {
    &&& ok == lb.le(before.ub())
    &&& after.val == before.val
    &&& after.ubs == before.ubs
    &&& after.rows == before.rows
    &&& !ok ==> after == before
    &&& ok ==> match reason {
        Some(r) => after.lbs.is_with(before.lbs, lb, r),
        None => after.lbs.is_from(before.lbs, lb),
    }
}

/// What recording the upper bound `ub` does to a variable.
pub open spec fn upper_set(
    after: VarModel,
    before: VarModel,
    ub: InfRatio,
    reason: Option<usize>,
    ok: bool,
) -> bool {
    &&& ok == before.lb().le(ub)
    &&& after.val == before.val
    &&& after.lbs == before.lbs
    &&& after.rows == before.rows
    &&& !ok ==> after == before
    &&& ok ==> match reason {
        Some(r) => after.ubs.is_with(before.ubs, ub, r),
        None => after.ubs.is_up_to(before.ubs, ub),
    }
}

/// The form `e` after the first `n` rows have replaced their basic variables.
pub open spec fn reduced(e: LinForm, rows: Seq<(usize, LinForm)>, n: int) -> LinForm
    decreases n,
{
    if n <= 0 {
        e
    } else {
        LinForm::substituted(reduced(e, rows, n - 1), rows[n - 1].0, rows[n - 1].1)
    }
}

/// Every substitution of the first `n` rows into `e` is defined and fits.
pub open spec fn reduction_fits(e: LinForm, rows: Seq<(usize, LinForm)>, n: int) -> bool
    decreases n,
{
    n <= 0 || (reduction_fits(e, rows, n - 1) && LinForm::substitution_fits(
        reduced(e, rows, n - 1),
        rows[n - 1].0,
        rows[n - 1].1,
    ))
}

/// The bound that `c * x + k <= 0`, or `< 0` where strict, puts on `x`:
/// `-k / c`, moved by one infinitesimal towards the side it bounds where
/// strict.
pub open spec fn bound_of(c: Ratio, k: Ratio, strict: bool) -> InfRatio {
    InfRatio {
        rat: k.negated().over(c),
        inf: if !strict {
            Ratio::zero()
        } else if c.num > 0 {
            Ratio::from_int(-1)
        } else {
            Ratio::from_int(1)
        },
    }
}

/// The bound that `s + k <= 0`, or `< 0` where strict, puts on `s`.
pub open spec fn slack_bound(k: Ratio, strict: bool) -> InfRatio {
    InfRatio {
        rat: k.negated(),
        inf: if strict {
            Ratio::from_int(-1)
        } else {
            Ratio::zero()
        },
    }
}

impl Solver {
    pub closed spec fn num_vars(&self) -> nat {
        self.vars@.len()
    }

    /// The variable `v`.
    pub closed spec fn var(&self, v: usize) -> VarModel {
        self.vars@[v as int]@
    }

    /// The rows of the tableau: a basic variable and the form that
    /// expresses it, in ascending order of the basic variables.
    pub closed spec fn rows(&self) -> Seq<(usize, LinForm)> {
        rows_below(self.tableau@, index_end())
    }

    /// Every variable is normal; the rows ascend by their basic variables,
    /// mention variables of the engine only, and mention no basic variable.
    pub open spec fn wf(&self) -> bool {
        &&& forall|v: usize| v < self.num_vars() ==> (#[trigger] self.var(v)).is_normal()
        &&& forall|i: int, j: int|
            0 <= i < j < self.rows().len() ==> (#[trigger] self.rows()[i]).0 < (
            #[trigger] self.rows()[j]).0
        &&& forall|i: int|
            0 <= i < self.rows().len() ==> {
                &&& (#[trigger] self.rows()[i]).0 < self.num_vars()
                &&& self.rows()[i].1.is_normal()
                &&& self.rows()[i].1.vars_below(self.num_vars())
                &&& forall|j: int|
                    0 <= j < self.rows().len() ==> !self.rows()[i].1.has(
                        (#[trigger] self.rows()[j]).0,
                    )
            }
    }

    /// The bound that a term with coefficient `c` over `v` contributes
    /// to a lower bound: from the lower bound of `v` where `c` is not
    /// negative, else from its upper bound.
    pub open spec fn lower_term(&self, v: usize, c: Ratio) -> InfRatio {
        if c.num >= 0 {
            self.var(v).lb().times_rat(c)
        } else {
            self.var(v).ub().times_rat(c)
        }
    }

    /// The same for an upper bound.
    pub open spec fn upper_term(&self, v: usize, c: Ratio) -> InfRatio {
        if c.num >= 0 {
            self.var(v).ub().times_rat(c)
        } else {
            self.var(v).lb().times_rat(c)
        }
    }

    /// The lower bound of `l` from its first `n` terms: the known term
    /// plus their contributions, in order, none being added once the sum
    /// is negative infinity.
    pub open spec fn lower_sum(&self, l: LinForm, n: int) -> InfRatio
        decreases n,
    {
        if n <= 0 {
            InfRatio::from_ratio(l.known)
        } else {
            let prev = self.lower_sum(l, n - 1);
            if prev == InfRatio::negative_infinity() {
                prev
            } else {
                prev.plus(self.lower_term(l.terms[n - 1].0, l.terms[n - 1].1))
            }
        }
    }

    /// The upper bound of `l` from its first `n` terms, likewise, with
    /// positive infinity as the end.
    pub open spec fn upper_sum(&self, l: LinForm, n: int) -> InfRatio
        decreases n,
    {
        if n <= 0 {
            InfRatio::from_ratio(l.known)
        } else {
            let prev = self.upper_sum(l, n - 1);
            if prev == InfRatio::positive_infinity() {
                prev
            } else {
                prev.plus(self.upper_term(l.terms[n - 1].0, l.terms[n - 1].1))
            }
        }
    }

    /// Every product and sum that `lower_sum` computes is defined and fits.
    pub open spec fn lower_sum_fits(&self, l: LinForm, n: int) -> bool
        decreases n,
    {
        n <= 0 || (self.lower_sum_fits(l, n - 1) && (self.lower_sum(l, n - 1)
            != InfRatio::negative_infinity() ==> {
            let v = l.terms[n - 1].0;
            let c = l.terms[n - 1].1;
            let b = if c.num >= 0 {
                self.var(v).lb()
            } else {
                self.var(v).ub()
            };
            &&& b.times_rat_defined(c)
            &&& b.times_rat(c).fits()
            &&& self.lower_sum(l, n - 1).plus_defined(b.times_rat(c))
            &&& self.lower_sum(l, n - 1).plus(b.times_rat(c)).fits()
        }))
    }

    /// Every product and sum that `upper_sum` computes is defined and fits.
    pub open spec fn upper_sum_fits(&self, l: LinForm, n: int) -> bool
        decreases n,
    {
        n <= 0 || (self.upper_sum_fits(l, n - 1) && (self.upper_sum(l, n - 1)
            != InfRatio::positive_infinity() ==> {
            let v = l.terms[n - 1].0;
            let c = l.terms[n - 1].1;
            let b = if c.num >= 0 {
                self.var(v).ub()
            } else {
                self.var(v).lb()
            };
            &&& b.times_rat_defined(c)
            &&& b.times_rat(c).fits()
            &&& self.upper_sum(l, n - 1).plus_defined(b.times_rat(c))
            &&& self.upper_sum(l, n - 1).plus(b.times_rat(c)).fits()
        }))
    }

    /// The engine without variables and rows.
    pub fn new() -> (s: Solver)
        ensures
            s.wf(),
            s.num_vars() == 0,
            s.rows().len() == 0,
    {
        let s = Solver { vars: Vec::new(), tableau: BTreeMap::new() };
        proof {
            lemma_rows_gap(s.tableau@, 0, index_end());
        }
        s
    }

    /// The number of variables.
    pub fn var_count(&self) -> (n: usize)
        ensures
            n == self.num_vars(),
    {
        self.vars.len()
    }

    /// A fresh variable with value zero and no bounds; its index is the
    /// number of variables before.
    pub fn new_var(&mut self) -> (v: usize)
        requires
            old(self).wf(),
        ensures
            final(self).wf(),
            v == old(self).num_vars(),
            final(self).num_vars() == old(self).num_vars() + 1,
            final(self).var(v).val == InfRatio::zero(),
            final(self).var(v).lbs.entries.len() == 0,
            final(self).var(v).ubs.entries.len() == 0,
            final(self).var(v).rows.len() == 0,
            forall|u: usize| u < old(self).num_vars() ==> #[trigger] final(self).var(u) == old(
                self,
            ).var(u),
            final(self).rows() == old(self).rows(),
    {
        let var = Var::new();
        self.vars.push(var);
        proof {
            assert(self.rows() =~= old(self).rows());
            assert forall|u: usize| u < self.num_vars() implies (#[trigger] self.var(
                u,
            )).is_normal() by {
                if u < old(self).num_vars() {
                    assert(old(self).var(u).is_normal());
                }
            }
            assert forall|i: int| 0 <= i < self.rows().len() implies {
                &&& (#[trigger] self.rows()[i]).0 < self.num_vars()
                &&& self.rows()[i].1.is_normal()
                &&& self.rows()[i].1.vars_below(self.num_vars())
                &&& forall|j: int|
                    0 <= j < self.rows().len() ==> !self.rows()[i].1.has(
                        (#[trigger] self.rows()[j]).0,
                    )
            } by {
                assert(old(self).rows()[i].1.vars_below(old(self).num_vars()));
            }
        }
        self.vars.len() - 1
    }

    /// The current value of `v`.
    pub fn value(&self, v: usize) -> (r: InfRational)
        requires
            v < self.num_vars(),
        ensures
            r@ == self.var(v).val,
    {
        self.vars[v].value()
    }

    /// The active lower bound of `v`: the greatest stored one, or
    /// negative infinity.
    pub fn lb(&self, v: usize) -> (r: InfRational)
        requires
            v < self.num_vars(),
        ensures
            r@ == self.var(v).lb(),
            self.var(v).lbs.entries.len() == 0 ==> r@ == InfRatio::negative_infinity(),
            self.var(v).lbs.entries.len() > 0 ==> self.var(v).lbs.has(r@),
            forall|k: InfRatio| #[trigger] self.var(v).lbs.has(k) ==> k.le(r@),
    {
        self.vars[v].lb()
    }

    /// The active upper bound of `v`: the least stored one, or positive
    /// infinity.
    pub fn ub(&self, v: usize) -> (r: InfRational)
        requires
            v < self.num_vars(),
        ensures
            r@ == self.var(v).ub(),
            self.var(v).ubs.entries.len() == 0 ==> r@ == InfRatio::positive_infinity(),
            self.var(v).ubs.entries.len() > 0 ==> self.var(v).ubs.has(r@),
            forall|k: InfRatio| #[trigger] self.var(v).ubs.has(k) ==> r@.le(k),
    {
        self.vars[v].ub()
    }

    /// A lower bound of the form `l` from the bounds of its variables.
    pub fn lb_lin(&self, l: &Lin) -> (r: InfRational)
        requires
            l@.vars_below(self.num_vars()),
            self.lower_sum_fits(l@, l@.terms.len() as int),
        ensures
            r@ == self.lower_sum(l@, l@.terms.len() as int),
    {
        let mut lb = InfRational::from_rational(l.known_term());
        let n = l.len();
        let mut i: usize = 0;
        while i < n
            invariant
                i <= n,
                n == l@.terms.len(),
                l@.vars_below(self.num_vars()),
                self.lower_sum_fits(l@, n as int),
                lb@ == self.lower_sum(l@, i as int),
            decreases n - i,
        {
            if lb.is_equal_to(&InfRational::negative_infinity()) {
                proof {
                    self.lemma_lower_stuck(l@, i as int, n as int);
                }
                return lb;
            }
            let v = l.var_at(i);
            let c = l.coeff_at(i);
            proof {
                self.lemma_lower_fits_prefix(l@, i as int + 1, n as int);
                assert(l@.terms[i as int].0 < self.num_vars());
            }
            let mut b = if c.num() >= 0 {
                self.lb(v)
            } else {
                self.ub(v)
            };
            b.mul_assign_rational(&c);
            lb.add_assign(&b);
            i += 1;
        }
        lb
    }

    /// An upper bound of the form `l` from the bounds of its variables.
    pub fn ub_lin(&self, l: &Lin) -> (r: InfRational)
        requires
            l@.vars_below(self.num_vars()),
            self.upper_sum_fits(l@, l@.terms.len() as int),
        ensures
            r@ == self.upper_sum(l@, l@.terms.len() as int),
    {
        let mut ub = InfRational::from_rational(l.known_term());
        let n = l.len();
        let mut i: usize = 0;
        while i < n
            invariant
                i <= n,
                n == l@.terms.len(),
                l@.vars_below(self.num_vars()),
                self.upper_sum_fits(l@, n as int),
                ub@ == self.upper_sum(l@, i as int),
            decreases n - i,
        {
            if ub.is_equal_to(&InfRational::positive_infinity()) {
                proof {
                    self.lemma_upper_stuck(l@, i as int, n as int);
                }
                return ub;
            }
            let v = l.var_at(i);
            let c = l.coeff_at(i);
            proof {
                self.lemma_upper_fits_prefix(l@, i as int + 1, n as int);
                assert(l@.terms[i as int].0 < self.num_vars());
            }
            let mut b = if c.num() >= 0 {
                self.ub(v)
            } else {
                self.lb(v)
            };
            b.mul_assign_rational(&c);
            ub.add_assign(&b);
            i += 1;
        }
        ub
    }

    /// Once the sum is negative infinity it stays there.
    proof fn lemma_lower_stuck(&self, l: LinForm, i: int, n: int)
        requires
            0 <= i <= n,
            self.lower_sum(l, i) == InfRatio::negative_infinity(),
        ensures
            self.lower_sum(l, n) == InfRatio::negative_infinity(),
        decreases n - i,
    {
        if i < n {
            self.lemma_lower_stuck(l, i, n - 1);
        }
    }

    /// Once the sum is positive infinity it stays there.
    proof fn lemma_upper_stuck(&self, l: LinForm, i: int, n: int)
        requires
            0 <= i <= n,
            self.upper_sum(l, i) == InfRatio::positive_infinity(),
        ensures
            self.upper_sum(l, n) == InfRatio::positive_infinity(),
        decreases n - i,
    {
        if i < n {
            self.lemma_upper_stuck(l, i, n - 1);
        }
    }

    /// What fits for all terms fits for the first of them.
    proof fn lemma_lower_fits_prefix(&self, l: LinForm, i: int, n: int)
        requires
            0 <= i <= n,
            self.lower_sum_fits(l, n),
        ensures
            self.lower_sum_fits(l, i),
        decreases n - i,
    {
        if i < n {
            self.lemma_lower_fits_prefix(l, i, n - 1);
        }
    }

    /// What fits for all terms fits for the first of them.
    proof fn lemma_upper_fits_prefix(&self, l: LinForm, i: int, n: int)
        requires
            0 <= i <= n,
            self.upper_sum_fits(l, n),
        ensures
            self.upper_sum_fits(l, i),
        decreases n - i,
    {
        if i < n {
            self.lemma_upper_fits_prefix(l, i, n - 1);
        }
    }

    /// Records the lower bound `lb` on `v`; see `Var::set_lb`.
    pub fn set_lb(&mut self, v: usize, lb: InfRational, reason: Option<usize>) -> (ok: bool)
        requires
            old(self).wf(),
            v < old(self).num_vars(),
        ensures
            final(self).wf(),
            final(self).num_vars() == old(self).num_vars(),
            final(self).rows() == old(self).rows(),
            lower_set(final(self).var(v), old(self).var(v), lb@, reason, ok),
            forall|u: usize|
                u < final(self).num_vars() && u != v ==> #[trigger] final(self).var(u) == old(
                    self,
                ).var(u),
    {
        let ok = self.vars[v].set_lb(lb, reason);
        proof {
            self.lemma_vars_changed(old(self), v);
        }
        ok
    }

    /// Records the upper bound `ub` on `v`; see `Var::set_ub`.
    pub fn set_ub(&mut self, v: usize, ub: InfRational, reason: Option<usize>) -> (ok: bool)
        requires
            old(self).wf(),
            v < old(self).num_vars(),
        ensures
            final(self).wf(),
            final(self).num_vars() == old(self).num_vars(),
            final(self).rows() == old(self).rows(),
            upper_set(final(self).var(v), old(self).var(v), ub@, reason, ok),
            forall|u: usize|
                u < final(self).num_vars() && u != v ==> #[trigger] final(self).var(u) == old(
                    self,
                ).var(u),
    {
        let ok = self.vars[v].set_ub(ub, reason);
        proof {
            self.lemma_vars_changed(old(self), v);
        }
        ok
    }

    /// Takes `reason` from the lower bound `lb` of `v`; see `Var::unset_lb`.
    pub fn unset_lb(&mut self, v: usize, lb: InfRational, reason: usize)
        requires
            old(self).wf(),
            v < old(self).num_vars(),
        ensures
            final(self).wf(),
            final(self).num_vars() == old(self).num_vars(),
            final(self).rows() == old(self).rows(),
            final(self).var(v).lbs.is_without(old(self).var(v).lbs, lb@, reason),
            final(self).var(v).ubs == old(self).var(v).ubs,
            final(self).var(v).val == old(self).var(v).val,
            final(self).var(v).rows == old(self).var(v).rows,
            forall|u: usize|
                u < final(self).num_vars() && u != v ==> #[trigger] final(self).var(u) == old(
                    self,
                ).var(u),
    {
        self.vars[v].unset_lb(lb, reason);
        proof {
            self.lemma_vars_changed(old(self), v);
        }
    }

    /// Takes `reason` from the upper bound `ub` of `v`; see `Var::unset_ub`.
    pub fn unset_ub(&mut self, v: usize, ub: InfRational, reason: usize)
        requires
            old(self).wf(),
            v < old(self).num_vars(),
        ensures
            final(self).wf(),
            final(self).num_vars() == old(self).num_vars(),
            final(self).rows() == old(self).rows(),
            final(self).var(v).ubs.is_without(old(self).var(v).ubs, ub@, reason),
            final(self).var(v).lbs == old(self).var(v).lbs,
            final(self).var(v).val == old(self).var(v).val,
            final(self).var(v).rows == old(self).var(v).rows,
            forall|u: usize|
                u < final(self).num_vars() && u != v ==> #[trigger] final(self).var(u) == old(
                    self,
                ).var(u),
    {
        self.vars[v].unset_ub(ub, reason);
        proof {
            self.lemma_vars_changed(old(self), v);
        }
    }

    /// A change to one variable that leaves it normal leaves the engine sound.
    proof fn lemma_vars_changed(&self, before: &Solver, v: usize)
        requires
            before.wf(),
            self.tableau == before.tableau,
            self.num_vars() == before.num_vars(),
            v < self.num_vars(),
            self.var(v).is_normal(),
            forall|u: usize| u < self.num_vars() && u != v ==> #[trigger] self.var(u) == before.var(
                u,
            ),
        ensures
            self.wf(),
            self.rows() == before.rows(),
    {
        assert(self.rows() =~= before.rows());
        assert forall|u: usize| u < self.num_vars() implies (#[trigger] self.var(u)).is_normal() by {
            if u != v {
                assert(before.var(u).is_normal());
            }
        }
    }
}

impl Solver {
    /// The form `lhs - rhs` with every basic variable replaced by its row.
    pub open spec fn expression(&self, lhs: LinForm, rhs: LinForm) -> LinForm {
        reduced(LinForm::difference(lhs, rhs), self.rows(), self.rows().len() as int)
    }

    /// Every step of installing `lhs - rhs <= 0` is defined and fits, and
    /// there is room for a slack variable where one is needed.
    pub open spec fn installable(&self, lhs: LinForm, rhs: LinForm) -> bool {
        let e = self.expression(lhs, rhs);
        &&& LinForm::difference_fits(lhs, rhs)
        &&& reduction_fits(LinForm::difference(lhs, rhs), self.rows(), self.rows().len() as int)
        &&& e.terms.len() >= 1 ==> e.known.negated().fits()
        &&& e.terms.len() == 1 ==> e.known.negated().over_defined(e.terms[0].1)
            && e.known.negated().over(e.terms[0].1).fits()
        &&& e.terms.len() >= 2 ==> self.num_vars() < usize::MAX
    }

    /// A variable as `new_var` makes it.
    pub open spec fn fresh() -> VarModel {
        VarModel {
            val: InfRatio::zero(),
            lbs: crate::lin::ledger::Ledger { entries: Seq::empty() },
            ubs: crate::lin::ledger::Ledger { entries: Seq::empty() },
            rows: Seq::empty(),
        }
    }

    /// What installing `lhs - rhs <= 0`, or `< 0` where strict, in state
    /// `before` leads to.
    ///
    /// Let `e` be the expression in non-basic form. Without variables, the
    /// answer is whether its known term satisfies the inequality. With one
    /// variable, the inequality bounds that variable: from above where its
    /// coefficient is positive, else from below. With more, a slack variable
    /// gets a row that holds the terms of `e`, and is bounded from above by
    /// the opposite of the known term.
    pub open spec fn installed(
        &self,
        before: &Solver,
        lhs: LinForm,
        rhs: LinForm,
        strict: bool,
        reason: Option<usize>,
        ok: bool,
    ) -> bool {
        let e = before.expression(lhs, rhs);
        if e.terms.len() == 0 {
            &&& ok == (if strict {
                e.known.lt(Ratio::zero())
            } else {
                e.known.le(Ratio::zero())
            })
            &&& self.num_vars() == before.num_vars()
            &&& self.rows() == before.rows()
            &&& forall|u: usize| u < self.num_vars() ==> #[trigger] self.var(u) == before.var(u)
        } else if e.terms.len() == 1 {
            let x = e.terms[0].0;
            let c = e.terms[0].1;
            let b = bound_of(c, e.known, strict);
            &&& self.num_vars() == before.num_vars()
            &&& self.rows() == before.rows()
            &&& forall|u: usize|
                u < self.num_vars() && u != x ==> #[trigger] self.var(u) == before.var(u)
            &&& if c.num > 0 {
                upper_set(self.var(x), before.var(x), b, reason, ok)
            } else {
                lower_set(self.var(x), before.var(x), b, reason, ok)
            }
        } else {
            let s = before.num_vars() as usize;
            &&& self.num_vars() == before.num_vars() + 1
            &&& self.rows() == before.rows().push((s, e.linear_part()))
            &&& forall|u: usize|
                u < before.num_vars() ==> #[trigger] self.var(u) == (VarModel {
                    rows: if e.has(u) && !before.var(u).rows.contains(s) {
                        before.var(u).rows.push(s)
                    } else {
                        before.var(u).rows
                    },
                    ..before.var(u)
                })
            &&& upper_set(self.var(s), Solver::fresh(), slack_bound(e.known, strict), reason, ok)
        }
    }

    /// Brings `expr` to non-basic form: every basic variable that occurs
    /// in it is replaced by its row.
    fn reduce(&self, expr: &mut Lin)
        requires
            self.wf(),
            old(expr)@.vars_below(self.num_vars()),
            reduction_fits(old(expr)@, self.rows(), self.rows().len() as int),
        ensures
            final(expr)@ == reduced(old(expr)@, self.rows(), self.rows().len() as int),
            final(expr)@.is_normal(),
            final(expr)@.vars_below(self.num_vars()),
            forall|j: int|
                0 <= j < self.rows().len() ==> !final(expr)@.has((#[trigger] self.rows()[j]).0),
    {
        let ghost start = expr@;
        let ghost m = self.tableau@;
        let ghost rows = self.rows();
        let nv = self.vars.len();
        let mut v: usize = 0;
        let ok = expr.is_normal();
        while v < nv
            invariant
                v <= nv,
                nv == self.num_vars(),
                m == self.tableau@,
                rows == self.rows(),
                self.wf(),
                reduction_fits(start, rows, rows.len() as int),
                rows_below(m, v as nat).len() <= rows.len(),
                expr@ == reduced(start, rows, rows_below(m, v as nat).len() as int),
                expr@.is_normal(),
                expr@.vars_below(self.num_vars()),
                forall|j: int|
                    0 <= j < rows_below(m, v as nat).len() ==> !expr@.has((#[trigger] rows[j]).0),
            decreases nv - v,
        {
            let ghost prev = expr@;
            let ghost i = rows_below(m, v as nat).len() as int;
            proof {
                lemma_rows_prefix(m, (v + 1) as nat, index_end());
            }
            match self.tableau.get(&v) {
                Some(row) => {
                    proof {
                        assert(rows_below(m, (v + 1) as nat) == rows_below(m, v as nat).push(
                            (v, m[v]@),
                        ));
                        assert(rows.subrange(0, i + 1)[i] == (v, m[v]@));
                        assert(rows[i] == (v, row@));
                        Solver::lemma_reduction_prefix(start, rows, i + 1, rows.len() as int);
                    }
                    expr.substitute(v, row);
                    proof {
                        let r = rows[i].1;
                        lemma_substituted(prev, v, r, expr@);
                        lemma_substitution_vars(prev, v, r, expr@, self.num_vars());
                        assert forall|j: int| 0 <= j < i + 1 implies !expr@.has(
                            (#[trigger] rows[j]).0,
                        ) by {
                            assert(!r.has(rows[j].0));
                        }
                    }
                },
                None => {
                    proof {
                        assert(rows_below(m, (v + 1) as nat) == rows_below(m, v as nat));
                    }
                },
            }
            v += 1;
        }
        proof {
            self.lemma_rows_end();
        }
    }

    /// No row is kept for a variable that does not exist: the rows below
    /// the number of variables are all the rows.
    proof fn lemma_rows_end(&self)
        requires
            self.wf(),
        ensures
            rows_below(self.tableau@, self.num_vars()) == self.rows(),
            forall|k: usize| self.tableau@.contains_key(k) ==> k < self.num_vars(),
    {
        let m = self.tableau@;
        assert(self.vars@.len() == self.vars.len());
        lemma_rows_below(m, index_end());
        assert forall|k: usize| m.contains_key(k) implies k < self.num_vars() by {
            assert(self.rows().contains((k, m[k]@)));
            let i = choose|i: int| 0 <= i < self.rows().len() && self.rows()[i] == (k, m[k]@);
            assert(self.rows()[i].0 < self.num_vars());
        }
        lemma_rows_gap(m, self.num_vars(), index_end());
    }

    /// What fits for all rows fits for the first of them.
    proof fn lemma_reduction_prefix(e: LinForm, rows: Seq<(usize, LinForm)>, i: int, n: int)
        requires
            0 <= i <= n,
            reduction_fits(e, rows, n),
        ensures
            reduction_fits(e, rows, i),
        decreases n - i,
    {
        if i < n {
            Solver::lemma_reduction_prefix(e, rows, i, n - 1);
        }
    }

    /// Installs `lhs - rhs <= 0`, or `lhs - rhs < 0` where `strict`.
    ///
    /// The answer is `false` on a conflict: a known inequality that does
    /// not hold, or a bound that crosses the opposite active bound.
    pub fn new_lt(&mut self, lhs: &Lin, rhs: &Lin, strict: bool, reason: Option<usize>) -> (ok:
        bool)
        requires
            old(self).wf(),
            lhs@.vars_below(old(self).num_vars()),
            rhs@.vars_below(old(self).num_vars()),
            old(self).installable(lhs@, rhs@),
        ensures
            final(self).wf(),
            final(self).installed(old(self), lhs@, rhs@, strict, reason, ok),
    {
        let ln = lhs.is_normal();
        let rn = rhs.is_normal();
        let mut expr = lhs.duplicate();
        expr.sub_assign(rhs);
        proof {
            lemma_difference(lhs@, rhs@, expr@);
            lemma_difference_vars(lhs@, rhs@, expr@, self.num_vars());
        }
        self.reduce(&mut expr);
        let ghost e = expr@;
        let n = expr.len();
        let zero = Rational::zero();
        if n == 0 {
            let k = expr.known_term();
            return if strict {
                k.is_less_than(&zero)
            } else {
                k.is_less_than(&zero) || k.is_equal_to(&zero)
            };
        }
        let minus_k = expr.known_term().negate();
        if n == 1 {
            let x = expr.var_at(0);
            let c = expr.coeff_at(0);
            let mut rat = minus_k;
            rat.div_assign(&c);
            let upper = c.num() > 0;
            let inf = if !strict {
                Rational::zero()
            } else if upper {
                Rational::from_integer(-1)
            } else {
                Rational::from_integer(1)
            };
            let bound = InfRational::new(rat, inf);
            proof {
                assert(e.terms[0].0 < self.num_vars());
            }
            return if upper {
                self.set_ub(x, bound, reason)
            } else {
                self.set_lb(x, bound, reason)
            };
        }
        let row = expr.linear_part();
        let s = self.new_var();
        let ghost with_var = *self;
        let mut i: usize = 0;
        while i < n
            invariant
                i <= n,
                n == e.terms.len(),
                e == expr@,
                e.is_normal(),
                e.vars_below(old(self).num_vars()),
                s == old(self).num_vars(),
                self.num_vars() == old(self).num_vars() + 1,
                self.tableau == with_var.tableau,
                self.var(s) == with_var.var(s),
                forall|u: usize| u < self.num_vars() ==> (#[trigger] self.var(u)).is_normal(),
                forall|u: usize|
                    u < old(self).num_vars() ==> #[trigger] self.var(u) == (VarModel {
                        rows: if e.has(u) && e.position(u) < i && !old(self).var(u).rows.contains(
                            s,
                        ) {
                            old(self).var(u).rows.push(s)
                        } else {
                            old(self).var(u).rows
                        },
                        ..old(self).var(u)
                    }),
            decreases n - i,
        {
            let u = expr.var_at(i);
            let ghost prev = *self;
            proof {
                lemma_coef_at(e, i as int);
                assert(e.terms[i as int].0 < old(self).num_vars());
            }
            self.vars[u].add_row(s);
            let un = self.vars[u].is_normal();
            proof {
                assert forall|w: usize| w < self.num_vars() implies (#[trigger] self.var(
                    w,
                )).is_normal() by {
                    if w != u {
                        assert(self.var(w) == prev.var(w));
                    }
                }
                assert forall|w: usize| w < old(self).num_vars() implies #[trigger] self.var(w) == (
                VarModel {
                    rows: if e.has(w) && e.position(w) < i + 1 && !old(self).var(w).rows.contains(
                        s,
                    ) {
                        old(self).var(w).rows.push(s)
                    } else {
                        old(self).var(w).rows
                    },
                    ..old(self).var(w)
                }) by {
                    if w != u {
                        assert(self.var(w) == prev.var(w));
                        if e.has(w) {
                            assert(e.terms[e.position(w)].0 == w);
                            assert(e.position(w) != i);
                        }
                    } else {
                        assert(e.has(u));
                        assert(e.position(u) == i);
                        assert(prev.var(u) == old(self).var(u));
                        assert(self.var(u).rows == (if old(self).var(u).rows.contains(s) {
                            old(self).var(u).rows
                        } else {
                            old(self).var(u).rows.push(s)
                        }));
                    }
                }
            }
            i += 1;
        }
        let ghost rows_before = self.rows();
        let ghost linked = *self;
        let ghost held = row;
        proof {
            old(self).lemma_rows_end();
            with_var.lemma_rows_end();
            lemma_rows_below(old(self).tableau@, index_end());
            lemma_rows_below(with_var.tableau@, index_end());
            assert forall|k: usize| linked.tableau@.contains_key(k) implies k < s by {
                assert(with_var.rows().contains((k, with_var.tableau@[k]@)));
                let i = choose|i: int|
                    0 <= i < with_var.rows().len() && with_var.rows()[i] == (
                        k,
                        with_var.tableau@[k]@,
                    );
                assert(old(self).rows()[i].0 < old(self).num_vars());
            }
            lemma_rows_insert(linked.tableau@, s, held);
        }
        self.tableau.insert(s, row);
        proof {
            assert forall|u: usize| u < self.num_vars() implies #[trigger] self.var(u)
                == linked.var(u) by {}
            assert forall|u: usize| u < self.num_vars() implies (#[trigger] self.var(
                u,
            )).is_normal() by {
                assert(linked.var(u).is_normal());
            }
            assert(rows_before =~= old(self).rows());
            assert(self.rows() =~= old(self).rows().push((s, e.linear_part())));
            assert forall|a: int, b: int| 0 <= a < b < self.rows().len() implies (
            #[trigger] self.rows()[a]).0 < (#[trigger] self.rows()[b]).0 by {
                if b < old(self).rows().len() {
                    assert(old(self).rows()[a].0 < old(self).rows()[b].0);
                } else {
                    assert(old(self).rows()[a].0 < old(self).num_vars());
                }
            }
            let lp = e.linear_part();
            assert(lp.is_normal()) by {
                assert(Ratio::zero().is_normal()) by {
                    reveal_with_fuel(crate::utils::arith::gcd, 3);
                }
            }
            assert forall|a: int| 0 <= a < self.rows().len() implies {
                &&& (#[trigger] self.rows()[a]).0 < self.num_vars()
                &&& self.rows()[a].1.is_normal()
                &&& self.rows()[a].1.vars_below(self.num_vars())
                &&& forall|b: int|
                    0 <= b < self.rows().len() ==> !self.rows()[a].1.has(
                        (#[trigger] self.rows()[b]).0,
                    )
            } by {
                if a < old(self).rows().len() {
                    let r = old(self).rows()[a].1;
                    assert(r.vars_below(old(self).num_vars()));
                    assert forall|b: int| 0 <= b < self.rows().len() implies !self.rows()[a].1.has(
                        (#[trigger] self.rows()[b]).0,
                    ) by {
                        if b < old(self).rows().len() {
                            assert(!r.has(old(self).rows()[b].0));
                        } else if r.has(s) {
                            assert(r.terms[r.position(s)].0 < old(self).num_vars());
                        }
                    }
                } else {
                    assert(lp.terms == e.terms);
                    assert forall|b: int| 0 <= b < self.rows().len() implies !self.rows()[a].1.has(
                        (#[trigger] self.rows()[b]).0,
                    ) by {
                        let x = self.rows()[b].0;
                        if lp.has(x) {
                            let q = lp.position(x);
                            assert(e.terms[q].0 == x);
                            assert(e.has(x));
                            if b < old(self).rows().len() {
                                assert(!e.has(old(self).rows()[b].0));
                            } else {
                                assert(e.terms[q].0 < old(self).num_vars());
                            }
                        }
                    }
                }
            }
        }
        let inf = if strict {
            Rational::from_integer(-1)
        } else {
            Rational::zero()
        };
        let bound = InfRational::new(minus_k, inf);
        let ghost pushed = *self;
        assert(pushed.wf());
        let ok = self.set_ub(s, bound, reason);
        proof {
            assert forall|u: usize| u < old(self).num_vars() implies #[trigger] self.var(u) == (
            VarModel {
                rows: if e.has(u) && !old(self).var(u).rows.contains(s) {
                    old(self).var(u).rows.push(s)
                } else {
                    old(self).var(u).rows
                },
                ..old(self).var(u)
            }) by {
                assert(self.var(u) == pushed.var(u));
                assert(pushed.var(u) == linked.var(u));
                if e.has(u) {
                    assert(e.terms[e.position(u)].0 == u);
                }
            }
            assert(pushed.var(s) == Solver::fresh()) by {
                assert(pushed.var(s).lbs.entries =~= Seq::empty());
                assert(pushed.var(s).ubs.entries =~= Seq::empty());
                assert(pushed.var(s).rows =~= Seq::empty());
            }
        }
        ok
    }
}

impl Solver {
    /// The value of `l` from its first `n` terms: the known term plus each
    /// coefficient times the value of its variable.
    pub open spec fn value_sum(&self, l: LinForm, n: int) -> InfRatio
        decreases n,
    {
        if n <= 0 {
            InfRatio::from_ratio(l.known)
        } else {
            self.value_sum(l, n - 1).plus(
                self.var(l.terms[n - 1].0).val.times_rat(l.terms[n - 1].1),
            )
        }
    }

    /// Every product and sum that `value_sum` computes is defined and fits.
    pub open spec fn value_sum_fits(&self, l: LinForm, n: int) -> bool
        decreases n,
    {
        n <= 0 || {
            let t = self.var(l.terms[n - 1].0).val;
            let c = l.terms[n - 1].1;
            &&& self.value_sum_fits(l, n - 1)
            &&& t.times_rat_defined(c)
            &&& t.times_rat(c).fits()
            &&& self.value_sum(l, n - 1).plus_defined(t.times_rat(c))
            &&& self.value_sum(l, n - 1).plus(t.times_rat(c)).fits()
        }
    }

    /// What fits for all terms fits for the first of them.
    proof fn lemma_value_fits_prefix(&self, l: LinForm, i: int, n: int)
        requires
            0 <= i <= n,
            self.value_sum_fits(l, n),
        ensures
            self.value_sum_fits(l, i),
        decreases n - i,
    {
        if i < n {
            self.lemma_value_fits_prefix(l, i, n - 1);
        }
    }

    /// The value of the form `l` under the current values of its variables.
    pub fn lin_val(&self, l: &Lin) -> (r: InfRational)
        requires
            l@.vars_below(self.num_vars()),
            self.value_sum_fits(l@, l@.terms.len() as int),
        ensures
            r@ == self.value_sum(l@, l@.terms.len() as int),
    {
        let mut val = InfRational::from_rational(l.known_term());
        let n = l.len();
        let mut i: usize = 0;
        while i < n
            invariant
                i <= n,
                n == l@.terms.len(),
                l@.vars_below(self.num_vars()),
                self.value_sum_fits(l@, n as int),
                val@ == self.value_sum(l@, i as int),
            decreases n - i,
        {
            let v = l.var_at(i);
            let c = l.coeff_at(i);
            proof {
                self.lemma_value_fits_prefix(l@, i as int + 1, n as int);
                assert(l@.terms[i as int].0 < self.num_vars());
            }
            let mut t = self.value(v);
            t.mul_assign_rational(&c);
            val.add_assign(&t);
            i += 1;
        }
        val
    }
}

impl Solver {
    /// The text of the first `n` variables: a line `  x<i>: <variable>` for each.
    pub open spec fn vars_text(&self, n: int) -> Seq<char>
        decreases n,
    {
        if n <= 0 {
            Seq::empty()
        } else {
            self.vars_text(n - 1) + seq![' ', ' ', 'x'] + decimal((n - 1) as nat) + seq![':', ' ']
                + self.var((n - 1) as usize).text() + seq!['\n']
        }
    }

    /// The text of the first `n` rows: a line `  x<v> = <form>` for each.
    pub open spec fn rows_text(&self, n: int) -> Seq<char>
        decreases n,
    {
        if n <= 0 {
            Seq::empty()
        } else {
            self.rows_text(n - 1) + seq![' ', ' ', 'x'] + decimal(self.rows()[n - 1].0 as nat)
                + seq![' ', '=', ' '] + self.rows()[n - 1].1.text() + seq!['\n']
        }
    }

    /// The text of the engine: its variables, then its tableau.
    pub open spec fn text(&self) -> Seq<char> {
        "Variables:\n"@ + self.vars_text(self.num_vars() as int) + "Tableau:\n"@ + self.rows_text(
            self.rows().len() as int,
        )
    }

    /// Appends the line of variable `i` to `s`.
    fn append_var_line(&self, s: &mut String, i: usize)
        requires
            i < self.num_vars(),
        ensures
            final(s)@ == old(s)@ + (seq![' ', ' ', 'x'] + decimal(i as nat) + seq![':', ' ']
                + self.var(i).text() + seq!['\n']),
    {
        s.append("  x");
        append_decimal(s, i as u128);
        s.append(": ");
        let t = self.vars[i].to_string();
        s.append(t.as_str());
        s.append("\n");
        proof {
            reveal_strlit("  x");
            reveal_strlit(": ");
            reveal_strlit("\n");
            assert(s@ =~= old(s)@ + (seq![' ', ' ', 'x'] + decimal(i as nat) + seq![':', ' ']
                + self.var(i).text() + seq!['\n']));
        }
    }

    /// Appends the line of the row `row` of the basic variable `key` to `s`.
    fn append_row_line(s: &mut String, key: usize, row: &Lin)
        ensures
            final(s)@ == old(s)@ + (seq![' ', ' ', 'x'] + decimal(key as nat) + seq![' ', '=', ' ']
                + row@.text() + seq!['\n']),
    {
        s.append("  x");
        append_decimal(s, key as u128);
        s.append(" = ");
        let t = row.to_string();
        s.append(t.as_str());
        s.append("\n");
        proof {
            reveal_strlit("  x");
            reveal_strlit(" = ");
            reveal_strlit("\n");
            assert(s@ =~= old(s)@ + (seq![' ', ' ', 'x'] + decimal(key as nat) + seq![
                ' ',
                '=',
                ' ',
            ] + row@.text() + seq!['\n']));
        }
    }

    /// The text of the engine.
    pub fn to_string(&self) -> (s: String)
        requires
            self.wf(),
        ensures
            s@ == self.text(),
    {
        let mut s = String::new();
        s.append("Variables:\n");
        let ghost top = s@;
        let nv = self.vars.len();
        let mut i: usize = 0;
        assert(s@ =~= top + self.vars_text(0));
        while i < nv
            invariant
                i <= nv,
                nv == self.num_vars(),
                s@ == top + self.vars_text(i as int),
            decreases nv - i,
        {
            let ghost before = s@;
            self.append_var_line(&mut s, i);
            i += 1;
            proof {
                assert(self.vars_text(i as int) =~= self.vars_text(i as int - 1) + (seq![
                    ' ',
                    ' ',
                    'x',
                ] + decimal((i - 1) as nat) + seq![':', ' '] + self.var((i - 1) as usize).text()
                    + seq!['\n']));
                assert(s@ =~= top + self.vars_text(i as int));
            }
        }
        s.append("Tableau:\n");
        let ghost head = s@;
        let ghost m = self.tableau@;
        let ghost rows = self.rows();
        let mut v: usize = 0;
        assert(s@ =~= head + self.rows_text(0));
        while v < nv
            invariant
                v <= nv,
                nv == self.num_vars(),
                m == self.tableau@,
                rows == self.rows(),
                rows_below(m, v as nat).len() <= rows.len(),
                s@ == head + self.rows_text(rows_below(m, v as nat).len() as int),
            decreases nv - v,
        {
            let ghost r = rows_below(m, v as nat).len() as int;
            proof {
                assert(self.vars@.len() == self.vars.len());
                lemma_rows_prefix(m, (v + 1) as nat, index_end());
            }
            match self.tableau.get(&v) {
                Some(row) => {
                    proof {
                        assert(rows_below(m, (v + 1) as nat) == rows_below(m, v as nat).push(
                            (v, m[v]@),
                        ));
                        assert(rows.subrange(0, r + 1)[r] == (v, m[v]@));
                        assert(rows[r] == (v, row@));
                    }
                    Solver::append_row_line(&mut s, v, row);
                    proof {
                        assert(self.rows_text(r + 1) =~= self.rows_text(r) + (seq![' ', ' ', 'x']
                            + decimal(rows[r].0 as nat) + seq![' ', '=', ' '] + rows[r].1.text()
                            + seq!['\n']));
                        assert(s@ =~= head + self.rows_text(r + 1));
                    }
                },
                None => {
                    proof {
                        assert(rows_below(m, (v + 1) as nat) == rows_below(m, v as nat));
                    }
                },
            }
            v += 1;
        }
        proof {
            self.lemma_rows_end();
            assert(s@ =~= self.text());
        }
        s
    }
}

} // verus!
