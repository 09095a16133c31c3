//! The solver: the three engines and the registry of kinds behind one
//! typed surface.

use crate::ac;
use crate::lin;
use crate::riddle::kind::AnyKind;
use crate::riddle::objects::BoolObject;
use crate::riddle::objects::IntObject;
use crate::riddle::objects::Object;
use crate::riddle::objects::RealObject;
use crate::riddle::registry::Core;
use crate::sat;
use crate::utils::inf_rational::InfRational;
use crate::utils::lin::Lin;
use crate::utils::lin_form::lemma_difference;
use crate::utils::lin_form::lemma_difference_vars;
use crate::utils::lin_form::lemma_sum;
use crate::utils::lin_form::lemma_sum_vars;
use crate::utils::lin_form::LinForm;
use crate::utils::lit::LBool;
use crate::utils::lit::Lit;
use crate::utils::ratio::Ratio;
use crate::utils::rational::Rational;
use vstd::prelude::*;
use vstd::string::StringExecFns;

verus! {

/// What the modelling layer refuses.
pub enum RiddleError {
    /// Arithmetic over objects that are not all integers or reals.
    TypeError(String),
}

/// The class of the result of arithmetic over some terms.
pub enum Join {
    /// Every term is an integer.
    Int,
    /// Every term is an integer or a real, and not all are integers.
    Real,
    /// Some term is neither.
    Mismatch,
}

/// The arithmetic join of the first `n` terms.
pub open spec fn join_of(terms: Seq<Object>, n: int) -> Join
    decreases n,
{
    if n <= 0 {
        Join::Int
    } else {
        match (join_of(terms, n - 1), terms[n - 1]) {
            (Join::Int, Object::Int(_)) => Join::Int,
            (Join::Int, Object::Real(_)) => Join::Real,
            (Join::Real, Object::Int(_)) => Join::Real,
            (Join::Real, Object::Real(_)) => Join::Real,
            _ => Join::Mismatch,
        }
    }
}

/// The sum of the linear forms of the first `n` terms.
pub open spec fn total(terms: Seq<Object>, n: int) -> LinForm
    decreases n,
{
    if n <= 0 {
        LinForm::constant(Ratio::zero())
    } else {
        LinForm::sum(total(terms, n - 1), terms[n - 1].form())
    }
}

/// Every sum that `total` computes is defined and fits.
pub open spec fn total_fits(terms: Seq<Object>, n: int) -> bool
    decreases n,
{
    n <= 0 || (total_fits(terms, n - 1) && LinForm::sum_fits(
        total(terms, n - 1),
        terms[n - 1].form(),
    ))
}

/// The linear form of the first term minus those of the next, up to the `n`-th.
pub open spec fn remainder(terms: Seq<Object>, n: int) -> LinForm
    decreases n,
{
    if n <= 1 {
        terms[0].form()
    } else {
        LinForm::difference(remainder(terms, n - 1), terms[n - 1].form())
    }
}

/// Every difference that `remainder` computes is defined and fits.
pub open spec fn remainder_fits(terms: Seq<Object>, n: int) -> bool
    decreases n,
{
    n <= 1 || (remainder_fits(terms, n - 1) && LinForm::difference_fits(
        remainder(terms, n - 1),
        terms[n - 1].form(),
    ))
}

/// What fits for all terms fits for the first of them.
pub proof fn lemma_total_fits_prefix(terms: Seq<Object>, i: int, n: int)
    requires
        0 <= i <= n,
        total_fits(terms, n),
    ensures
        total_fits(terms, i),
    decreases n - i,
{
    if i < n {
        lemma_total_fits_prefix(terms, i, n - 1);
    }
}

/// What fits for all terms fits for the first of them.
pub proof fn lemma_remainder_fits_prefix(terms: Seq<Object>, i: int, n: int)
    requires
        0 <= i <= n,
        remainder_fits(terms, n),
    ensures
        remainder_fits(terms, i),
    decreases n - i,
{
    if i < n {
        lemma_remainder_fits_prefix(terms, i, n - 1);
    }
}

/// Once the join is a mismatch it stays one.
pub proof fn lemma_join_mismatch(terms: Seq<Object>, i: int, n: int)
    requires
        0 <= i <= n,
        join_of(terms, i) is Mismatch,
    ensures
        join_of(terms, n) is Mismatch,
    decreases n - i,
{
    if i < n {
        lemma_join_mismatch(terms, i, n - 1);
    }
}

/// The message of a type error.
pub open spec fn type_error_text() -> Seq<char> {
    "Invalid term types in arithmetic operation"@
}

/// The solver.
pub struct Solver {
    core: Core,
    sat: sat::solver::Solver,
    lin: lin::solver::Solver,
    ac: ac::solver::Solver,
}

impl Solver {
    /// The registry of kinds and fields.
    pub closed spec fn registry(&self) -> Core {
        self.core
    }

    /// The propositional engine.
    pub closed spec fn sat_engine(&self) -> sat::solver::Solver {
        self.sat
    }

    /// The arithmetic engine.
    pub closed spec fn lin_engine(&self) -> lin::solver::Solver {
        self.lin
    }

    /// The arc-consistency engine.
    pub closed spec fn ac_engine(&self) -> ac::solver::Solver {
        self.ac
    }

    /// The three engines are sound.
    pub open spec fn wf(&self) -> bool {
        &&& self.sat_engine().wf()
        &&& self.lin_engine().wf()
        &&& self.ac_engine().wf()
    }

    /// Whether the engines own what `o` wraps: the variable of a Boolean
    /// object, the variables of the form of an arithmetic one.
    pub open spec fn owns(&self, o: Object) -> bool {
        match o {
            Object::Bool(b) => b.literal().var() < self.sat_engine().num_vars(),
            Object::Int(i) => i.form().is_normal() && i.form().vars_below(
                self.lin_engine().num_vars(),
            ),
            Object::Real(r) => r.form().is_normal() && r.form().vars_below(
                self.lin_engine().num_vars(),
            ),
            Object::Component(_) => true,
        }
    }

    /// A solver with empty engines and the built-in kinds.
    pub fn new() -> (s: Solver)
        ensures
            s.wf(),
            s.sat_engine().num_vars() == 0,
            s.lin_engine().num_vars() == 0,
            s.ac_engine().num_vars() == 0,
            s.registry().kinds().len() == 3,
    {
        Solver {
            core: Core::new(),
            sat: sat::solver::Solver::new(),
            lin: lin::solver::Solver::new(),
            ac: ac::solver::Solver::new(),
        }
    }

    /// A Boolean object over a fresh variable of the propositional
    /// engine: its positive literal.
    pub fn new_bool(&mut self) -> (o: BoolObject)
        requires
            old(self).wf(),
        ensures
            final(self).wf(),
            o.literal() == Lit::of(old(self).sat_engine().num_vars() as usize, true),
            final(self).sat_engine().num_vars() == old(self).sat_engine().num_vars() + 1,
            final(self).sat_engine().val(o.literal().var()) == LBool::Undef,
            final(self).lin_engine() == old(self).lin_engine(),
            final(self).ac_engine() == old(self).ac_engine(),
            final(self).registry() == old(self).registry(),
            final(self).owns(Object::Bool(o)),
    {
        let var = self.sat.add_var();
        BoolObject::new(Lit::new(var, true))
    }

    /// The value of a Boolean object.
    pub fn bool_val(&self, obj: &BoolObject) -> (b: LBool)
        requires
            self.wf(),
            self.owns(Object::Bool(*obj)),
        ensures
            b == self.sat_engine().lit_val(obj.literal()),
    {
        let l = obj.lit();
        self.sat.lit_value(&l)
    }

    /// An integer object over a fresh variable `v` of the arithmetic
    /// engine: the form `1 * v`.
    pub fn new_int(&mut self) -> (o: IntObject)
        requires
            old(self).wf(),
        ensures
            final(self).wf(),
            o.form() == LinForm::variable(old(self).lin_engine().num_vars() as usize),
            final(self).lin_engine().num_vars() == old(self).lin_engine().num_vars() + 1,
            final(self).sat_engine() == old(self).sat_engine(),
            final(self).ac_engine() == old(self).ac_engine(),
            final(self).registry() == old(self).registry(),
            final(self).owns(Object::Int(o)),
    {
        let var = self.lin.new_var();
        IntObject::new(Lin::variable(var))
    }

    /// A real object over a fresh variable `v` of the arithmetic engine:
    /// the form `1 * v`.
    pub fn new_real(&mut self) -> (o: RealObject)
        requires
            old(self).wf(),
        ensures
            final(self).wf(),
            o.form() == LinForm::variable(old(self).lin_engine().num_vars() as usize),
            final(self).lin_engine().num_vars() == old(self).lin_engine().num_vars() + 1,
            final(self).sat_engine() == old(self).sat_engine(),
            final(self).ac_engine() == old(self).ac_engine(),
            final(self).registry() == old(self).registry(),
            final(self).owns(Object::Real(o)),
    {
        let var = self.lin.new_var();
        RealObject::new(Lin::variable(var))
    }

    /// The value of an integer object: that of its form under the values
    /// of the arithmetic engine.
    pub fn int_val(&self, obj: &IntObject) -> (r: InfRational)
        requires
            self.wf(),
            obj.form().vars_below(self.lin_engine().num_vars()),
            self.lin_engine().value_sum_fits(obj.form(), obj.form().terms.len() as int),
        ensures
            r@ == self.lin_engine().value_sum(obj.form(), obj.form().terms.len() as int),
    {
        self.lin.lin_val(obj.lin())
    }

    /// The value of a real object: that of its form under the values of
    /// the arithmetic engine.
    pub fn real_val(&self, obj: &RealObject) -> (r: InfRational)
        requires
            self.wf(),
            obj.form().vars_below(self.lin_engine().num_vars()),
            self.lin_engine().value_sum_fits(obj.form(), obj.form().terms.len() as int),
        ensures
            r@ == self.lin_engine().value_sum(obj.form(), obj.form().terms.len() as int),
    {
        self.lin.lin_val(obj.lin())
    }

    /// The class of the result of arithmetic over `terms`: integer where
    /// all are integers, real where all are integers or reals.
    pub fn arith_class(terms: &Vec<Object>) -> (r: Result<Join, RiddleError>)
        ensures
            match r {
                Ok(j) => j == join_of(terms@, terms@.len() as int) && !(j is Mismatch),
                Err(RiddleError::TypeError(msg)) => join_of(terms@, terms@.len() as int)
                    is Mismatch && msg@ == type_error_text(),
            },
    {
        let n = terms.len();
        let mut join = Join::Int;
        let mut i: usize = 0;
        while i < n
            invariant
                i <= n,
                n == terms@.len(),
                join == join_of(terms@, i as int),
                !(join is Mismatch),
            decreases n - i,
        {
            let next = match (join, &terms[i]) {
                (Join::Int, Object::Int(_)) => Join::Int,
                (Join::Int, Object::Real(_)) => Join::Real,
                (Join::Real, Object::Int(_)) => Join::Real,
                (Join::Real, Object::Real(_)) => Join::Real,
                _ => Join::Mismatch,
            };
            match next {
                Join::Mismatch => {
                    proof {
                        lemma_join_mismatch(terms@, i as int + 1, n as int);
                    }
                    return Err(
                        RiddleError::TypeError(
                            String::from_str("Invalid term types in arithmetic operation"),
                        ),
                    );
                },
                _ => {},
            }
            join = next;
            i += 1;
        }
        Ok(join)
    }

    /// Whether arithmetic over `terms` is well typed, with terms that the
    /// engines own.
    pub open spec fn arithmetic(&self, terms: Seq<Object>) -> bool {
        forall|i: int| 0 <= i < terms.len() ==> self.owns(#[trigger] terms[i])
    }

    /// The sum of `terms`: an object of their arithmetic join whose form
    /// is the sum of their forms. Terms that are not all integers or reals
    /// are a type error.
    pub fn new_sum(&self, terms: &Vec<Object>) -> (r: Result<Object, RiddleError>)
        requires
            self.wf(),
            self.arithmetic(terms@),
            !(join_of(terms@, terms@.len() as int) is Mismatch) ==> total_fits(
                terms@,
                terms@.len() as int,
            ),
        ensures
            match r {
                Ok(o) => {
                    &&& o.form() == total(terms@, terms@.len() as int)
                    &&& self.owns(o)
                    &&& match join_of(terms@, terms@.len() as int) {
                        Join::Int => o is Int,
                        Join::Real => o is Real,
                        Join::Mismatch => false,
                    }
                },
                Err(RiddleError::TypeError(msg)) => join_of(terms@, terms@.len() as int)
                    is Mismatch && msg@ == type_error_text(),
            },
    {
        let join = match Solver::arith_class(terms) {
            Ok(j) => j,
            Err(e) => {
                return Err(e);
            },
        };
        let n = terms.len();
        let mut acc = Lin::constant(Rational::zero());
        let mut i: usize = 0;
        while i < n
            invariant
                i <= n,
                n == terms@.len(),
                self.arithmetic(terms@),
                total_fits(terms@, n as int),
                acc@ == total(terms@, i as int),
                acc@.is_normal(),
                acc@.vars_below(self.lin_engine().num_vars()),
            decreases n - i,
        {
            let ghost prev = acc@;
            proof {
                lemma_total_fits_prefix(terms@, i as int + 1, n as int);
                assert(self.owns(terms@[i as int]));
            }
            match &terms[i] {
                Object::Int(o) => {
                    acc.add_assign(o.lin());
                },
                Object::Real(o) => {
                    acc.add_assign(o.lin());
                },
                _ => {
                    acc.add_assign(&Lin::constant(Rational::zero()));
                },
            }
            proof {
                let f = terms@[i as int].form();
                assert(f.is_normal() && f.vars_below(self.lin_engine().num_vars())) by {
                    assert(Ratio::zero().is_normal()) by {
                        reveal_with_fuel(crate::utils::arith::gcd, 3);
                    }
                }
                lemma_sum(prev, f, acc@);
                lemma_sum_vars(prev, f, acc@, self.lin_engine().num_vars());
            }
            i += 1;
        }
        match join {
            Join::Int => Ok(Object::Int(IntObject::new(acc))),
            _ => Ok(Object::Real(RealObject::new(acc))),
        }
    }

    /// The first of `terms` minus the others: an object of their
    /// arithmetic join. Terms that are not all integers or reals are a
    /// type error.
    pub fn new_sub(&self, terms: &Vec<Object>) -> (r: Result<Object, RiddleError>)
        requires
            self.wf(),
            terms@.len() >= 1,
            self.arithmetic(terms@),
            !(join_of(terms@, terms@.len() as int) is Mismatch) ==> remainder_fits(
                terms@,
                terms@.len() as int,
            ),
        ensures
            match r {
                Ok(o) => {
                    &&& o.form() == remainder(terms@, terms@.len() as int)
                    &&& self.owns(o)
                    &&& match join_of(terms@, terms@.len() as int) {
                        Join::Int => o is Int,
                        Join::Real => o is Real,
                        Join::Mismatch => false,
                    }
                },
                Err(RiddleError::TypeError(msg)) => join_of(terms@, terms@.len() as int)
                    is Mismatch && msg@ == type_error_text(),
            },
    {
        let join = match Solver::arith_class(terms) {
            Ok(j) => j,
            Err(e) => {
                return Err(e);
            },
        };
        let n = terms.len();
        proof {
            assert(self.owns(terms@[0]));
        }
        let mut acc = match &terms[0] {
            Object::Int(o) => o.lin().duplicate(),
            Object::Real(o) => o.lin().duplicate(),
            _ => Lin::constant(Rational::zero()),
        };
        proof {
            assert(Ratio::zero().is_normal()) by {
                reveal_with_fuel(crate::utils::arith::gcd, 3);
            }
        }
        let mut i: usize = 1;
        while i < n
            invariant
                1 <= i <= n,
                n == terms@.len(),
                self.arithmetic(terms@),
                remainder_fits(terms@, n as int),
                acc@ == remainder(terms@, i as int),
                acc@.is_normal(),
                acc@.vars_below(self.lin_engine().num_vars()),
            decreases n - i,
        {
            let ghost prev = acc@;
            proof {
                lemma_remainder_fits_prefix(terms@, i as int + 1, n as int);
                assert(self.owns(terms@[i as int]));
            }
            match &terms[i] {
                Object::Int(o) => {
                    acc.sub_assign(o.lin());
                },
                Object::Real(o) => {
                    acc.sub_assign(o.lin());
                },
                _ => {
                    acc.sub_assign(&Lin::constant(Rational::zero()));
                },
            }
            proof {
                let f = terms@[i as int].form();
                assert(f.is_normal() && f.vars_below(self.lin_engine().num_vars())) by {
                    assert(Ratio::zero().is_normal()) by {
                        reveal_with_fuel(crate::utils::arith::gcd, 3);
                    }
                }
                lemma_difference(prev, f, acc@);
                lemma_difference_vars(prev, f, acc@, self.lin_engine().num_vars());
            }
            i += 1;
        }
        match join {
            Join::Int => Ok(Object::Int(IntObject::new(acc))),
            _ => Ok(Object::Real(RealObject::new(acc))),
        }
    }

    /// Registers a kind under its name.
    pub fn add_class(&mut self, class: AnyKind)
        requires
            old(self).wf(),
        ensures
            final(self).wf(),
            final(self).sat_engine() == old(self).sat_engine(),
            final(self).lin_engine() == old(self).lin_engine(),
            final(self).ac_engine() == old(self).ac_engine(),
            match old(self).registry().place(crate::riddle::kind::Kind::label(&class)) {
                Some(i) => final(self).registry().kinds() == old(self).registry().kinds().update(
                    i,
                    class,
                ),
                None => final(self).registry().kinds() == old(self).registry().kinds().push(
                    class,
                ),
            },
    {
        self.core.add_kind(class);
    }

    /// The registry of kinds and fields.
    pub fn kinds(&self) -> (c: &Core)
        ensures
            *c == self.registry(),
    {
        &self.core
    }

    /// The propositional engine.
    pub fn sat(&self) -> (s: &sat::solver::Solver)
        ensures
            *s == self.sat_engine(),
    {
        &self.sat
    }

    /// The arithmetic engine.
    pub fn lin(&self) -> (s: &lin::solver::Solver)
        ensures
            *s == self.lin_engine(),
    {
        &self.lin
    }

    /// The arc-consistency engine.
    pub fn ac(&self) -> (s: &ac::solver::Solver)
        ensures
            *s == self.ac_engine(),
    {
        &self.ac
    }
}

} // verus!
