//! Clauses over Boolean variables with unit propagation by two watched
//! literals.
//!
//! The first two literals of a clause are its watches. A variable lists,
//! for each sign, the clauses that watch its literal of that sign; when the
//! variable is assigned, only the list of the literal that became false is
//! walked.
//!
//! What each operation leads to is stated twice: as the value of a
//! function on the engine's `State`, which fixes every field, and as
//! properties of the values, reasons and records, from which the laws
//! of propagation follow.

use crate::sat::state::exchanged;
use crate::sat::state::undefined;
use crate::sat::state::State;
use crate::sat::state::Walk;
use crate::utils::lit::LBool;
use crate::utils::lit::Lit;
use std::collections::VecDeque;
use crate::utils::text::append_decimal;
use crate::utils::text::decimal;
use vstd::prelude::*;
use vstd::string::StringExecFns;

verus! {

/// The state of one Boolean variable.
struct Var {
    /// The current value.
    value: LBool,
    /// The clause that forced the value; none for a decision.
    reason: Option<usize>,
    /// The clauses that watch the positive literal.
    pos_clauses: Vec<usize>,
    /// The clauses that watch the negative literal.
    neg_clauses: Vec<usize>,
}

/// The propositional engine.
pub struct Solver {
    vars: Vec<Var>,
    clauses: Vec<Vec<Lit>>,
    /// The assigned variables whose watch lists are still to be walked.
    prop_q: VecDeque<usize>,
    /// The variables assigned by the last assertion, in order.
    level_vars: Vec<usize>,
    /// The clause that the last failed assertion falsified.
    conflict: Option<usize>,
    /// The variable that each listener subscribed to, by listener.
    listeners: Vec<usize>,
    /// The assignments that listeners have not been told of yet:
    /// each a listener and the variable assigned.
    notifications: Vec<(usize, usize)>,
}

/// Two clauses of the same length with the same literals, in any order.
pub open spec fn same_literals(a: Seq<Lit>, b: Seq<Lit>) -> bool {
    &&& a.len() == b.len()
    &&& forall|l: Lit| #[trigger] a.contains(l) <==> b.contains(l)
}

/// Exchanging two literals of a clause keeps its literals.
pub proof fn lemma_swap_same_literals(a: Seq<Lit>, i: int, j: int)
    requires
        0 <= i < a.len(),
        0 <= j < a.len(),
    ensures
        same_literals(a.update(i, a[j]).update(j, a[i]), a),
{
    let b = a.update(i, a[j]).update(j, a[i]);
    assert forall|l: Lit| #[trigger] b.contains(l) <==> a.contains(l) by {
        if b.contains(l) {
            let k = choose|k: int| 0 <= k < b.len() && b[k] == l;
            if k == i {
                assert(a[j] == l);
            } else if k == j {
                assert(a[i] == l);
            } else {
                assert(a[k] == l);
            }
        }
        if a.contains(l) {
            let k = choose|k: int| 0 <= k < a.len() && a[k] == l;
            if k == i {
                assert(b[j] == l);
            } else if k == j {
                assert(b[i] == l);
            } else {
                assert(b[k] == l);
            }
        }
    }
}

/// The notices owed for two runs of assignments are those of the first
/// run, then those of the second.
pub proof fn lemma_notices_concat(listeners: Seq<usize>, a: Seq<usize>, b: Seq<usize>)
    ensures
        notices_for(listeners, a + b) == notices_for(listeners, a) + notices_for(listeners, b),
    decreases b.len(),
{
    if b.len() == 0 {
        assert(a + b =~= a);
        assert(notices_for(listeners, a) + notices_for(listeners, b) =~= notices_for(
            listeners,
            a,
        ));
    } else {
        assert((a + b).drop_last() =~= a + b.drop_last());
        assert((a + b).last() == b.last());
        lemma_notices_concat(listeners, a, b.drop_last());
        assert(notices_for(listeners, a + b) =~= notices_for(listeners, a) + notices_for(
            listeners,
            b,
        ));
    }
}

/// The notices owed for one assignment.
pub proof fn lemma_notices_single(listeners: Seq<usize>, var: usize)
    ensures
        notices_for(listeners, seq![var]) == notices(listeners, var, listeners.len() as int),
{
    assert(seq![var].drop_last() =~= Seq::<usize>::empty());
    assert(seq![var].last() == var);
    assert(notices_for(listeners, seq![var]) =~= notices(listeners, var, listeners.len() as int))
        by {
        reveal_with_fuel(notices_for, 2);
    }
}

/// The first place from `from` on whose literal differs from the first
/// literal of `lits`; the length of `lits` where there is none.
pub open spec fn first_other(lits: Seq<Lit>, from: int) -> int
    decreases lits.len() - from,
{
    if from >= lits.len() {
        lits.len() as int
    } else if lits[from] != lits[0] {
        from
    } else {
        first_other(lits, from + 1)
    }
}

/// The clause as the engine stores it: the second place holds the first
/// literal that differs from the first one, so that the two watches are
/// different literals wherever the clause holds two. A clause whose first
/// two literals differ, and one that holds one literal only, however
/// often, is stored as it is.
pub open spec fn stored(lits: Seq<Lit>) -> Seq<Lit> {
    let k = first_other(lits, 1);
    if k < lits.len() {
        exchanged(lits, 1, k)
    } else {
        lits
    }
}

/// The value of a literal under the value of its variable.
pub open spec fn lit_under(value: LBool, positive: bool) -> LBool {
    match value {
        LBool::Undef => LBool::Undef,
        LBool::True => if positive {
            LBool::True
        } else {
            LBool::False
        },
        LBool::False => if positive {
            LBool::False
        } else {
            LBool::True
        },
    }
}

/// The notices that an assignment to `var` owes to the first `n`
/// listeners: one for each of them that subscribed to `var`, in the order
/// of subscription.
pub open spec fn notices(listeners: Seq<usize>, var: usize, n: int) -> Seq<(usize, usize)>
    decreases n,
{
    if n <= 0 {
        Seq::empty()
    } else if listeners[n - 1] == var {
        notices(listeners, var, n - 1).push(((n - 1) as usize, var))
    } else {
        notices(listeners, var, n - 1)
    }
}

/// The notices owed for a sequence of assignments, in their order.
pub open spec fn notices_for(listeners: Seq<usize>, vars: Seq<usize>) -> Seq<(usize, usize)>
    decreases vars.len(),
{
    if vars.len() == 0 {
        Seq::empty()
    } else {
        notices_for(listeners, vars.drop_last()) + notices(
            listeners,
            vars.last(),
            listeners.len() as int,
        )
    }
}

impl Solver {
    pub closed spec fn num_vars(&self) -> nat {
        self.vars@.len()
    }

    pub closed spec fn num_clauses(&self) -> nat {
        self.clauses@.len()
    }

    /// The value of variable `v`.
    pub closed spec fn val(&self, v: usize) -> LBool {
        self.vars@[v as int].value
    }

    /// The clause that forced the value of `v`, if one did.
    pub closed spec fn reason(&self, v: usize) -> Option<usize> {
        self.vars@[v as int].reason
    }

    /// The literals of clause `c`, the two watches first.
    pub closed spec fn clause(&self, c: usize) -> Seq<Lit> {
        self.clauses@[c as int]@
    }

    /// The clauses that watch the literal of `v` with the given sign.
    pub closed spec fn watch_list(&self, v: usize, positive: bool) -> Seq<usize> {
        if positive {
            self.vars@[v as int].pos_clauses@
        } else {
            self.vars@[v as int].neg_clauses@
        }
    }

    /// The assigned variables that are still to fan out, first in first out.
    pub closed spec fn queue(&self) -> Seq<usize> {
        self.prop_q@
    }

    /// The variables that the last assertion assigned, in order.
    pub closed spec fn assigned_now(&self) -> Seq<usize> {
        self.level_vars@
    }

    /// The clause that the last failed assertion found falsified.
    pub closed spec fn conflict_clause(&self) -> Option<usize> {
        self.conflict
    }

    /// The variable that each listener subscribed to.
    pub closed spec fn subscriptions(&self) -> Seq<usize> {
        self.listeners@
    }

    /// The notices not yet taken: a listener and the assigned variable each.
    pub closed spec fn pending_notices(&self) -> Seq<(usize, usize)> {
        self.notifications@
    }

    /// The engine's state as plain data.
    pub closed spec fn state(&self) -> State {
        State {
            vals: self.vars@.map_values(|x: Var| x.value),
            reasons: self.vars@.map_values(|x: Var| x.reason),
            pos: self.vars@.map_values(|x: Var| x.pos_clauses@),
            neg: self.vars@.map_values(|x: Var| x.neg_clauses@),
            clauses: self.clauses@.map_values(|c: Vec<Lit>| c@),
            queue: self.prop_q@,
            trail: self.level_vars@,
            conflict: self.conflict,
            listeners: self.listeners@,
            notes: self.notifications@,
        }
    }

    /// Whether `m` holds, place by place, what the engine holds.
    pub open spec fn shows(&self, m: State) -> bool {
        &&& m.vals.len() == self.num_vars()
        &&& m.reasons.len() == self.num_vars()
        &&& m.pos.len() == self.num_vars()
        &&& m.neg.len() == self.num_vars()
        &&& m.clauses.len() == self.num_clauses()
        &&& forall|v: int| 0 <= v < m.vals.len() ==> #[trigger] m.vals[v] == self.val(v as usize)
        &&& forall|v: int|
            0 <= v < m.reasons.len() ==> #[trigger] m.reasons[v] == self.reason(v as usize)
        &&& forall|v: int|
            0 <= v < m.pos.len() ==> #[trigger] m.pos[v] == self.watch_list(v as usize, true)
        &&& forall|v: int|
            0 <= v < m.neg.len() ==> #[trigger] m.neg[v] == self.watch_list(v as usize, false)
        &&& forall|c: int|
            0 <= c < m.clauses.len() ==> #[trigger] m.clauses[c] == self.clause(c as usize)
        &&& m.queue == self.queue()
        &&& m.trail == self.assigned_now()
        &&& m.conflict == self.conflict_clause()
        &&& m.listeners == self.subscriptions()
        &&& m.notes == self.pending_notices()
    }

    /// The state of the engine holds what the engine holds, and is the
    /// only state that does.
    pub proof fn lemma_state(&self)
        ensures
            self.num_vars() <= usize::MAX,
            self.num_clauses() <= usize::MAX,
            self.shows(self.state()),
            forall|m: State| #[trigger] self.shows(m) ==> m == self.state(),
            forall|l: Lit| l.var() < self.num_vars() ==> #[trigger] self.state().lit_val(l) == self.lit_val(l),
    {
        let s = self.state();
        assert(self.vars@.len() == self.vars.len());
        assert(self.clauses@.len() == self.clauses.len());
        assert forall|m: State| #[trigger] self.shows(m) implies m == s by {
            assert(m.vals =~= s.vals);
            assert(m.reasons =~= s.reasons);
            assert(m.pos =~= s.pos);
            assert(m.neg =~= s.neg);
            assert(m.clauses =~= s.clauses);
        }
    }

    /// The state counts the unassigned variables as the engine does.
    pub proof fn lemma_state_count(&self, n: nat)
        requires
            n <= self.num_vars(),
        ensures
            undefined(self.state().vals.subrange(0, n as int)) == self.undef_upto(n),
            n == self.num_vars() ==> self.state().unassigned() == self.unassigned(),
        decreases n,
    {
        let vals = self.state().vals;
        assert(self.vars@.len() == self.vars.len());
        if n > 0 {
            self.lemma_state_count((n - 1) as nat);
            assert(vals.subrange(0, n as int).drop_last() =~= vals.subrange(0, n - 1));
        }
        if n == self.num_vars() {
            assert(vals.subrange(0, n as int) =~= vals);
        }
    }

    /// The value of a literal: that of its variable, seen through the sign.
    pub open spec fn lit_val(&self, l: Lit) -> LBool {
        lit_under(self.val(l.var()), l.is_positive())
    }

    /// Every literal of clause `c` is the first one again.
    pub open spec fn uniform(&self, c: usize) -> bool {
        forall|j: int|
            0 <= j < self.clause(c).len() ==> (#[trigger] self.clause(c)[j]) == self.clause(c)[0]
    }

    /// Every literal of clause `c` is over a variable of the engine, there
    /// are two watches, and they are different literals unless the clause
    /// holds one literal only.
    pub open spec fn clause_ok(&self, c: usize) -> bool {
        &&& self.clause(c).len() >= 2
        &&& self.clause(c)[0] != self.clause(c)[1] || self.uniform(c)
        &&& forall|j: int|
            0 <= j < self.clause(c).len() ==> (#[trigger] self.clause(c)[j]).var()
                < self.num_vars()
    }

    /// Whether the literal of `v` with sign `s` is a watch of clause `c`.
    pub open spec fn watches(&self, v: usize, s: bool, c: usize) -> bool {
        self.clause(c)[0] == Lit::of(v, s) || self.clause(c)[1] == Lit::of(v, s)
    }

    /// The list of `v` on side `s` holds clauses only, each once, and
    /// exactly those that watch the literal of `v` with sign `s`.
    pub open spec fn watch_list_ok(&self, v: usize, s: bool) -> bool {
        &&& self.watch_list(v, s).no_duplicates()
        &&& forall|i: int|
            0 <= i < self.watch_list(v, s).len() ==> (#[trigger] self.watch_list(v, s)[i])
                < self.num_clauses()
        &&& forall|c: usize|
            c < self.num_clauses() ==> (#[trigger] self.watch_list(v, s).contains(c)
                <==> self.watches(v, s, c))
    }

    /// A variable has a reason only while assigned; the reason is a clause
    /// whose first literal is the variable's true literal and whose other
    /// literals are false, or repeat the first.
    pub open spec fn reason_ok(&self, v: usize) -> bool {
        match self.reason(v) {
            None => true,
            Some(c) => {
                &&& c < self.num_clauses()
                &&& self.clause(c)[0].var() == v
                &&& self.lit_val(self.clause(c)[0]) == LBool::True
                &&& forall|j: int|
                    1 <= j < self.clause(c).len() ==> (#[trigger] self.clause(c)[j])
                        == self.clause(c)[0] || self.lit_val(self.clause(c)[j]) == LBool::False
            },
        }
    }

    /// Every queued variable exists and is assigned, and every listener
    /// subscribed to a variable that exists.
    pub open spec fn entries_in_range(&self) -> bool {
        &&& forall|i: int|
            0 <= i < self.queue().len() ==> (#[trigger] self.queue()[i]) < self.num_vars()
                && self.val(self.queue()[i]) != LBool::Undef
        &&& forall|i: int|
            0 <= i < self.subscriptions().len() ==> (#[trigger] self.subscriptions()[i])
                < self.num_vars()
    }

    /// The structural invariant, which holds at every step.
    pub open spec fn inv(&self) -> bool {
        &&& forall|c: usize| c < self.num_clauses() ==> #[trigger] self.clause_ok(c)
        &&& forall|v: usize, s: bool| v < self.num_vars() ==> #[trigger] self.watch_list_ok(v, s)
        &&& forall|v: usize| v < self.num_vars() ==> #[trigger] self.reason_ok(v)
        &&& self.entries_in_range()
    }

    /// The invariant between operations: the structure is sound and no
    /// assignment is waiting to fan out.
    pub open spec fn wf(&self) -> bool {
        self.inv() && self.queue().len() == 0
    }

    /// Wherever one of the two watches of clause `c` is false, the other is true.
    pub open spec fn settled(&self, c: usize) -> bool {
        &&& self.lit_val(self.clause(c)[0]) == LBool::False ==> self.lit_val(self.clause(c)[1])
            == LBool::True
        &&& self.lit_val(self.clause(c)[1]) == LBool::False ==> self.lit_val(self.clause(c)[0])
            == LBool::True
    }

    /// Unit propagation is complete: every clause is settled.
    pub open spec fn propagated(&self) -> bool {
        forall|c: usize| c < self.num_clauses() ==> #[trigger] self.settled(c)
    }

    /// The two states have the same clauses.
    pub open spec fn same_clauses(&self, other: &Solver) -> bool {
        &&& self.num_clauses() == other.num_clauses()
        &&& forall|c: usize| c < self.num_clauses() ==> #[trigger] self.clause(c) == other.clause(c)
    }

    /// The two states have the same variables with the same watch lists.
    pub open spec fn same_watches(&self, other: &Solver) -> bool {
        &&& self.num_vars() == other.num_vars()
        &&& forall|v: usize, s: bool|
            v < self.num_vars() ==> #[trigger] self.watch_list(v, s) == other.watch_list(v, s)
    }

    /// The two states have the same variables with the same values and reasons.
    pub open spec fn same_values(&self, other: &Solver) -> bool {
        &&& self.num_vars() == other.num_vars()
        &&& forall|v: usize| v < self.num_vars() ==> #[trigger] self.val(v) == other.val(v)
        &&& forall|v: usize| v < self.num_vars() ==> #[trigger] self.reason(v) == other.reason(v)
    }

    /// The two states have the same listeners, notices and conflict record.
    pub open spec fn same_records(&self, other: &Solver) -> bool {
        &&& self.subscriptions() == other.subscriptions()
        &&& self.pending_notices() == other.pending_notices()
        &&& self.assigned_now() == other.assigned_now()
        &&& self.conflict_clause() == other.conflict_clause()
    }

    /// The engine without variables and clauses.
    pub fn new() -> (s: Solver)
        ensures
            s.wf(),
            s.propagated(),
            s.state() == State::empty(),
            s.num_vars() == 0,
            s.num_clauses() == 0,
            s.subscriptions().len() == 0,
            s.pending_notices().len() == 0,
            s.assigned_now().len() == 0,
            s.conflict_clause().is_none(),
    {
        let s = Solver {
            vars: Vec::new(),
            clauses: Vec::new(),
            prop_q: VecDeque::new(),
            level_vars: Vec::new(),
            conflict: None,
            listeners: Vec::new(),
            notifications: Vec::new(),
        };
        proof {
            s.lemma_state();
            assert(s.queue() =~= Seq::<usize>::empty());
            assert(s.assigned_now() =~= Seq::<usize>::empty());
            assert(s.subscriptions() =~= Seq::<usize>::empty());
            assert(s.pending_notices() =~= Seq::<(usize, usize)>::empty());
            assert(s.shows(State::empty()));
        }
        s
    }

    /// The number of variables.
    pub fn var_count(&self) -> (n: usize)
        ensures
            n == self.num_vars(),
    {
        self.vars.len()
    }

    /// The number of clauses of two literals or more.
    pub fn clause_count(&self) -> (n: usize)
        ensures
            n == self.num_clauses(),
    {
        self.clauses.len()
    }

    /// Allocates a variable without a value; its index is the number of
    /// variables before.
    pub fn add_var(&mut self) -> (id: usize)
        requires
            old(self).wf(),
        ensures
            final(self).wf(),
            final(self).state() == old(self).state().with_var(),
            id == old(self).num_vars(),
            final(self).num_vars() == old(self).num_vars() + 1,
            final(self).val(id) == LBool::Undef,
            final(self).reason(id).is_none(),
            forall|s: bool| (#[trigger] final(self).watch_list(id, s)).len() == 0,
            forall|v: usize|
                v < old(self).num_vars() ==> #[trigger] final(self).val(v) == old(self).val(v),
            forall|v: usize|
                v < old(self).num_vars() ==> #[trigger] final(self).reason(v) == old(self).reason(
                    v,
                ),
            forall|v: usize, s: bool|
                v < old(self).num_vars() ==> #[trigger] final(self).watch_list(v, s) == old(
                    self,
                ).watch_list(v, s),
            final(self).same_clauses(old(self)),
            final(self).same_records(old(self)),
            old(self).propagated() ==> final(self).propagated(),
    {
        let id = self.vars.len();
        self.vars.push(
            Var {
                value: LBool::Undef,
                reason: None,
                pos_clauses: Vec::new(),
                neg_clauses: Vec::new(),
            },
        );
        proof {
            assert(self.same_clauses(old(self)));
            assert(self.same_records(old(self)));
            assert(self.queue() == old(self).queue());
            assert forall|c: usize| c < self.num_clauses() implies #[trigger] self.clause_ok(
                c,
            ) by {
                assert(old(self).clause_ok(c));
            }
            assert forall|v: usize, s: bool| v < self.num_vars() implies #[trigger] self.watch_list_ok(
                v,
                s,
            ) by {
                if v < id {
                    assert(old(self).watch_list_ok(v, s));
                    assert(self.watch_list(v, s) == old(self).watch_list(v, s));
                    assert forall|c: usize| c < self.num_clauses() implies (
                    #[trigger] self.watch_list(v, s).contains(c) <==> self.watches(v, s, c)) by {
                        assert(old(self).watch_list(v, s).contains(c) <==> old(self).watches(
                            v,
                            s,
                            c,
                        ));
                    }
                } else {
                    assert forall|c: usize| c < self.num_clauses() implies (
                    #[trigger] self.watch_list(v, s).contains(c) <==> self.watches(v, s, c)) by {
                        Lit::lemma_of(v, s);
                        assert(old(self).clause_ok(c));
                        assert(old(self).clause(c)[0].var() < id);
                        assert(old(self).clause(c)[1].var() < id);
                    }
                }
            }
            assert forall|v: usize| v < self.num_vars() implies #[trigger] self.reason_ok(v) by {
                if v < id {
                    assert(old(self).reason_ok(v));
                    if let Some(c) = self.reason(v) {
                        assert(old(self).clause_ok(c));
                        assert(self.clause(c) == old(self).clause(c));
                    }
                }
            }
            if old(self).propagated() {
                assert forall|c: usize| c < self.num_clauses() implies #[trigger] self.settled(
                    c,
                ) by {
                    assert(old(self).settled(c));
                    assert(old(self).clause_ok(c));
                }
            }
            old(self).lemma_state();
            self.lemma_state();
            let goal = old(self).state().with_var();
            assert forall|v: int| 0 <= v < goal.pos.len() implies #[trigger] goal.pos[v]
                == self.watch_list(v as usize, true) by {
                if v == id {
                    assert(self.watch_list(id, true) =~= Seq::<usize>::empty());
                }
            }
            assert forall|v: int| 0 <= v < goal.neg.len() implies #[trigger] goal.neg[v]
                == self.watch_list(v as usize, false) by {
                if v == id {
                    assert(self.watch_list(id, false) =~= Seq::<usize>::empty());
                }
            }
            assert(self.shows(goal));
        }
        id
    }

    /// The value of a variable.
    pub fn value(&self, var: usize) -> (b: &LBool)
        requires
            var < self.num_vars(),
        ensures
            *b == self.val(var),
    {
        &self.vars[var].value
    }

    /// The value of a literal: undetermined with its variable, else true
    /// exactly where the sign agrees with the variable's value.
    pub fn lit_value(&self, lit: &Lit) -> (b: LBool)
        requires
            lit.var() < self.num_vars(),
        ensures
            b == self.lit_val(*lit),
    {
        match self.vars[lit.var()].value {
            LBool::Undef => LBool::Undef,
            LBool::True => if lit.is_positive() {
                LBool::True
            } else {
                LBool::False
            },
            LBool::False => if lit.is_positive() {
                LBool::False
            } else {
                LBool::True
            },
        }
    }

    /// The clauses that watch the positive literal of `var`.
    pub fn pos_clauses(&self, var: usize) -> (w: &Vec<usize>)
        requires
            var < self.num_vars(),
        ensures
            w@ == self.watch_list(var, true),
    {
        &self.vars[var].pos_clauses
    }

    /// The clauses that watch the negative literal of `var`.
    pub fn neg_clauses(&self, var: usize) -> (w: &Vec<usize>)
        requires
            var < self.num_vars(),
        ensures
            w@ == self.watch_list(var, false),
    {
        &self.vars[var].neg_clauses
    }
}

impl Solver {
    /// The number of unassigned variables among the first `n`.
    pub closed spec fn undef_upto(&self, n: nat) -> nat
        decreases n,
    {
        if n == 0 {
            0
        } else {
            self.undef_upto((n - 1) as nat) + if self.val((n - 1) as usize) == LBool::Undef {
                1nat
            } else {
                0nat
            }
        }
    }

    /// The number of unassigned variables.
    pub open spec fn unassigned(&self) -> nat {
        self.undef_upto(self.num_vars())
    }

    /// Whether clause `c` is on the list of `v`, side `s`, at place `from` or later.
    pub open spec fn in_walk(&self, v: usize, s: bool, from: int, c: usize) -> bool {
        exists|i: int|
            from <= i < self.watch_list(v, s).len() && #[trigger] self.watch_list(v, s)[i] == c
    }

    /// During propagation a false watch may wait for its turn: watch `k`
    /// of clause `c`, where false, has a true partner, or its variable is
    /// queued, or it is the literal being walked and `c` is still ahead.
    pub open spec fn covered(&self, c: usize, k: int, walk: Option<(usize, bool, int)>) -> bool {
        let l = self.clause(c)[k];
        self.lit_val(l) == LBool::False ==> {
            ||| self.lit_val(self.clause(c)[1 - k]) == LBool::True
            ||| self.queue().contains(l.var())
            ||| match walk {
                Some((v, s, from)) => l == Lit::of(v, s) && self.in_walk(v, s, from, c),
                None => false,
            }
        }
    }

    /// The variable being walked, if any, is one of the first `n`.
    pub open spec fn walk_in_range(walk: Option<(usize, bool, int)>, n: nat) -> bool {
        match walk {
            Some((v, s, from)) => v < n && 0 <= from,
            None => true,
        }
    }

    /// Both watches of clause `c` are covered.
    pub open spec fn clause_covered(&self, c: usize, walk: Option<(usize, bool, int)>) -> bool {
        self.covered(c, 0, walk) && self.covered(c, 1, walk)
    }

    /// The invariant of propagation: every watch of every clause is covered.
    pub open spec fn draining(&self, walk: Option<(usize, bool, int)>) -> bool {
        forall|c: usize| c < self.num_clauses() ==> #[trigger] self.clause_covered(c, walk)
    }

    /// Assigned variables keep their values from `before` to `self`.
    pub open spec fn extends(&self, before: &Solver) -> bool {
        &&& self.num_vars() == before.num_vars()
        &&& forall|v: usize|
            v < self.num_vars() && before.val(v) != LBool::Undef ==> #[trigger] self.val(v)
                == before.val(v)
    }

    /// Equal values give equal counts.
    proof fn lemma_count_same(&self, other: &Solver, n: nat)
        requires
            n <= self.num_vars(),
            self.num_vars() == other.num_vars(),
            forall|v: usize| v < n ==> self.val(v) == other.val(v),
        ensures
            self.undef_upto(n) == other.undef_upto(n),
        decreases n,
    {
        if n > 0 {
            self.lemma_count_same(other, (n - 1) as nat);
        }
    }

    /// Assigning one unassigned variable lowers the count by one.
    proof fn lemma_count_assign(&self, before: &Solver, u: usize, n: nat)
        requires
            n <= self.num_vars() <= usize::MAX,
            self.num_vars() == before.num_vars(),
            before.val(u) == LBool::Undef,
            self.val(u) != LBool::Undef,
            forall|v: usize| v < n && v != u ==> self.val(v) == before.val(v),
        ensures
            before.undef_upto(n) == self.undef_upto(n) + if u < n {
                1nat
            } else {
                0nat
            },
        decreases n,
    {
        if n > 0 {
            self.lemma_count_assign(before, u, (n - 1) as nat);
        }
    }

    /// A state that differs from a sound one in its records only is sound.
    proof fn lemma_frame(&self, before: &Solver)
        requires
            before.inv(),
            self.same_clauses(before),
            self.same_watches(before),
            self.same_values(before),
            self.queue() == before.queue(),
            self.subscriptions() == before.subscriptions(),
        ensures
            self.inv(),
            self.unassigned() == before.unassigned(),
            self.extends(before),
            before.propagated() ==> self.propagated(),
            forall|w: Option<(usize, bool, int)>|
                Solver::walk_in_range(w, before.num_vars()) && before.draining(w)
                    ==> #[trigger] self.draining(w),
    {
        assert forall|c: usize| c < self.num_clauses() implies #[trigger] self.clause_ok(c) by {
            assert(before.clause_ok(c));
        }
        assert forall|v: usize, s: bool| v < self.num_vars() implies #[trigger] self.watch_list_ok(
            v,
            s,
        ) by {
            assert(before.watch_list_ok(v, s));
            assert(self.watch_list(v, s) == before.watch_list(v, s));
            assert forall|c: usize| c < self.num_clauses() implies (#[trigger] self.watch_list(
                v,
                s,
            ).contains(c) <==> self.watches(v, s, c)) by {
                assert(before.watch_list(v, s).contains(c) <==> before.watches(v, s, c));
            }
        }
        assert forall|v: usize| v < self.num_vars() implies #[trigger] self.reason_ok(v) by {
            assert(before.reason_ok(v));
            assert(self.reason(v) == before.reason(v));
            if let Some(c) = self.reason(v) {
                assert(before.clause_ok(c));
                assert(self.clause(c) == before.clause(c));
            }
        }
        self.lemma_count_same(before, self.num_vars());
        if before.propagated() {
            assert forall|c: usize| c < self.num_clauses() implies #[trigger] self.settled(c) by {
                assert(before.settled(c));
                assert(before.clause_ok(c));
            }
        }
        assert forall|w: Option<(usize, bool, int)>|
            Solver::walk_in_range(w, before.num_vars()) && before.draining(
                w,
            ) implies #[trigger] self.draining(w) by {
            assert forall|c: usize| c < self.num_clauses() implies #[trigger] self.clause_covered(
                c,
                w,
            ) by {
                assert(before.clause_covered(c, w));
                assert(before.clause_ok(c));
                assert(self.clause(c) == before.clause(c));
                if let Some((v, s, from)) = w {
                    if before.in_walk(v, s, from, c) {
                        let i = choose|i: int|
                            from <= i < before.watch_list(v, s).len() && #[trigger] before.watch_list(
                                v,
                                s,
                            )[i] == c;
                        assert(self.watch_list(v, s) == before.watch_list(v, s));
                        assert(self.watch_list(v, s)[i] == c);
                    }
                }
            }
        }
    }
}

impl Solver {
    /// Clause `c` forces `lit`: `lit` is its first literal and every other
    /// literal is false, or is `lit` again.
    pub open spec fn forces(&self, c: usize, lit: Lit) -> bool {
        &&& c < self.num_clauses()
        &&& self.clause(c)[0] == lit
        &&& forall|j: int|
            1 <= j < self.clause(c).len() ==> (#[trigger] self.clause(c)[j]) == lit
                || self.lit_val(self.clause(c)[j]) == LBool::False
    }

    /// Owes every listener of `var` a notice, in the order of subscription.
    fn notify(&mut self, var: usize)
        ensures
            final(self).same_clauses(old(self)),
            final(self).same_watches(old(self)),
            final(self).same_values(old(self)),
            final(self).queue() == old(self).queue(),
            final(self).subscriptions() == old(self).subscriptions(),
            final(self).assigned_now() == old(self).assigned_now(),
            final(self).conflict_clause() == old(self).conflict_clause(),
            final(self).pending_notices() == old(self).pending_notices() + notices(
                old(self).subscriptions(),
                var,
                old(self).subscriptions().len() as int,
            ),
    {
        let n = self.listeners.len();
        let mut i: usize = 0;
        assert(self.notifications@ =~= old(self).notifications@ + notices(self.listeners@, var, 0));
        while i < n
            invariant
                i <= n,
                n == self.listeners@.len(),
                self.vars == old(self).vars,
                self.clauses == old(self).clauses,
                self.prop_q == old(self).prop_q,
                self.listeners == old(self).listeners,
                self.level_vars == old(self).level_vars,
                self.conflict == old(self).conflict,
                self.notifications@ == old(self).notifications@ + notices(
                    self.listeners@,
                    var,
                    i as int,
                ),
            decreases n - i,
        {
            if self.listeners[i] == var {
                self.notifications.push((i, var));
            }
            i += 1;
            assert(self.notifications@ =~= old(self).notifications@ + notices(
                self.listeners@,
                var,
                i as int,
            ));
        }
    }

    /// Gives the unassigned variable of `lit` the value that makes `lit`
    /// true, with the given reason, and queues it.
    fn assign(&mut self, lit: Lit, reason: Option<usize>)
        requires
            old(self).inv(),
            lit.var() < old(self).num_vars(),
            old(self).val(lit.var()) == LBool::Undef,
            reason matches Some(c) ==> old(self).forces(c, lit),
        ensures
            final(self).inv(),
            final(self).state() == old(self).state().assigned(lit, reason),
            final(self).extends(old(self)),
            final(self).same_clauses(old(self)),
            final(self).same_watches(old(self)),
            final(self).lit_val(lit) == LBool::True,
            final(self).reason(lit.var()) == reason,
            forall|v: usize|
                v < final(self).num_vars() && v != lit.var() ==> #[trigger] final(self).val(v)
                    == old(self).val(v),
            forall|v: usize|
                v < final(self).num_vars() && v != lit.var() ==> #[trigger] final(self).reason(v)
                    == old(self).reason(v),
            final(self).queue() == old(self).queue().push(lit.var()),
            final(self).assigned_now() == old(self).assigned_now().push(lit.var()),
            final(self).subscriptions() == old(self).subscriptions(),
            final(self).conflict_clause() == old(self).conflict_clause(),
            final(self).pending_notices() == old(self).pending_notices() + notices(
                old(self).subscriptions(),
                lit.var(),
                old(self).subscriptions().len() as int,
            ),
            final(self).unassigned() + 1 == old(self).unassigned(),
            forall|w: Option<(usize, bool, int)>|
                Solver::walk_in_range(w, old(self).num_vars()) && old(self).draining(w)
                    ==> #[trigger] final(self).draining(w),
    {
        let var = lit.var();
        self.vars[var].value = if lit.is_positive() {
            LBool::True
        } else {
            LBool::False
        };
        self.vars[var].reason = reason;
        self.prop_q.push_back(var);
        self.level_vars.push(var);
        let ghost mid = *self;
        proof {
            assert(mid.same_clauses(old(self)));
            assert(mid.same_watches(old(self)));
            assert forall|c: usize| c < mid.num_clauses() implies #[trigger] mid.clause_ok(c) by {
                assert(old(self).clause_ok(c));
            }
            assert forall|v: usize, s: bool| v < mid.num_vars() implies #[trigger] mid.watch_list_ok(
                v,
                s,
            ) by {
                assert(old(self).watch_list_ok(v, s));
                assert(mid.watch_list(v, s) == old(self).watch_list(v, s));
                assert forall|c: usize| c < mid.num_clauses() implies (#[trigger] mid.watch_list(
                    v,
                    s,
                ).contains(c) <==> mid.watches(v, s, c)) by {
                    assert(old(self).watch_list(v, s).contains(c) <==> old(self).watches(v, s, c));
                }
            }
            assert forall|v: usize| v < mid.num_vars() implies #[trigger] mid.reason_ok(v) by {
                assert(old(self).reason_ok(v));
                if let Some(c) = mid.reason(v) {
                    assert(old(self).clause_ok(c));
                    assert(mid.clause(c) == old(self).clause(c));
                    assert forall|j: int| 1 <= j < mid.clause(c).len() implies (
                    #[trigger] mid.clause(c)[j]) == mid.clause(c)[0] || mid.lit_val(
                        mid.clause(c)[j],
                    ) == LBool::False by {
                        let l = old(self).clause(c)[j];
                        assert(l.var() < mid.num_vars());
                        if v != var {
                            assert(l == old(self).clause(c)[0] || old(self).lit_val(l)
                                == LBool::False);
                        }
                    }
                }
            }
            assert(mid.queue() =~= old(self).queue().push(var));
            assert forall|i: int| 0 <= i < mid.queue().len() implies (#[trigger] mid.queue()[i])
                < mid.num_vars() && mid.val(mid.queue()[i]) != LBool::Undef by {
                if i < old(self).queue().len() {
                    assert(old(self).queue()[i] < mid.num_vars());
                }
            }
            assert(mid.subscriptions() == old(self).subscriptions());
            assert(mid.entries_in_range());
            assert(mid.inv());
            assert(mid.num_vars() == mid.vars.len());
            mid.lemma_count_assign(old(self), var, mid.num_vars());
            assert forall|w: Option<(usize, bool, int)>|
                Solver::walk_in_range(w, old(self).num_vars()) && old(self).draining(
                    w,
                ) implies #[trigger] mid.draining(w) by {
                assert forall|c: usize| c < mid.num_clauses() implies #[trigger] mid.clause_covered(
                    c,
                    w,
                ) by {
                    assert(old(self).clause_covered(c, w));
                    assert(old(self).clause_ok(c));
                    assert(mid.clause(c) == old(self).clause(c));
                    let l0 = mid.clause(c)[0];
                    let l1 = mid.clause(c)[1];
                    assert(l0.var() < mid.num_vars());
                    assert(l1.var() < mid.num_vars());
                    assert(mid.queue().last() == var);
                    assert forall|u: usize| old(self).queue().contains(u) implies mid.queue().contains(
                        u,
                    ) by {
                        let i = choose|i: int|
                            0 <= i < old(self).queue().len() && old(self).queue()[i] == u;
                        assert(mid.queue()[i] == u);
                    }
                    if let Some((v, sd, from)) = w {
                        assert(mid.watch_list(v, sd) == old(self).watch_list(v, sd));
                        if old(self).in_walk(v, sd, from, c) {
                            let i = choose|i: int|
                                from <= i < old(self).watch_list(v, sd).len()
                                    && #[trigger] old(self).watch_list(v, sd)[i] == c;
                            assert(mid.watch_list(v, sd)[i] == c);
                        }
                    }
                }
            }
        }
        self.notify(var);
        proof {
            self.lemma_frame(&mid);
            assert forall|w: Option<(usize, bool, int)>|
                Solver::walk_in_range(w, old(self).num_vars()) && old(self).draining(
                    w,
                ) implies #[trigger] self.draining(w) by {
                assert(mid.draining(w));
            }
            old(self).lemma_state();
            self.lemma_state();
            assert(self.shows(old(self).state().assigned(lit, reason)));
        }
    }

    /// Makes `lit` true if its variable has no value yet, recording the
    /// reason; fails exactly where `lit` is already false.
    fn enqueue(&mut self, lit: Lit, reason: Option<usize>) -> (ok: bool)
        requires
            old(self).inv(),
            lit.var() < old(self).num_vars(),
            reason matches Some(c) ==> old(self).forces(c, lit),
        ensures
            ok == (old(self).lit_val(lit) != LBool::False),
            final(self).state() == old(self).state().enqueued(lit, reason),
            old(self).lit_val(lit) != LBool::Undef ==> *final(self) == *old(self),
            old(self).lit_val(lit) == LBool::Undef ==> {
                &&& final(self).inv()
                &&& final(self).extends(old(self))
                &&& final(self).same_clauses(old(self))
                &&& final(self).same_watches(old(self))
                &&& final(self).lit_val(lit) == LBool::True
                &&& final(self).reason(lit.var()) == reason
                &&& forall|v: usize|
                    v < final(self).num_vars() && v != lit.var() ==> #[trigger] final(self).val(v)
                        == old(self).val(v)
                &&& forall|v: usize|
                    v < final(self).num_vars() && v != lit.var() ==> #[trigger] final(self).reason(
                        v,
                    ) == old(self).reason(v)
                &&& final(self).queue() == old(self).queue().push(lit.var())
                &&& final(self).assigned_now() == old(self).assigned_now().push(lit.var())
                &&& final(self).subscriptions() == old(self).subscriptions()
                &&& final(self).conflict_clause() == old(self).conflict_clause()
                &&& final(self).pending_notices() == old(self).pending_notices() + notices(
                    old(self).subscriptions(),
                    lit.var(),
                    old(self).subscriptions().len() as int,
                )
                &&& final(self).unassigned() + 1 == old(self).unassigned()
                &&& forall|w: Option<(usize, bool, int)>|
                    Solver::walk_in_range(w, old(self).num_vars()) && old(self).draining(w)
                        ==> #[trigger] final(self).draining(w)
            },
    {
        proof {
            old(self).lemma_state();
        }
        match self.lit_value(&lit) {
            LBool::Undef => {
                self.assign(lit, reason);
                true
            },
            LBool::True => true,
            LBool::False => false,
        }
    }
}

impl Solver {
    /// Exchanges the two watches of clause `c`, whose first literal is not true.
    fn swap_watches(&mut self, c: usize)
        requires
            old(self).inv(),
            c < old(self).num_clauses(),
            old(self).lit_val(old(self).clause(c)[0]) != LBool::True,
        ensures
            final(self).inv(),
            final(self).state() == old(self).state().with_clause(
                c,
                exchanged(old(self).clause(c), 0, 1),
            ),
            final(self).num_clauses() == old(self).num_clauses(),
            final(self).clause(c) == old(self).clause(c).update(0, old(self).clause(c)[1]).update(
                1,
                old(self).clause(c)[0],
            ),
            same_literals(final(self).clause(c), old(self).clause(c)),
            forall|d: usize|
                d < final(self).num_clauses() && d != c ==> #[trigger] final(self).clause(d) == old(
                    self,
                ).clause(d),
            final(self).same_watches(old(self)),
            final(self).same_values(old(self)),
            final(self).same_records(old(self)),
            final(self).queue() == old(self).queue(),
            final(self).unassigned() == old(self).unassigned(),
            forall|w: Option<(usize, bool, int)>|
                Solver::walk_in_range(w, old(self).num_vars()) && old(self).draining(w)
                    ==> #[trigger] final(self).draining(w),
    {
        proof {
            assert(old(self).clause_ok(c));
        }
        let a = self.clauses[c][0];
        let b = self.clauses[c][1];
        self.clauses[c][0] = b;
        self.clauses[c][1] = a;
        proof {
            let before = old(self).clause(c);
            assert(self.clause(c) =~= before.update(0, before[1]).update(1, before[0]));
            lemma_swap_same_literals(before, 0, 1);
            assert(self.same_watches(old(self)));
            assert(self.same_values(old(self)));
            assert forall|d: usize| d < self.num_clauses() implies #[trigger] self.clause_ok(d) by {
                assert(old(self).clause_ok(d));
                if d != c {
                    assert(self.clause(d) == old(self).clause(d));
                } else {
                    assert forall|j: int| 0 <= j < self.clause(d).len() implies (
                    #[trigger] self.clause(d)[j]).var() < self.num_vars() by {
                        if j == 0 {
                            assert(before[1].var() < self.num_vars());
                        } else if j == 1 {
                            assert(before[0].var() < self.num_vars());
                        } else {
                            assert(before[j].var() < self.num_vars());
                        }
                    }
                }
            }
            assert forall|v: usize, s: bool| v < self.num_vars() implies #[trigger] self.watch_list_ok(
                v,
                s,
            ) by {
                assert(old(self).watch_list_ok(v, s));
                assert(self.watch_list(v, s) == old(self).watch_list(v, s));
                assert forall|d: usize| d < self.num_clauses() implies (#[trigger] self.watch_list(
                    v,
                    s,
                ).contains(d) <==> self.watches(v, s, d)) by {
                    assert(old(self).watch_list(v, s).contains(d) <==> old(self).watches(v, s, d));
                    if d != c {
                        assert(self.clause(d) == old(self).clause(d));
                    }
                }
            }
            assert forall|v: usize| v < self.num_vars() implies #[trigger] self.reason_ok(v) by {
                assert(old(self).reason_ok(v));
                assert(self.reason(v) == old(self).reason(v));
                if let Some(d) = self.reason(v) {
                    assert(old(self).clause_ok(d));
                    assert(d != c);
                    assert(self.clause(d) == old(self).clause(d));
                }
            }
            assert(self.queue() == old(self).queue());
            assert(self.subscriptions() == old(self).subscriptions());
            assert forall|i: int| 0 <= i < self.queue().len() implies (#[trigger] self.queue()[i])
                < self.num_vars() && self.val(self.queue()[i]) != LBool::Undef by {
                assert(old(self).queue()[i] < self.num_vars());
            }
            assert(self.entries_in_range());
            assert(self.num_vars() == self.vars.len());
            self.lemma_count_same(old(self), self.num_vars());
            assert forall|w: Option<(usize, bool, int)>|
                Solver::walk_in_range(w, old(self).num_vars()) && old(self).draining(
                    w,
                ) implies #[trigger] self.draining(w) by {
                assert forall|d: usize| d < self.num_clauses() implies #[trigger] self.clause_covered(
                    d,
                    w,
                ) by {
                    assert(old(self).clause_covered(d, w));
                    assert(old(self).clause_ok(d));
                    if d != c {
                        assert(self.clause(d) == old(self).clause(d));
                    }
                    if let Some((v, sd, from)) = w {
                        assert(self.watch_list(v, sd) == old(self).watch_list(v, sd));
                        if old(self).in_walk(v, sd, from, d) {
                            let i = choose|i: int|
                                from <= i < old(self).watch_list(v, sd).len()
                                    && #[trigger] old(self).watch_list(v, sd)[i] == d;
                            assert(self.watch_list(v, sd)[i] == d);
                        }
                    }
                }
            }
            old(self).lemma_state();
            self.lemma_state();
            assert(self.shows(old(self).state().with_clause(c, exchanged(before, 0, 1))));
        }
    }

    /// Adds clause `c` to the list of the variable of `lit`, on the side of its sign.
    fn watch_lit(&mut self, lit: &Lit, c: usize)
        requires
            lit.var() < old(self).num_vars(),
        ensures
            final(self).num_vars() == old(self).num_vars(),
            final(self).watch_list(lit.var(), lit.is_positive()) == old(self).watch_list(
                lit.var(),
                lit.is_positive(),
            ).push(c),
            forall|v: usize, s: bool|
                v < final(self).num_vars() && !(v == lit.var() && s == lit.is_positive())
                    ==> #[trigger] final(self).watch_list(v, s) == old(self).watch_list(v, s),
            final(self).same_clauses(old(self)),
            final(self).same_values(old(self)),
            final(self).same_records(old(self)),
            final(self).queue() == old(self).queue(),
    {
        if lit.is_positive() {
            self.vars[lit.var()].pos_clauses.push(c);
        } else {
            self.vars[lit.var()].neg_clauses.push(c);
        }
    }

    /// Takes the entry at place `i` off the list of `var` on the given side.
    fn unwatch_at(&mut self, var: usize, positive: bool, i: usize)
        requires
            var < old(self).num_vars(),
            i < old(self).watch_list(var, positive).len(),
        ensures
            final(self).num_vars() == old(self).num_vars(),
            final(self).watch_list(var, positive) == old(self).watch_list(var, positive).remove(
                i as int,
            ),
            forall|v: usize, s: bool|
                v < final(self).num_vars() && !(v == var && s == positive)
                    ==> #[trigger] final(self).watch_list(v, s) == old(self).watch_list(v, s),
            final(self).same_clauses(old(self)),
            final(self).same_values(old(self)),
            final(self).same_records(old(self)),
            final(self).queue() == old(self).queue(),
    {
        if positive {
            self.vars[var].pos_clauses.remove(i);
        } else {
            self.vars[var].neg_clauses.remove(i);
        }
    }
}

impl Solver {
    /// Since `before`, variables were assigned one after another, and the
    /// listeners of each were owed their notices in that order.
    pub open spec fn notes_follow(&self, before: &Solver) -> bool {
        let k = before.assigned_now().len() as int;
        &&& self.subscriptions() == before.subscriptions()
        &&& k <= self.assigned_now().len()
        &&& self.assigned_now().subrange(0, k) == before.assigned_now()
        &&& self.pending_notices() == before.pending_notices() + notices_for(
            self.subscriptions(),
            self.assigned_now().subrange(k, self.assigned_now().len() as int),
        )
    }

    /// Nothing assigned, nothing owed.
    proof fn lemma_notes_same(&self, before: &Solver)
        requires
            self.same_records(before),
        ensures
            self.notes_follow(before),
    {
        let k = before.assigned_now().len() as int;
        assert(self.assigned_now().subrange(0, k) =~= before.assigned_now());
        assert(self.assigned_now().subrange(k, k) =~= Seq::<usize>::empty());
        assert(self.pending_notices() =~= before.pending_notices() + notices_for(
            self.subscriptions(),
            Seq::<usize>::empty(),
        ));
    }

    /// One assignment, its notices owed.
    proof fn lemma_notes_one(&self, before: &Solver, var: usize)
        requires
            self.subscriptions() == before.subscriptions(),
            self.assigned_now() == before.assigned_now().push(var),
            self.pending_notices() == before.pending_notices() + notices(
                before.subscriptions(),
                var,
                before.subscriptions().len() as int,
            ),
        ensures
            self.notes_follow(before),
    {
        let k = before.assigned_now().len() as int;
        assert(self.assigned_now().subrange(0, k) =~= before.assigned_now());
        assert(self.assigned_now().subrange(k, k + 1) =~= seq![var]);
        lemma_notices_single(self.subscriptions(), var);
    }

    /// Following is transitive.
    proof fn lemma_notes_chain(&self, mid: &Solver, before: &Solver)
        requires
            mid.notes_follow(before),
            self.notes_follow(mid),
        ensures
            self.notes_follow(before),
    {
        let k = before.assigned_now().len() as int;
        let m = mid.assigned_now().len() as int;
        let n = self.assigned_now().len() as int;
        let a = mid.assigned_now().subrange(k, m);
        let b = self.assigned_now().subrange(m, n);
        assert(self.assigned_now().subrange(0, k) =~= before.assigned_now()) by {
            assert(self.assigned_now().subrange(0, m).subrange(0, k) =~= self.assigned_now().subrange(
                0,
                k,
            ));
        }
        assert(self.assigned_now().subrange(k, n) =~= a + b) by {
            assert forall|i: int| 0 <= i < m - k implies a[i] == self.assigned_now()[k + i] by {
                assert(self.assigned_now().subrange(0, m)[k + i] == mid.assigned_now()[k + i]);
            }
        }
        lemma_notices_concat(self.subscriptions(), a, b);
        assert(self.pending_notices() =~= before.pending_notices() + notices_for(
            self.subscriptions(),
            a + b,
        ));
    }

    /// Every literal of clause `c` is false.
    pub open spec fn falsified(&self, c: usize) -> bool {
        forall|j: int|
            0 <= j < self.clause(c).len() ==> self.lit_val(#[trigger] self.clause(c)[j])
                == LBool::False
    }

    /// Every clause has the literals it had in `before`.
    pub open spec fn same_logic(&self, before: &Solver) -> bool {
        &&& self.num_clauses() == before.num_clauses()
        &&& forall|c: usize|
            c < self.num_clauses() ==> same_literals(#[trigger] self.clause(c), before.clause(c))
    }

    /// Moves the second watch of clause `c` from the false literal of
    /// `var` to the literal at place `j`, which is not false.
    fn move_watch(
        &mut self,
        c: usize,
        j: usize,
        var: usize,
        positive: bool,
        i: usize,
        Ghost(track): Ghost<bool>,
    )
        requires
            old(self).inv(),
            var < old(self).num_vars(),
            c < old(self).num_clauses(),
            i < old(self).watch_list(var, positive).len(),
            old(self).watch_list(var, positive)[i as int] == c,
            old(self).clause(c)[1] == Lit::of(var, positive),
            old(self).lit_val(Lit::of(var, positive)) == LBool::False,
            2 <= j < old(self).clause(c).len(),
            old(self).lit_val(old(self).clause(c)[j as int]) != LBool::False,
            old(self).clause(c)[j as int] != old(self).clause(c)[0],
            track ==> old(self).draining(Some((var, positive, i as int))),
        ensures
            final(self).inv(),
            final(self).state() == old(self).state().with_clause(
                c,
                exchanged(old(self).clause(c), 1, j as int),
            ).watching(old(self).clause(c)[j as int], c).unwatching(var, positive, i as int),
            final(self).num_clauses() == old(self).num_clauses(),
            final(self).clause(c) == old(self).clause(c).update(
                1,
                old(self).clause(c)[j as int],
            ).update(j as int, old(self).clause(c)[1]),
            same_literals(final(self).clause(c), old(self).clause(c)),
            forall|d: usize|
                d < final(self).num_clauses() && d != c ==> #[trigger] final(self).clause(d) == old(
                    self,
                ).clause(d),
            final(self).watch_list(var, positive) == old(self).watch_list(var, positive).remove(
                i as int,
            ),
            final(self).same_values(old(self)),
            final(self).same_records(old(self)),
            final(self).queue() == old(self).queue(),
            final(self).unassigned() == old(self).unassigned(),
            track ==> final(self).draining(Some((var, positive, i as int))),
    {
        let ghost lw = Lit::of(var, positive);
        proof {
            assert(old(self).clause_ok(c));
            Lit::lemma_of(var, positive);
        }
        let lj = self.clauses[c][j];
        let l1 = self.clauses[c][1];
        self.clauses[c][1] = lj;
        self.clauses[c][j] = l1;
        let ghost mid1 = *self;
        self.watch_lit(&lj, c);
        let ghost mid2 = *self;
        proof {
            Lit::lemma_determined(lj, lw);
            assert(!(lj.var() == var && lj.is_positive() == positive));
            assert(mid2.watch_list(var, positive) == old(self).watch_list(var, positive));
        }
        self.unwatch_at(var, positive, i);
        proof {
            let before = old(self).clause(c);
            let c0 = before[0];
            assert(self.clause(c) =~= before.update(1, before[j as int]).update(j as int, before[1]));
            lemma_swap_same_literals(before, 1, j as int);
            assert(self.same_values(old(self)));
            assert(self.num_vars() == self.vars.len());
            self.lemma_count_same(old(self), self.num_vars());
            assert forall|d: usize| d < self.num_clauses() && d != c implies #[trigger] self.clause(
                d,
            ) == old(self).clause(d) by {
                assert(mid1.clause(d) == old(self).clause(d));
            }
            assert forall|d: usize| d < self.num_clauses() implies #[trigger] self.clause_ok(d) by {
                assert(old(self).clause_ok(d));
                if d == c {
                    assert forall|k: int| 0 <= k < self.clause(d).len() implies (
                    #[trigger] self.clause(d)[k]).var() < self.num_vars() by {
                        if k == 1 {
                            assert(before[j as int].var() < self.num_vars());
                        } else if k == j {
                            assert(before[1].var() < self.num_vars());
                        } else {
                            assert(before[k].var() < self.num_vars());
                        }
                    }
                }
            }
            let wl_old = old(self).watch_list(var, positive);
            let wl_new = self.watch_list(var, positive);
            assert(wl_new == wl_old.remove(i as int));
            assert(old(self).watch_list_ok(var, positive));
            assert(old(self).watch_list_ok(lj.var(), lj.is_positive()));
            assert forall|v: usize, s: bool| v < self.num_vars() implies #[trigger] self.watch_list_ok(
                v,
                s,
            ) by {
                assert(old(self).watch_list_ok(v, s));
                Lit::lemma_of(v, s);
                Lit::lemma_determined(Lit::of(v, s), lw);
                Lit::lemma_determined(Lit::of(v, s), lj);
                Lit::lemma_determined(Lit::of(v, s), c0);
                let a = self.watch_list(v, s);
                let b = old(self).watch_list(v, s);
                if v == var && s == positive {
                    assert(a == b.remove(i as int));
                    assert forall|x: int, y: int|
                        0 <= x < a.len() && 0 <= y < a.len() && x != y implies a[x] != a[y] by {
                        let x2 = if x < i {
                            x
                        } else {
                            x + 1
                        };
                        let y2 = if y < i {
                            y
                        } else {
                            y + 1
                        };
                        assert(a[x] == b[x2]);
                        assert(a[y] == b[y2]);
                    }
                    assert forall|x: int| 0 <= x < a.len() implies (#[trigger] a[x])
                        < self.num_clauses() by {
                        let x2 = if x < i {
                            x
                        } else {
                            x + 1
                        };
                        assert(a[x] == b[x2]);
                    }
                    assert forall|d: usize| d < self.num_clauses() implies (#[trigger] a.contains(
                        d,
                    ) <==> self.watches(v, s, d)) by {
                        assert(b.contains(d) <==> old(self).watches(v, s, d));
                        if a.contains(d) {
                            let x = choose|x: int| 0 <= x < a.len() && a[x] == d;
                            let x2 = if x < i {
                                x
                            } else {
                                x + 1
                            };
                            assert(b[x2] == d);
                            assert(x2 != i);
                            assert(d != c);
                        }
                        if d != c && b.contains(d) {
                            let x = choose|x: int| 0 <= x < b.len() && b[x] == d;
                            assert(x != i);
                            let x2 = if x < i {
                                x
                            } else {
                                x - 1
                            };
                            assert(a[x2] == d);
                        }
                    }
                } else if v == lj.var() && s == lj.is_positive() {
                    assert(a == b.push(c));
                    assert(b.contains(c) <==> old(self).watches(v, s, c));
                    assert(!b.contains(c));
                    assert forall|x: int, y: int|
                        0 <= x < a.len() && 0 <= y < a.len() && x != y implies a[x] != a[y] by {
                        if x < b.len() {
                            assert(b[x] == a[x]);
                        }
                        if y < b.len() {
                            assert(b[y] == a[y]);
                        }
                    }
                    assert forall|x: int| 0 <= x < a.len() implies (#[trigger] a[x])
                        < self.num_clauses() by {
                        if x < b.len() {
                            assert(b[x] == a[x]);
                        }
                    }
                    assert forall|d: usize| d < self.num_clauses() implies (#[trigger] a.contains(
                        d,
                    ) <==> self.watches(v, s, d)) by {
                        assert(b.contains(d) <==> old(self).watches(v, s, d));
                        if a.contains(d) {
                            let x = choose|x: int| 0 <= x < a.len() && a[x] == d;
                            if x < b.len() {
                                assert(b[x] == d);
                            }
                        }
                        if b.contains(d) {
                            let x = choose|x: int| 0 <= x < b.len() && b[x] == d;
                            assert(a[x] == d);
                        }
                        if d == c {
                            assert(a[b.len() as int] == c);
                        }
                    }
                } else {
                    assert(a == b);
                    assert forall|d: usize| d < self.num_clauses() implies (#[trigger] a.contains(
                        d,
                    ) <==> self.watches(v, s, d)) by {
                        assert(b.contains(d) <==> old(self).watches(v, s, d));
                    }
                }
            }
            assert forall|v: usize| v < self.num_vars() implies #[trigger] self.reason_ok(v) by {
                assert(old(self).reason_ok(v));
                assert(self.reason(v) == old(self).reason(v));
                if let Some(d) = self.reason(v) {
                    assert(old(self).clause_ok(d));
                    if d == c {
                        assert(before[j as int] == before[0] || old(self).lit_val(before[j as int])
                            == LBool::False);
                    }
                    assert(self.clause(d) == old(self).clause(d));
                }
            }
            assert(self.queue() == old(self).queue());
            assert(self.subscriptions() == old(self).subscriptions());
            assert forall|x: int| 0 <= x < self.queue().len() implies (#[trigger] self.queue()[x])
                < self.num_vars() && self.val(self.queue()[x]) != LBool::Undef by {
                assert(old(self).queue()[x] < self.num_vars());
            }
            let w = Some((var, positive, i as int));
            assert forall|d: usize| track && d < self.num_clauses() implies #[trigger] self.clause_covered(
                d,
                w,
            ) by {
                assert(old(self).clause_covered(d, w));
                assert(old(self).clause_ok(d));
                if d != c {
                    assert(self.clause(d) == old(self).clause(d));
                    if old(self).in_walk(var, positive, i as int, d) {
                        let x = choose|x: int|
                            i <= x < wl_old.len() && #[trigger] wl_old[x] == d;
                        assert(x != i);
                        assert(wl_new[x - 1] == d);
                    }
                } else {
                    Lit::lemma_determined(c0, lw);
                    assert(self.clause(c)[0] == c0);
                    assert(self.clause(c)[1] == lj);
                }
            }
        }
        proof {
            self.lemma_moved(old(self), &mid2, c, j as int, var, positive, i as int);
        }
    }

    /// Moving a watch, seen on the state: the clause with two literals
    /// exchanged, one list longer by the clause, the other without it.
    proof fn lemma_moved(
        &self,
        before: &Solver,
        mid: &Solver,
        c: usize,
        j: int,
        var: usize,
        positive: bool,
        i: int,
    )
        requires
            c < before.num_clauses(),
            var < before.num_vars(),
            0 <= j < before.clause(c).len(),
            before.clause(c)[j].var() < before.num_vars(),
            !(before.clause(c)[j].var() == var && before.clause(c)[j].is_positive() == positive),
            0 <= i < before.watch_list(var, positive).len(),
            self.num_vars() == before.num_vars(),
            mid.num_vars() == before.num_vars(),
            self.num_clauses() == before.num_clauses(),
            self.clause(c) == exchanged(before.clause(c), 1, j),
            forall|d: usize|
                d < self.num_clauses() && d != c ==> #[trigger] self.clause(d) == before.clause(d),
            mid.watch_list(before.clause(c)[j].var(), before.clause(c)[j].is_positive())
                == before.watch_list(
                before.clause(c)[j].var(),
                before.clause(c)[j].is_positive(),
            ).push(c),
            forall|v: usize, s: bool|
                v < mid.num_vars() && !(v == before.clause(c)[j].var() && s == before.clause(
                    c,
                )[j].is_positive()) ==> #[trigger] mid.watch_list(v, s) == before.watch_list(v, s),
            self.watch_list(var, positive) == mid.watch_list(var, positive).remove(i),
            forall|v: usize, s: bool|
                v < self.num_vars() && !(v == var && s == positive) ==> #[trigger] self.watch_list(
                    v,
                    s,
                ) == mid.watch_list(v, s),
            self.same_values(before),
            self.same_records(before),
            self.queue() == before.queue(),
        ensures
            self.state() == before.state().with_clause(
                c,
                exchanged(before.clause(c), 1, j),
            ).watching(before.clause(c)[j], c).unwatching(var, positive, i),
    {
        self.lemma_state();
        before.lemma_state();
        let lj = before.clause(c)[j];
        let m1 = before.state().with_clause(c, exchanged(before.clause(c), 1, j));
        let m2 = m1.watching(lj, c);
        let goal = m2.unwatching(var, positive, i);
        assert forall|v: int| 0 <= v < goal.pos.len() implies #[trigger] goal.pos[v]
            == self.watch_list(v as usize, true) by {
            assert(before.state().pos[v] == before.watch_list(v as usize, true));
            assert(m2.pos[v] == mid.watch_list(v as usize, true));
        }
        assert forall|v: int| 0 <= v < goal.neg.len() implies #[trigger] goal.neg[v]
            == self.watch_list(v as usize, false) by {
            assert(before.state().neg[v] == before.watch_list(v as usize, false));
            assert(m2.neg[v] == mid.watch_list(v as usize, false));
        }
        assert forall|d: int| 0 <= d < goal.clauses.len() implies #[trigger] goal.clauses[d]
            == self.clause(d as usize) by {
            assert(before.state().clauses[d] == before.clause(d as usize));
        }
        assert(self.shows(goal));
    }
}

impl Solver {
    /// Nothing was assigned from `before` to `self`.
    pub open spec fn none_more(&self, before: &Solver) -> bool {
        self.same_values(before) && self.assigned_now() == before.assigned_now()
    }

    /// From `before` to `self` one variable was assigned, by a clause: it
    /// is the last one recorded, and no other variable changed.
    pub open spec fn one_more(&self, before: &Solver) -> bool {
        let u = self.assigned_now().last();
        &&& self.num_vars() == before.num_vars()
        &&& self.assigned_now() == before.assigned_now().push(u)
        &&& u < self.num_vars()
        &&& before.val(u) == LBool::Undef
        &&& self.val(u) != LBool::Undef
        &&& self.reason(u) is Some
        &&& forall|v: usize|
            v < self.num_vars() && v != u ==> #[trigger] self.val(v) == before.val(v)
        &&& forall|v: usize|
            v < self.num_vars() && v != u ==> #[trigger] self.reason(v) == before.reason(v)
    }

    /// What the assertion of `lit` in `before` has assigned up to `self`.
    ///
    /// The record holds the variables that had no value in `before` and
    /// have one now, each once. Of these the variable of `lit` has no
    /// reason, and every other one has a clause as its reason: nothing is
    /// guessed. A variable that had a value keeps its reason.
    pub open spec fn assigned_since(&self, before: &Solver, lit: Lit) -> bool {
        &&& self.num_vars() == before.num_vars()
        &&& self.assigned_now().no_duplicates()
        &&& forall|k: int|
            0 <= k < self.assigned_now().len() ==> (#[trigger] self.assigned_now()[k])
                < self.num_vars()
        &&& forall|v: usize|
            v < self.num_vars() ==> (#[trigger] self.assigned_now().contains(v) <==> before.val(v)
                == LBool::Undef && self.val(v) != LBool::Undef)
        &&& forall|v: usize|
            v < self.num_vars() && before.val(v) != LBool::Undef ==> #[trigger] self.reason(v)
                == before.reason(v)
        &&& forall|v: usize|
            v < self.num_vars() && v != lit.var() && before.val(v) == LBool::Undef && self.val(v)
                != LBool::Undef ==> (#[trigger] self.reason(v)) is Some
        &&& before.lit_val(lit) == LBool::Undef ==> self.lit_val(lit) == LBool::True
            && self.reason(lit.var()) is None
    }

    /// One step of propagation keeps the account of what was assigned.
    proof fn lemma_assigned_more(&self, prev: &Solver, before: &Solver, lit: Lit)
        requires
            lit.var() < before.num_vars(),
            prev.assigned_since(before, lit),
            prev.extends(before),
            prev.lit_val(lit) == LBool::True,
            self.none_more(prev) || self.one_more(prev),
        ensures
            self.assigned_since(before, lit),
    {
        let a = self.assigned_now();
        let b = prev.assigned_now();
        if self.none_more(prev) {
            assert forall|v: usize| v < self.num_vars() implies (#[trigger] a.contains(v)
                <==> before.val(v) == LBool::Undef && self.val(v) != LBool::Undef) by {
                assert(b.contains(v) <==> before.val(v) == LBool::Undef && prev.val(v)
                    != LBool::Undef);
                assert(self.val(v) == prev.val(v));
            }
            assert forall|v: usize|
                v < self.num_vars() && before.val(v) != LBool::Undef implies #[trigger] self.reason(
                v,
            ) == before.reason(v) by {
                assert(self.reason(v) == prev.reason(v));
            }
            assert forall|v: usize|
                v < self.num_vars() && v != lit.var() && before.val(v) == LBool::Undef && self.val(
                    v,
                ) != LBool::Undef implies (#[trigger] self.reason(v)) is Some by {
                assert(self.val(v) == prev.val(v));
                assert(self.reason(v) == prev.reason(v));
            }
            assert(self.val(lit.var()) == prev.val(lit.var()));
            assert(self.reason(lit.var()) == prev.reason(lit.var()));
        } else {
            let u = a.last();
            assert(a == b.push(u));
            assert(prev.val(u) == LBool::Undef);
            assert(u != lit.var());
            assert(!b.contains(u));
            assert(before.val(u) == LBool::Undef) by {
                if before.val(u) != LBool::Undef {
                    assert(prev.val(u) == before.val(u));
                }
            }
            assert forall|x: int, y: int|
                0 <= x < a.len() && 0 <= y < a.len() && x != y implies a[x] != a[y] by {
                if x < b.len() {
                    assert(a[x] == b[x]);
                    assert(b.contains(b[x]));
                }
                if y < b.len() {
                    assert(a[y] == b[y]);
                    assert(b.contains(b[y]));
                }
            }
            assert forall|k: int| 0 <= k < a.len() implies (#[trigger] a[k]) < self.num_vars() by {
                if k < b.len() {
                    assert(a[k] == b[k]);
                }
            }
            assert forall|v: usize| v < self.num_vars() implies (#[trigger] a.contains(v)
                <==> before.val(v) == LBool::Undef && self.val(v) != LBool::Undef) by {
                assert(b.contains(v) <==> before.val(v) == LBool::Undef && prev.val(v)
                    != LBool::Undef);
                if v != u {
                    assert(self.val(v) == prev.val(v));
                }
                if a.contains(v) {
                    let k = choose|k: int| 0 <= k < a.len() && a[k] == v;
                    if k < b.len() {
                        assert(b[k] == v);
                    }
                }
                if b.contains(v) {
                    let k = choose|k: int| 0 <= k < b.len() && b[k] == v;
                    assert(a[k] == v);
                }
                if v == u {
                    assert(a[b.len() as int] == u);
                }
            }
            assert forall|v: usize|
                v < self.num_vars() && before.val(v) != LBool::Undef implies #[trigger] self.reason(
                v,
            ) == before.reason(v) by {
                assert(v != u);
                assert(self.reason(v) == prev.reason(v));
            }
            assert forall|v: usize|
                v < self.num_vars() && v != lit.var() && before.val(v) == LBool::Undef && self.val(
                    v,
                ) != LBool::Undef implies (#[trigger] self.reason(v)) is Some by {
                if v != u {
                    assert(self.val(v) == prev.val(v));
                    assert(self.reason(v) == prev.reason(v));
                }
            }
            assert(self.val(lit.var()) == prev.val(lit.var()));
            assert(self.reason(lit.var()) == prev.reason(lit.var()));
        }
    }

    /// Walks the watch at place `i` of the list of the false literal of
    /// `var`.
    ///
    /// Where the clause's first literal is true, nothing moves. Otherwise
    /// the false literal is made the second watch, and the first literal
    /// from the third place on that is not false, and is not the first
    /// watch again, takes its place. Where there is none, the first watch
    /// is the last hope of the clause and is made true, with the clause as
    /// its reason; that fails where it is false already.
    #[verifier::loop_isolation(false)]
    #[verifier::rlimit(60)]
    fn propagate(&mut self, var: usize, positive: bool, i: usize, Ghost(track): Ghost<bool>) -> (r:
        Walk)
        requires
            old(self).inv(),
            var < old(self).num_vars(),
            old(self).lit_val(Lit::of(var, positive)) == LBool::False,
            i < old(self).watch_list(var, positive).len(),
            track ==> old(self).draining(Some((var, positive, i as int))),
        ensures
            final(self).inv(),
            final(self).state() == old(self).state().step(var, positive, i as int).0,
            r == old(self).state().step(var, positive, i as int).1,
            final(self).none_more(old(self)) || final(self).one_more(old(self)),
            final(self).extends(old(self)),
            final(self).same_logic(old(self)),
            final(self).notes_follow(old(self)),
            final(self).conflict_clause() == old(self).conflict_clause(),
            final(self).unassigned() + final(self).queue().len() == old(self).unassigned() + old(
                self,
            ).queue().len(),
            final(self).queue().len() >= old(self).queue().len(),
            r is Kept ==> final(self).watch_list(var, positive) == old(self).watch_list(
                var,
                positive,
            ) && (track ==> final(self).draining(Some((var, positive, i as int + 1)))),
            r is Moved ==> final(self).watch_list(var, positive) == old(self).watch_list(
                var,
                positive,
            ).remove(i as int) && (track ==> final(self).draining(
                Some((var, positive, i as int)),
            )),
            r is Conflict ==> final(self).watch_list(var, positive) == old(self).watch_list(
                var,
                positive,
            ) && final(self).falsified(old(self).watch_list(var, positive)[i as int])
                && final(self).same_values(old(self)),
    {
        let ghost lw = Lit::of(var, positive);
        let ghost w = Some((var, positive, i as int));
        let ghost w_next = Some((var, positive, i as int + 1));
        let ci = if positive {
            self.vars[var].pos_clauses[i]
        } else {
            self.vars[var].neg_clauses[i]
        };
        proof {
            Lit::lemma_of(var, positive);
            assert(old(self).watch_list_ok(var, positive));
            assert(old(self).watch_list(var, positive)[i as int] == ci);
            assert(old(self).watch_list(var, positive).contains(ci));
            assert(old(self).watches(var, positive, ci));
            assert(old(self).clause_ok(ci));
            assert(old(self).clause(ci)[0].var() < self.num_vars());
            assert(old(self).num_vars() == old(self).vars.len());
            old(self).lemma_state();
            assert(old(self).state().list(var, positive)[i as int] == ci);
            assert(old(self).state().clauses[ci as int] == old(self).clause(ci));
        }
        let c0 = self.clauses[ci][0];
        proof {
            assert(old(self).state().lit_val(c0) == old(self).lit_val(c0));
        }
        if self.lit_value(&c0) == LBool::True {
            proof {
                assert(self.none_more(old(self)));
                self.lemma_notes_same(old(self));
                if track {
                    self.lemma_kept(var, positive, i as int, ci);
                }
                assert forall|c: usize| c < self.num_clauses() implies same_literals(
                    #[trigger] self.clause(c),
                    old(self).clause(c),
                ) by {}
            }
            return Walk::Kept;
        }
        if c0.var() == var && c0.is_positive() == positive {
            self.swap_watches(ci);
        }
        let ghost mid = *self;
        proof {
            Lit::lemma_determined(c0, lw);
            assert(mid.clause_ok(ci));
            assert(mid.clause(ci)[1] == lw);
            assert(track ==> mid.draining(w));
            assert(mid.watch_list(var, positive) == old(self).watch_list(var, positive));
            assert(mid.lit_val(lw) == LBool::False);
            mid.lemma_notes_same(old(self));
            assert(mid.same_logic(old(self))) by {
                assert forall|c: usize| c < mid.num_clauses() implies same_literals(
                    #[trigger] mid.clause(c),
                    old(self).clause(c),
                ) by {}
            }
            assert(mid.none_more(old(self)));
            mid.lemma_state();
            assert(mid.state().clauses[ci as int] == mid.clause(ci));
            assert(mid.state() == if c0.var() == var && c0.is_positive() == positive {
                old(self).state().with_clause(ci, exchanged(old(self).clause(ci), 0, 1))
            } else {
                old(self).state()
            });
        }
        let n = self.clauses[ci].len();
        let mut j: usize = 2;
        while j < n
            invariant
                2 <= j <= n,
                *self == mid,
                mid.state().candidate(ci, j as int) == mid.state().candidate(ci, 2),
                ci < mid.num_clauses(),
                n == mid.clause(ci).len(),
                mid.inv(),
                forall|k: int|
                    2 <= k < j ==> (#[trigger] mid.clause(ci)[k]) == mid.clause(ci)[0]
                        || mid.lit_val(mid.clause(ci)[k]) == LBool::False,
            decreases n - j,
        {
            proof {
                assert(mid.clause_ok(ci));
                assert(mid.clause(ci)[j as int].var() < mid.num_vars());
            }
            let lj = self.clauses[ci][j];
            let first = self.clauses[ci][0];
            proof {
                assert(mid.state().lit_val(lj) == mid.lit_val(lj));
                assert(mid.state().candidate(ci, j as int) == if mid.lit_val(lj) != LBool::False
                    && lj != first {
                    j as int
                } else {
                    mid.state().candidate(ci, j as int + 1)
                });
            }
            if self.lit_value(&lj) != LBool::False && lj != first {
                self.move_watch(ci, j, var, positive, i, Ghost(track));
                proof {
                    assert(self.none_more(old(self))) by {
                        assert(self.none_more(&mid));
                    }
                    self.lemma_notes_same(&mid);
                    self.lemma_notes_chain(&mid, old(self));
                    assert(self.same_logic(old(self))) by {
                        assert forall|c: usize| c < self.num_clauses() implies same_literals(
                            #[trigger] self.clause(c),
                            old(self).clause(c),
                        ) by {
                            assert(same_literals(mid.clause(c), old(self).clause(c)));
                            if c != ci {
                                assert(self.clause(c) == mid.clause(c));
                            }
                        }
                    }
                    assert(self.extends(old(self)));
                }
                return Walk::Moved;
            }
            j += 1;
        }
        let first = self.clauses[ci][0];
        proof {
            assert(mid.clause_ok(ci));
            assert(mid.state().candidate(ci, n as int) == n);
            assert(first.var() < mid.num_vars());
            assert(mid.state().lit_val(first) == mid.lit_val(first));
            assert(mid.forces(ci, first)) by {
                assert forall|k: int| 1 <= k < mid.clause(ci).len() implies (
                #[trigger] mid.clause(ci)[k]) == first || mid.lit_val(mid.clause(ci)[k])
                    == LBool::False by {}
            }
        }
        let ok = self.enqueue(first, Some(ci));
        proof {
            if mid.lit_val(first) == LBool::Undef {
                assert(self.assigned_now().last() == first.var());
                assert(self.one_more(old(self))) by {
                    assert(self.one_more(&mid));
                }
                self.lemma_notes_one(&mid, first.var());
                assert(track ==> self.draining(w));
                assert(self.queue().len() == mid.queue().len() + 1);
            } else {
                assert(self.none_more(old(self)));
                self.lemma_notes_same(&mid);
            }
            self.lemma_notes_chain(&mid, old(self));
            assert(self.same_logic(old(self))) by {
                assert forall|c: usize| c < self.num_clauses() implies same_literals(
                    #[trigger] self.clause(c),
                    old(self).clause(c),
                ) by {
                    assert(same_literals(mid.clause(c), old(self).clause(c)));
                    assert(self.clause(c) == mid.clause(c));
                }
            }
            assert(self.clause(ci) == mid.clause(ci));
            assert(self.watch_list(var, positive) == mid.watch_list(var, positive));
            if ok {
                assert(self.lit_val(self.clause(ci)[0]) == LBool::True);
                if track {
                    self.lemma_kept(var, positive, i as int, ci);
                }
            } else {
                assert forall|k: int| 0 <= k < self.clause(ci).len() implies self.lit_val(
                    #[trigger] self.clause(ci)[k],
                ) == LBool::False by {
                    if k >= 1 {
                        assert(mid.clause(ci)[k] == first || mid.lit_val(mid.clause(ci)[k])
                            == LBool::False);
                    }
                }
            }
        }
        if ok {
            Walk::Kept
        } else {
            Walk::Conflict
        }
    }

    /// A clause on the list whose first literal is true needs no more
    /// attention: the walk may pass it.
    proof fn lemma_kept(&self, var: usize, positive: bool, i: int, ci: usize)
        requires
            self.inv(),
            var < self.num_vars(),
            0 <= i < self.watch_list(var, positive).len(),
            self.watch_list(var, positive)[i] == ci,
            self.lit_val(self.clause(ci)[0]) == LBool::True,
            self.draining(Some((var, positive, i))),
        ensures
            self.draining(Some((var, positive, i + 1))),
    {
        let w = Some((var, positive, i));
        let w_next = Some((var, positive, i + 1));
        assert(self.watch_list_ok(var, positive));
        assert forall|c: usize| c < self.num_clauses() implies #[trigger] self.clause_covered(
            c,
            w_next,
        ) by {
            assert(self.clause_covered(c, w));
            if c != ci {
                if self.in_walk(var, positive, i, c) {
                    let x = choose|x: int|
                        i <= x < self.watch_list(var, positive).len() && #[trigger] self.watch_list(
                            var,
                            positive,
                        )[x] == c;
                    assert(x != i);
                    assert(self.watch_list(var, positive)[x] == c);
                }
            }
        }
    }
}

impl Solver {
    /// Records the clause that propagation found falsified, and drops what
    /// was still queued.
    fn analyze_conflict(&mut self, clause_id: usize)
        requires
            old(self).inv(),
        ensures
            final(self).wf(),
            final(self).state() == (State {
                conflict: Some(clause_id),
                queue: Seq::empty(),
                ..old(self).state()
            }),
            final(self).same_clauses(old(self)),
            final(self).same_watches(old(self)),
            final(self).same_values(old(self)),
            final(self).subscriptions() == old(self).subscriptions(),
            final(self).pending_notices() == old(self).pending_notices(),
            final(self).assigned_now() == old(self).assigned_now(),
            final(self).conflict_clause() == Some(clause_id),
    {
        self.conflict = Some(clause_id);
        self.prop_q.clear();
        proof {
            assert forall|c: usize| c < self.num_clauses() implies #[trigger] self.clause_ok(c) by {
                assert(old(self).clause_ok(c));
            }
            assert forall|v: usize, s: bool| v < self.num_vars() implies #[trigger] self.watch_list_ok(
                v,
                s,
            ) by {
                assert(old(self).watch_list_ok(v, s));
                assert(self.watch_list(v, s) == old(self).watch_list(v, s));
                assert forall|c: usize| c < self.num_clauses() implies (#[trigger] self.watch_list(
                    v,
                    s,
                ).contains(c) <==> self.watches(v, s, c)) by {
                    assert(old(self).watch_list(v, s).contains(c) <==> old(self).watches(v, s, c));
                }
            }
            assert forall|v: usize| v < self.num_vars() implies #[trigger] self.reason_ok(v) by {
                assert(old(self).reason_ok(v));
                assert(self.reason(v) == old(self).reason(v));
                if let Some(c) = self.reason(v) {
                    assert(old(self).clause_ok(c));
                    assert(self.clause(c) == old(self).clause(c));
                }
            }
            assert(self.subscriptions() == old(self).subscriptions());
            old(self).lemma_state();
            self.lemma_state();
            assert(self.queue() =~= Seq::<usize>::empty());
            assert(self.shows(
                State { conflict: Some(clause_id), queue: Seq::empty(), ..old(self).state() },
            ));
        }
    }

    /// A state where every clause is settled starts propagation covered.
    proof fn lemma_settled_is_covered(&self)
        requires
            self.propagated(),
        ensures
            self.draining(None),
    {
        assert forall|c: usize| c < self.num_clauses() implies #[trigger] self.clause_covered(
            c,
            None,
        ) by {
            assert(self.settled(c));
        }
    }

    /// Once the queue is empty and nothing is being walked, every clause is settled.
    proof fn lemma_covered_is_settled(&self)
        requires
            self.draining(None),
            self.queue().len() == 0,
        ensures
            self.propagated(),
    {
        assert forall|c: usize| c < self.num_clauses() implies #[trigger] self.settled(c) by {
            assert(self.clause_covered(c, None));
        }
    }

    /// Asserts `lit`: makes it true with no reason and propagates until
    /// nothing is left to fan out.
    ///
    /// Fails where `lit` is false already, or where propagation falsifies a
    /// clause, which is then recorded as the conflict. Assigned variables keep
    /// their values either way; on success every clause is settled again if
    /// all were before.
    ///
    /// The state after is the value of `State::asserted`, and the answer
    /// that of `State::accepts`: the walk of each list, clause by clause,
    /// decides which watch moves where, which variable is assigned next and
    /// for what reason, and in which order the record lists them.
    #[verifier::loop_isolation(false)]
    pub fn assert_lit(&mut self, lit: Lit) -> (ok: bool)
        requires
            old(self).wf(),
            lit.var() < old(self).num_vars(),
        ensures
            final(self).wf(),
            final(self).state() == old(self).state().asserted(lit),
            ok == old(self).state().accepts(lit),
            final(self).assigned_since(old(self), lit),
            old(self).lit_val(lit) == LBool::Undef ==> final(self).lit_val(lit) == LBool::True
                && final(self).reason(lit.var()) is None,
            forall|v: usize|
                v < final(self).num_vars() && v != lit.var() && old(self).val(v) == LBool::Undef
                    && final(self).val(v) != LBool::Undef ==> (#[trigger] final(self).reason(
                    v,
                )) is Some,
            final(self).extends(old(self)),
            final(self).same_logic(old(self)),
            final(self).subscriptions() == old(self).subscriptions(),
            final(self).pending_notices() == old(self).pending_notices() + notices_for(
                final(self).subscriptions(),
                final(self).assigned_now(),
            ),
            old(self).lit_val(lit) == LBool::False ==> !ok,
            old(self).lit_val(lit) != LBool::Undef ==> final(self).same_values(old(self))
                && final(self).assigned_now().len() == 0 && final(self).same_clauses(old(self))
                && final(self).same_watches(old(self)),
            old(self).lit_val(lit) == LBool::True ==> ok,
            ok ==> final(self).lit_val(lit) == LBool::True && final(self).conflict_clause().is_none(),
            ok && old(self).propagated() ==> final(self).propagated(),
            !ok && old(self).lit_val(lit) != LBool::False ==> (match final(self).conflict_clause() {
                Some(c) => c < final(self).num_clauses() && final(self).falsified(c),
                None => false,
            }),
            final(self).asserts(old(self), lit, ok),
    {
        self.level_vars = Vec::new();
        self.conflict = None;
        let ghost start = *self;
        let ghost track = old(self).propagated();
        let ghost target = old(self).state().asserted(lit);
        proof {
            start.lemma_frame(old(self));
            assert(start.assigned_now() =~= Seq::<usize>::empty());
            old(self).lemma_state();
            start.lemma_state();
            assert(start.shows(State { trail: Seq::empty(), conflict: None, ..old(self).state() }));
            assert(start.state().lit_val(lit) == start.lit_val(lit));
            assert(old(self).state().lit_val(lit) == old(self).lit_val(lit));
            assert(start.lit_val(lit) == old(self).lit_val(lit));
            if track {
                start.lemma_settled_is_covered();
            }
            assert(start.same_logic(old(self))) by {
                assert forall|c: usize| c < start.num_clauses() implies same_literals(
                    #[trigger] start.clause(c),
                    old(self).clause(c),
                ) by {}
            }
        }
        if !self.enqueue(lit, None) {
            proof {
                assert(self.assigned_since(old(self), lit));
                self.lemma_state();
                assert(self.state().drain() == self.state());
                assert(self.pending_notices() =~= old(self).pending_notices() + notices_for(
                    self.subscriptions(),
                    self.assigned_now(),
                ));
            }
            return false;
        }
        proof {
            if start.lit_val(lit) == LBool::Undef {
                self.lemma_notes_one(&start, lit.var());
            } else {
                self.lemma_notes_same(&start);
            }
            assert(self.same_logic(old(self))) by {
                assert forall|c: usize| c < self.num_clauses() implies same_literals(
                    #[trigger] self.clause(c),
                    old(self).clause(c),
                ) by {
                    assert(self.clause(c) == start.clause(c));
                }
            }
            assert(self.extends(old(self)));
            assert(self.state().drain() == target);
            assert(self.assigned_since(old(self), lit)) by {
                let a = self.assigned_now();
                if start.lit_val(lit) == LBool::Undef {
                    assert(a =~= seq![lit.var()]);
                    assert(a[0] == lit.var());
                    assert forall|v: usize| v < self.num_vars() implies (#[trigger] a.contains(v)
                        <==> old(self).val(v) == LBool::Undef && self.val(v) != LBool::Undef) by {
                        if v != lit.var() {
                            assert(self.val(v) == start.val(v));
                        }
                    }
                    assert forall|v: usize| v < self.num_vars() && v != lit.var() implies self.val(
                        v,
                    ) == old(self).val(v) && #[trigger] self.reason(v) == old(self).reason(v) by {
                        assert(self.val(v) == start.val(v));
                        assert(self.reason(v) == start.reason(v));
                    }
                }
            }
        }
        while self.prop_q.len() > 0
            invariant
                self.inv(),
                self.state().drain() == target,
                self.assigned_since(old(self), lit),
                self.extends(old(self)),
                self.same_logic(old(self)),
                self.notes_follow(&start),
                self.conflict_clause().is_none(),
                self.lit_val(lit) == LBool::True,
                track ==> self.draining(None),
                start.lit_val(lit) != LBool::Undef ==> self.queue().len() == 0 && *self == start,
            decreases self.unassigned(), self.queue().len(),
        {
            let ghost top = *self;
            let var = self.prop_q.pop_front().unwrap();
            let positive = match self.vars[var].value {
                LBool::False => true,
                _ => false,
            };
            let ghost popped = *self;
            proof {
                assert(top.queue()[0] == var);
                assert(popped.queue() =~= top.queue().subrange(1, top.queue().len() as int));
                Lit::lemma_of(var, positive);
                assert(popped.lit_val(Lit::of(var, positive)) == LBool::False);
                popped.lemma_popped(&top, var, positive, track);
                assert(popped.none_more(&top));
                popped.lemma_assigned_more(&top, old(self), lit);
                top.lemma_state();
                popped.lemma_state();
                assert(top.state().queue.drop_first() =~= popped.queue());
                assert(popped.shows(
                    State { queue: top.state().queue.drop_first(), ..top.state() },
                ));
                assert(var < top.num_vars());
                assert(top.state().vals[var as int] == top.val(var));
                assert(positive == (top.state().vals[var as int] == LBool::False));
                top.lemma_state_count(top.num_vars());
                assert(popped.same_logic(old(self))) by {
                    assert forall|c: usize| c < popped.num_clauses() implies same_literals(
                        #[trigger] popped.clause(c),
                        old(self).clause(c),
                    ) by {
                        assert(same_literals(top.clause(c), old(self).clause(c)));
                        assert(popped.clause(c) == top.clause(c));
                    }
                }
            }
            let mut i: usize = 0;
            loop
                invariant
                    self.inv(),
                    var < self.num_vars(),
                    self.extends(old(self)),
                    self.same_logic(old(self)),
                    self.notes_follow(&start),
                    self.conflict_clause().is_none(),
                    self.lit_val(lit) == LBool::True,
                    self.lit_val(Lit::of(var, positive)) == LBool::False,
                    i <= self.watch_list(var, positive).len(),
                    track ==> self.draining(Some((var, positive, i as int))),
                    self.state().walk(var, positive, i as int) == popped.state().walk(
                        var,
                        positive,
                        0,
                    ),
                    self.assigned_since(old(self), lit),
                    self.unassigned() + self.queue().len() == top.unassigned() + top.queue().len()
                        - 1,
                    self.queue().len() >= top.queue().len() - 1,
                decreases self.watch_list(var, positive).len() - i,
            {
                let len = if positive {
                    self.vars[var].pos_clauses.len()
                } else {
                    self.vars[var].neg_clauses.len()
                };
                proof {
                    self.lemma_state();
                    assert(self.state().list(var, positive) == self.watch_list(var, positive));
                }
                if i >= len {
                    break ;
                }
                let ghost prev = *self;
                let ghost ci = self.watch_list(var, positive)[i as int];
                let step = self.propagate(var, positive, i, Ghost(track));
                proof {
                    self.lemma_assigned_more(&prev, old(self), lit);
                    self.lemma_state();
                    assert(self.state().list(var, positive) == self.watch_list(var, positive));
                    self.lemma_notes_chain(&prev, &start);
                    assert(self.same_logic(old(self))) by {
                        assert forall|c: usize| c < self.num_clauses() implies same_literals(
                            #[trigger] self.clause(c),
                            old(self).clause(c),
                        ) by {
                            assert(same_literals(prev.clause(c), old(self).clause(c)));
                            assert(same_literals(self.clause(c), prev.clause(c)));
                        }
                    }
                    assert(self.extends(old(self)));
                    assert(lit.var() < self.num_vars());
                }
                match step {
                    Walk::Kept => {
                        i += 1;
                    },
                    Walk::Moved => {},
                    Walk::Conflict => {
                        let cid = if positive {
                            self.vars[var].pos_clauses[i]
                        } else {
                            self.vars[var].neg_clauses[i]
                        };
                        let ghost failed = *self;
                        self.analyze_conflict(cid);
                        proof {
                            assert(self.none_more(&failed));
                            self.lemma_assigned_more(&failed, old(self), lit);
                            assert(prev.state().walk(var, positive, i as int) == (
                                failed.state(),
                                Some(cid),
                            ));
                            assert(top.state().drain() == self.state());
                            assert(failed.watch_list_ok(var, positive));
                            assert(cid < failed.num_clauses());
                            assert(self.clause(cid) == failed.clause(cid));
                            assert(self.falsified(cid)) by {
                                assert forall|j: int|
                                    0 <= j < self.clause(cid).len() implies self.lit_val(
                                    #[trigger] self.clause(cid)[j],
                                ) == LBool::False by {
                                    assert(failed.clause_ok(cid));
                                    assert(failed.lit_val(failed.clause(cid)[j]) == LBool::False);
                                }
                            }
                            assert(self.same_logic(old(self))) by {
                                assert forall|c: usize|
                                    c < self.num_clauses() implies same_literals(
                                    #[trigger] self.clause(c),
                                    old(self).clause(c),
                                ) by {
                                    assert(same_literals(failed.clause(c), old(self).clause(c)));
                                    assert(self.clause(c) == failed.clause(c));
                                }
                            }
                            assert(self.extends(old(self)));
                            let k = start.assigned_now().len() as int;
                            assert(self.assigned_now().subrange(
                                k,
                                self.assigned_now().len() as int,
                            ) =~= self.assigned_now());
                        }
                        return false;
                    },
                }
            }
            proof {
                if track {
                    self.lemma_walk_done(var, positive, i as int);
                }
                self.lemma_state();
                self.lemma_state_count(self.num_vars());
                assert(self.state().walk(var, positive, i as int) == (self.state(), None::<usize>));
                assert(top.state().drain() == self.state().drain());
            }
        }
        proof {
            if track {
                self.lemma_covered_is_settled();
            }
            let k = start.assigned_now().len() as int;
            assert(self.assigned_now().subrange(k, self.assigned_now().len() as int)
                =~= self.assigned_now());
            self.lemma_state();
            assert(self.state().drain() == self.state());
        }
        true
    }

    /// After a variable leaves the queue, the clauses that waited for it
    /// wait on its list instead.
    proof fn lemma_popped(&self, top: &Solver, var: usize, positive: bool, track: bool)
        requires
            top.inv(),
            top.queue().len() > 0,
            top.queue()[0] == var,
            self.queue() == top.queue().subrange(1, top.queue().len() as int),
            self.same_clauses(top),
            self.same_watches(top),
            self.same_values(top),
            self.subscriptions() == top.subscriptions(),
            self.lit_val(Lit::of(var, positive)) == LBool::False,
            track ==> top.draining(None),
        ensures
            self.inv(),
            var < self.num_vars(),
            self.unassigned() == top.unassigned(),
            self.extends(top),
            track ==> self.draining(Some((var, positive, 0))),
    {
        assert(top.queue()[0] < top.num_vars());
        assert forall|c: usize| c < self.num_clauses() implies #[trigger] self.clause_ok(c) by {
            assert(top.clause_ok(c));
        }
        assert forall|v: usize, s: bool| v < self.num_vars() implies #[trigger] self.watch_list_ok(
            v,
            s,
        ) by {
            assert(top.watch_list_ok(v, s));
            assert(self.watch_list(v, s) == top.watch_list(v, s));
            assert forall|c: usize| c < self.num_clauses() implies (#[trigger] self.watch_list(
                v,
                s,
            ).contains(c) <==> self.watches(v, s, c)) by {
                assert(top.watch_list(v, s).contains(c) <==> top.watches(v, s, c));
            }
        }
        assert forall|v: usize| v < self.num_vars() implies #[trigger] self.reason_ok(v) by {
            assert(top.reason_ok(v));
            assert(self.reason(v) == top.reason(v));
            if let Some(c) = self.reason(v) {
                assert(top.clause_ok(c));
                assert(self.clause(c) == top.clause(c));
            }
        }
        assert forall|i: int| 0 <= i < self.queue().len() implies (#[trigger] self.queue()[i])
            < self.num_vars() && self.val(self.queue()[i]) != LBool::Undef by {
            assert(top.queue()[i + 1] < top.num_vars());
        }
        self.lemma_count_same(top, self.num_vars());
        Lit::lemma_of(var, positive);
        if track {
            let w = Some((var, positive, 0int));
            assert(top.watch_list_ok(var, positive));
            assert forall|c: usize| c < self.num_clauses() implies #[trigger] self.clause_covered(
                c,
                w,
            ) by {
                assert(top.clause_covered(c, None));
                assert(top.clause_ok(c));
                assert(self.clause(c) == top.clause(c));
                assert forall|k: int| 0 <= k < 2 implies self.covered(c, k, w) by {
                    let l = self.clause(c)[k];
                    assert(l.var() < self.num_vars());
                    if self.lit_val(l) == LBool::False && self.lit_val(self.clause(c)[1 - k])
                        != LBool::True {
                        assert(top.covered(c, k, None));
                        assert(top.queue().contains(l.var()));
                        let x = choose|x: int| 0 <= x < top.queue().len() && top.queue()[x] == l.var();
                        if x == 0 {
                            Lit::lemma_determined(l, Lit::of(var, positive));
                            assert(l == Lit::of(var, positive));
                            assert(top.watches(var, positive, c));
                            assert(top.watch_list(var, positive).contains(c));
                            let y = choose|y: int|
                                0 <= y < top.watch_list(var, positive).len() && top.watch_list(
                                    var,
                                    positive,
                                )[y] == c;
                            assert(self.watch_list(var, positive)[y] == c);
                        } else {
                            assert(self.queue()[x - 1] == l.var());
                        }
                    }
                }
            }
        }
    }

    /// A walk that reached the end of the list leaves nothing waiting on it.
    proof fn lemma_walk_done(&self, var: usize, positive: bool, i: int)
        requires
            i >= self.watch_list(var, positive).len(),
            self.draining(Some((var, positive, i))),
        ensures
            self.draining(None),
    {
        assert forall|c: usize| c < self.num_clauses() implies #[trigger] self.clause_covered(
            c,
            None,
        ) by {
            assert(self.clause_covered(c, Some((var, positive, i))));
        }
    }
}

impl Solver {
    /// What asserting `lit` in state `before` leads to, `self` being the
    /// state after and `ok` the answer.
    pub open spec fn asserts(&self, before: &Solver, lit: Lit, ok: bool) -> bool {
        &&& self.wf()
        &&& self.state() == before.state().asserted(lit)
        &&& ok == before.state().accepts(lit)
        &&& self.assigned_since(before, lit)
        &&& self.extends(before)
        &&& self.same_logic(before)
        &&& self.subscriptions() == before.subscriptions()
        &&& self.pending_notices() == before.pending_notices() + notices_for(
            self.subscriptions(),
            self.assigned_now(),
        )
        &&& before.lit_val(lit) == LBool::False ==> !ok
        &&& before.lit_val(lit) != LBool::Undef ==> self.same_values(before)
            && self.assigned_now().len() == 0 && self.same_clauses(before) && self.same_watches(
            before,
        )
        &&& before.lit_val(lit) == LBool::True ==> ok
        &&& ok ==> self.lit_val(lit) == LBool::True && self.conflict_clause().is_none()
        &&& ok && before.propagated() ==> self.propagated()
        &&& !ok && before.lit_val(lit) != LBool::False ==> (match self.conflict_clause() {
            Some(c) => c < self.num_clauses() && self.falsified(c),
            None => false,
        })
    }

    /// An engine that holds one clause more than `before`, on the lists of
    /// its two watches, is in the state that adding the clause leads to.
    proof fn lemma_added(&self, before: &Solver, lits: Seq<Lit>)
        requires
            lits.len() >= 2,
            before.num_clauses() < usize::MAX,
            self.num_clauses() == before.num_clauses() + 1,
            self.clause(before.num_clauses() as usize) == stored(lits),
            stored(lits)[0].var() < before.num_vars(),
            stored(lits)[1].var() < before.num_vars(),
            forall|c: usize|
                c < before.num_clauses() ==> #[trigger] self.clause(c) == before.clause(c),
            self.same_values(before),
            self.same_records(before),
            self.queue() == before.queue(),
            forall|v: usize, s: bool|
                v < self.num_vars() ==> #[trigger] self.watch_list(v, s) == (if self.watches(
                    v,
                    s,
                    before.num_clauses() as usize,
                ) {
                    before.watch_list(v, s).push(before.num_clauses() as usize)
                } else {
                    before.watch_list(v, s)
                }),
        ensures
            self.state() == before.state().with_new_clause(lits),
    {
        self.lemma_state();
        before.lemma_state();
        let id = before.num_clauses() as usize;
        let kept = stored(lits);
        let a = kept[0];
        let b = kept[1];
        let goal = before.state().with_new_clause(lits);
        Lit::lemma_determined(a, b);
        assert forall|v: int| 0 <= v < goal.pos.len() implies #[trigger] goal.pos[v]
            == self.watch_list(v as usize, true) by {
            let l = Lit::of(v as usize, true);
            Lit::lemma_of(v as usize, true);
            Lit::lemma_determined(l, a);
            Lit::lemma_determined(l, b);
            assert(self.watches(v as usize, true, id) == (a == l || b == l));
            assert(before.state().pos[v] == before.watch_list(v as usize, true));
            assert(goal.pos[v] == if a == l || b == l {
                before.state().pos[v].push(id)
            } else {
                before.state().pos[v]
            });
        }
        assert forall|v: int| 0 <= v < goal.neg.len() implies #[trigger] goal.neg[v]
            == self.watch_list(v as usize, false) by {
            let l = Lit::of(v as usize, false);
            Lit::lemma_of(v as usize, false);
            Lit::lemma_determined(l, a);
            Lit::lemma_determined(l, b);
            assert(self.watches(v as usize, false, id) == (a == l || b == l));
            assert(before.state().neg[v] == before.watch_list(v as usize, false));
            assert(goal.neg[v] == if a == l || b == l {
                before.state().neg[v].push(id)
            } else {
                before.state().neg[v]
            });
        }
        assert forall|c: int| 0 <= c < goal.clauses.len() implies #[trigger] goal.clauses[c]
            == self.clause(c as usize) by {
            if c < id {
                assert(before.state().clauses[c] == before.clause(c as usize));
            }
        }
        assert(self.shows(goal));
    }

    /// Adds a clause.
    ///
    /// The empty clause cannot be satisfied. A clause of one literal
    /// asserts it. Any longer clause is stored, with its first literal and
    /// the first literal that differs from it as its watches, and answers
    /// `true` whatever its literals are worth; its index is the number of
    /// clauses before.
    pub fn add_clause(&mut self, lits: &[Lit]) -> (ok: bool)
        requires
            old(self).wf(),
            forall|i: int| 0 <= i < lits@.len() ==> (#[trigger] lits@[i]).var() < old(self).num_vars(),
        ensures
            final(self).wf(),
            final(self).extends(old(self)),
            final(self).subscriptions() == old(self).subscriptions(),
            lits@.len() == 0 ==> !ok && final(self).state() == old(self).state()
                && final(self).same_values(old(self)) && final(self).same_clauses(old(self))
                && final(self).same_watches(old(self)) && final(self).same_records(old(self)),
            lits@.len() == 1 ==> final(self).asserts(old(self), lits@[0], ok),
            lits@.len() >= 2 ==> {
                let id = old(self).num_clauses() as usize;
                &&& ok
                &&& final(self).state() == old(self).state().with_new_clause(lits@)
                &&& final(self).num_clauses() == old(self).num_clauses() + 1
                &&& final(self).clause(id) == stored(lits@)
                &&& same_literals(final(self).clause(id), lits@)
                &&& forall|c: usize|
                    c < old(self).num_clauses() ==> #[trigger] final(self).clause(c) == old(
                        self,
                    ).clause(c)
                &&& final(self).same_values(old(self))
                &&& final(self).same_records(old(self))
                &&& forall|v: usize, s: bool|
                    v < final(self).num_vars() ==> #[trigger] final(self).watch_list(v, s) == (
                    if final(self).watches(v, s, id) {
                        old(self).watch_list(v, s).push(id)
                    } else {
                        old(self).watch_list(v, s)
                    })
                &&& forall|v: usize, s: bool|
                    v < final(self).num_vars() ==> (#[trigger] final(self).watch_list(
                        v,
                        s,
                    ).contains(id) <==> final(self).watches(v, s, id))
                &&& old(self).propagated() && final(self).settled(id) ==> final(self).propagated()
            },
    {
        let n = lits.len();
        if n == 0 {
            return false;
        }
        if n == 1 {
            let ok = self.assert_lit(lits[0]);
            return ok;
        }
        let mut k: usize = 1;
        while k < n && lits[k] == lits[0]
            invariant
                1 <= k <= n,
                n == lits@.len(),
                first_other(lits@, 1) == first_other(lits@, k as int),
                forall|j: int| 1 <= j < k ==> #[trigger] lits@[j] == lits@[0],
            decreases n - k,
        {
            k += 1;
        }
        assert(first_other(lits@, 1) == k);
        let mut cl: Vec<Lit> = Vec::new();
        let mut i: usize = 0;
        while i < n
            invariant
                i <= n,
                n == lits@.len(),
                cl@ == lits@.subrange(0, i as int),
            decreases n - i,
        {
            cl.push(lits[i]);
            i += 1;
            assert(cl@ =~= lits@.subrange(0, i as int));
        }
        assert(cl@ =~= lits@);
        if k < n {
            let l1 = cl[1];
            let lk = cl[k];
            cl.set(1, lk);
            cl.set(k, l1);
            proof {
                lemma_swap_same_literals(lits@, 1, k as int);
            }
        }
        proof {
            assert(cl@ =~= stored(lits@));
            assert(same_literals(cl@, lits@));
        }
        let id = self.clauses.len();
        let a = cl[0];
        let b = cl[1];
        let ghost sc = cl@;
        self.clauses.push(cl);
        self.watch_lit(&a, id);
        let ghost mid = *self;
        if a != b {
            self.watch_lit(&b, id);
        }
        proof {
            assert(self.clause(id) == sc);
            assert forall|c: usize| c < old(self).num_clauses() implies #[trigger] self.clause(c)
                == old(self).clause(c) by {}
            assert(self.same_values(old(self)));
            assert forall|c: usize| c < self.num_clauses() implies #[trigger] self.clause_ok(c) by {
                if c < id {
                    assert(old(self).clause_ok(c));
                    if old(self).uniform(c) {
                        assert forall|j: int| 0 <= j < self.clause(c).len() implies (
                        #[trigger] self.clause(c)[j]) == self.clause(c)[0] by {
                            assert(old(self).clause(c)[j] == old(self).clause(c)[0]);
                        }
                    }
                } else {
                    assert forall|j: int| 0 <= j < self.clause(c).len() implies (
                    #[trigger] self.clause(c)[j]).var() < self.num_vars() by {
                        if j == 1 {
                            if k < n {
                                assert(lits@[k as int].var() < self.num_vars());
                            }
                            assert(lits@[1].var() < self.num_vars());
                        } else if j == k {
                            assert(lits@[1].var() < self.num_vars());
                        } else {
                            assert(lits@[j].var() < self.num_vars());
                        }
                    }
                    if k == n {
                        assert forall|j: int| 0 <= j < self.clause(c).len() implies (
                        #[trigger] self.clause(c)[j]) == self.clause(c)[0] by {
                            assert(lits@[j] == lits@[0]);
                        }
                    }
                }
            }
            assert forall|v: usize, s: bool| v < self.num_vars() implies #[trigger] self.watch_list_ok(
                v,
                s,
            ) && self.watch_list(v, s) == (if self.watches(v, s, id) {
                old(self).watch_list(v, s).push(id)
            } else {
                old(self).watch_list(v, s)
            }) by {
                assert(old(self).watch_list_ok(v, s));
                Lit::lemma_of(v, s);
                Lit::lemma_determined(Lit::of(v, s), a);
                Lit::lemma_determined(Lit::of(v, s), b);
                Lit::lemma_determined(a, b);
                let x = self.watch_list(v, s);
                let y = old(self).watch_list(v, s);
                let m = mid.watch_list(v, s);
                assert(!y.contains(id)) by {
                    if y.contains(id) {
                        let q = choose|q: int| 0 <= q < y.len() && y[q] == id;
                        assert(y[q] < old(self).num_clauses());
                    }
                }
                if v == a.var() && s == a.is_positive() {
                    assert(m == y.push(id));
                    assert(x == m);
                } else if v == b.var() && s == b.is_positive() {
                    assert(m == y);
                    assert(x == y.push(id));
                } else {
                    assert(x == y);
                }
                assert forall|p: int, q: int|
                    0 <= p < x.len() && 0 <= q < x.len() && p != q implies x[p] != x[q] by {
                    if p < y.len() {
                        assert(x[p] == y[p]);
                        assert(y[p] < id);
                    }
                    if q < y.len() {
                        assert(x[q] == y[q]);
                        assert(y[q] < id);
                    }
                }
                assert forall|p: int| 0 <= p < x.len() implies (#[trigger] x[p])
                    < self.num_clauses() by {
                    if p < y.len() {
                        assert(x[p] == y[p]);
                    }
                }
                assert forall|c: usize| c < self.num_clauses() implies (#[trigger] x.contains(c)
                    <==> self.watches(v, s, c)) by {
                    if c < id {
                        assert(y.contains(c) <==> old(self).watches(v, s, c));
                        if y.contains(c) {
                            let q = choose|q: int| 0 <= q < y.len() && y[q] == c;
                            assert(x[q] == c);
                        }
                        if x.contains(c) {
                            let q = choose|q: int| 0 <= q < x.len() && x[q] == c;
                            if q < y.len() {
                                assert(y[q] == c);
                            }
                        }
                    } else {
                        if x.contains(c) {
                            let q = choose|q: int| 0 <= q < x.len() && x[q] == c;
                            if q < y.len() {
                                assert(y[q] == c);
                            }
                        }
                        if self.watches(v, s, c) {
                            assert(x[y.len() as int] == id);
                        }
                    }
                }
            }
            assert forall|v: usize| v < self.num_vars() implies #[trigger] self.reason_ok(v) by {
                assert(old(self).reason_ok(v));
                assert(self.reason(v) == old(self).reason(v));
                if let Some(c) = self.reason(v) {
                    assert(old(self).clause_ok(c));
                    assert(self.clause(c) == old(self).clause(c));
                }
            }
            assert(self.queue() == old(self).queue());
            assert(self.subscriptions() == old(self).subscriptions());
            if old(self).propagated() && self.settled(id) {
                assert forall|c: usize| c < self.num_clauses() implies #[trigger] self.settled(
                    c,
                ) by {
                    if c < id {
                        assert(old(self).settled(c));
                        assert(old(self).clause_ok(c));
                    }
                }
            }
            assert(self.same_records(old(self)));
            assert(id == old(self).num_clauses() as usize);
            assert forall|v: usize, s: bool| v < self.num_vars() implies #[trigger] self.watch_list(
                v,
                s,
            ) == (if self.watches(v, s, id) {
                old(self).watch_list(v, s).push(id)
            } else {
                old(self).watch_list(v, s)
            }) by {
                assert(self.watch_list_ok(v, s));
            }
            assert forall|v: usize, s: bool| v < self.num_vars() implies (#[trigger] self.watch_list(
                v,
                s,
            ).contains(id) <==> self.watches(v, s, id)) by {
                assert(self.watch_list_ok(v, s));
            }
            assert(self.extends(old(self)));
            assert(self.wf());
        }
        proof {
            assert(self.num_clauses() == self.clauses.len());
            assert(stored(lits@)[0] == lits@[0]);
            assert(stored(lits@)[1] == if k < n {
                lits@[k as int]
            } else {
                lits@[1]
            });
            self.lemma_added(old(self), lits@);
        }
        true
    }

    /// In a settled state no clause is unit without its last literal being
    /// true: where every literal of a clause but one is false, that one is
    /// true.
    pub proof fn lemma_units_are_true(&self, c: usize, k: int)
        requires
            self.wf(),
            self.propagated(),
            c < self.num_clauses(),
            0 <= k < self.clause(c).len(),
            forall|j: int|
                0 <= j < self.clause(c).len() && j != k ==> self.lit_val(
                    #[trigger] self.clause(c)[j],
                ) == LBool::False,
        ensures
            self.lit_val(self.clause(c)[k]) == LBool::True,
    {
        assert(self.settled(c));
        assert(self.clause_ok(c));
        if k != 0 {
            assert(self.lit_val(self.clause(c)[0]) == LBool::False);
        }
        if k != 1 {
            assert(self.lit_val(self.clause(c)[1]) == LBool::False);
        }
    }

    /// The same law over a clause as it was in `before`, whatever order
    /// its literals have now: where every literal of the clause but the one
    /// at place `k` is false, that one is true.
    pub proof fn lemma_last_literal_is_true(&self, before: &Solver, c: usize, k: int)
        requires
            self.wf(),
            self.propagated(),
            self.same_logic(before),
            c < self.num_clauses(),
            0 <= k < before.clause(c).len(),
            forall|j: int|
                0 <= j < before.clause(c).len() && j != k ==> self.lit_val(
                    #[trigger] before.clause(c)[j],
                ) == LBool::False,
        ensures
            self.lit_val(before.clause(c)[k]) == LBool::True,
    {
        let now = self.clause(c);
        let then = before.clause(c);
        let l = then[k];
        assert(self.settled(c));
        assert(self.clause_ok(c));
        assert(same_literals(now, then));
        assert(now.contains(now[0]));
        assert(now.contains(now[1]));
        assert(then.contains(now[0]));
        assert(then.contains(now[1]));
        let a = choose|a: int| 0 <= a < then.len() && then[a] == now[0];
        let b = choose|b: int| 0 <= b < then.len() && then[b] == now[1];
        if now[0] == l && now[1] == l {
            assert(self.uniform(c));
            let j = if k == 0 {
                1int
            } else {
                0int
            };
            assert(then.contains(then[j]));
            assert(now.contains(then[j]));
            let x = choose|x: int| 0 <= x < now.len() && now[x] == then[j];
            assert(now[x] == now[0]);
            assert(self.lit_val(then[j]) == LBool::False);
        } else if now[0] == l {
            assert(b != k);
            assert(self.lit_val(then[b]) == LBool::False);
        } else {
            assert(a != k);
            assert(self.lit_val(then[a]) == LBool::False);
            if now[1] != l {
                assert(b != k);
                assert(self.lit_val(then[b]) == LBool::False);
            }
        }
    }

    /// A clause that is falsified now falsifies each literal that it held
    /// in `before`.
    pub proof fn lemma_falsified_literal(&self, before: &Solver, c: usize, k: int)
        requires
            self.same_logic(before),
            c < self.num_clauses(),
            self.falsified(c),
            0 <= k < before.clause(c).len(),
        ensures
            self.lit_val(before.clause(c)[k]) == LBool::False,
    {
        let now = self.clause(c);
        let then = before.clause(c);
        assert(same_literals(now, then));
        assert(then.contains(then[k]));
        assert(now.contains(then[k]));
        let x = choose|x: int| 0 <= x < now.len() && now[x] == then[k];
        assert(self.lit_val(now[x]) == LBool::False);
    }

    /// A settled state falsifies no clause.
    pub proof fn lemma_no_clause_falsified(&self, c: usize)
        requires
            self.wf(),
            self.propagated(),
            c < self.num_clauses(),
        ensures
            !self.falsified(c),
    {
        assert(self.settled(c));
        assert(self.clause_ok(c));
        if self.falsified(c) {
            assert(self.lit_val(self.clause(c)[0]) == LBool::False);
            assert(self.lit_val(self.clause(c)[1]) == LBool::False);
        }
    }

    /// A variable whose reason is clause `c` is the variable of the first
    /// literal of `c`; that literal is true and every other literal of `c`
    /// is false, or is the first literal again.
    pub proof fn lemma_reason_forces(&self, v: usize, c: usize)
        requires
            self.wf(),
            v < self.num_vars(),
            self.reason(v) == Some(c),
        ensures
            self.forces(c, self.clause(c)[0]),
            self.clause(c)[0].var() == v,
            self.lit_val(self.clause(c)[0]) == LBool::True,
    {
        assert(self.reason_ok(v));
    }

    /// An assertion guesses nothing: whatever it assigned beyond its own
    /// literal has a clause as its reason, that clause held the literal
    /// that became true before the assertion too, and it forces that
    /// literal now.
    pub proof fn lemma_assigned_by_clause(&self, before: &Solver, lit: Lit, ok: bool, v: usize)
        requires
            self.asserts(before, lit, ok),
            v < self.num_vars(),
            v != lit.var(),
            before.val(v) == LBool::Undef,
            self.val(v) != LBool::Undef,
        ensures
            self.reason(v) matches Some(c) && c < before.num_clauses() && self.forces(
                c,
                Lit::of(v, self.val(v) == LBool::True),
            ) && before.clause(c).contains(Lit::of(v, self.val(v) == LBool::True)),
    {
        let l = Lit::of(v, self.val(v) == LBool::True);
        assert(self.reason(v) is Some);
        let c = self.reason(v).unwrap();
        assert(self.reason_ok(v));
        Lit::lemma_of(v, self.val(v) == LBool::True);
        Lit::lemma_determined(self.clause(c)[0], l);
        assert(self.clause(c)[0] == l);
        assert(self.clause_ok(c));
        assert(self.clause(c).contains(l));
        assert(same_literals(self.clause(c), before.clause(c)));
    }

    /// Subscribes a listener to the assignments of `var`; the listener's
    /// number is the number of listeners before.
    pub fn add_listener(&mut self, var: usize) -> (id: usize)
        requires
            old(self).wf(),
            var < old(self).num_vars(),
        ensures
            final(self).wf(),
            id == old(self).subscriptions().len(),
            final(self).state() == (State {
                listeners: old(self).state().listeners.push(var),
                ..old(self).state()
            }),
            final(self).subscriptions() == old(self).subscriptions().push(var),
            final(self).same_clauses(old(self)),
            final(self).same_watches(old(self)),
            final(self).same_values(old(self)),
            final(self).pending_notices() == old(self).pending_notices(),
            final(self).assigned_now() == old(self).assigned_now(),
            final(self).conflict_clause() == old(self).conflict_clause(),
            old(self).propagated() ==> final(self).propagated(),
    {
        let id = self.listeners.len();
        self.listeners.push(var);
        proof {
            let ghost_before = old(self);
            assert forall|c: usize| c < self.num_clauses() implies #[trigger] self.clause_ok(c) by {
                assert(old(self).clause_ok(c));
            }
            assert forall|v: usize, s: bool| v < self.num_vars() implies #[trigger] self.watch_list_ok(
                v,
                s,
            ) by {
                assert(old(self).watch_list_ok(v, s));
                assert(self.watch_list(v, s) == old(self).watch_list(v, s));
                assert forall|c: usize| c < self.num_clauses() implies (#[trigger] self.watch_list(
                    v,
                    s,
                ).contains(c) <==> self.watches(v, s, c)) by {
                    assert(old(self).watch_list(v, s).contains(c) <==> old(self).watches(v, s, c));
                }
            }
            assert forall|v: usize| v < self.num_vars() implies #[trigger] self.reason_ok(v) by {
                assert(old(self).reason_ok(v));
                assert(self.reason(v) == old(self).reason(v));
                if let Some(c) = self.reason(v) {
                    assert(old(self).clause_ok(c));
                    assert(self.clause(c) == old(self).clause(c));
                }
            }
            assert(self.queue() == old(self).queue());
            assert forall|i: int| 0 <= i < self.subscriptions().len() implies (
            #[trigger] self.subscriptions()[i]) < self.num_vars() by {
                if i < old(self).subscriptions().len() {
                    assert(old(self).subscriptions()[i] < self.num_vars());
                }
            }
            if old(self).propagated() {
                assert forall|c: usize| c < self.num_clauses() implies #[trigger] self.settled(
                    c,
                ) by {
                    assert(old(self).settled(c));
                    assert(old(self).clause_ok(c));
                }
            }
            old(self).lemma_state();
            self.lemma_state();
            assert(self.shows(
                State { listeners: old(self).state().listeners.push(var), ..old(self).state() },
            ));
        }
        id
    }

    /// Hands out the notices owed so far, in order: each names a listener
    /// and the variable that was assigned. None is owed afterwards.
    pub fn take_notifications(&mut self) -> (notes: Vec<(usize, usize)>)
        requires
            old(self).wf(),
        ensures
            final(self).wf(),
            notes@ == old(self).pending_notices(),
            final(self).state() == (State { notes: Seq::empty(), ..old(self).state() }),
            final(self).pending_notices().len() == 0,
            final(self).same_clauses(old(self)),
            final(self).same_watches(old(self)),
            final(self).same_values(old(self)),
            final(self).subscriptions() == old(self).subscriptions(),
            final(self).assigned_now() == old(self).assigned_now(),
            final(self).conflict_clause() == old(self).conflict_clause(),
            old(self).propagated() ==> final(self).propagated(),
    {
        let mut notes: Vec<(usize, usize)> = Vec::new();
        std::mem::swap(&mut self.notifications, &mut notes);
        proof {
            self.lemma_frame(old(self));
            old(self).lemma_state();
            self.lemma_state();
            assert(self.pending_notices() =~= Seq::<(usize, usize)>::empty());
            assert(self.shows(State { notes: Seq::empty(), ..old(self).state() }));
        }
        notes
    }

    /// The clause that the last assertion found falsified, if it failed on one.
    pub fn conflict(&self) -> (c: Option<usize>)
        ensures
            c == self.conflict_clause(),
    {
        self.conflict
    }

    /// The variables that the last assertion assigned, in order.
    pub fn level_vars(&self) -> (v: &Vec<usize>)
        ensures
            v@ == self.assigned_now(),
    {
        &self.level_vars
    }

    /// The clause that forced the value of `var`; none for a decision or
    /// an unassigned variable.
    pub fn reason_of(&self, var: usize) -> (r: Option<usize>)
        requires
            var < self.num_vars(),
        ensures
            r == self.reason(var),
    {
        self.vars[var].reason
    }

    /// The literals of clause `c`, the two watches first.
    pub fn clause_lits(&self, c: usize) -> (lits: &Vec<Lit>)
        requires
            c < self.num_clauses(),
        ensures
            lits@ == self.clause(c),
    {
        &self.clauses[c]
    }
}

impl Solver {
    /// Whether variable `u` occurs in clause `c`.
    pub open spec fn occurs(&self, u: usize, c: usize) -> bool {
        exists|i: int| 0 <= i < self.clause(c).len() && (#[trigger] self.clause(c)[i]).var() == u
    }

    /// Whether `u` and `v` occur together in some clause.
    pub open spec fn linked(&self, u: usize, v: usize) -> bool {
        exists|c: usize| c < self.num_clauses() && #[trigger] self.occurs(u, c) && self.occurs(v, c)
    }

    /// Whether `path` leads from `from` to `to`: each of its variables but
    /// the first is assigned, as is every one that has a successor, and
    /// each shares a clause with the next.
    pub open spec fn leads(&self, from: usize, to: usize, path: Seq<usize>) -> bool {
        &&& path.len() > 0
        &&& path[0] == from
        &&& path[path.len() - 1] == to
        &&& forall|i: int| 0 <= i < path.len() ==> (#[trigger] path[i]) < self.num_vars()
        &&& forall|i: int| 0 < i < path.len() ==> self.val(#[trigger] path[i]) != LBool::Undef
        &&& forall|i: int|
            0 <= i < path.len() - 1 ==> self.val(#[trigger] path[i]) != LBool::Undef && self.linked(
                path[i],
                path[i + 1],
            )
    }

    /// Whether `to` is reached from `from` through clauses and assigned variables.
    pub open spec fn reachable(&self, from: usize, to: usize) -> bool {
        exists|path: Seq<usize>| #[trigger] self.leads(from, to, path)
    }

    /// The state of a retraction under way: `work` lists the variables
    /// unassigned so far, of which the first `head` have had their clauses
    /// visited.
    pub open spec fn retracting(
        &self,
        before: &Solver,
        var: usize,
        work: Seq<usize>,
        head: int,
    ) -> bool {
        &&& self.same_clauses(before)
        &&& self.same_watches(before)
        &&& self.queue() == before.queue()
        &&& self.subscriptions() == before.subscriptions()
        &&& self.pending_notices() == before.pending_notices()
        &&& self.conflict_clause().is_none()
        &&& self.assigned_now().len() == 0
        &&& self.num_vars() <= usize::MAX
        &&& 0 <= head <= work.len()
        &&& work.len() > 0
        &&& work[0] == var
        &&& self.unassigned() == before.unassigned() + work.len()
        &&& forall|i: int|
            0 <= i < work.len() ==> {
                &&& (#[trigger] work[i]) < self.num_vars()
                &&& before.val(work[i]) != LBool::Undef
                &&& self.val(work[i]) == LBool::Undef
                &&& self.reason(work[i]).is_none()
                &&& before.reachable(var, work[i])
            }
        &&& forall|v: usize|
            v < self.num_vars() && !work.contains(v) ==> #[trigger] self.val(v) == before.val(v)
        &&& forall|v: usize|
            v < self.num_vars() && !work.contains(v) ==> #[trigger] self.reason(v)
                == before.reason(v)
        &&& forall|i: int, v: usize|
            0 <= i < head && v < self.num_vars() && before.val(v) != LBool::Undef
                && #[trigger] before.linked(work[i], v) ==> work.contains(v)
    }

    /// The clauses and the watch lists of a sound state are sound whatever
    /// the values are.
    proof fn lemma_structure(&self, before: &Solver)
        requires
            before.inv(),
            self.same_clauses(before),
            self.same_watches(before),
        ensures
            forall|c: usize| c < self.num_clauses() ==> #[trigger] self.clause_ok(c),
            forall|v: usize, s: bool| v < self.num_vars() ==> #[trigger] self.watch_list_ok(v, s),
    {
        assert forall|c: usize| c < self.num_clauses() implies #[trigger] self.clause_ok(c) by {
            assert(before.clause_ok(c));
        }
        assert forall|v: usize, s: bool| v < self.num_vars() implies #[trigger] self.watch_list_ok(
            v,
            s,
        ) by {
            assert(before.watch_list_ok(v, s));
            assert(self.watch_list(v, s) == before.watch_list(v, s));
            assert forall|c: usize| c < self.num_clauses() implies (#[trigger] self.watch_list(
                v,
                s,
            ).contains(c) <==> self.watches(v, s, c)) by {
                assert(before.watch_list(v, s).contains(c) <==> before.watches(v, s, c));
            }
        }
    }

    /// One more variable is unassigned: `w`, assigned until now, which
    /// shares a clause with the variable at `head`.
    proof fn lemma_retract_step(
        &self,
        prev: &Solver,
        before: &Solver,
        var: usize,
        work: Seq<usize>,
        head: int,
        w: usize,
    )
        requires
            before.inv(),
            prev.retracting(before, var, work, head),
            head < work.len(),
            w < prev.num_vars(),
            prev.val(w) != LBool::Undef,
            before.linked(work[head], w),
            self.num_vars() == prev.num_vars(),
            self.val(w) == LBool::Undef,
            self.reason(w).is_none(),
            forall|v: usize| v < self.num_vars() && v != w ==> #[trigger] self.val(v) == prev.val(v),
            forall|v: usize|
                v < self.num_vars() && v != w ==> #[trigger] self.reason(v) == prev.reason(v),
            self.same_clauses(prev),
            self.same_watches(prev),
            self.same_records(prev),
            self.queue() == prev.queue(),
        ensures
            self.retracting(before, var, work.push(w), head),
            !work.contains(w),
    {
        let work2 = work.push(w);
        if work.contains(w) {
            let i = choose|i: int| 0 <= i < work.len() && work[i] == w;
            assert(prev.val(work[i]) == LBool::Undef);
        }
        assert(prev.val(w) == before.val(w));
        prev.lemma_count_assign(self, w, self.num_vars());
        assert forall|v: usize| work.contains(v) implies work2.contains(v) by {
            let i = choose|i: int| 0 <= i < work.len() && work[i] == v;
            assert(work2[i] == v);
        }
        assert(work2[work.len() as int] == w);
        assert forall|v: usize| work2.contains(v) implies work.contains(v) || v == w by {
            let i = choose|i: int| 0 <= i < work2.len() && work2[i] == v;
            if i < work.len() {
                assert(work[i] == v);
            }
        }
        let u = work[head];
        assert(before.reachable(var, w)) by {
            let p = choose|p: Seq<usize>| #[trigger] before.leads(var, u, p);
            let q = p.push(w);
            assert(before.val(u) != LBool::Undef);
            assert(before.val(w) != LBool::Undef);
            assert forall|i: int| 0 <= i < q.len() implies (#[trigger] q[i]) < before.num_vars() by {
                if i < p.len() {
                    assert(q[i] == p[i]);
                }
            }
            assert forall|i: int| 0 < i < q.len() implies before.val(#[trigger] q[i])
                != LBool::Undef by {
                if i < p.len() {
                    assert(q[i] == p[i]);
                }
            }
            assert forall|i: int| 0 <= i < q.len() - 1 implies before.val(#[trigger] q[i])
                != LBool::Undef && before.linked(q[i], q[i + 1]) by {
                assert(q[i] == p[i]);
                if i < p.len() - 1 {
                    assert(q[i + 1] == p[i + 1]);
                }
            }
            assert(before.leads(var, w, q));
        }
        assert forall|i: int| 0 <= i < work2.len() implies {
            &&& (#[trigger] work2[i]) < self.num_vars()
            &&& before.val(work2[i]) != LBool::Undef
            &&& self.val(work2[i]) == LBool::Undef
            &&& self.reason(work2[i]).is_none()
            &&& before.reachable(var, work2[i])
        } by {
            if i < work.len() {
                assert(work[i] == work2[i]);
                assert(work2[i] != w);
            }
        }
        assert forall|i: int, v: usize|
            0 <= i < head && v < self.num_vars() && before.val(v) != LBool::Undef
                && #[trigger] before.linked(work2[i], v) implies work2.contains(v) by {
            assert(work2[i] == work[i]);
            assert(work.contains(v));
        }
    }

    /// Whether variable `u` occurs in clause `c`.
    fn mentions(&self, c: usize, u: usize) -> (b: bool)
        requires
            c < self.num_clauses(),
        ensures
            b == self.occurs(u, c),
    {
        let n = self.clauses[c].len();
        let mut i: usize = 0;
        while i < n
            invariant
                i <= n,
                c < self.num_clauses(),
                n == self.clause(c).len(),
                forall|j: int| 0 <= j < i ==> (#[trigger] self.clause(c)[j]).var() != u,
            decreases n - i,
        {
            if self.clauses[c][i].var() == u {
                return true;
            }
            i += 1;
        }
        false
    }

    /// Takes the value and the reason of `w` away.
    fn unassign(&mut self, w: usize)
        requires
            w < old(self).num_vars(),
        ensures
            final(self).num_vars() == old(self).num_vars(),
            final(self).val(w) == LBool::Undef,
            final(self).reason(w).is_none(),
            forall|v: usize|
                v < final(self).num_vars() && v != w ==> #[trigger] final(self).val(v) == old(
                    self,
                ).val(v),
            forall|v: usize|
                v < final(self).num_vars() && v != w ==> #[trigger] final(self).reason(v) == old(
                    self,
                ).reason(v),
            final(self).same_clauses(old(self)),
            final(self).same_watches(old(self)),
            final(self).same_records(old(self)),
            final(self).queue() == old(self).queue(),
    {
        self.vars[w].value = LBool::Undef;
        self.vars[w].reason = None;
    }

    /// A finished retraction has unassigned everything that its variable reaches.
    proof fn lemma_closed(before: &Solver, var: usize, work: Seq<usize>, v: usize, path: Seq<usize>)
        requires
            work.len() > 0,
            work[0] == var,
            forall|i: int| 0 <= i < work.len() ==> (#[trigger] work[i]) < before.num_vars(),
            forall|i: int, x: usize|
                0 <= i < work.len() && x < before.num_vars() && before.val(x) != LBool::Undef
                    && #[trigger] before.linked(work[i], x) ==> work.contains(x),
            before.leads(var, v, path),
        ensures
            work.contains(v),
        decreases path.len(),
    {
        if path.len() == 1 {
            assert(work[0] == v);
        } else {
            let shorter = path.drop_last();
            let mid = shorter[shorter.len() - 1];
            assert(mid == path[path.len() - 2]);
            assert forall|i: int| 0 <= i < shorter.len() implies (#[trigger] shorter[i])
                < before.num_vars() by {
                assert(shorter[i] == path[i]);
            }
            assert forall|i: int| 0 < i < shorter.len() implies before.val(#[trigger] shorter[i])
                != LBool::Undef by {
                assert(shorter[i] == path[i]);
            }
            assert forall|i: int| 0 <= i < shorter.len() - 1 implies before.val(
                #[trigger] shorter[i],
            ) != LBool::Undef && before.linked(shorter[i], shorter[i + 1]) by {
                assert(shorter[i] == path[i]);
                assert(shorter[i + 1] == path[i + 1]);
            }
            assert(before.leads(var, mid, shorter));
            Solver::lemma_closed(before, var, work, mid, shorter);
            let i = choose|i: int| 0 <= i < work.len() && work[i] == mid;
            assert(before.val(path[path.len() - 1]) != LBool::Undef);
            assert(before.linked(path[path.len() - 2], path[path.len() - 2 + 1]));
            assert(before.linked(work[i], v));
        }
    }

    /// At the end of a retraction, a clause with an unassigned variable
    /// has no assigned variable left.
    proof fn lemma_cleared(
        &self,
        before: &Solver,
        var: usize,
        work: Seq<usize>,
        c: usize,
        a: int,
        b: int,
    )
        requires
            before.inv(),
            self.retracting(before, var, work, work.len() as int),
            c < self.num_clauses(),
            0 <= a < self.clause(c).len(),
            0 <= b < self.clause(c).len(),
            work.contains(self.clause(c)[a].var()),
        ensures
            self.val(self.clause(c)[b].var()) == LBool::Undef,
    {
        assert(self.clause(c) == before.clause(c));
        assert(before.clause_ok(c));
        let x = before.clause(c)[a].var();
        let y = before.clause(c)[b].var();
        let i = choose|i: int| 0 <= i < work.len() && work[i] == x;
        assert(before.occurs(x, c));
        assert(before.occurs(y, c));
        assert(before.linked(work[i], y));
        if work.contains(y) {
            let k = choose|k: int| 0 <= k < work.len() && work[k] == y;
            assert(self.val(work[k]) == LBool::Undef);
        } else {
            assert(self.val(y) == before.val(y));
        }
    }

    /// The count of unassigned variables is at most the number of variables.
    proof fn lemma_count_bound(&self, n: nat)
        ensures
            self.undef_upto(n) <= n,
        decreases n,
    {
        if n > 0 {
            self.lemma_count_bound((n - 1) as nat);
        }
    }

    /// Unassigns `var` and every variable that it reaches through clauses
    /// whose variables are assigned, step by step.
    ///
    /// The clauses are visited in the order of their indices and the
    /// variables in the order in which they were reached. Every clause is
    /// left either untouched or without any assigned variable, so a
    /// settled state stays settled.
    #[verifier::loop_isolation(false)]
    pub fn retract(&mut self, var: usize)
        requires
            old(self).wf(),
            var < old(self).num_vars(),
            old(self).val(var) != LBool::Undef,
        ensures
            final(self).wf(),
            final(self).same_clauses(old(self)),
            final(self).same_watches(old(self)),
            final(self).subscriptions() == old(self).subscriptions(),
            final(self).pending_notices() == old(self).pending_notices(),
            final(self).conflict_clause().is_none(),
            final(self).assigned_now().len() == 0,
            forall|v: usize|
                v < final(self).num_vars() ==> #[trigger] final(self).val(v) == (if old(
                    self,
                ).reachable(var, v) {
                    LBool::Undef
                } else {
                    old(self).val(v)
                }),
            forall|v: usize|
                v < final(self).num_vars() ==> #[trigger] final(self).reason(v) == (if old(
                    self,
                ).reachable(var, v) {
                    None
                } else {
                    old(self).reason(v)
                }),
            old(self).propagated() ==> final(self).propagated(),
    {
        let ghost before = *self;
        self.conflict = None;
        self.level_vars = Vec::new();
        let ghost cleared = *self;
        let mut work: Vec<usize> = Vec::new();
        self.unassign(var);
        work.push(var);
        let nc = self.clauses.len();
        proof {
            assert(self.num_vars() == self.vars.len());
            assert(before.leads(var, var, seq![var]));
            cleared.lemma_count_same(&before, before.num_vars());
            cleared.lemma_count_assign(&*self, var, self.num_vars());
            assert forall|v: usize| v < self.num_vars() && !work@.contains(v) implies #[trigger] self.val(
                v,
            ) == before.val(v) by {
                assert(work@[0] == var);
            }
            assert forall|v: usize|
                v < self.num_vars() && !work@.contains(v) implies #[trigger] self.reason(v)
                == before.reason(v) by {
                assert(work@[0] == var);
            }
            assert(self.retracting(&before, var, work@, 0));
        }
        let mut head: usize = 0;
        while head < work.len()
            invariant
                self.retracting(&before, var, work@, head as int),
                nc == self.num_clauses(),
            decreases self.num_vars() - self.unassigned(), work.len() - head,
        {
            let u = work[head];
            let ghost top = *self;
            let ghost top_len = work@.len();
            proof {
                self.lemma_count_bound(self.num_vars());
            }
            let mut c: usize = 0;
            while c < nc
                invariant
                    c <= nc,
                    head < work.len(),
                    work@[head as int] == u,
                    self.retracting(&before, var, work@, head as int),
                    work@.len() >= top_len,
                    forall|d: usize, v: usize|
                        d < c && v < self.num_vars() && before.val(v) != LBool::Undef
                            && before.occurs(u, d) && #[trigger] before.occurs(v, d)
                            ==> work@.contains(v),
                decreases nc - c,
            {
                proof {
                    assert(self.clause(c) == before.clause(c));
                    assert(before.clause_ok(c));
                }
                if self.mentions(c, u) {
                    let len = self.clauses[c].len();
                    let mut j: usize = 0;
                    while j < len
                        invariant
                            j <= len,
                            c < nc,
                            head < work.len(),
                            work@[head as int] == u,
                            len == before.clause(c).len(),
                            before.occurs(u, c),
                            self.retracting(&before, var, work@, head as int),
                            work@.len() >= top_len,
                            forall|k: int|
                                0 <= k < j && before.val((#[trigger] before.clause(c)[k]).var())
                                    != LBool::Undef ==> work@.contains(before.clause(c)[k].var()),
                            forall|d: usize, v: usize|
                                d < c && v < self.num_vars() && before.val(v) != LBool::Undef
                                    && before.occurs(u, d) && #[trigger] before.occurs(v, d)
                                    ==> work@.contains(v),
                        decreases len - j,
                    {
                        proof {
                            assert(self.clause(c) == before.clause(c));
                        }
                        let w = self.clauses[c][j].var();
                        proof {
                            assert(before.clause(c)[j as int].var() == w);
                            assert(w < self.num_vars());
                        }
                        let assigned = match self.vars[w].value {
                            LBool::Undef => false,
                            _ => true,
                        };
                        if assigned {
                            let ghost prev = *self;
                            let ghost w0 = work@;
                            self.unassign(w);
                            work.push(w);
                            proof {
                                assert(before.occurs(w, c));
                                assert(before.linked(u, w));
                                self.lemma_retract_step(&prev, &before, var, w0, head as int, w);
                                assert forall|x: usize| w0.contains(x) implies work@.contains(x) by {
                                    let i = choose|i: int| 0 <= i < w0.len() && w0[i] == x;
                                    assert(work@[i] == x);
                                }
                                assert(work@[w0.len() as int] == w);
                            }
                        } else {
                            proof {
                                if before.val(w) != LBool::Undef {
                                    if !work@.contains(w) {
                                        assert(self.val(w) == before.val(w));
                                    }
                                }
                            }
                        }
                        j += 1;
                    }
                    proof {
                        assert forall|v: usize|
                            v < self.num_vars() && before.val(v) != LBool::Undef && before.occurs(
                                v,
                                c,
                            ) implies work@.contains(v) by {
                            let k = choose|k: int|
                                0 <= k < before.clause(c).len() && (#[trigger] before.clause(
                                    c,
                                )[k]).var() == v;
                            assert(work@.contains(before.clause(c)[k].var()));
                        }
                    }
                } else {
                    proof {
                        assert(self.occurs(u, c) == before.occurs(u, c));
                    }
                }
                c += 1;
            }
            proof {
                assert forall|v: usize|
                    v < self.num_vars() && before.val(v) != LBool::Undef && #[trigger] before.linked(
                        u,
                        v,
                    ) implies work@.contains(v) by {
                    let d = choose|d: usize|
                        d < before.num_clauses() && #[trigger] before.occurs(u, d) && before.occurs(
                            v,
                            d,
                        );
                    assert(before.occurs(v, d));
                }
                assert(self.retracting(&before, var, work@, head as int + 1));
                self.lemma_count_bound(self.num_vars());
                assert(top.unassigned() == before.unassigned() + top_len);
                assert(self.unassigned() == before.unassigned() + work@.len());
            }
            head += 1;
        }
        proof {
            let wk = work@;
            self.lemma_structure(&before);
            assert forall|v: usize| v < self.num_vars() implies #[trigger] self.val(v) == (
            if before.reachable(var, v) {
                LBool::Undef
            } else {
                before.val(v)
            }) && self.reason(v) == (if before.reachable(var, v) {
                None
            } else {
                before.reason(v)
            }) by {
                if wk.contains(v) {
                    let i = choose|i: int| 0 <= i < wk.len() && wk[i] == v;
                    assert(before.reachable(var, wk[i]));
                } else if before.reachable(var, v) {
                    let path = choose|path: Seq<usize>| #[trigger] before.leads(var, v, path);
                    Solver::lemma_closed(&before, var, wk, v, path);
                }
            }
            assert forall|v: usize| v < self.num_vars() implies #[trigger] self.reason(v) == (
            if before.reachable(var, v) {
                None
            } else {
                before.reason(v)
            }) by {
                assert(self.val(v) == (if before.reachable(var, v) {
                    LBool::Undef
                } else {
                    before.val(v)
                }));
            }
            assert forall|v: usize| v < self.num_vars() implies #[trigger] self.reason_ok(v) by {
                if let Some(c) = self.reason(v) {
                    if wk.contains(v) {
                        let i = choose|i: int| 0 <= i < wk.len() && wk[i] == v;
                        assert(self.reason(wk[i]).is_none());
                    }
                    assert(self.reason(v) == before.reason(v));
                    assert(before.reason_ok(v));
                    assert(before.clause_ok(c));
                    assert(self.clause(c) == before.clause(c));
                    assert(self.val(v) == before.val(v));
                    assert forall|j: int| 0 <= j < self.clause(c).len() implies self.val(
                        (#[trigger] self.clause(c)[j]).var(),
                    ) == before.val(self.clause(c)[j].var()) by {
                        if wk.contains(self.clause(c)[j].var()) {
                            self.lemma_cleared(&before, var, wk, c, j, 0);
                        }
                    }
                }
            }
            assert(self.entries_in_range()) by {
                assert forall|i: int| 0 <= i < self.subscriptions().len() implies (
                #[trigger] self.subscriptions()[i]) < self.num_vars() by {
                    assert(before.subscriptions()[i] < before.num_vars());
                }
            }
            if before.propagated() {
                assert forall|c: usize| c < self.num_clauses() implies #[trigger] self.settled(
                    c,
                ) by {
                    assert(before.settled(c));
                    assert(before.clause_ok(c));
                    assert(self.clause(c) == before.clause(c));
                    let l0 = self.clause(c)[0];
                    let l1 = self.clause(c)[1];
                    if wk.contains(l0.var()) {
                        self.lemma_cleared(&before, var, wk, c, 0, 0);
                        self.lemma_cleared(&before, var, wk, c, 0, 1);
                    } else if wk.contains(l1.var()) {
                        self.lemma_cleared(&before, var, wk, c, 1, 0);
                        self.lemma_cleared(&before, var, wk, c, 1, 1);
                    } else {
                        assert(self.val(l0.var()) == before.val(l0.var()));
                        assert(self.val(l1.var()) == before.val(l1.var()));
                    }
                }
            }
        }
    }
}

impl Solver {
    /// The text of the first `n` variables: a line `b<i>: <value>` for each.
    pub open spec fn vars_text(&self, n: int) -> Seq<char>
        decreases n,
    {
        if n <= 0 {
            Seq::empty()
        } else {
            self.vars_text(n - 1) + seq!['b'] + decimal((n - 1) as nat) + seq![':', ' ']
                + self.val((n - 1) as usize).text() + seq!['\n']
        }
    }

    /// The text of the first `n` literals of `lits`, joined by ` ∨ `.
    pub open spec fn lits_text(lits: Seq<Lit>, n: int) -> Seq<char>
        decreases n,
    {
        if n <= 0 {
            Seq::empty()
        } else {
            Solver::lits_text(lits, n - 1) + (if n > 1 {
                seq![' ', '∨', ' ']
            } else {
                Seq::empty()
            }) + lits[n - 1].text()
        }
    }

    /// The text of the first `n` clauses: a line for each.
    pub open spec fn clauses_text(&self, n: int) -> Seq<char>
        decreases n,
    {
        if n <= 0 {
            Seq::empty()
        } else {
            self.clauses_text(n - 1) + Solver::lits_text(
                self.clause((n - 1) as usize),
                self.clause((n - 1) as usize).len() as int,
            ) + seq!['\n']
        }
    }

    /// The text of the engine: its variables with their values, then its clauses.
    pub open spec fn text(&self) -> Seq<char> {
        self.vars_text(self.num_vars() as int) + self.clauses_text(self.num_clauses() as int)
    }

    /// The text of the engine.
    pub fn to_string(&self) -> (s: String)
        ensures
            s@ == self.text(),
    {
        let mut s = String::new();
        let nv = self.vars.len();
        let mut i: usize = 0;
        assert(s@ =~= self.vars_text(0));
        while i < nv
            invariant
                i <= nv,
                nv == self.num_vars(),
                s@ == self.vars_text(i as int),
            decreases nv - i,
        {
            s.append("b");
            append_decimal(&mut s, i as u128);
            s.append(": ");
            s.append(self.vars[i].value.name());
            s.append("\n");
            i += 1;
            proof {
                reveal_strlit("b");
                reveal_strlit(": ");
                reveal_strlit("\n");
                assert(s@ =~= self.vars_text(i as int));
            }
        }
        let ghost head = s@;
        let nc = self.clauses.len();
        let mut c: usize = 0;
        assert(s@ =~= head + self.clauses_text(0));
        while c < nc
            invariant
                c <= nc,
                nc == self.num_clauses(),
                s@ == head + self.clauses_text(c as int),
            decreases nc - c,
        {
            let ghost line = s@;
            let n = self.clauses[c].len();
            let mut j: usize = 0;
            assert(s@ =~= line + Solver::lits_text(self.clause(c), 0));
            while j < n
                invariant
                    j <= n,
                    c < nc,
                    nc == self.num_clauses(),
                    n == self.clause(c).len(),
                    s@ == line + Solver::lits_text(self.clause(c), j as int),
                decreases n - j,
            {
                if j > 0 {
                    s.append(" ∨ ");
                }
                let t = self.clauses[c][j].to_string();
                s.append(t.as_str());
                j += 1;
                proof {
                    reveal_strlit(" ∨ ");
                    assert(s@ =~= line + Solver::lits_text(self.clause(c), j as int));
                }
            }
            s.append("\n");
            c += 1;
            proof {
                reveal_strlit("\n");
                assert(s@ =~= head + self.clauses_text(c as int));
            }
        }
        s
    }
}

} // verus!
