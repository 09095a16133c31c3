//! The propositional engine as plain data, and unit propagation as
//! functions on that data.
//!
//! A `State` holds what the engine holds: values, reasons, clauses, watch
//! lists, the queue and the records. Every change that the engine makes
//! is a function here from the state before to the state after, so that
//! what an operation leads to is one value, not a property among others.

use crate::sat::solver::lit_under;
use crate::sat::solver::notices;
use crate::sat::solver::stored;
use crate::utils::lit::LBool;
use crate::utils::lit::Lit;
use vstd::prelude::*;

verus! {

/// What walking one watch of a clause led to.
pub enum Walk {
    /// The clause stays on the list.
    Kept,
    /// The watch moved to another literal, and the clause left the list.
    Moved,
    /// Every literal of the clause is false.
    Conflict,
}

/// The engine's state.
pub struct State {
    /// The value of each variable.
    pub vals: Seq<LBool>,
    /// The clause that forced each variable, if one did.
    pub reasons: Seq<Option<usize>>,
    /// For each variable, the clauses that watch its positive literal.
    pub pos: Seq<Seq<usize>>,
    /// For each variable, the clauses that watch its negative literal.
    pub neg: Seq<Seq<usize>>,
    /// The clauses, the two watches of each first.
    pub clauses: Seq<Seq<Lit>>,
    /// The assigned variables that are still to fan out.
    pub queue: Seq<usize>,
    /// The variables that the last assertion assigned, in order.
    pub trail: Seq<usize>,
    /// The clause that the last assertion found falsified.
    pub conflict: Option<usize>,
    /// The variable that each listener subscribed to.
    pub listeners: Seq<usize>,
    /// The notices not yet taken: a listener and a variable each.
    pub notes: Seq<(usize, usize)>,
}

/// The literals with those at places `i` and `j` exchanged.
pub open spec fn exchanged(lits: Seq<Lit>, i: int, j: int) -> Seq<Lit> {
    lits.update(i, lits[j]).update(j, lits[i])
}

/// The number of values that are `Undef`.
pub open spec fn undefined(vals: Seq<LBool>) -> nat
    decreases vals.len(),
{
    if vals.len() == 0 {
        0
    } else {
        undefined(vals.drop_last()) + if vals.last() == LBool::Undef {
            1nat
        } else {
            0nat
        }
    }
}

impl State {
    /// The state without variables and clauses.
    pub open spec fn empty() -> State {
        State {
            vals: Seq::empty(),
            reasons: Seq::empty(),
            pos: Seq::empty(),
            neg: Seq::empty(),
            clauses: Seq::empty(),
            queue: Seq::empty(),
            trail: Seq::empty(),
            conflict: None,
            listeners: Seq::empty(),
            notes: Seq::empty(),
        }
    }

    /// The state with one more variable, unassigned and unwatched.
    pub open spec fn with_var(self) -> State {
        State {
            vals: self.vals.push(LBool::Undef),
            reasons: self.reasons.push(None),
            pos: self.pos.push(Seq::empty()),
            neg: self.neg.push(Seq::empty()),
            ..self
        }
    }

    /// The value of a literal.
    pub open spec fn lit_val(self, l: Lit) -> LBool {
        lit_under(self.vals[l.var() as int], l.is_positive())
    }

    /// The clauses that watch the literal of `v` with the given sign.
    pub open spec fn list(self, v: usize, positive: bool) -> Seq<usize> {
        if positive {
            self.pos[v as int]
        } else {
            self.neg[v as int]
        }
    }

    /// The state with `list` as the watch list of `v` on the given side.
    pub open spec fn with_list(self, v: usize, positive: bool, list: Seq<usize>) -> State {
        if positive {
            State { pos: self.pos.update(v as int, list), ..self }
        } else {
            State { neg: self.neg.update(v as int, list), ..self }
        }
    }

    /// The state with clause `c` added at the end of the list of `l`.
    pub open spec fn watching(self, l: Lit, c: usize) -> State {
        self.with_list(l.var(), l.is_positive(), self.list(l.var(), l.is_positive()).push(c))
    }

    /// The state without the entry at place `i` of the list of `v` on the
    /// given side.
    pub open spec fn unwatching(self, v: usize, positive: bool, i: int) -> State {
        self.with_list(v, positive, self.list(v, positive).remove(i))
    }

    /// The state with `lits` as clause `c`.
    pub open spec fn with_clause(self, c: usize, lits: Seq<Lit>) -> State {
        State { clauses: self.clauses.update(c as int, lits), ..self }
    }

    /// The number of unassigned variables.
    pub open spec fn unassigned(self) -> nat {
        undefined(self.vals)
    }

    /// The state after `lit` is made true for the given reason: its
    /// variable is queued and recorded, and its listeners are owed a notice.
    pub open spec fn assigned(self, lit: Lit, reason: Option<usize>) -> State {
        State {
            vals: self.vals.update(
                lit.var() as int,
                if lit.is_positive() {
                    LBool::True
                } else {
                    LBool::False
                },
            ),
            reasons: self.reasons.update(lit.var() as int, reason),
            queue: self.queue.push(lit.var()),
            trail: self.trail.push(lit.var()),
            notes: self.notes + notices(self.listeners, lit.var(), self.listeners.len() as int),
            ..self
        }
    }

    /// The state after an attempt to make `lit` true: a literal that has
    /// a value already changes nothing.
    pub open spec fn enqueued(self, lit: Lit, reason: Option<usize>) -> State {
        if self.lit_val(lit) == LBool::Undef {
            self.assigned(lit, reason)
        } else {
            self
        }
    }

    /// The first place of clause `c`, from `from` on, whose literal is not
    /// false and is not the first literal of the clause again; the length
    /// of the clause where there is none.
    pub open spec fn candidate(self, c: usize, from: int) -> int
        decreases self.clauses[c as int].len() - from,
    {
        let lits = self.clauses[c as int];
        if from >= lits.len() {
            lits.len() as int
        } else if self.lit_val(lits[from]) != LBool::False && lits[from] != lits[0] {
            from
        } else {
            self.candidate(c, from + 1)
        }
    }

    /// One step of a walk: what the clause at place `i` of the list of the
    /// false literal of `var` leads to.
    ///
    /// Where the first literal of the clause is true, nothing changes.
    /// Otherwise the false literal is made the second watch. The first
    /// candidate from the third place on then takes its place, and the
    /// clause moves to that literal's list. Where there is no candidate,
    /// the first literal is made true with the clause as its reason; where
    /// it is false already, the clause is in conflict.
    pub open spec fn step(self, var: usize, positive: bool, i: int) -> (State, Walk) {
        let c = self.list(var, positive)[i];
        let first = self.clauses[c as int][0];
        if self.lit_val(first) == LBool::True {
            (self, Walk::Kept)
        } else {
            let turned = if first.var() == var && first.is_positive() == positive {
                self.with_clause(c, exchanged(self.clauses[c as int], 0, 1))
            } else {
                self
            };
            let lits = turned.clauses[c as int];
            let j = turned.candidate(c, 2);
            if j < lits.len() {
                (
                    turned.with_clause(c, exchanged(lits, 1, j)).watching(lits[j], c).unwatching(
                        var,
                        positive,
                        i,
                    ),
                    Walk::Moved,
                )
            } else if turned.lit_val(lits[0]) == LBool::False {
                (turned, Walk::Conflict)
            } else {
                (turned.enqueued(lits[0], Some(c)), Walk::Kept)
            }
        }
    }

    /// The walk of the list of the false literal of `var` from place `i`
    /// on: the state it ends in, and the clause in conflict if it met one.
    ///
    /// A clause that is kept is passed; after one that moved, the next has
    /// taken its place. The walk stops at the first conflict.
    pub open spec fn walk(self, var: usize, positive: bool, i: int) -> (State, Option<usize>)
        decreases self.list(var, positive).len() - i,
    {
        let list = self.list(var, positive);
        let next = self.step(var, positive, i).0;
        if i < 0 || i >= list.len() {
            (self, None)
        } else if self.step(var, positive, i).1 is Conflict {
            (next, Some(list[i]))
        } else if self.step(var, positive, i).1 is Moved {
            if next.list(var, positive).len() + 1 == list.len() {
                next.walk(var, positive, i)
            } else {
                (next, None)
            }
        } else {
            if next.list(var, positive).len() == list.len() {
                next.walk(var, positive, i + 1)
            } else {
                (next, None)
            }
        }
    }

    /// The state once the queue has run empty.
    ///
    /// The first variable leaves the queue, and the list of its false
    /// literal is walked. A conflict is recorded and empties the queue.
    /// Every round takes one variable off the queue, and what it queues was
    /// unassigned before: that bounds the rounds.
    pub open spec fn drain(self) -> State
        decreases self.unassigned() + self.queue.len(),
    {
        if self.queue.len() == 0 {
            self
        } else {
            let var = self.queue[0];
            let positive = self.vals[var as int] == LBool::False;
            let (next, hit) = (State { queue: self.queue.drop_first(), ..self }).walk(
                var,
                positive,
                0,
            );
            match hit {
                Some(c) => State { conflict: Some(c), queue: Seq::empty(), ..next },
                None => if next.unassigned() + next.queue.len() < self.unassigned()
                    + self.queue.len() {
                    next.drain()
                } else {
                    next
                },
            }
        }
    }

    /// The state after `lit` is asserted: the records of the assertion
    /// before are dropped, `lit` is made true with no reason where it has
    /// no value yet, and the queue runs empty.
    pub open spec fn asserted(self, lit: Lit) -> State {
        (State { trail: Seq::empty(), conflict: None, ..self }).enqueued(lit, None).drain()
    }

    /// Whether asserting `lit` succeeds: `lit` is not false, and
    /// propagation meets no conflict.
    pub open spec fn accepts(self, lit: Lit) -> bool {
        self.lit_val(lit) != LBool::False && self.asserted(lit).conflict is None
    }

    /// The state with one more clause of two literals or more: it is
    /// stored last, and joins the list of each of its two watches, once
    /// where they are the same literal.
    pub open spec fn with_new_clause(self, lits: Seq<Lit>) -> State {
        let id = self.clauses.len() as usize;
        let kept = stored(lits);
        let first = (State { clauses: self.clauses.push(kept), ..self }).watching(kept[0], id);
        if kept[1] != kept[0] {
            first.watching(kept[1], id)
        } else {
            first
        }
    }
}

} // verus!
