//! The variables of the linear arithmetic engine: a value and, on each
//! side, a ledger of candidate bounds with the reasons that support them.

use crate::lin::ledger::inhabited;
use crate::lin::ledger::lemma_extremes;
use crate::lin::ledger::lemma_insert_reasons;
use crate::lin::ledger::lemma_prefix_reasons;
use crate::lin::ledger::lemma_reasons_at;
use crate::lin::ledger::lemma_remove_reasons;
use crate::lin::ledger::lemma_split;
use crate::lin::ledger::lemma_stored_has_reason;
use crate::lin::ledger::lemma_suffix_reasons;
use crate::lin::ledger::lemma_update_reasons;
use crate::lin::ledger::Ledger;
use crate::utils::inf_rational::lemma_inf_le_transitive;
use crate::utils::inf_rational::lemma_inf_lt_total;
use crate::utils::inf_rational::InfRatio;
use crate::utils::inf_rational::InfRational;
use vstd::prelude::*;
use vstd::string::StringExecFns;

verus! {

/// The mathematical content of a variable.
pub struct VarModel {
    pub val: InfRatio,
    pub lbs: Ledger,
    pub ubs: Ledger,
    pub rows: Seq<usize>,
}

impl VarModel {
    /// The active lower bound: the greatest stored one, else negative infinity.
    pub open spec fn lb(self) -> InfRatio {
        self.lbs.greatest()
    }

    /// The active upper bound: the least stored one, else positive infinity.
    pub open spec fn ub(self) -> InfRatio {
        self.ubs.least()
    }

    /// Normal ledgers in which no stored lower bound is above a stored
    /// upper bound.
    pub open spec fn is_normal(self) -> bool {
        &&& self.val.is_normal()
        &&& self.lbs.is_normal()
        &&& self.ubs.is_normal()
        &&& forall|a: InfRatio, b: InfRatio|
            #[trigger] self.lbs.has(a) && #[trigger] self.ubs.has(b) ==> a.le(b)
    }

    /// The text of a variable: its value and, in brackets, its active bounds.
    pub open spec fn text(self) -> Seq<char> {
        self.val.text() + seq![' ', '['] + self.lb().text() + seq![',', ' '] + self.ub().text()
            + seq![']']
    }
}

/// A variable of the linear arithmetic engine.
pub struct Var {
    /// The current value.
    val: InfRational,
    /// The candidate lower bounds in ascending order, each with its reasons.
    lbs: Vec<(InfRational, Vec<usize>)>,
    /// The candidate upper bounds in ascending order, each with its reasons.
    ubs: Vec<(InfRational, Vec<usize>)>,
    /// The rows of the tableau in which the variable appears.
    rows: Vec<usize>,
}

/// The entries of a ledger with each bound taken by its view and each list
/// of reasons as a set.
pub closed spec fn ledger_view(entries: Seq<(InfRational, Vec<usize>)>) -> Ledger {
    Ledger { entries: Seq::new(entries.len(), |i: int| (entries[i].0@, entries[i].1@.to_set())) }
}

/// No list of reasons names a reason twice.
pub closed spec fn reasons_distinct(entries: Seq<(InfRational, Vec<usize>)>) -> bool {
    forall|i: int| 0 <= i < entries.len() ==> (#[trigger] entries[i]).1@.no_duplicates()
}

/// The view of a ledger, place by place.
proof fn lemma_ledger_view(entries: Seq<(InfRational, Vec<usize>)>)
    ensures
        ledger_view(entries).entries.len() == entries.len(),
        forall|i: int|
            #![trigger ledger_view(entries).entries[i]]
            #![trigger entries[i]]
            0 <= i < entries.len() ==> ledger_view(entries).entries[i] == (
                entries[i].0@,
                entries[i].1@.to_set(),
            ),
{
}

/// The set of a list with one more element.
proof fn lemma_push_to_set(s: Seq<usize>, r: usize)
    ensures
        s.push(r).to_set() == s.to_set().insert(r),
{
    assert forall|x: usize| s.push(r).to_set().contains(x) <==> s.to_set().insert(r).contains(
        x,
    ) by {
        if s.push(r).contains(x) {
            let i = choose|i: int| 0 <= i < s.push(r).len() && s.push(r)[i] == x;
            if i < s.len() {
                assert(s[i] == x);
            }
        }
        if s.contains(x) {
            let i = choose|i: int| 0 <= i < s.len() && s[i] == x;
            assert(s.push(r)[i] == x);
        }
        if x == r {
            assert(s.push(r)[s.len() as int] == r);
        }
    }
    assert(s.push(r).to_set() =~= s.to_set().insert(r));
}

/// The set of a list without duplicates, one element removed.
proof fn lemma_remove_to_set(s: Seq<usize>, i: int)
    requires
        s.no_duplicates(),
        0 <= i < s.len(),
    ensures
        s.remove(i).to_set() == s.to_set().remove(s[i]),
        s.remove(i).no_duplicates(),
{
    let t = s.remove(i);
    assert forall|a: int| 0 <= a < t.len() implies #[trigger] t[a] == (if a < i {
        s[a]
    } else {
        s[a + 1]
    }) by {}
    assert forall|x: usize| t.to_set().contains(x) <==> s.to_set().remove(s[i]).contains(x) by {
        if t.contains(x) {
            let a = choose|a: int| 0 <= a < t.len() && t[a] == x;
            let b = if a < i {
                a
            } else {
                a + 1
            };
            assert(s[b] == x);
        }
        if s.contains(x) && x != s[i] {
            let a = choose|a: int| 0 <= a < s.len() && s[a] == x;
            let b = if a < i {
                a
            } else {
                a - 1
            };
            assert(t[b] == x);
        }
    }
    assert(t.to_set() =~= s.to_set().remove(s[i]));
    assert forall|a: int, b: int| 0 <= a < t.len() && 0 <= b < t.len() && a != b implies t[a]
        != t[b] by {
        let a2 = if a < i {
            a
        } else {
            a + 1
        };
        let b2 = if b < i {
            b
        } else {
            b + 1
        };
        assert(s[a2] != s[b2]);
    }
}

/// The first place of `entries` whose bound is not below `k`.
fn find(entries: &Vec<(InfRational, Vec<usize>)>, k: &InfRational) -> (p: usize)
    requires
        ledger_view(entries@).is_normal(),
        k@.is_normal(),
    ensures
        p <= entries@.len(),
        forall|i: int| 0 <= i < p ==> (#[trigger] ledger_view(entries@).entries[i]).0.lt(k@),
        p < entries@.len() ==> !ledger_view(entries@).entries[p as int].0.lt(k@),
{
    proof {
        lemma_ledger_view(entries@);
    }
    let mut p: usize = 0;
    while p < entries.len() && entries[p].0.is_less_than(k)
        invariant
            p <= entries@.len(),
            forall|i: int| 0 <= i < p ==> (#[trigger] ledger_view(entries@).entries[i]).0.lt(k@),
        decreases entries.len() - p,
    {
        p += 1;
    }
    p
}

/// The place of `r` in `reasons`, or their number where it is not among them.
fn index_of(reasons: &Vec<usize>, r: usize) -> (p: usize)
    ensures
        p <= reasons@.len(),
        p < reasons@.len() ==> reasons@[p as int] == r,
        p == reasons@.len() ==> !reasons@.contains(r),
{
    let mut p: usize = 0;
    while p < reasons.len()
        invariant
            p <= reasons@.len(),
            forall|i: int| 0 <= i < p ==> reasons@[i] != r,
        decreases reasons.len() - p,
    {
        if reasons[p] == r {
            return p;
        }
        p += 1;
    }
    p
}

/// Adds `r` to the reasons of the bound `k`, storing the bound where it is new.
fn ledger_add(entries: &mut Vec<(InfRational, Vec<usize>)>, k: InfRational, r: usize)
    requires
        ledger_view(old(entries)@).is_normal(),
        reasons_distinct(old(entries)@),
    ensures
        ledger_view(final(entries)@).is_normal(),
        reasons_distinct(final(entries)@),
        ledger_view(final(entries)@).is_with(ledger_view(old(entries)@), k@, r),
{
    let kn = k.is_normal();
    let ghost before = ledger_view(entries@);
    let p = find(entries, &k);
    proof {
        lemma_ledger_view(entries@);
        lemma_split(before, p as int, k@);
    }
    if p < entries.len() && entries[p].0.is_equal_to(&k) {
        let q = index_of(&entries[p].1, r);
        let ghost rs = entries@[p as int].1@;
        if q == entries[p].1.len() {
            entries[p].1.push(r);
            proof {
                lemma_push_to_set(rs, r);
                assert(entries@[p as int].1@.no_duplicates());
            }
        } else {
            proof {
                assert(rs.to_set().insert(r) =~= rs.to_set());
            }
        }
        proof {
            let set = rs.to_set().insert(r);
            lemma_ledger_view(entries@);
            lemma_reasons_at(before, p as int);
            lemma_update_reasons(before, p as int, set);
            let after = ledger_view(entries@);
            assert(after.entries =~= before.entries.update(p as int, (k@, set)));
            assert(after == Ledger { entries: before.entries.update(p as int, (k@, set)) });
            assert(after.sorted());
            assert forall|i: int| 0 <= i < after.entries.len() implies (
            #[trigger] after.entries[i]).0.is_normal() && inhabited(after.entries[i].1) by {
                if i == p {
                    assert(after.entries[i].1.contains(r));
                } else {
                    assert(before.entries[i].0.is_normal());
                    assert(after.entries[i] == before.entries[i]);
                }
            }
            assert forall|i: int| 0 <= i < entries@.len() implies (
            #[trigger] entries@[i]).1@.no_duplicates() by {
                if i != p {
                    assert(entries@[i] == old(entries)@[i]);
                }
            }
        }
    } else {
        let mut rs: Vec<usize> = Vec::new();
        rs.push(r);
        entries.insert(p, (k, rs));
        proof {
            lemma_ledger_view(entries@);
            assert(seq![r].to_set() =~= Set::<usize>::empty().insert(r)) by {
                lemma_push_to_set(Seq::<usize>::empty(), r);
                assert(Seq::<usize>::empty().push(r) =~= seq![r]);
                assert(Seq::<usize>::empty().to_set() =~= Set::<usize>::empty());
            }
            let set = Set::<usize>::empty().insert(r);
            assert forall|i: int| p <= i < before.entries.len() implies k@.lt(
                (#[trigger] before.entries[i]).0,
            ) by {
                if i == p {
                    assert(before.entries[p as int].0 != k@);
                }
            }
            lemma_insert_reasons(before, p as int, k@, set);
            let after = ledger_view(entries@);
            assert(after.entries =~= before.entries.insert(p as int, (k@, set)));
            assert(after == Ledger { entries: before.entries.insert(p as int, (k@, set)) });
            assert(after.sorted());
            if before.has(k@) {
                let i = before.position(k@);
                lemma_inf_lt_total(k@, k@);
                if i < p {
                    assert(before.entries[i].0.lt(k@));
                } else {
                    assert(k@.lt(before.entries[i].0));
                }
            }
            assert(before.reasons(k@) =~= Set::<usize>::empty());
            assert forall|i: int| 0 <= i < after.entries.len() implies (
            #[trigger] after.entries[i]).0.is_normal() && inhabited(after.entries[i].1) by {
                if i == p {
                    assert(after.entries[i].1.contains(r));
                } else if i < p {
                    assert(before.entries[i].0.is_normal());
                    assert(after.entries[i] == before.entries[i]);
                } else {
                    assert(before.entries[i - 1].0.is_normal());
                    assert(after.entries[i] == before.entries[i - 1]);
                }
            }
            assert forall|i: int| 0 <= i < entries@.len() implies (
            #[trigger] entries@[i]).1@.no_duplicates() by {
                if i < p {
                    assert(entries@[i] == old(entries)@[i]);
                } else if i > p {
                    assert(entries@[i] == old(entries)@[i - 1]);
                }
            }
        }
    }
}

/// Takes `r` from the reasons of the bound `k`, dropping the bound with
/// its last reason.
fn ledger_remove(entries: &mut Vec<(InfRational, Vec<usize>)>, k: InfRational, r: usize)
    requires
        ledger_view(old(entries)@).is_normal(),
        reasons_distinct(old(entries)@),
    ensures
        ledger_view(final(entries)@).is_normal(),
        reasons_distinct(final(entries)@),
        ledger_view(final(entries)@).is_without(ledger_view(old(entries)@), k@, r),
{
    let kn = k.is_normal();
    let ghost before = ledger_view(entries@);
    let p = find(entries, &k);
    proof {
        lemma_ledger_view(entries@);
        lemma_split(before, p as int, k@);
    }
    if p < entries.len() && entries[p].0.is_equal_to(&k) {
        let q = index_of(&entries[p].1, r);
        let ghost rs = entries@[p as int].1@;
        proof {
            lemma_reasons_at(before, p as int);
        }
        if q < entries[p].1.len() {
            if entries[p].1.len() == 1 {
                entries.remove(p);
                proof {
                    lemma_ledger_view(entries@);
                    lemma_remove_reasons(before, p as int);
                    let after = ledger_view(entries@);
                    assert(after.entries =~= before.entries.remove(p as int));
                    assert(after == Ledger { entries: before.entries.remove(p as int) });
                    assert(after.sorted());
                    assert(rs.to_set().remove(r) =~= Set::<usize>::empty()) by {
                        assert forall|x: usize| !rs.to_set().remove(r).contains(x) by {
                            if rs.contains(x) {
                                let i = choose|i: int| 0 <= i < rs.len() && rs[i] == x;
                                assert(i == 0);
                            }
                        }
                    }
                    assert forall|i: int| 0 <= i < after.entries.len() implies (
                    #[trigger] after.entries[i]).0.is_normal() && inhabited(
                        after.entries[i].1,
                    ) by {
                        let j = if i < p {
                            i
                        } else {
                            i + 1
                        };
                        assert(before.entries[j].0.is_normal());
                        assert(after.entries[i] == before.entries[j]);
                    }
                    assert forall|i: int| 0 <= i < entries@.len() implies (
                    #[trigger] entries@[i]).1@.no_duplicates() by {
                        let j = if i < p {
                            i
                        } else {
                            i + 1
                        };
                        assert(entries@[i] == old(entries)@[j]);
                    }
                }
            } else {
                entries[p].1.remove(q);
                proof {
                    lemma_ledger_view(entries@);
                    lemma_remove_to_set(rs, q as int);
                    let set = rs.to_set().remove(r);
                    lemma_update_reasons(before, p as int, set);
                    let after = ledger_view(entries@);
                    assert(after.entries =~= before.entries.update(p as int, (k@, set)));
                    assert(after == Ledger { entries: before.entries.update(p as int, (k@, set)) });
                    assert(after.sorted());
                    let o = if q == 0 {
                        1int
                    } else {
                        0int
                    };
                    assert(rs[o] != rs[q as int]);
                    assert(rs.contains(rs[o]));
                    assert(set.contains(rs[o]));
                    assert forall|i: int| 0 <= i < after.entries.len() implies (
                    #[trigger] after.entries[i]).0.is_normal() && inhabited(
                        after.entries[i].1,
                    ) by {
                        if i == p {
                            assert(after.entries[i].1.contains(rs[o]));
                        } else {
                            assert(before.entries[i].0.is_normal());
                            assert(after.entries[i] == before.entries[i]);
                        }
                    }
                    assert forall|i: int| 0 <= i < entries@.len() implies (
                    #[trigger] entries@[i]).1@.no_duplicates() by {
                        if i != p {
                            assert(entries@[i] == old(entries)@[i]);
                        }
                    }
                }
            }
        } else {
            proof {
                assert(rs.to_set().remove(r) =~= rs.to_set());
            }
        }
    } else {
        proof {
            if before.has(k@) {
                let i = before.position(k@);
                lemma_inf_lt_total(k@, k@);
                if i < p {
                    assert(before.entries[i].0.lt(k@));
                } else if i > p {
                    assert(k@.lt(before.entries[i].0));
                }
            }
            assert(before.reasons(k@).remove(r) =~= before.reasons(k@));
        }
    }
}

/// Drops the bounds below `k`.
fn ledger_drop_below(entries: &mut Vec<(InfRational, Vec<usize>)>, k: InfRational)
    requires
        ledger_view(old(entries)@).is_normal(),
        reasons_distinct(old(entries)@),
    ensures
        ledger_view(final(entries)@).is_normal(),
        reasons_distinct(final(entries)@),
        ledger_view(final(entries)@).is_from(ledger_view(old(entries)@), k@),
{
    let kn = k.is_normal();
    let ghost before = ledger_view(entries@);
    let p = find(entries, &k);
    let mut kept = entries.split_off(p);
    proof {
        lemma_ledger_view(old(entries)@);
        lemma_ledger_view(kept@);
        lemma_split(before, p as int, k@);
        lemma_suffix_reasons(before, p as int);
        let after = ledger_view(kept@);
        assert(after.entries =~= before.entries.subrange(p as int, before.entries.len() as int));
        assert(after == Ledger {
            entries: before.entries.subrange(p as int, before.entries.len() as int),
        });
        assert(after.sorted());
        assert forall|x: InfRatio| #[trigger] after.reasons(x) == (if x.lt(k@) {
            Set::empty()
        } else {
            before.reasons(x)
        }) by {
            if before.has(x) {
                assert(x.lt(k@) <==> before.position(x) < p);
            } else {
                assert(before.reasons(x) =~= Set::<usize>::empty());
            }
        }
        assert forall|i: int| 0 <= i < after.entries.len() implies (
        #[trigger] after.entries[i]).0.is_normal() && inhabited(after.entries[i].1) by {
            assert(before.entries[i + p].0.is_normal());
            assert(after.entries[i] == before.entries[i + p]);
        }
        assert forall|i: int| 0 <= i < kept@.len() implies (#[trigger] kept@[i]).1@.no_duplicates() by {
            assert(kept@[i] == old(entries)@[i + p]);
        }
    }
    std::mem::swap(entries, &mut kept);
}

/// Drops the bounds above `k`.
fn ledger_drop_above(entries: &mut Vec<(InfRational, Vec<usize>)>, k: InfRational)
    requires
        ledger_view(old(entries)@).is_normal(),
        reasons_distinct(old(entries)@),
    ensures
        ledger_view(final(entries)@).is_normal(),
        reasons_distinct(final(entries)@),
        ledger_view(final(entries)@).is_up_to(ledger_view(old(entries)@), k@),
{
    let kn = k.is_normal();
    let ghost before = ledger_view(entries@);
    let p = find(entries, &k);
    proof {
        lemma_ledger_view(entries@);
    }
    let q = if p < entries.len() && entries[p].0.is_equal_to(&k) {
        p + 1
    } else {
        p
    };
    entries.truncate(q);
    proof {
        lemma_ledger_view(entries@);
        lemma_split(before, p as int, k@);
        lemma_prefix_reasons(before, q as int);
        let after = ledger_view(entries@);
        assert(after.entries =~= before.entries.subrange(0, q as int));
        assert(after == Ledger { entries: before.entries.subrange(0, q as int) });
        assert(after.sorted());
        assert forall|x: InfRatio| #[trigger] after.reasons(x) == (if k@.lt(x) {
            Set::empty()
        } else {
            before.reasons(x)
        }) by {
            if before.has(x) {
                let i = before.position(x);
                assert(before.entries[i].0.is_normal());
                lemma_inf_lt_total(x, k@);
                assert(x.lt(k@) <==> i < p);
                if i >= p && x != k@ {
                    assert(k@.lt(before.entries[i].0));
                }
                if x == k@ {
                    if i > p {
                        assert(k@.lt(before.entries[i].0));
                    }
                    assert(i == p);
                }
            } else {
                assert(before.reasons(x) =~= Set::<usize>::empty());
            }
        }
        assert forall|i: int| 0 <= i < after.entries.len() implies (
        #[trigger] after.entries[i]).0.is_normal() && inhabited(after.entries[i].1) by {
            assert(before.entries[i].0.is_normal());
            assert(after.entries[i] == before.entries[i]);
        }
        assert forall|i: int| 0 <= i < entries@.len() implies (
        #[trigger] entries@[i]).1@.no_duplicates() by {
            assert(entries@[i] == old(entries)@[i]);
        }
    }
}

impl View for Var {
    type V = VarModel;

    closed spec fn view(&self) -> VarModel {
        VarModel {
            val: self.val@,
            lbs: ledger_view(self.lbs@),
            ubs: ledger_view(self.ubs@),
            rows: self.rows@,
        }
    }
}

impl Var {
    #[verifier::type_invariant]
    pub closed spec fn well_formed(&self) -> bool {
        &&& self@.is_normal()
        &&& reasons_distinct(self.lbs@)
        &&& reasons_distinct(self.ubs@)
    }

    /// A variable with value zero and no bound on either side.
    pub fn new() -> (v: Var)
        ensures
            v@.val == InfRatio::zero(),
            v@.lbs.entries.len() == 0,
            v@.ubs.entries.len() == 0,
            v@.rows.len() == 0,
            v@.is_normal(),
    {
        let val = InfRational::from_integer(0);
        let ok = val.is_normal();
        proof {
            lemma_ledger_view(Seq::<(InfRational, Vec<usize>)>::empty());
        }
        Var { val, lbs: Vec::new(), ubs: Vec::new(), rows: Vec::new() }
    }

    /// Every variable is normal: sorted ledgers without empty entries, and
    /// no stored lower bound above a stored upper bound.
    pub fn is_normal(&self) -> (b: bool)
        ensures
            b,
            self@.is_normal(),
    {
        proof {
            use_type_invariant(self);
        }
        true
    }

    /// The current value.
    pub fn value(&self) -> (r: InfRational)
        ensures
            r@ == self@.val,
    {
        self.val
    }

    /// The current value.
    pub fn get_value(&self) -> (r: InfRational)
        ensures
            r@ == self@.val,
    {
        self.val
    }

    /// The active lower bound: the greatest stored lower bound, or
    /// negative infinity where none is stored.
    pub fn lb(&self) -> (r: InfRational)
        ensures
            r@ == self@.lb(),
            self@.lbs.entries.len() == 0 ==> r@ == InfRatio::negative_infinity(),
            self@.lbs.entries.len() > 0 ==> self@.lbs.has(r@),
            forall|k: InfRatio| #[trigger] self@.lbs.has(k) ==> k.le(r@),
    {
        proof {
            use_type_invariant(self);
            lemma_ledger_view(self.lbs@);
            lemma_extremes(self@.lbs);
        }
        let n = self.lbs.len();
        if n == 0 {
            InfRational::negative_infinity()
        } else {
            self.lbs[n - 1].0
        }
    }

    /// The active upper bound: the least stored upper bound, or positive
    /// infinity where none is stored.
    pub fn ub(&self) -> (r: InfRational)
        ensures
            r@ == self@.ub(),
            self@.ubs.entries.len() == 0 ==> r@ == InfRatio::positive_infinity(),
            self@.ubs.entries.len() > 0 ==> self@.ubs.has(r@),
            forall|k: InfRatio| #[trigger] self@.ubs.has(k) ==> r@.le(k),
    {
        proof {
            use_type_invariant(self);
            lemma_ledger_view(self.ubs@);
            lemma_extremes(self@.ubs);
        }
        if self.ubs.len() == 0 {
            InfRational::positive_infinity()
        } else {
            self.ubs[0].0
        }
    }

    /// The greatest stored lower bound, if any is stored.
    pub fn get_lb(&self) -> (r: Option<InfRational>)
        ensures
            r.is_some() <==> self@.lbs.entries.len() > 0,
            r.is_some() ==> r.unwrap()@ == self@.lb(),
    {
        proof {
            lemma_ledger_view(self.lbs@);
        }
        let n = self.lbs.len();
        if n == 0 {
            None
        } else {
            Some(self.lbs[n - 1].0)
        }
    }

    /// The least stored upper bound, if any is stored.
    pub fn get_ub(&self) -> (r: Option<InfRational>)
        ensures
            r.is_some() <==> self@.ubs.entries.len() > 0,
            r.is_some() ==> r.unwrap()@ == self@.ub(),
    {
        proof {
            lemma_ledger_view(self.ubs@);
        }
        if self.ubs.len() == 0 {
            None
        } else {
            Some(self.ubs[0].0)
        }
    }

    /// Gives the variable a value.
    pub fn set_value(&mut self, val: InfRational)
        ensures
            final(self)@ == (VarModel { val: val@, ..old(self)@ }),
    {
        proof {
            use_type_invariant(&*self);
        }
        let ok = val.is_normal();
        self.val = val;
    }

    /// The rows of the tableau in which the variable appears.
    pub fn rows(&self) -> (r: &Vec<usize>)
        ensures
            r@ == self@.rows,
    {
        &self.rows
    }

    /// Notes that the variable appears in `row`.
    pub fn add_row(&mut self, row: usize)
        ensures
            final(self)@ == (VarModel {
                rows: if old(self)@.rows.contains(row) {
                    old(self)@.rows
                } else {
                    old(self)@.rows.push(row)
                },
                ..old(self)@
            }),
    {
        proof {
            use_type_invariant(&*self);
        }
        let q = index_of(&self.rows, row);
        if q == self.rows.len() {
            let mut rows: Vec<usize> = Vec::new();
            std::mem::swap(&mut self.rows, &mut rows);
            rows.push(row);
            self.rows = rows;
        }
    }

    /// Records a lower bound.
    ///
    /// A bound above the active upper bound is a conflict: the answer is
    /// `false` and nothing changes. Otherwise, with a reason, the reason is
    /// added to those of the bound; without one, every stored lower bound
    /// below `lb` is dropped.
    pub fn set_lb(&mut self, lb: InfRational, reason: Option<usize>) -> (ok: bool)
        ensures
            ok == lb@.le(old(self)@.ub()),
            final(self)@.is_normal(),
            final(self)@.val == old(self)@.val,
            final(self)@.ubs == old(self)@.ubs,
            final(self)@.rows == old(self)@.rows,
            !ok ==> final(self)@ == old(self)@,
            ok ==> match reason {
                Some(r) => final(self)@.lbs.is_with(old(self)@.lbs, lb@, r),
                None => final(self)@.lbs.is_from(old(self)@.lbs, lb@),
            },
    {
        proof {
            use_type_invariant(&*self);
        }
        let ghost before = self@;
        let ln = lb.is_normal();
        let ub = self.ub();
        if !lb.is_at_most(&ub) {
            return false;
        }
        let mut lbs: Vec<(InfRational, Vec<usize>)> = Vec::new();
        proof {
            lemma_ledger_view(Seq::<(InfRational, Vec<usize>)>::empty());
        }
        std::mem::swap(&mut self.lbs, &mut lbs);
        match reason {
            Some(r) => {
                ledger_add(&mut lbs, lb, r);
            },
            None => {
                ledger_drop_below(&mut lbs, lb);
            },
        }
        proof {
            let after = ledger_view(lbs@);
            assert forall|a: InfRatio, b: InfRatio| #[trigger]
                after.has(a) && #[trigger] before.ubs.has(b) implies a.le(b) by {
                lemma_stored_has_reason(after, a);
                lemma_stored_has_reason(before.lbs, a);
                lemma_stored_has_reason(before.ubs, b);
                if a == lb@ {
                    lemma_extremes(before.ubs);
                    lemma_inf_le_transitive(a, before.ub(), b);
                } else {
                    assert(after.reasons(a) == before.lbs.reasons(a));
                    assert(before.lbs.has(a));
                }
            }
        }
        self.lbs = lbs;
        true
    }

    /// Takes `reason` from the reasons of the lower bound `lb`; the bound
    /// goes with its last reason.
    pub fn unset_lb(&mut self, lb: InfRational, reason: usize)
        ensures
            final(self)@.is_normal(),
            final(self)@.val == old(self)@.val,
            final(self)@.ubs == old(self)@.ubs,
            final(self)@.rows == old(self)@.rows,
            final(self)@.lbs.is_without(old(self)@.lbs, lb@, reason),
    {
        proof {
            use_type_invariant(&*self);
        }
        let ghost before = self@;
        let mut lbs: Vec<(InfRational, Vec<usize>)> = Vec::new();
        proof {
            lemma_ledger_view(Seq::<(InfRational, Vec<usize>)>::empty());
        }
        std::mem::swap(&mut self.lbs, &mut lbs);
        ledger_remove(&mut lbs, lb, reason);
        proof {
            let after = ledger_view(lbs@);
            assert forall|a: InfRatio, b: InfRatio| #[trigger]
                after.has(a) && #[trigger] before.ubs.has(b) implies a.le(b) by {
                lemma_stored_has_reason(after, a);
                lemma_stored_has_reason(before.lbs, a);
                let r = choose|r: usize| after.reasons(a).contains(r);
                assert(before.lbs.reasons(a).contains(r));
                assert(before.lbs.has(a));
            }
        }
        self.lbs = lbs;
    }

    /// Records an upper bound.
    ///
    /// A bound below the active lower bound is a conflict: the answer is
    /// `false` and nothing changes. Otherwise, with a reason, the reason is
    /// added to those of the bound; without one, every stored upper bound
    /// above `ub` is dropped.
    pub fn set_ub(&mut self, ub: InfRational, reason: Option<usize>) -> (ok: bool)
        ensures
            ok == old(self)@.lb().le(ub@),
            final(self)@.is_normal(),
            final(self)@.val == old(self)@.val,
            final(self)@.lbs == old(self)@.lbs,
            final(self)@.rows == old(self)@.rows,
            !ok ==> final(self)@ == old(self)@,
            ok ==> match reason {
                Some(r) => final(self)@.ubs.is_with(old(self)@.ubs, ub@, r),
                None => final(self)@.ubs.is_up_to(old(self)@.ubs, ub@),
            },
    {
        proof {
            use_type_invariant(&*self);
        }
        let ghost before = self@;
        let un = ub.is_normal();
        let lb = self.lb();
        if !lb.is_at_most(&ub) {
            return false;
        }
        let mut ubs: Vec<(InfRational, Vec<usize>)> = Vec::new();
        proof {
            lemma_ledger_view(Seq::<(InfRational, Vec<usize>)>::empty());
        }
        std::mem::swap(&mut self.ubs, &mut ubs);
        match reason {
            Some(r) => {
                ledger_add(&mut ubs, ub, r);
            },
            None => {
                ledger_drop_above(&mut ubs, ub);
            },
        }
        proof {
            let after = ledger_view(ubs@);
            assert forall|a: InfRatio, b: InfRatio| #[trigger]
                before.lbs.has(a) && #[trigger] after.has(b) implies a.le(b) by {
                lemma_stored_has_reason(after, b);
                lemma_stored_has_reason(before.ubs, b);
                lemma_stored_has_reason(before.lbs, a);
                if b == ub@ {
                    lemma_extremes(before.lbs);
                    lemma_inf_le_transitive(a, before.lb(), b);
                } else {
                    assert(after.reasons(b) == before.ubs.reasons(b));
                    assert(before.ubs.has(b));
                }
            }
        }
        self.ubs = ubs;
        true
    }

    /// Takes `reason` from the reasons of the upper bound `ub`; the bound
    /// goes with its last reason.
    pub fn unset_ub(&mut self, ub: InfRational, reason: usize)
        ensures
            final(self)@.is_normal(),
            final(self)@.val == old(self)@.val,
            final(self)@.lbs == old(self)@.lbs,
            final(self)@.rows == old(self)@.rows,
            final(self)@.ubs.is_without(old(self)@.ubs, ub@, reason),
    {
        proof {
            use_type_invariant(&*self);
        }
        let ghost before = self@;
        let mut ubs: Vec<(InfRational, Vec<usize>)> = Vec::new();
        proof {
            lemma_ledger_view(Seq::<(InfRational, Vec<usize>)>::empty());
        }
        std::mem::swap(&mut self.ubs, &mut ubs);
        ledger_remove(&mut ubs, ub, reason);
        proof {
            let after = ledger_view(ubs@);
            assert forall|a: InfRatio, b: InfRatio| #[trigger]
                before.lbs.has(a) && #[trigger] after.has(b) implies a.le(b) by {
                lemma_stored_has_reason(after, b);
                lemma_stored_has_reason(before.ubs, b);
                let r = choose|r: usize| after.reasons(b).contains(r);
                assert(before.ubs.reasons(b).contains(r));
                assert(before.ubs.has(b));
            }
        }
        self.ubs = ubs;
    }

    /// The text of the variable: its value and its active bounds.
    pub fn to_string(&self) -> (s: String)
        ensures
            s@ == self@.text(),
    {
        let mut s = String::new();
        self.val.append_to(&mut s);
        s.append(" [");
        self.lb().append_to(&mut s);
        s.append(", ");
        self.ub().append_to(&mut s);
        s.append("]");
        proof {
            reveal_strlit(" [");
            reveal_strlit(", ");
            reveal_strlit("]");
            assert(s@ =~= self@.text());
        }
        s
    }
}

} // verus!
