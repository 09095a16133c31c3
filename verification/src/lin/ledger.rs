//! The mathematical model of a bound ledger: candidate bounds in ascending
//! order, each with the reasons that support it.

use crate::utils::inf_rational::lemma_inf_lt_total;
use crate::utils::inf_rational::lemma_inf_lt_transitive;
use crate::utils::inf_rational::InfRatio;
use vstd::prelude::*;

verus! {

/// Whether a set of reasons holds a reason.
pub open spec fn inhabited(s: Set<usize>) -> bool {
    exists|r: usize| s.contains(r)
}

/// The entries of a ledger: a bound and the set of its reasons each.
pub struct Ledger {
    pub entries: Seq<(InfRatio, Set<usize>)>,
}

impl Ledger {
    /// Whether the bound `k` is stored.
    pub open spec fn has(self, k: InfRatio) -> bool {
        exists|i: int| 0 <= i < self.entries.len() && (#[trigger] self.entries[i]).0 == k
    }

    /// The place of the bound `k`.
    pub open spec fn position(self, k: InfRatio) -> int {
        choose|i: int| 0 <= i < self.entries.len() && (#[trigger] self.entries[i]).0 == k
    }

    /// The reasons that support the bound `k`; none where it is not stored.
    pub open spec fn reasons(self, k: InfRatio) -> Set<usize> {
        if self.has(k) {
            self.entries[self.position(k)].1
        } else {
            Set::empty()
        }
    }

    /// The bounds strictly ascend.
    pub open spec fn sorted(self) -> bool {
        forall|i: int, j: int|
            0 <= i < j < self.entries.len() ==> (#[trigger] self.entries[i]).0.lt(
                (#[trigger] self.entries[j]).0,
            )
    }

    /// Ascending normal bounds, each with a reason: a bound without a
    /// reason is not stored.
    pub open spec fn is_normal(self) -> bool {
        &&& self.sorted()
        &&& forall|i: int|
            0 <= i < self.entries.len() ==> (#[trigger] self.entries[i]).0.is_normal()
                && inhabited(self.entries[i].1)
    }

    /// The greatest stored bound; negative infinity where none is stored.
    pub open spec fn greatest(self) -> InfRatio {
        if self.entries.len() == 0 {
            InfRatio::negative_infinity()
        } else {
            self.entries[self.entries.len() - 1].0
        }
    }

    /// The least stored bound; positive infinity where none is stored.
    pub open spec fn least(self) -> InfRatio {
        if self.entries.len() == 0 {
            InfRatio::positive_infinity()
        } else {
            self.entries[0].0
        }
    }

    /// `self` is `before` with `r` added to the reasons of `k`.
    pub open spec fn is_with(self, before: Ledger, k: InfRatio, r: usize) -> bool {
        forall|x: InfRatio|
            #[trigger] self.reasons(x) == (if x == k {
                before.reasons(k).insert(r)
            } else {
                before.reasons(x)
            })
    }

    /// `self` is `before` with `r` taken from the reasons of `k`.
    pub open spec fn is_without(self, before: Ledger, k: InfRatio, r: usize) -> bool {
        forall|x: InfRatio|
            #[trigger] self.reasons(x) == (if x == k {
                before.reasons(k).remove(r)
            } else {
                before.reasons(x)
            })
    }

    /// `self` is `before` without the bounds below `k`.
    pub open spec fn is_from(self, before: Ledger, k: InfRatio) -> bool {
        forall|x: InfRatio|
            #[trigger] self.reasons(x) == (if x.lt(k) {
                Set::empty()
            } else {
                before.reasons(x)
            })
    }

    /// `self` is `before` without the bounds above `k`.
    pub open spec fn is_up_to(self, before: Ledger, k: InfRatio) -> bool {
        forall|x: InfRatio|
            #[trigger] self.reasons(x) == (if k.lt(x) {
                Set::empty()
            } else {
                before.reasons(x)
            })
    }
}

/// In a sorted ledger the reasons of the bound at place `i` are those stored there.
pub proof fn lemma_reasons_at(f: Ledger, i: int)
    requires
        f.sorted(),
        0 <= i < f.entries.len(),
    ensures
        f.has(f.entries[i].0),
        f.position(f.entries[i].0) == i,
        f.reasons(f.entries[i].0) == f.entries[i].1,
{
    let k = f.entries[i].0;
    assert(f.has(k));
    let p = f.position(k);
    if p < i {
        assert(f.entries[p].0.lt(f.entries[i].0));
    } else if i < p {
        assert(f.entries[i].0.lt(f.entries[p].0));
    }
}

/// In a normal ledger a bound is stored exactly where it has a reason.
pub proof fn lemma_stored_has_reason(f: Ledger, k: InfRatio)
    requires
        f.is_normal(),
    ensures
        f.has(k) <==> inhabited(f.reasons(k)),
        f.has(k) ==> k.is_normal(),
{
    if f.has(k) {
        let p = f.position(k);
        assert(f.entries[p].0.is_normal());
        assert(inhabited(f.entries[p].1));
    }
}

/// The greatest bound of a normal ledger is stored, if any is, and no
/// stored bound is above it; likewise the least.
pub proof fn lemma_extremes(f: Ledger)
    requires
        f.is_normal(),
    ensures
        f.entries.len() > 0 ==> f.has(f.greatest()) && f.has(f.least()),
        forall|k: InfRatio| #[trigger] f.has(k) ==> k.le(f.greatest()) && f.least().le(k),
        f.greatest().is_normal(),
        f.least().is_normal(),
        f.entries.len() > 0 ==> f.least().le(f.greatest()),
{
    assert(InfRatio::negative_infinity().is_normal() && InfRatio::positive_infinity().is_normal())
        by {
        reveal_with_fuel(crate::utils::arith::gcd, 3);
    }
    if f.entries.len() > 0 {
        let n = f.entries.len() - 1;
        assert(f.entries[n].0 == f.greatest());
        assert(f.entries[0].0 == f.least());
        if n > 0 {
            assert(f.entries[0].0.lt(f.entries[n].0));
        }
    }
    assert forall|k: InfRatio| #[trigger] f.has(k) implies k.le(f.greatest()) && f.least().le(
        k,
    ) by {
        let p = f.position(k);
        let n = f.entries.len() - 1;
        if p < n {
            assert(f.entries[p].0.lt(f.entries[n].0));
        }
        if 0 < p {
            assert(f.entries[0].0.lt(f.entries[p].0));
        }
    }
}

/// Replacing the reasons stored at place `p` changes those of its bound only.
pub proof fn lemma_update_reasons(f: Ledger, p: int, rs: Set<usize>)
    requires
        f.sorted(),
        0 <= p < f.entries.len(),
    ensures
        (Ledger { entries: f.entries.update(p, (f.entries[p].0, rs)) }).sorted(),
        forall|x: InfRatio|
            #[trigger] (Ledger { entries: f.entries.update(p, (f.entries[p].0, rs)) }).reasons(x)
                == (if x == f.entries[p].0 {
                rs
            } else {
                f.reasons(x)
            }),
{
    let g = Ledger { entries: f.entries.update(p, (f.entries[p].0, rs)) };
    assert forall|i: int| 0 <= i < g.entries.len() implies (#[trigger] g.entries[i]).0
        == f.entries[i].0 by {}
    assert(g.sorted()) by {
        assert forall|i: int, j: int| 0 <= i < j < g.entries.len() implies (
        #[trigger] g.entries[i]).0.lt((#[trigger] g.entries[j]).0) by {
            assert(f.entries[i].0.lt(f.entries[j].0));
        }
    }
    assert forall|x: InfRatio| #[trigger] g.reasons(x) == (if x == f.entries[p].0 {
        rs
    } else {
        f.reasons(x)
    }) by {
        if g.has(x) {
            let q = g.position(x);
            lemma_reasons_at(g, q);
            assert(f.entries[q].0 == x);
            lemma_reasons_at(f, q);
        } else if f.has(x) {
            let q = f.position(x);
            assert(g.entries[q].0 == x);
        }
    }
}

/// Inserting a bound at its place in the order gives it its reasons and
/// leaves the others.
pub proof fn lemma_insert_reasons(f: Ledger, p: int, k: InfRatio, rs: Set<usize>)
    requires
        f.sorted(),
        0 <= p <= f.entries.len(),
        forall|i: int| 0 <= i < p ==> (#[trigger] f.entries[i]).0.lt(k),
        forall|i: int| p <= i < f.entries.len() ==> k.lt((#[trigger] f.entries[i]).0),
    ensures
        (Ledger { entries: f.entries.insert(p, (k, rs)) }).sorted(),
        forall|x: InfRatio|
            #[trigger] (Ledger { entries: f.entries.insert(p, (k, rs)) }).reasons(x) == (if x
                == k {
                rs
            } else {
                f.reasons(x)
            }),
{
    let g = Ledger { entries: f.entries.insert(p, (k, rs)) };
    assert forall|i: int| 0 <= i < g.entries.len() implies #[trigger] g.entries[i] == (if i < p {
        f.entries[i]
    } else if i == p {
        (k, rs)
    } else {
        f.entries[i - 1]
    }) by {}
    assert(g.sorted()) by {
        assert forall|i: int, j: int| 0 <= i < j < g.entries.len() implies (
        #[trigger] g.entries[i]).0.lt((#[trigger] g.entries[j]).0) by {
            let a = if i < p {
                i
            } else {
                i - 1
            };
            let b = if j < p {
                j
            } else {
                j - 1
            };
            if i != p && j != p {
                assert(f.entries[a].0.lt(f.entries[b].0));
            } else if i == p {
                assert(k.lt(f.entries[b].0));
            } else {
                assert(f.entries[a].0.lt(k));
            }
        }
    }
    assert forall|x: InfRatio| #[trigger] g.reasons(x) == (if x == k {
        rs
    } else {
        f.reasons(x)
    }) by {
        if g.has(x) {
            let q = g.position(x);
            lemma_reasons_at(g, q);
            if q < p {
                assert(f.entries[q].0 == x);
                lemma_reasons_at(f, q);
                assert(f.entries[q].0.lt(k));
            } else if q > p {
                assert(f.entries[q - 1].0 == x);
                lemma_reasons_at(f, q - 1);
                assert(k.lt(f.entries[q - 1].0));
            }
        } else {
            if x == k {
                assert(g.entries[p].0 == k);
            } else if f.has(x) {
                let q = f.position(x);
                if q < p {
                    assert(g.entries[q].0 == x);
                } else {
                    assert(g.entries[q + 1].0 == x);
                }
            }
        }
    }
}

/// Removing the entry at place `p` leaves its bound without reasons and
/// the others as they were.
pub proof fn lemma_remove_reasons(f: Ledger, p: int)
    requires
        f.sorted(),
        0 <= p < f.entries.len(),
    ensures
        (Ledger { entries: f.entries.remove(p) }).sorted(),
        forall|x: InfRatio|
            #[trigger] (Ledger { entries: f.entries.remove(p) }).reasons(x) == (if x
                == f.entries[p].0 {
                Set::empty()
            } else {
                f.reasons(x)
            }),
{
    let g = Ledger { entries: f.entries.remove(p) };
    assert forall|i: int| 0 <= i < g.entries.len() implies #[trigger] g.entries[i] == (if i < p {
        f.entries[i]
    } else {
        f.entries[i + 1]
    }) by {}
    assert(g.sorted()) by {
        assert forall|i: int, j: int| 0 <= i < j < g.entries.len() implies (
        #[trigger] g.entries[i]).0.lt((#[trigger] g.entries[j]).0) by {
            let a = if i < p {
                i
            } else {
                i + 1
            };
            let b = if j < p {
                j
            } else {
                j + 1
            };
            assert(f.entries[a].0.lt(f.entries[b].0));
        }
    }
    lemma_reasons_at(f, p);
    assert forall|x: InfRatio| #[trigger] g.reasons(x) == (if x == f.entries[p].0 {
        Set::empty()
    } else {
        f.reasons(x)
    }) by {
        if g.has(x) {
            let q = g.position(x);
            lemma_reasons_at(g, q);
            let a = if q < p {
                q
            } else {
                q + 1
            };
            assert(f.entries[a].0 == x);
            lemma_reasons_at(f, a);
            if a < p {
                assert(f.entries[a].0.lt(f.entries[p].0));
            } else {
                assert(f.entries[p].0.lt(f.entries[a].0));
            }
        } else if f.has(x) {
            let q = f.position(x);
            if q < p {
                assert(g.entries[q].0 == x);
            } else if q > p {
                assert(g.entries[q - 1].0 == x);
            }
        }
    }
}

/// Keeping the entries from place `p` on leaves the bounds stored there
/// and forgets the others.
pub proof fn lemma_suffix_reasons(f: Ledger, p: int)
    requires
        f.sorted(),
        0 <= p <= f.entries.len(),
    ensures
        (Ledger { entries: f.entries.subrange(p, f.entries.len() as int) }).sorted(),
        forall|x: InfRatio|
            #[trigger] (Ledger { entries: f.entries.subrange(p, f.entries.len() as int) }).reasons(
                x,
            ) == (if f.has(x) && f.position(x) >= p {
                f.reasons(x)
            } else {
                Set::empty()
            }),
{
    let g = Ledger { entries: f.entries.subrange(p, f.entries.len() as int) };
    assert forall|i: int| 0 <= i < g.entries.len() implies #[trigger] g.entries[i] == f.entries[i
        + p] by {}
    assert(g.sorted()) by {
        assert forall|i: int, j: int| 0 <= i < j < g.entries.len() implies (
        #[trigger] g.entries[i]).0.lt((#[trigger] g.entries[j]).0) by {
            assert(f.entries[i + p].0.lt(f.entries[j + p].0));
        }
    }
    assert forall|x: InfRatio| #[trigger] g.reasons(x) == (if f.has(x) && f.position(x) >= p {
        f.reasons(x)
    } else {
        Set::empty()
    }) by {
        if g.has(x) {
            let q = g.position(x);
            lemma_reasons_at(g, q);
            assert(f.entries[q + p].0 == x);
            lemma_reasons_at(f, q + p);
        } else if f.has(x) && f.position(x) >= p {
            let q = f.position(x);
            assert(g.entries[q - p].0 == x);
        }
    }
}

/// Keeping the entries before place `p` leaves the bounds stored there
/// and forgets the others.
pub proof fn lemma_prefix_reasons(f: Ledger, p: int)
    requires
        f.sorted(),
        0 <= p <= f.entries.len(),
    ensures
        (Ledger { entries: f.entries.subrange(0, p) }).sorted(),
        forall|x: InfRatio|
            #[trigger] (Ledger { entries: f.entries.subrange(0, p) }).reasons(x) == (if f.has(x)
                && f.position(x) < p {
                f.reasons(x)
            } else {
                Set::empty()
            }),
{
    let g = Ledger { entries: f.entries.subrange(0, p) };
    assert forall|i: int| 0 <= i < g.entries.len() implies #[trigger] g.entries[i]
        == f.entries[i] by {}
    assert(g.sorted()) by {
        assert forall|i: int, j: int| 0 <= i < j < g.entries.len() implies (
        #[trigger] g.entries[i]).0.lt((#[trigger] g.entries[j]).0) by {
            assert(f.entries[i].0.lt(f.entries[j].0));
        }
    }
    assert forall|x: InfRatio| #[trigger] g.reasons(x) == (if f.has(x) && f.position(x) < p {
        f.reasons(x)
    } else {
        Set::empty()
    }) by {
        if g.has(x) {
            let q = g.position(x);
            lemma_reasons_at(g, q);
            assert(f.entries[q].0 == x);
            lemma_reasons_at(f, q);
        } else if f.has(x) && f.position(x) < p {
            let q = f.position(x);
            assert(g.entries[q].0 == x);
        }
    }
}

/// In a normal ledger whose entries before place `p` are below `k` and
/// whose others are not, the bounds below `k` are those before `p`.
pub proof fn lemma_split(f: Ledger, p: int, k: InfRatio)
    requires
        f.is_normal(),
        k.is_normal(),
        0 <= p <= f.entries.len(),
        forall|i: int| 0 <= i < p ==> (#[trigger] f.entries[i]).0.lt(k),
        p < f.entries.len() ==> !f.entries[p].0.lt(k),
    ensures
        forall|x: InfRatio| #[trigger] f.has(x) ==> (x.lt(k) <==> f.position(x) < p),
        forall|i: int|
            p <= i < f.entries.len() && (#[trigger] f.entries[i]).0 != k ==> k.lt(f.entries[i].0),
        forall|i: int| p < i < f.entries.len() ==> k.lt((#[trigger] f.entries[i]).0),
{
    assert forall|i: int| p <= i < f.entries.len() implies !(#[trigger] f.entries[i]).0.lt(k)
        && (f.entries[i].0 != k ==> k.lt(f.entries[i].0)) && (i > p ==> k.lt(f.entries[i].0)) by {
        let e = f.entries[i].0;
        let ep = f.entries[p].0;
        lemma_inf_lt_total(ep, k);
        lemma_inf_lt_total(e, k);
        if i > p {
            assert(ep.lt(e));
            if e.lt(k) {
                lemma_inf_lt_transitive(ep, e, k);
            }
            if ep == k {
            } else {
                lemma_inf_lt_transitive(k, ep, e);
            }
        }
    }
    assert forall|x: InfRatio| #[trigger] f.has(x) implies (x.lt(k) <==> f.position(x) < p) by {
        let q = f.position(x);
        if q >= p {
            assert(!f.entries[q].0.lt(k));
        }
    }
}

} // verus!
