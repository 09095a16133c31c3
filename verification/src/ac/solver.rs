//! Finite-domain variables over opaque values.
//!
//! A value is known to the engine by its handle alone: two values are the
//! same exactly where their handles are. Whoever owns the values keeps
//! them in a `Values` table, which hands out one handle per value.

use vstd::prelude::*;

verus! {

/// What is told of the changes of a variable.
pub trait Listener {
    /// The variables that the listener was told of so far, the first one
    /// first. A listener says here what it keeps of its calls; one that
    /// keeps nothing cannot meet what `on_update` asks.
    open spec fn heard(&self) -> Seq<usize> {
        Seq::empty()
    }

    /// Called once for every change of `var` that the listener subscribed
    /// to: the listener has then heard of `var`, after all it had heard of.
    fn on_update(&mut self, var: usize)
        ensures
            final(self).heard() == old(self).heard().push(var),
    ;
}

/// The variables of the first `n` notices that name listener `id`, in the
/// order of the notices.
pub open spec fn told(notes: Seq<(usize, usize)>, id: usize, n: int) -> Seq<usize>
    decreases n,
{
    if n <= 0 {
        Seq::empty()
    } else if notes[n - 1].0 == id {
        told(notes, id, n - 1).push(notes[n - 1].1)
    } else {
        told(notes, id, n - 1)
    }
}

/// What a domain holds. The engine never looks inside.
pub trait Value {

}

/// The values that handles stand for: the handle of a value is its place.
pub struct Values<V: Value> {
    items: Vec<V>,
}

impl<V: Value> Values<V> {
    /// The number of values.
    pub closed spec fn count(&self) -> nat {
        self.items@.len()
    }

    /// The value behind `handle`.
    pub closed spec fn at(&self, handle: usize) -> V {
        self.items@[handle as int]
    }

    /// A table without values.
    pub fn new() -> (t: Values<V>)
        ensures
            t.count() == 0,
    {
        Values { items: Vec::new() }
    }

    /// Takes a value in; its handle is the number of values before. Two
    /// values taken in get two handles, whatever they hold.
    pub fn add(&mut self, value: V) -> (handle: usize)
        ensures
            handle == old(self).count(),
            final(self).count() == old(self).count() + 1,
            final(self).at(handle) == value,
            forall|h: usize| h < old(self).count() ==> #[trigger] final(self).at(h) == old(self).at(h),
    {
        self.items.push(value);
        self.items.len() - 1
    }

    /// The value behind `handle`.
    pub fn get(&self, handle: usize) -> (v: &V)
        requires
            handle < self.count(),
        ensures
            *v == self.at(handle),
    {
        &self.items[handle]
    }
}

/// A finite-domain variable.
struct Var {
    /// The values that the variable had at the start, each once.
    init_domain: Vec<usize>,
    /// The values that are still allowed, each once, in the order of the start.
    domain: Vec<usize>,
}

/// The arc-consistency engine.
pub struct Solver {
    vars: Vec<Var>,
    /// The variable that each listener subscribed to, by listener.
    listeners: Vec<usize>,
    /// The restrictions that listeners have not been told of yet: each a
    /// listener and the variable restricted.
    notifications: Vec<(usize, usize)>,
}

/// The first occurrences of the first `n` elements of `s`, in order.
pub open spec fn distinct(s: Seq<usize>, n: int) -> Seq<usize>
    decreases n,
{
    if n <= 0 {
        Seq::empty()
    } else if distinct(s, n - 1).contains(s[n - 1]) {
        distinct(s, n - 1)
    } else {
        distinct(s, n - 1).push(s[n - 1])
    }
}

/// The notices that a restriction of `var` owes to the first `n`
/// listeners: one for each that subscribed to `var`, in the order of
/// subscription.
pub open spec fn notices(listeners: Seq<usize>, var: usize, n: int) -> Seq<(usize, usize)>
    decreases n,
{
    if n <= 0 {
        Seq::empty()
    } else if listeners[n - 1] == var {
        notices(listeners, var, n - 1).push(((n - 1) as usize, var))
    } else {
        notices(listeners, var, n - 1)
    }
}

/// The place of `x` in `s`, or the length of `s` where it is not in it.
fn index_of(s: &Vec<usize>, x: usize) -> (p: usize)
    ensures
        p <= s@.len(),
        p < s@.len() ==> s@[p as int] == x,
        p == s@.len() ==> !s@.contains(x),
{
    let mut p: usize = 0;
    while p < s.len()
        invariant
            p <= s@.len(),
            forall|i: int| 0 <= i < p ==> s@[i] != x,
        decreases s.len() - p,
    {
        if s[p] == x {
            return p;
        }
        p += 1;
    }
    p
}

/// The distinct elements of a list hold no element twice and hold what the list holds.
pub proof fn lemma_distinct(s: Seq<usize>, n: int)
    requires
        0 <= n <= s.len(),
    ensures
        distinct(s, n).no_duplicates(),
        distinct(s, n).len() <= n,
        forall|x: usize|
            #[trigger] distinct(s, n).contains(x) <==> exists|i: int| 0 <= i < n && s[i] == x,
    decreases n,
{
    if n > 0 {
        lemma_distinct(s, n - 1);
        let d = distinct(s, n - 1);
        let e = distinct(s, n);
        assert forall|x: usize| #[trigger] e.contains(x) <==> exists|i: int|
            0 <= i < n && s[i] == x by {
            if e.contains(x) {
                let j = choose|j: int| 0 <= j < e.len() && e[j] == x;
                if j < d.len() {
                    assert(d[j] == x);
                    assert(d.contains(x));
                    let i = choose|i: int| 0 <= i < n - 1 && s[i] == x;
                    assert(0 <= i < n && s[i] == x);
                } else {
                    assert(s[n - 1] == x);
                }
            }
            if exists|i: int| 0 <= i < n && s[i] == x {
                let i = choose|i: int| 0 <= i < n && s[i] == x;
                if i < n - 1 {
                    assert(d.contains(x));
                    let j = choose|j: int| 0 <= j < d.len() && d[j] == x;
                    assert(e[j] == x);
                } else if d.contains(x) {
                    let j = choose|j: int| 0 <= j < d.len() && d[j] == x;
                    assert(e[j] == x);
                } else {
                    assert(e[d.len() as int] == x);
                }
            }
        }
        if !d.contains(s[n - 1]) {
            assert forall|a: int, b: int| 0 <= a < e.len() && 0 <= b < e.len() && a != b implies e[a]
                != e[b] by {
                if a < d.len() && b < d.len() {
                    assert(d[a] != d[b]);
                } else if a < d.len() {
                    assert(d[a] == e[a]);
                    assert(d.contains(e[a]));
                } else {
                    assert(d[b] == e[b]);
                    assert(d.contains(e[b]));
                }
            }
        }
    }
}

impl Solver {
    pub closed spec fn num_vars(&self) -> nat {
        self.vars@.len()
    }

    /// The values that `var` had at the start.
    pub closed spec fn initial(&self, var: usize) -> Seq<usize> {
        self.vars@[var as int].init_domain@
    }

    /// The values that `var` may still take.
    pub closed spec fn current(&self, var: usize) -> Seq<usize> {
        self.vars@[var as int].domain@
    }

    /// The variable that each listener subscribed to.
    pub closed spec fn subscriptions(&self) -> Seq<usize> {
        self.listeners@
    }

    /// The notices not yet taken: a listener and the restricted variable each.
    pub closed spec fn pending_notices(&self) -> Seq<(usize, usize)> {
        self.notifications@
    }

    /// No domain holds a value twice, and what a variable may still take
    /// it could take at the start.
    pub open spec fn wf(&self) -> bool {
        &&& forall|v: usize|
            v < self.num_vars() ==> (#[trigger] self.initial(v)).no_duplicates() && self.current(
                v,
            ).no_duplicates()
        &&& forall|v: usize, x: usize|
            v < self.num_vars() && #[trigger] self.current(v).contains(x) ==> self.initial(
                v,
            ).contains(x)
        &&& forall|i: int|
            0 <= i < self.subscriptions().len() ==> (#[trigger] self.subscriptions()[i])
                < self.num_vars()
    }

    /// The engine without variables.
    pub fn new() -> (s: Solver)
        ensures
            s.wf(),
            s.num_vars() == 0,
            s.subscriptions().len() == 0,
            s.pending_notices().len() == 0,
    {
        Solver { vars: Vec::new(), listeners: Vec::new(), notifications: Vec::new() }
    }

    /// The number of variables.
    pub fn var_count(&self) -> (n: usize)
        ensures
            n == self.num_vars(),
    {
        self.vars.len()
    }

    /// Installs a variable whose domain holds the values of `domain`, each
    /// once, in the order of their first occurrence. Its index is the
    /// number of variables before.
    pub fn add_var(&mut self, domain: Vec<usize>) -> (id: usize)
        requires
            old(self).wf(),
        ensures
            final(self).wf(),
            id == old(self).num_vars(),
            final(self).num_vars() == old(self).num_vars() + 1,
            final(self).initial(id) == distinct(domain@, domain@.len() as int),
            final(self).current(id) == final(self).initial(id),
            forall|v: usize|
                v < old(self).num_vars() ==> #[trigger] final(self).initial(v) == old(self).initial(
                    v,
                ),
            forall|v: usize|
                v < old(self).num_vars() ==> #[trigger] final(self).current(v) == old(self).current(
                    v,
                ),
            final(self).subscriptions() == old(self).subscriptions(),
            final(self).pending_notices() == old(self).pending_notices(),
    {
        let n = domain.len();
        let mut init: Vec<usize> = Vec::new();
        let mut cur: Vec<usize> = Vec::new();
        let mut i: usize = 0;
        while i < n
            invariant
                i <= n,
                n == domain@.len(),
                init@ == distinct(domain@, i as int),
                cur@ == init@,
            decreases n - i,
        {
            let x = domain[i];
            if index_of(&init, x) == init.len() {
                init.push(x);
                cur.push(x);
            }
            i += 1;
        }
        proof {
            lemma_distinct(domain@, n as int);
        }
        let id = self.vars.len();
        self.vars.push(Var { init_domain: init, domain: cur });
        proof {
            assert forall|v: usize| v < self.num_vars() implies (#[trigger] self.initial(
                v,
            )).no_duplicates() && self.current(v).no_duplicates() by {
                if v < id {
                    assert(old(self).initial(v).no_duplicates());
                }
            }
            assert forall|v: usize, x: usize|
                v < self.num_vars() && #[trigger] self.current(v).contains(
                    x,
                ) implies self.initial(v).contains(x) by {
                if v < id {
                    assert(old(self).current(v).contains(x));
                }
            }
            assert forall|k: int| 0 <= k < self.subscriptions().len() implies (
            #[trigger] self.subscriptions()[k]) < self.num_vars() by {
                assert(old(self).subscriptions()[k] < old(self).num_vars());
            }
        }
        id
    }

    /// The values that `var` may still take.
    pub fn domain(&self, var: usize) -> (d: Vec<usize>)
        requires
            var < self.num_vars(),
        ensures
            d@ == self.current(var),
    {
        let n = self.vars[var].domain.len();
        let mut d: Vec<usize> = Vec::new();
        let mut i: usize = 0;
        while i < n
            invariant
                i <= n,
                var < self.num_vars(),
                n == self.current(var).len(),
                d@ == self.current(var).subrange(0, i as int),
            decreases n - i,
        {
            d.push(self.vars[var].domain[i]);
            i += 1;
            assert(d@ =~= self.current(var).subrange(0, i as int));
        }
        assert(d@ =~= self.current(var));
        d
    }

    /// Subscribes a listener to the restrictions of `var`; the listener's
    /// number is the number of listeners before.
    pub fn add_listener(&mut self, var: usize) -> (id: usize)
        requires
            old(self).wf(),
            var < old(self).num_vars(),
        ensures
            final(self).wf(),
            id == old(self).subscriptions().len(),
            final(self).subscriptions() == old(self).subscriptions().push(var),
            final(self).num_vars() == old(self).num_vars(),
            forall|v: usize|
                v < final(self).num_vars() ==> #[trigger] final(self).initial(v) == old(
                    self,
                ).initial(v),
            forall|v: usize|
                v < final(self).num_vars() ==> #[trigger] final(self).current(v) == old(
                    self,
                ).current(v),
            final(self).pending_notices() == old(self).pending_notices(),
    {
        let id = self.listeners.len();
        self.listeners.push(var);
        proof {
            assert forall|v: usize| v < self.num_vars() implies (#[trigger] self.initial(
                v,
            )).no_duplicates() && self.current(v).no_duplicates() by {
                assert(old(self).initial(v).no_duplicates());
            }
            assert forall|v: usize, x: usize|
                v < self.num_vars() && #[trigger] self.current(v).contains(
                    x,
                ) implies self.initial(v).contains(x) by {
                assert(old(self).current(v).contains(x));
            }
            assert forall|k: int| 0 <= k < self.subscriptions().len() implies (
            #[trigger] self.subscriptions()[k]) < self.num_vars() by {
                if k < old(self).subscriptions().len() {
                    assert(old(self).subscriptions()[k] < old(self).num_vars());
                }
            }
        }
        id
    }

    /// Takes `value` out of the domain of `var`.
    ///
    /// The restriction succeeds where the value was still allowed; every
    /// listener of `var` is then owed one notice, in the order of
    /// subscription. Otherwise nothing changes.
    pub fn remove(&mut self, var: usize, value: usize) -> (changed: bool)
        requires
            old(self).wf(),
            var < old(self).num_vars(),
        ensures
            final(self).wf(),
            changed == old(self).current(var).contains(value),
            final(self).num_vars() == old(self).num_vars(),
            final(self).subscriptions() == old(self).subscriptions(),
            forall|v: usize|
                v < final(self).num_vars() ==> #[trigger] final(self).initial(v) == old(
                    self,
                ).initial(v),
            forall|v: usize|
                v < final(self).num_vars() && v != var ==> #[trigger] final(self).current(v) == old(
                    self,
                ).current(v),
            !final(self).current(var).contains(value),
            forall|x: usize|
                x != value ==> (#[trigger] final(self).current(var).contains(x) <==> old(
                    self,
                ).current(var).contains(x)),
            changed ==> final(self).current(var) == old(self).current(var).remove(
                old(self).current(var).index_of(value),
            ),
            !changed ==> final(self).current(var) == old(self).current(var),
            final(self).pending_notices() == old(self).pending_notices() + (if changed {
                notices(old(self).subscriptions(), var, old(self).subscriptions().len() as int)
            } else {
                Seq::empty()
            }),
    {
        let p = index_of(&self.vars[var].domain, value);
        if p == self.vars[var].domain.len() {
            assert(self.pending_notices() =~= old(self).pending_notices() + Seq::<
                (usize, usize),
            >::empty());
            return false;
        }
        let ghost before = old(self).current(var);
        proof {
            assert(old(self).initial(var).no_duplicates());
            assert(before.no_duplicates());
            assert(before.contains(value));
            assert(before.index_of(value) == p) by {
                let q = before.index_of(value);
                assert(before[q] == value);
            }
        }
        self.vars[var].domain.remove(p);
        proof {
            let after = self.current(var);
            assert(after == before.remove(p as int));
            assert forall|i: int| 0 <= i < after.len() implies #[trigger] after[i] == (if i < p {
                before[i]
            } else {
                before[i + 1]
            }) by {}
            assert forall|x: usize| x != value implies (#[trigger] after.contains(x)
                <==> before.contains(x)) by {
                if after.contains(x) {
                    let i = choose|i: int| 0 <= i < after.len() && after[i] == x;
                    let j = if i < p {
                        i
                    } else {
                        i + 1
                    };
                    assert(before[j] == x);
                }
                if before.contains(x) {
                    let i = choose|i: int| 0 <= i < before.len() && before[i] == x;
                    let j = if i < p {
                        i
                    } else {
                        i - 1
                    };
                    assert(after[j] == x);
                }
            }
            assert(!after.contains(value)) by {
                if after.contains(value) {
                    let i = choose|i: int| 0 <= i < after.len() && after[i] == value;
                    let j = if i < p {
                        i
                    } else {
                        i + 1
                    };
                    assert(before[j] == value);
                }
            }
            assert(after.no_duplicates()) by {
                assert forall|a: int, b: int|
                    0 <= a < after.len() && 0 <= b < after.len() && a != b implies after[a]
                    != after[b] by {
                    let a2 = if a < p {
                        a
                    } else {
                        a + 1
                    };
                    let b2 = if b < p {
                        b
                    } else {
                        b + 1
                    };
                    assert(before[a2] != before[b2]);
                }
            }
        }
        let ghost mid = *self;
        let n = self.listeners.len();
        let mut i: usize = 0;
        assert(self.notifications@ =~= mid.notifications@ + notices(self.listeners@, var, 0));
        while i < n
            invariant
                i <= n,
                n == self.listeners@.len(),
                self.vars == mid.vars,
                self.listeners == mid.listeners,
                self.notifications@ == mid.notifications@ + notices(
                    self.listeners@,
                    var,
                    i as int,
                ),
            decreases n - i,
        {
            if self.listeners[i] == var {
                self.notifications.push((i, var));
            }
            i += 1;
            assert(self.notifications@ =~= mid.notifications@ + notices(
                self.listeners@,
                var,
                i as int,
            ));
        }
        proof {
            assert forall|v: usize| v < self.num_vars() implies (#[trigger] self.initial(
                v,
            )).no_duplicates() && self.current(v).no_duplicates() by {
                assert(old(self).initial(v).no_duplicates());
                if v != var {
                    assert(self.current(v) == old(self).current(v));
                }
            }
            assert forall|v: usize, x: usize|
                v < self.num_vars() && #[trigger] self.current(v).contains(
                    x,
                ) implies self.initial(v).contains(x) by {
                if v != var {
                    assert(old(self).current(v).contains(x));
                } else {
                    assert(old(self).current(v).contains(x));
                }
            }
            assert forall|k: int| 0 <= k < self.subscriptions().len() implies (
            #[trigger] self.subscriptions()[k]) < self.num_vars() by {
                assert(old(self).subscriptions()[k] < old(self).num_vars());
            }
        }
        true
    }

    /// Hands out the notices owed so far, in order; none is owed afterwards.
    pub fn take_notifications(&mut self) -> (notes: Vec<(usize, usize)>)
        requires
            old(self).wf(),
        ensures
            final(self).wf(),
            notes@ == old(self).pending_notices(),
            final(self).pending_notices().len() == 0,
            final(self).num_vars() == old(self).num_vars(),
            final(self).subscriptions() == old(self).subscriptions(),
            forall|v: usize|
                v < final(self).num_vars() ==> #[trigger] final(self).initial(v) == old(
                    self,
                ).initial(v),
            forall|v: usize|
                v < final(self).num_vars() ==> #[trigger] final(self).current(v) == old(
                    self,
                ).current(v),
    {
        let mut notes: Vec<(usize, usize)> = Vec::new();
        std::mem::swap(&mut self.notifications, &mut notes);
        proof {
            assert forall|v: usize| v < self.num_vars() implies (#[trigger] self.initial(
                v,
            )).no_duplicates() && self.current(v).no_duplicates() by {
                assert(old(self).initial(v).no_duplicates());
            }
            assert forall|v: usize, x: usize|
                v < self.num_vars() && #[trigger] self.current(v).contains(
                    x,
                ) implies self.initial(v).contains(x) by {
                assert(old(self).current(v).contains(x));
            }
            assert forall|k: int| 0 <= k < self.subscriptions().len() implies (
            #[trigger] self.subscriptions()[k]) < self.num_vars() by {
                assert(old(self).subscriptions()[k] < old(self).num_vars());
            }
        }
        notes
    }
}

/// Tells the listeners of what they are owed: for each notice in order,
/// the listener that it names is called with the variable that it names.
/// A notice that names no listener of `listeners` is passed over. So each
/// listener has heard, after all it had heard before, of the variables of
/// the notices that name it, in the order of the notices.
pub fn deliver<L: Listener>(notes: &Vec<(usize, usize)>, listeners: &mut Vec<L>)
    ensures
        final(listeners)@.len() == old(listeners)@.len(),
        forall|k: int|
            0 <= k < old(listeners)@.len() ==> (#[trigger] final(listeners)@[k]).heard() == old(
                listeners,
            )@[k].heard() + told(notes@, k as usize, notes@.len() as int),
{
    let n = notes.len();
    let mut i: usize = 0;
    assert forall|k: int| 0 <= k < listeners@.len() implies (#[trigger] listeners@[k]).heard()
        =~= old(listeners)@[k].heard() + told(notes@, k as usize, 0) by {}
    while i < n
        invariant
            i <= n,
            n == notes@.len(),
            listeners@.len() == old(listeners)@.len(),
            forall|k: int|
                0 <= k < listeners@.len() ==> (#[trigger] listeners@[k]).heard() == old(
                    listeners,
                )@[k].heard() + told(notes@, k as usize, i as int),
        decreases n - i,
    {
        let (id, var) = notes[i];
        let ghost before = listeners@;
        if id < listeners.len() {
            listeners[id].on_update(var);
        }
        i += 1;
        assert forall|k: int| 0 <= k < listeners@.len() implies (#[trigger] listeners@[k]).heard()
            =~= old(listeners)@[k].heard() + told(notes@, k as usize, i as int) by {
            assert(before[k].heard() == old(listeners)@[k].heard() + told(
                notes@,
                k as usize,
                i as int - 1,
            ));
        }
    }
}

} // verus!
