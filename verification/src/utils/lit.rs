//! Signed references to Boolean variables.

use crate::utils::text::append_decimal;
use crate::utils::text::decimal;
use std::cmp::Ordering;
use vstd::prelude::*;
use vstd::std_specs::cmp::PartialOrdSpecImpl;
use vstd::std_specs::ops::NotSpecImpl;
use vstd::string::StringExecFns;

verus! {

/// A truth value that may be undetermined.
#[derive(Debug, Clone, Copy, PartialEq, Eq, Structural)]
pub enum LBool {
    True,
    False,
    Undef,
}

impl Default for LBool {
    fn default() -> (b: LBool)
        ensures
            b == LBool::Undef,
    {
        LBool::Undef
    }
}

impl LBool {
    /// The name of the value.
    pub open spec fn text(self) -> Seq<char> {
        match self {
            LBool::True => seq!['T', 'r', 'u', 'e'],
            LBool::False => seq!['F', 'a', 'l', 's', 'e'],
            LBool::Undef => seq!['U', 'n', 'd', 'e', 'f'],
        }
    }

    /// The name of the value.
    pub fn name(&self) -> (s: &'static str)
        ensures
            s@ == self.text(),
    {
        proof {
            reveal_strlit("True");
            reveal_strlit("False");
            reveal_strlit("Undef");
        }
        let s = match self {
            LBool::True => "True",
            LBool::False => "False",
            LBool::Undef => "Undef",
        };
        assert(s@ =~= self.text());
        s
    }
}

/// A Boolean variable together with a sign: the variable itself where the
/// sign is `true`, its negation where it is `false`.
#[derive(Debug, Clone, Copy, PartialEq, Eq, Structural)]
pub struct Lit {
    x: usize,
    sign: bool,
}

impl Lit {
    pub closed spec fn spec_var(&self) -> usize {
        self.x
    }

    pub closed spec fn spec_is_positive(&self) -> bool {
        self.sign
    }

    /// The literal over `x` with the given sign, as a specification value.
    pub closed spec fn of(x: usize, sign: bool) -> Lit {
        Lit { x, sign }
    }

    /// The literal over the same variable with the other sign.
    pub open spec fn negated(self) -> Lit {
        Lit::of(self.var(), !self.is_positive())
    }

    /// Lexicographic order on the variable, then on the sign, `false` first.
    pub open spec fn precedes(self, other: Lit) -> bool {
        self.var() < other.var() || (self.var() == other.var() && !self.is_positive()
            && other.is_positive())
    }

    /// The text of a literal: the variable's index, after `¬` where negative.
    pub open spec fn text(self) -> Seq<char> {
        if self.is_positive() {
            decimal(self.var() as nat)
        } else {
            seq!['¬'] + decimal(self.var() as nat)
        }
    }

    /// A literal is its variable and its sign, nothing else.
    pub proof fn lemma_determined(a: Lit, b: Lit)
        ensures
            (a.var() == b.var() && a.is_positive() == b.is_positive()) <==> a == b,
            a == Lit::of(a.var(), a.is_positive()),
    {
    }

    /// What `of` builds.
    pub proof fn lemma_of(x: usize, sign: bool)
        ensures
            Lit::of(x, sign).var() == x,
            Lit::of(x, sign).is_positive() == sign,
    {
    }

    /// Negating twice gives the literal back.
    pub proof fn lemma_double_negation(a: Lit)
        ensures
            a.negated().negated() == a,
            a.negated() != a,
            a.negated().var() == a.var(),
    {
    }

    /// The order is strict and total: irreflexive, transitive, and any two
    /// different literals are comparable in exactly one direction.
    pub proof fn lemma_order_strict_total(a: Lit, b: Lit, c: Lit)
        ensures
            !a.precedes(a),
            a.precedes(b) && b.precedes(c) ==> a.precedes(c),
            a.precedes(b) || b.precedes(a) || a == b,
            !(a.precedes(b) && b.precedes(a)),
    {
    }

    pub fn new(x: usize, sign: bool) -> (l: Lit)
        ensures
            l == Lit::of(x, sign),
            l.var() == x,
            l.is_positive() == sign,
    {
        Lit { x, sign }
    }

    /// The variable the literal refers to.
    #[verifier::when_used_as_spec(spec_var)]
    pub fn var(&self) -> (v: usize)
        ensures
            v == self.var(),
    {
        self.x
    }

    /// Whether the literal is the variable itself rather than its negation.
    #[verifier::when_used_as_spec(spec_is_positive)]
    pub fn is_positive(&self) -> (b: bool)
        ensures
            b == self.is_positive(),
    {
        self.sign
    }

    /// Whether `self` comes strictly before `other`.
    pub fn is_less_than(&self, other: &Lit) -> (b: bool)
        ensures
            b == self.precedes(*other),
    {
        self.x < other.x || (self.x == other.x && !self.sign && other.sign)
    }

    /// The text of the literal.
    pub fn to_string(&self) -> (s: String)
        ensures
            s@ == self.text(),
    {
        let mut s = String::new();
        if !self.sign {
            s.append("¬");
            proof {
                reveal_strlit("¬");
            }
        }
        append_decimal(&mut s, self.x as u128);
        assert(s@ =~= self.text());
        s
    }
}

impl core::ops::Not for Lit {
    type Output = Lit;

    fn not(self) -> (l: Lit)
        ensures
            l == self.negated(),
    {
        Lit { x: self.x, sign: !self.sign }
    }
}

impl NotSpecImpl for Lit {
    open spec fn obeys_not_spec() -> bool {
        true
    }

    open spec fn not_req(self) -> bool {
        true
    }

    open spec fn not_spec(self) -> Lit {
        self.negated()
    }
}

impl PartialOrd for Lit {
    fn partial_cmp(&self, other: &Lit) -> (o: Option<Ordering>) {
        if self.is_less_than(other) {
            Some(Ordering::Less)
        } else if other.is_less_than(self) {
            Some(Ordering::Greater)
        } else {
            Some(Ordering::Equal)
        }
    }
}

impl PartialOrdSpecImpl for Lit {
    open spec fn obeys_partial_cmp_spec() -> bool {
        true
    }

    open spec fn partial_cmp_spec(&self, other: &Lit) -> Option<Ordering> {
        if self.precedes(*other) {
            Some(Ordering::Less)
        } else if other.precedes(*self) {
            Some(Ordering::Greater)
        } else {
            Some(Ordering::Equal)
        }
    }
}

} // verus!
