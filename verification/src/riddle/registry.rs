//! The registry of kinds and fields.

use crate::riddle::kind::AnyKind;
use crate::riddle::kind::BoolKind;
use crate::riddle::kind::IntKind;
use crate::riddle::kind::Kind;
use crate::riddle::kind::RealKind;
use crate::riddle::scope::find_field;
use crate::riddle::scope::missing;
use crate::riddle::scope::missing_message;
use crate::riddle::scope::Field;
use crate::riddle::scope::Scope;
use vstd::prelude::*;
use vstd::string::StringExecFns;

verus! {

/// The kinds and the fields that a model knows, by name.
pub struct Core {
    fields: Vec<Field>,
    kinds: Vec<AnyKind>,
}

/// The first of the first `n` kinds that is called `key`, if there is one.
pub open spec fn kind_place(kinds: Seq<AnyKind>, key: Seq<char>, n: int) -> Option<int>
    decreases n,
{
    if n <= 0 {
        None
    } else {
        match kind_place(kinds, key, n - 1) {
            Some(i) => Some(i),
            None => if kinds[n - 1].label() == key {
                Some(n - 1)
            } else {
                None
            },
        }
    }
}

/// A kind found among the first kinds is the one found among all.
pub proof fn lemma_kind_found(kinds: Seq<AnyKind>, key: Seq<char>, i: int, n: int)
    requires
        0 <= i < n,
        kind_place(kinds, key, i).is_none(),
        kinds[i].label() == key,
    ensures
        kind_place(kinds, key, n) == Some(i),
    decreases n - i,
{
    if i + 1 < n {
        lemma_kind_found(kinds, key, i, n - 1);
    }
}

impl Core {
    /// The kinds, in the order of their registration.
    pub closed spec fn kinds(&self) -> Seq<AnyKind> {
        self.kinds@
    }

    /// The place of the kind called `key`, if one is registered.
    pub open spec fn place(&self, key: Seq<char>) -> Option<int> {
        kind_place(self.kinds(), key, self.kinds().len() as int)
    }

    /// The registry with the three built-in kinds: `bool`, `int` and `real`.
    pub fn new() -> (c: Core)
        ensures
            c.kinds().len() == 3,
            c.kinds()[0] is Bool,
            c.kinds()[1] is Int,
            c.kinds()[2] is Real,
            c.fields().len() == 0,
    {
        let mut c = Core { fields: Vec::new(), kinds: Vec::new() };
        c.kinds.push(AnyKind::Bool(BoolKind::new()));
        c.kinds.push(AnyKind::Int(IntKind::new()));
        c.kinds.push(AnyKind::Real(RealKind::new()));
        c
    }

    /// The place of the first kind called `key`.
    fn find(&self, key: &String) -> (r: Option<usize>)
        ensures
            match r {
                Some(i) => self.place(key@) == Some(i as int) && i < self.kinds().len(),
                None => self.place(key@).is_none(),
            },
    {
        let n = self.kinds.len();
        let mut i: usize = 0;
        while i < n
            invariant
                i <= n,
                n == self.kinds().len(),
                kind_place(self.kinds(), key@, i as int).is_none(),
            decreases n - i,
        {
            let name = self.kinds[i].name();
            if name == *key {
                proof {
                    lemma_kind_found(self.kinds(), key@, i as int, n as int);
                }
                return Some(i);
            }
            i += 1;
        }
        None
    }

    /// Registers `kind` under its name, in the place of the kind of that
    /// name where there is one, else after the others.
    pub fn add_kind(&mut self, kind: AnyKind)
        ensures
            final(self).fields() == old(self).fields(),
            match old(self).place(kind.label()) {
                Some(i) => final(self).kinds() == old(self).kinds().update(i, kind),
                None => final(self).kinds() == old(self).kinds().push(kind),
            },
    {
        let name = kind.name();
        match self.find(&name) {
            Some(i) => {
                self.kinds.set(i, kind);
            },
            None => {
                self.kinds.push(kind);
            },
        }
    }

    /// The kind called `key`, or a message that none was found.
    pub fn kind(&self, key: &str) -> (r: Result<&AnyKind, String>)
        ensures
            match r {
                Ok(k) => match self.place(key@) {
                    Some(i) => *k == self.kinds()[i],
                    None => false,
                },
                Err(msg) => self.place(key@).is_none() && msg@ == missing("Kind"@, key@),
            },
    {
        let wanted = String::from_str(key);
        match self.find(&wanted) {
            Some(i) => Ok(&self.kinds[i]),
            None => Err(missing_message("Kind", key)),
        }
    }

    /// Registers a field, after the others.
    pub fn add_field(&mut self, field: Field)
        ensures
            final(self).kinds() == old(self).kinds(),
            final(self).fields() == old(self).fields().push(field),
    {
        self.fields.push(field);
    }
}

impl Scope for Core {
    closed spec fn fields(&self) -> Seq<Field> {
        self.fields@
    }

    fn field(&self, key: &str) -> (r: Result<Field, String>) {
        match find_field(&self.fields, key) {
            Some(i) => Ok(self.fields[i].duplicate()),
            None => Err(missing_message("Field", key)),
        }
    }
}

} // verus!
