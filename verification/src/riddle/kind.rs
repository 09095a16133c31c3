//! Kinds: the named types of the modelling layer.

use crate::riddle::scope::find_field;
use crate::riddle::scope::missing_message;
use crate::riddle::scope::Field;
use crate::riddle::scope::Scope;
use vstd::prelude::*;
use vstd::string::StringExecFns;

verus! {

/// A named type.
pub trait Kind {
    /// The name of the kind.
    spec fn label(&self) -> Seq<char>;

    /// The name of the kind.
    fn name(&self) -> (s: String)
        ensures
            s@ == self.label(),
    ;
}

/// The kind of the Boolean objects, which the propositional engine owns.
pub struct BoolKind {}

/// The kind of the integer objects, which the arithmetic engine owns.
pub struct IntKind {}

/// The kind of the real objects, which the arithmetic engine owns.
pub struct RealKind {}

/// A kind that a model declares: a name, the names of its parents, and its fields.
pub struct ComponentKind {
    name: String,
    parents: Vec<String>,
    fields: Vec<Field>,
}

impl BoolKind {
    /// The kind called `bool`.
    pub fn new() -> (k: BoolKind)
        ensures
            k.label() == "bool"@,
    {
        BoolKind {  }
    }
}

impl IntKind {
    /// The kind called `int`.
    pub fn new() -> (k: IntKind)
        ensures
            k.label() == "int"@,
    {
        IntKind {  }
    }
}

impl RealKind {
    /// The kind called `real`.
    pub fn new() -> (k: RealKind)
        ensures
            k.label() == "real"@,
    {
        RealKind {  }
    }
}

impl Kind for BoolKind {
    open spec fn label(&self) -> Seq<char> {
        "bool"@
    }

    fn name(&self) -> (s: String) {
        String::from_str("bool")
    }
}

impl Kind for IntKind {
    open spec fn label(&self) -> Seq<char> {
        "int"@
    }

    fn name(&self) -> (s: String) {
        String::from_str("int")
    }
}

impl Kind for RealKind {
    open spec fn label(&self) -> Seq<char> {
        "real"@
    }

    fn name(&self) -> (s: String) {
        String::from_str("real")
    }
}

impl ComponentKind {
    /// The names of the parents, in the order of their declaration.
    pub closed spec fn parents(&self) -> Seq<Seq<char>> {
        Seq::new(self.parents@.len(), |i: int| self.parents@[i]@)
    }

    /// A kind called `name`, without parents and fields.
    pub fn new(name: String) -> (k: ComponentKind)
        ensures
            k.label() == name@,
            k.parents().len() == 0,
            k.fields().len() == 0,
    {
        ComponentKind { name, parents: Vec::new(), fields: Vec::new() }
    }

    /// Declares a parent.
    pub fn add_parent(&mut self, parent: String)
        ensures
            final(self).label() == old(self).label(),
            final(self).fields() == old(self).fields(),
            final(self).parents() == old(self).parents().push(parent@),
    {
        self.parents.push(parent);
        assert(self.parents() =~= old(self).parents().push(parent@));
    }

    /// Declares a field.
    pub fn add_field(&mut self, field: Field)
        ensures
            final(self).label() == old(self).label(),
            final(self).parents() == old(self).parents(),
            final(self).fields() == old(self).fields().push(field),
    {
        self.fields.push(field);
        assert(self.parents() =~= old(self).parents());
    }
}

impl Kind for ComponentKind {
    closed spec fn label(&self) -> Seq<char> {
        self.name@
    }

    fn name(&self) -> (s: String) {
        self.name.clone()
    }
}

impl Scope for ComponentKind {
    closed spec fn fields(&self) -> Seq<Field> {
        self.fields@
    }

    fn field(&self, key: &str) -> (r: Result<Field, String>) {
        match find_field(&self.fields, key) {
            Some(i) => Ok(self.fields[i].duplicate()),
            None => Err(missing_message("Field", key)),
        }
    }
}

/// Any kind: one of the three that are built in, or a declared one.
pub enum AnyKind {
    Bool(BoolKind),
    Int(IntKind),
    Real(RealKind),
    Component(ComponentKind),
}

impl Kind for AnyKind {
    open spec fn label(&self) -> Seq<char> {
        match self {
            AnyKind::Bool(k) => k.label(),
            AnyKind::Int(k) => k.label(),
            AnyKind::Real(k) => k.label(),
            AnyKind::Component(k) => k.label(),
        }
    }

    fn name(&self) -> (s: String) {
        match self {
            AnyKind::Bool(k) => k.name(),
            AnyKind::Int(k) => k.name(),
            AnyKind::Real(k) => k.name(),
            AnyKind::Component(k) => k.name(),
        }
    }
}

} // verus!
