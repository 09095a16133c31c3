//! Typed objects: each wraps what one engine holds for it.

use crate::riddle::env::Component;
use crate::utils::lin::Lin;
use crate::utils::lin_form::LinForm;
use crate::utils::lit::Lit;
use vstd::prelude::*;
use vstd::string::StringExecFns;

verus! {

/// A Boolean object: a literal of the propositional engine.
pub struct BoolObject {
    lit: Lit,
}

/// An integer object: a linear form of the arithmetic engine.
pub struct IntObject {
    lin: Lin,
}

/// A real object: a linear form of the arithmetic engine.
pub struct RealObject {
    lin: Lin,
}

impl BoolObject {
    pub closed spec fn literal(&self) -> Lit {
        self.lit
    }

    pub fn new(lit: Lit) -> (o: BoolObject)
        ensures
            o.literal() == lit,
    {
        BoolObject { lit }
    }

    /// The literal that the object stands for.
    pub fn lit(&self) -> (l: Lit)
        ensures
            l == self.literal(),
    {
        self.lit
    }
}

impl IntObject {
    pub closed spec fn form(&self) -> LinForm {
        self.lin@
    }

    pub fn new(lin: Lin) -> (o: IntObject)
        ensures
            o.form() == lin@,
    {
        IntObject { lin }
    }

    /// The linear form that the object stands for.
    pub fn lin(&self) -> (l: &Lin)
        ensures
            l@ == self.form(),
    {
        &self.lin
    }
}

impl RealObject {
    pub closed spec fn form(&self) -> LinForm {
        self.lin@
    }

    pub fn new(lin: Lin) -> (o: RealObject)
        ensures
            o.form() == lin@,
    {
        RealObject { lin }
    }

    /// The linear form that the object stands for.
    pub fn lin(&self) -> (l: &Lin)
        ensures
            l@ == self.form(),
    {
        &self.lin
    }
}

/// Any object. The variant is the object's class, and with it the engine
/// that owns what the object wraps.
pub enum Object {
    Bool(BoolObject),
    Int(IntObject),
    Real(RealObject),
    Component(Component),
}

impl Object {
    /// The name of the object's class.
    pub open spec fn class_label(&self) -> Seq<char> {
        match self {
            Object::Bool(_) => "bool"@,
            Object::Int(_) => "int"@,
            Object::Real(_) => "real"@,
            Object::Component(c) => c.kind_label(),
        }
    }

    /// The linear form of an arithmetic object; the constant zero for any other.
    pub open spec fn form(&self) -> LinForm {
        match self {
            Object::Int(o) => o.form(),
            Object::Real(o) => o.form(),
            _ => LinForm::constant(crate::utils::ratio::Ratio::zero()),
        }
    }

    /// The name of the object's class.
    pub fn class_name(&self) -> (s: String)
        ensures
            s@ == self.class_label(),
    {
        match self {
            Object::Bool(_) => String::from_str("bool"),
            Object::Int(_) => String::from_str("int"),
            Object::Real(_) => String::from_str("real"),
            Object::Component(c) => c.kind_name(),
        }
    }
}

} // verus!
