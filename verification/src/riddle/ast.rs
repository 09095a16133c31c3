//! The syntax trees of the modelling language, and their mathematical content.

use vstd::prelude::*;

verus! {

/// An expression.
#[derive(Debug, PartialEq)]
pub enum Expr {
    Bool(bool),
    Int(i64),
    Real(i64, i64),
    QualifiedId { ids: Vec<String> },
    Sum { terms: Vec<Expr> },
    Opposite { term: Box<Expr> },
    Mul { factors: Vec<Expr> },
    Div { left: Box<Expr>, right: Box<Expr> },
    Function { name: Vec<String>, args: Vec<Expr> },
    Eq { left: Box<Expr>, right: Box<Expr> },
    Neq { left: Box<Expr>, right: Box<Expr> },
    Lt { left: Box<Expr>, right: Box<Expr> },
    Leq { left: Box<Expr>, right: Box<Expr> },
    Gt { left: Box<Expr>, right: Box<Expr> },
    Geq { left: Box<Expr>, right: Box<Expr> },
    Or { terms: Vec<Expr> },
    And { terms: Vec<Expr> },
}

/// A statement.
#[derive(Debug, PartialEq)]
#[allow(inconsistent_fields)]
pub enum Statement {
    Expr(Expr),
    LocalField { field_type: Vec<String>, fields: Vec<(String, Option<Expr>)> },
    Assign { name: Vec<String>, value: Expr },
    ForAll { var_type: Vec<String>, var_name: String, statements: Vec<Statement> },
    Disjunction { disjuncts: Vec<(Vec<Statement>, Expr)> },
    Formula { is_fact: bool, name: String, predicate_name: Vec<String>, args: Vec<(String, Expr)> },
    Return { value: Expr },
}

/// A predicate: a name, typed arguments, and a body.
#[derive(Debug, PartialEq)]
pub struct Predicate {
    pub name: String,
    pub args: Vec<(Vec<String>, String)>,
    pub statements: Vec<Statement>,
}

/// A constructor: typed arguments, the initialisation of fields, and a body.
#[derive(Debug, PartialEq)]
pub struct Constructor {
    pub args: Vec<(Vec<String>, String)>,
    pub init: Vec<(String, Vec<Expr>)>,
    pub statements: Vec<Statement>,
}

/// A method: a return type, if it has one, a name, typed arguments, and a body.
#[derive(Debug, PartialEq)]
pub struct Method {
    pub return_type: Option<Vec<String>>,
    pub name: String,
    pub args: Vec<(Vec<String>, String)>,
    pub statements: Vec<Statement>,
}

/// A class: a name, parents, fields by type, constructors, methods and predicates.
#[derive(Debug, PartialEq)]
pub struct Class {
    pub name: String,
    pub parents: Vec<Vec<String>>,
    pub fields: Vec<(Vec<String>, Vec<String>)>,
    pub constructors: Vec<Constructor>,
    pub methods: Vec<Method>,
    pub predicates: Vec<Predicate>,
}

/// The content of an expression.
pub enum ExprModel {
    Bool(bool),
    Int(int),
    Real(int, int),
    QualifiedId(Seq<Seq<char>>),
    Sum(Seq<ExprModel>),
    Opposite(Box<ExprModel>),
    Mul(Seq<ExprModel>),
    Div(Box<ExprModel>, Box<ExprModel>),
    Function(Seq<Seq<char>>, Seq<ExprModel>),
    Eq(Box<ExprModel>, Box<ExprModel>),
    Neq(Box<ExprModel>, Box<ExprModel>),
    Lt(Box<ExprModel>, Box<ExprModel>),
    Leq(Box<ExprModel>, Box<ExprModel>),
    Gt(Box<ExprModel>, Box<ExprModel>),
    Geq(Box<ExprModel>, Box<ExprModel>),
    Or(Seq<ExprModel>),
    And(Seq<ExprModel>),
}

/// The content of a statement.
pub enum StatementModel {
    Expr(ExprModel),
    LocalField(Seq<Seq<char>>, Seq<(Seq<char>, Option<ExprModel>)>),
    Assign(Seq<Seq<char>>, ExprModel),
    ForAll(Seq<Seq<char>>, Seq<char>, Seq<StatementModel>),
    Disjunction(Seq<(Seq<StatementModel>, ExprModel)>),
    Formula(bool, Seq<char>, Seq<Seq<char>>, Seq<(Seq<char>, ExprModel)>),
    Return(ExprModel),
}

/// The content of a predicate.
pub struct PredicateModel {
    pub name: Seq<char>,
    pub args: Seq<(Seq<Seq<char>>, Seq<char>)>,
    pub statements: Seq<StatementModel>,
}

/// The content of a constructor.
pub struct ConstructorModel {
    pub args: Seq<(Seq<Seq<char>>, Seq<char>)>,
    pub init: Seq<(Seq<char>, Seq<ExprModel>)>,
    pub statements: Seq<StatementModel>,
}

/// The content of a method.
pub struct MethodModel {
    pub return_type: Option<Seq<Seq<char>>>,
    pub name: Seq<char>,
    pub args: Seq<(Seq<Seq<char>>, Seq<char>)>,
    pub statements: Seq<StatementModel>,
}

/// The content of a class.
pub struct ClassModel {
    pub name: Seq<char>,
    pub parents: Seq<Seq<Seq<char>>>,
    pub fields: Seq<(Seq<Seq<char>>, Seq<Seq<char>>)>,
    pub constructors: Seq<ConstructorModel>,
    pub methods: Seq<MethodModel>,
    pub predicates: Seq<PredicateModel>,
}

/// The content of a list of names.
pub open spec fn names(v: Seq<String>) -> Seq<Seq<char>> {
    Seq::new(v.len(), |i: int| v[i]@)
}

/// The content of a list of expressions.
pub open spec fn exprs(v: Seq<Expr>) -> Seq<ExprModel> {
    Seq::new(v.len(), |i: int| v[i].model())
}

/// The content of a list of statements.
pub open spec fn statements(v: Seq<Statement>) -> Seq<StatementModel> {
    Seq::new(v.len(), |i: int| v[i].model())
}

/// The content of a list of typed arguments.
pub open spec fn params(v: Seq<(Vec<String>, String)>) -> Seq<(Seq<Seq<char>>, Seq<char>)> {
    Seq::new(v.len(), |i: int| (names(v[i].0@), v[i].1@))
}

/// The content of an expression that may be missing.
pub open spec fn maybe(e: Option<Expr>) -> Option<ExprModel> {
    match e {
        Some(x) => Some(x.model()),
        None => None,
    }
}

/// The content of the declarations of a local field.
pub open spec fn decls(v: Seq<(String, Option<Expr>)>) -> Seq<(Seq<char>, Option<ExprModel>)> {
    Seq::new(v.len(), |i: int| (v[i].0@, maybe(v[i].1)))
}

/// The content of the arguments of a formula.
pub open spec fn named_exprs(v: Seq<(String, Expr)>) -> Seq<(Seq<char>, ExprModel)> {
    Seq::new(v.len(), |i: int| (v[i].0@, v[i].1.model()))
}

/// The content of the branches of a disjunction.
pub open spec fn branches(v: Seq<(Vec<Statement>, Expr)>) -> Seq<(Seq<StatementModel>, ExprModel)> {
    Seq::new(v.len(), |i: int| (statements(v[i].0@), v[i].1.model()))
}

/// The content of the initialisations of a constructor.
pub open spec fn inits(v: Seq<(String, Vec<Expr>)>) -> Seq<(Seq<char>, Seq<ExprModel>)> {
    Seq::new(v.len(), |i: int| (v[i].0@, exprs(v[i].1@)))
}

impl Expr {
    /// The content of the expression.
    pub open spec fn model(&self) -> ExprModel
        decreases self,
    {
        match self {
            Expr::Bool(b) => ExprModel::Bool(*b),
            Expr::Int(n) => ExprModel::Int(*n as int),
            Expr::Real(n, d) => ExprModel::Real(*n as int, *d as int),
            Expr::QualifiedId { ids } => ExprModel::QualifiedId(names(ids@)),
            Expr::Sum { terms } => ExprModel::Sum(
                Seq::new(
                    terms@.len(),
                    |i: int|
                        if 0 <= i < terms@.len() {
                            terms@[i].model()
                        } else {
                            ExprModel::Bool(false)
                        },
                ),
            ),
            Expr::Opposite { term } => ExprModel::Opposite(Box::new(term.model())),
            Expr::Mul { factors } => ExprModel::Mul(
                Seq::new(
                    factors@.len(),
                    |i: int|
                        if 0 <= i < factors@.len() {
                            factors@[i].model()
                        } else {
                            ExprModel::Bool(false)
                        },
                ),
            ),
            Expr::Div { left, right } => ExprModel::Div(
                Box::new(left.model()),
                Box::new(right.model()),
            ),
            Expr::Function { name, args } => ExprModel::Function(
                names(name@),
                Seq::new(
                    args@.len(),
                    |i: int|
                        if 0 <= i < args@.len() {
                            args@[i].model()
                        } else {
                            ExprModel::Bool(false)
                        },
                ),
            ),
            Expr::Eq { left, right } => ExprModel::Eq(
                Box::new(left.model()),
                Box::new(right.model()),
            ),
            Expr::Neq { left, right } => ExprModel::Neq(
                Box::new(left.model()),
                Box::new(right.model()),
            ),
            Expr::Lt { left, right } => ExprModel::Lt(
                Box::new(left.model()),
                Box::new(right.model()),
            ),
            Expr::Leq { left, right } => ExprModel::Leq(
                Box::new(left.model()),
                Box::new(right.model()),
            ),
            Expr::Gt { left, right } => ExprModel::Gt(
                Box::new(left.model()),
                Box::new(right.model()),
            ),
            Expr::Geq { left, right } => ExprModel::Geq(
                Box::new(left.model()),
                Box::new(right.model()),
            ),
            Expr::Or { terms } => ExprModel::Or(
                Seq::new(
                    terms@.len(),
                    |i: int|
                        if 0 <= i < terms@.len() {
                            terms@[i].model()
                        } else {
                            ExprModel::Bool(false)
                        },
                ),
            ),
            Expr::And { terms } => ExprModel::And(
                Seq::new(
                    terms@.len(),
                    |i: int|
                        if 0 <= i < terms@.len() {
                            terms@[i].model()
                        } else {
                            ExprModel::Bool(false)
                        },
                ),
            ),
        }
    }
}

impl Statement {
    /// The content of the statement.
    pub open spec fn model(&self) -> StatementModel
        decreases self,
    {
        match self {
            Statement::Expr(e) => StatementModel::Expr(e.model()),
            Statement::LocalField { field_type, fields } => StatementModel::LocalField(
                names(field_type@),
                decls(fields@),
            ),
            Statement::Assign { name, value } => StatementModel::Assign(
                names(name@),
                value.model(),
            ),
            Statement::ForAll { var_type, var_name, statements } => StatementModel::ForAll(
                names(var_type@),
                var_name@,
                Seq::new(
                    statements@.len(),
                    |i: int|
                        if 0 <= i < statements@.len() {
                            statements@[i].model()
                        } else {
                            StatementModel::Expr(ExprModel::Bool(false))
                        },
                ),
            ),
            Statement::Disjunction { disjuncts } => StatementModel::Disjunction(
                Seq::new(
                    disjuncts@.len(),
                    |i: int|
                        if 0 <= i < disjuncts@.len() {
                            (
                                Seq::new(
                                    disjuncts@[i].0@.len(),
                                    |j: int|
                                        if 0 <= j < disjuncts@[i].0@.len() {
                                            disjuncts@[i].0@[j].model()
                                        } else {
                                            StatementModel::Expr(ExprModel::Bool(false))
                                        },
                                ),
                                disjuncts@[i].1.model(),
                            )
                        } else {
                            (Seq::empty(), ExprModel::Bool(false))
                        },
                ),
            ),
            Statement::Formula { is_fact, name, predicate_name, args } => StatementModel::Formula(
                *is_fact,
                name@,
                names(predicate_name@),
                named_exprs(args@),
            ),
            Statement::Return { value } => StatementModel::Return(value.model()),
        }
    }
}

impl Predicate {
    /// The content of the predicate.
    pub open spec fn model(&self) -> PredicateModel {
        PredicateModel {
            name: self.name@,
            args: params(self.args@),
            statements: statements(self.statements@),
        }
    }
}

impl Constructor {
    /// The content of the constructor.
    pub open spec fn model(&self) -> ConstructorModel {
        ConstructorModel {
            args: params(self.args@),
            init: inits(self.init@),
            statements: statements(self.statements@),
        }
    }
}

impl Method {
    /// The content of the method.
    pub open spec fn model(&self) -> MethodModel {
        MethodModel {
            return_type: match self.return_type {
                Some(t) => Some(names(t@)),
                None => None,
            },
            name: self.name@,
            args: params(self.args@),
            statements: statements(self.statements@),
        }
    }
}

impl Class {
    /// The content of the class.
    pub open spec fn model(&self) -> ClassModel {
        ClassModel {
            name: self.name@,
            parents: Seq::new(self.parents@.len(), |i: int| names(self.parents@[i]@)),
            fields: Seq::new(
                self.fields@.len(),
                |i: int| (names(self.fields@[i].0@), names(self.fields@[i].1@)),
            ),
            constructors: Seq::new(
                self.constructors@.len(),
                |i: int| self.constructors@[i].model(),
            ),
            methods: Seq::new(self.methods@.len(), |i: int| self.methods@[i].model()),
            predicates: Seq::new(self.predicates@.len(), |i: int| self.predicates@[i].model()),
        }
    }
}

} // verus!
