//! The grammar of the modelling language: what a run of tokens means.
//!
//! Each function reads from a place in the tokens and gives what it read
//! and the place after it, or the message of the first error. A step that
//! would not move forward ends the reading, so that every function ends.

use crate::riddle::ast::ClassModel;
use crate::riddle::ast::ConstructorModel;
use crate::riddle::ast::ExprModel;
use crate::riddle::ast::MethodModel;
use crate::riddle::ast::PredicateModel;
use crate::riddle::ast::StatementModel;
use crate::riddle::lexer::Lexeme;
use vstd::prelude::*;

verus! {

/// The token at place `i`, if there is one.
pub open spec fn at(t: Seq<Lexeme>, i: int) -> Option<Lexeme> {
    if 0 <= i < t.len() {
        Some(t[i])
    } else {
        None
    }
}

/// The message of a reading that made no step forward. No input leads to it.
pub open spec fn stuck() -> Seq<char> {
    Seq::empty()
}

/// The message where `expected` was to come at place `i`.
pub open spec fn expected_message(t: Seq<Lexeme>, i: int, expected: Lexeme) -> Seq<char> {
    match at(t, i) {
        Some(found) => "Expected "@ + expected.describe() + ", found "@ + found.describe(),
        None => "Expected "@ + expected.describe() + ", found end of input"@,
    }
}

/// Reads `expected` at place `i`.
pub open spec fn expect(t: Seq<Lexeme>, i: int, expected: Lexeme) -> Result<int, Seq<char>> {
    if at(t, i) == Some(expected) {
        Ok(i + 1)
    } else {
        Err(expected_message(t, i, expected))
    }
}

/// Reads the rest of a dotted name: `.` and an identifier, as often as a `.` comes.
pub open spec fn path_tail(t: Seq<Lexeme>, i: int, acc: Seq<Seq<char>>) -> Result<
    (Seq<Seq<char>>, int),
    Seq<char>,
>
    decreases t.len() - i,
{
    if at(t, i) == Some(Lexeme::Dot) {
        match at(t, i + 1) {
            Some(Lexeme::Identifier(name)) => path_tail(t, i + 2, acc.push(name)),
            _ => Err("Expected identifier after '.'"@),
        }
    } else {
        Ok((acc, i))
    }
}

/// Reads a dotted name.
pub open spec fn qualified_id(t: Seq<Lexeme>, i: int) -> Result<(Seq<Seq<char>>, int), Seq<char>> {
    match at(t, i) {
        Some(Lexeme::Identifier(name)) => path_tail(t, i + 1, seq![name]),
        _ => Err("Expected identifier"@),
    }
}

/// Reads an expression; `first`, where given, is its first operand,
/// already read.
#[verifier::opaque]
pub open spec fn expression(t: Seq<Lexeme>, i: int, first: Option<ExprModel>) -> Result<
    (ExprModel, int),
    Seq<char>,
>
    decreases t.len() - i, 7int,
{
    or_expr(t, i, first)
}

/// Reads operands joined by `|`; one alone is itself.
pub open spec fn or_expr(t: Seq<Lexeme>, i: int, first: Option<ExprModel>) -> Result<
    (ExprModel, int),
    Seq<char>,
>
    decreases t.len() - i, 6int,
{
    match and_expr(t, i, first) {
        Err(m) => Err(m),
        Ok((e, j)) => if j < i || j > t.len() {
            Err(stuck())
        } else {
            match or_tail(t, j, seq![e]) {
                Err(m) => Err(m),
                Ok((terms, k)) => if terms.len() == 1 {
                    Ok((terms[0], k))
                } else {
                    Ok((ExprModel::Or(terms), k))
                },
            }
        },
    }
}

/// Reads `|` and an operand, as often as a `|` comes.
pub open spec fn or_tail(t: Seq<Lexeme>, i: int, acc: Seq<ExprModel>) -> Result<
    (Seq<ExprModel>, int),
    Seq<char>,
>
    decreases t.len() - i, 0int,
{
    if at(t, i) == Some(Lexeme::Bar) {
        match and_expr(t, i + 1, None) {
            Err(m) => Err(m),
            Ok((e, j)) => if j <= i || j > t.len() {
                Err(stuck())
            } else {
                or_tail(t, j, acc.push(e))
            },
        }
    } else {
        Ok((acc, i))
    }
}

/// Reads operands joined by `&`; one alone is itself.
pub open spec fn and_expr(t: Seq<Lexeme>, i: int, first: Option<ExprModel>) -> Result<
    (ExprModel, int),
    Seq<char>,
>
    decreases t.len() - i, 5int,
{
    match equality(t, i, first) {
        Err(m) => Err(m),
        Ok((e, j)) => if j < i || j > t.len() {
            Err(stuck())
        } else {
            match and_tail(t, j, seq![e]) {
                Err(m) => Err(m),
                Ok((terms, k)) => if terms.len() == 1 {
                    Ok((terms[0], k))
                } else {
                    Ok((ExprModel::And(terms), k))
                },
            }
        },
    }
}

/// Reads `&` and an operand, as often as a `&` comes.
pub open spec fn and_tail(t: Seq<Lexeme>, i: int, acc: Seq<ExprModel>) -> Result<
    (Seq<ExprModel>, int),
    Seq<char>,
>
    decreases t.len() - i, 0int,
{
    if at(t, i) == Some(Lexeme::Amp) {
        match equality(t, i + 1, None) {
            Err(m) => Err(m),
            Ok((e, j)) => if j <= i || j > t.len() {
                Err(stuck())
            } else {
                and_tail(t, j, acc.push(e))
            },
        }
    } else {
        Ok((acc, i))
    }
}

/// Reads an operand and, where `==` or `!=` follows, a second one.
pub open spec fn equality(t: Seq<Lexeme>, i: int, first: Option<ExprModel>) -> Result<
    (ExprModel, int),
    Seq<char>,
>
    decreases t.len() - i, 4int,
{
    match relational(t, i, first) {
        Err(m) => Err(m),
        Ok((left, j)) => if j < i || j > t.len() {
            Err(stuck())
        } else if at(t, j) == Some(Lexeme::EqualEqual) {
            match relational(t, j + 1, None) {
                Err(m) => Err(m),
                Ok((right, k)) => Ok((ExprModel::Eq(Box::new(left), Box::new(right)), k)),
            }
        } else if at(t, j) == Some(Lexeme::NotEqual) {
            match relational(t, j + 1, None) {
                Err(m) => Err(m),
                Ok((right, k)) => Ok((ExprModel::Neq(Box::new(left), Box::new(right)), k)),
            }
        } else {
            Ok((left, j))
        },
    }
}

/// Reads an operand and, where `<`, `<=`, `>` or `>=` follows, a second one.
pub open spec fn relational(t: Seq<Lexeme>, i: int, first: Option<ExprModel>) -> Result<
    (ExprModel, int),
    Seq<char>,
>
    decreases t.len() - i, 3int,
{
    match additive(t, i, first) {
        Err(m) => Err(m),
        Ok((left, j)) => if j < i || j > t.len() {
            Err(stuck())
        } else if at(t, j) == Some(Lexeme::LessThan) || at(t, j) == Some(Lexeme::LessEqual) || at(
            t,
            j,
        ) == Some(Lexeme::GreaterThan) || at(t, j) == Some(Lexeme::GreaterEqual) {
            match additive(t, j + 1, None) {
                Err(m) => Err(m),
                Ok((right, k)) => Ok(
                    (
                        if at(t, j) == Some(Lexeme::LessThan) {
                            ExprModel::Lt(Box::new(left), Box::new(right))
                        } else if at(t, j) == Some(Lexeme::LessEqual) {
                            ExprModel::Leq(Box::new(left), Box::new(right))
                        } else if at(t, j) == Some(Lexeme::GreaterThan) {
                            ExprModel::Gt(Box::new(left), Box::new(right))
                        } else {
                            ExprModel::Geq(Box::new(left), Box::new(right))
                        },
                        k,
                    ),
                ),
            }
        } else {
            Ok((left, j))
        },
    }
}

/// Reads operands joined by `+` and `-`, the operand after a `-` as its
/// opposite; one alone is itself.
pub open spec fn additive(t: Seq<Lexeme>, i: int, first: Option<ExprModel>) -> Result<
    (ExprModel, int),
    Seq<char>,
>
    decreases t.len() - i, 2int,
{
    match multiplicative(t, i, first) {
        Err(m) => Err(m),
        Ok((e, j)) => if j < i || j > t.len() {
            Err(stuck())
        } else {
            match additive_tail(t, j, seq![e]) {
                Err(m) => Err(m),
                Ok((terms, k)) => if terms.len() == 1 {
                    Ok((terms[0], k))
                } else {
                    Ok((ExprModel::Sum(terms), k))
                },
            }
        },
    }
}

/// Reads `+` or `-` and an operand, as often as one of the two comes.
pub open spec fn additive_tail(t: Seq<Lexeme>, i: int, acc: Seq<ExprModel>) -> Result<
    (Seq<ExprModel>, int),
    Seq<char>,
>
    decreases t.len() - i, 0int,
{
    if at(t, i) == Some(Lexeme::Plus) || at(t, i) == Some(Lexeme::Minus) {
        match multiplicative(t, i + 1, None) {
            Err(m) => Err(m),
            Ok((e, j)) => if j <= i || j > t.len() {
                Err(stuck())
            } else {
                additive_tail(
                    t,
                    j,
                    acc.push(
                        if at(t, i) == Some(Lexeme::Plus) {
                            e
                        } else {
                            ExprModel::Opposite(Box::new(e))
                        },
                    ),
                )
            },
        }
    } else {
        Ok((acc, i))
    }
}

/// Reads factors joined by `*`; one alone is itself. A `/` ends the
/// reading with the quotient of the last factor and the operand after the
/// `/`: what came before the dividend is dropped.
pub open spec fn multiplicative(t: Seq<Lexeme>, i: int, first: Option<ExprModel>) -> Result<
    (ExprModel, int),
    Seq<char>,
>
    decreases t.len() - i, 1int,
{
    match first {
        Some(e) => multiplicative_tail(t, i, seq![e]),
        None => match primary(t, i) {
            Err(m) => Err(m),
            Ok((e, j)) => if j <= i || j > t.len() {
                Err(stuck())
            } else {
                multiplicative_tail(t, j, seq![e])
            },
        },
    }
}

/// Reads `*` and a factor, as often as a `*` comes, or `/` and a divisor.
pub open spec fn multiplicative_tail(t: Seq<Lexeme>, i: int, acc: Seq<ExprModel>) -> Result<
    (ExprModel, int),
    Seq<char>,
>
    decreases t.len() - i, 0int,
{
    if at(t, i) == Some(Lexeme::Asterisk) {
        match primary(t, i + 1) {
            Err(m) => Err(m),
            Ok((e, j)) => if j <= i || j > t.len() {
                Err(stuck())
            } else {
                multiplicative_tail(t, j, acc.push(e))
            },
        }
    } else if at(t, i) == Some(Lexeme::Slash) {
        match primary(t, i + 1) {
            Err(m) => Err(m),
            Ok((right, j)) => Ok(
                (ExprModel::Div(Box::new(acc[acc.len() - 1]), Box::new(right)), j),
            ),
        }
    } else if acc.len() == 1 {
        Ok((acc[0], i))
    } else {
        Ok((ExprModel::Mul(acc), i))
    }
}

/// Reads a literal, a dotted name, a call of a dotted name, or an
/// expression in round brackets.
pub open spec fn primary(t: Seq<Lexeme>, i: int) -> Result<(ExprModel, int), Seq<char>>
    decreases t.len() - i, 0int,
{
    match at(t, i) {
        Some(Lexeme::BoolLiteral(b)) => Ok((ExprModel::Bool(b), i + 1)),
        Some(Lexeme::IntLiteral(n)) => Ok((ExprModel::Int(n), i + 1)),
        Some(Lexeme::RealLiteral(n, d)) => Ok((ExprModel::Real(n, d), i + 1)),
        Some(Lexeme::Identifier(name)) => match path_tail(t, i + 1, seq![name]) {
            Err(m) => Err(m),
            Ok((ids, j)) => if j <= i || j > t.len() {
                Err(stuck())
            } else if at(t, j) == Some(Lexeme::LParen) {
                match expr_list(t, j + 1, Seq::empty()) {
                    Err(m) => Err(m),
                    Ok((args, k)) => match expect(t, k, Lexeme::RParen) {
                        Err(m) => Err(m),
                        Ok(l) => Ok((ExprModel::Function(ids, args), l)),
                    },
                }
            } else {
                Ok((ExprModel::QualifiedId(ids), j))
            },
        },
        Some(Lexeme::LParen) => match expression(t, i + 1, None) {
            Err(m) => Err(m),
            Ok((e, j)) => match expect(t, j, Lexeme::RParen) {
                Err(m) => Err(m),
                Ok(k) => Ok((e, k)),
            },
        },
        Some(other) => Err("Unexpected token: "@ + other.describe()),
        None => Err("Unexpected end of input"@),
    }
}

/// Reads expressions separated by commas, up to a `)` or to an
/// expression that no comma follows.
pub open spec fn expr_list(t: Seq<Lexeme>, i: int, acc: Seq<ExprModel>) -> Result<
    (Seq<ExprModel>, int),
    Seq<char>,
>
    decreases t.len() - i, 8int,
{
    if at(t, i) == Some(Lexeme::RParen) {
        Ok((acc, i))
    } else {
        match expression(t, i, None) {
            Err(m) => Err(m),
            Ok((e, j)) => if at(t, j) == Some(Lexeme::Comma) {
                if j < i || j >= t.len() {
                    Err(stuck())
                } else {
                    expr_list(t, j + 1, acc.push(e))
                }
            } else {
                Ok((acc.push(e), j))
            },
        }
    }
}

/// Reads the name of a type: one of the built-in ones, or a dotted name.
pub open spec fn type_path(t: Seq<Lexeme>, i: int) -> Result<(Seq<Seq<char>>, int), Seq<char>> {
    match at(t, i) {
        Some(Lexeme::Bool) => Ok((seq!["bool"@], i + 1)),
        Some(Lexeme::Int) => Ok((seq!["int"@], i + 1)),
        Some(Lexeme::Real) => Ok((seq!["real"@], i + 1)),
        Some(Lexeme::String) => Ok((seq!["string"@], i + 1)),
        Some(Lexeme::Identifier(_)) => qualified_id(t, i),
        _ => Err("Expected type name"@),
    }
}

/// Whether a type starts at place `i`.
pub open spec fn starts_type(t: Seq<Lexeme>, i: int) -> bool {
    match at(t, i) {
        Some(Lexeme::Bool) => true,
        Some(Lexeme::Int) => true,
        Some(Lexeme::Real) => true,
        Some(Lexeme::String) => true,
        Some(Lexeme::Identifier(_)) => true,
        _ => false,
    }
}

/// Reads an identifier, or fails with `message`.
pub open spec fn identifier(t: Seq<Lexeme>, i: int, message: Seq<char>) -> Result<
    (Seq<char>, int),
    Seq<char>,
> {
    match at(t, i) {
        Some(Lexeme::Identifier(name)) => Ok((name, i + 1)),
        _ => Err(message),
    }
}

/// Reads the declaration of a variable: a name and, after `=`, its value.
#[verifier::opaque]
pub open spec fn var_decl(t: Seq<Lexeme>, i: int) -> Result<
    ((Seq<char>, Option<ExprModel>), int),
    Seq<char>,
>
    decreases t.len() - i, 8int,
{
    match at(t, i) {
        Some(Lexeme::Identifier(name)) => if at(t, i + 1) == Some(Lexeme::Equal) {
            match expression(t, i + 2, None) {
                Err(m) => Err(m),
                Ok((e, j)) => Ok(((name, Some(e)), j)),
            }
        } else {
            Ok(((name, None), i + 1))
        },
        _ => Err("Expected variable name"@),
    }
}

/// Reads `,` and a declaration, as often as a `,` comes.
#[verifier::opaque]
pub open spec fn var_decls_tail(
    t: Seq<Lexeme>,
    i: int,
    acc: Seq<(Seq<char>, Option<ExprModel>)>,
) -> Result<(Seq<(Seq<char>, Option<ExprModel>)>, int), Seq<char>>
    decreases t.len() - i, 9int,
{
    if at(t, i) == Some(Lexeme::Comma) {
        match var_decl(t, i + 1) {
            Err(m) => Err(m),
            Ok((d, j)) => if j <= i || j > t.len() {
                Err(stuck())
            } else {
                var_decls_tail(t, j, acc.push(d))
            },
        }
    } else {
        Ok((acc, i))
    }
}

/// Reads the declarations of local fields of the type `field_type`, up to the `;`.
#[verifier::opaque]
pub open spec fn local_field(t: Seq<Lexeme>, i: int, field_type: Seq<Seq<char>>) -> Result<
    (StatementModel, int),
    Seq<char>,
>
    decreases t.len() - i, 10int,
{
    match var_decl(t, i) {
        Err(m) => Err(m),
        Ok((d, j)) => if j <= i || j > t.len() {
            Err(stuck())
        } else {
            match var_decls_tail(t, j, seq![d]) {
                Err(m) => Err(m),
                Ok((ds, k)) => match expect(t, k, Lexeme::Semicolon) {
                    Err(m) => Err(m),
                    Ok(l) => Ok((StatementModel::LocalField(field_type, ds), l)),
                },
            }
        },
    }
}

/// Reads typed arguments separated by commas, up to a `)` or to an
/// argument that no comma follows. An argument without a name fails
/// with `message`.
#[verifier::opaque]
pub open spec fn params(
    t: Seq<Lexeme>,
    i: int,
    acc: Seq<(Seq<Seq<char>>, Seq<char>)>,
    message: Seq<char>,
) -> Result<(Seq<(Seq<Seq<char>>, Seq<char>)>, int), Seq<char>>
    decreases t.len() - i,
{
    if at(t, i) == Some(Lexeme::RParen) {
        Ok((acc, i))
    } else {
        match type_path(t, i) {
            Err(m) => Err(m),
            Ok((ty, j)) => match at(t, j) {
                Some(Lexeme::Identifier(name)) => if at(t, j + 1) == Some(Lexeme::Comma) {
                    if j < i || j + 2 > t.len() {
                        Err(stuck())
                    } else {
                        params(t, j + 2, acc.push((ty, name)), message)
                    }
                } else {
                    Ok((acc.push((ty, name)), j + 1))
                },
                _ => Err(message),
            },
        }
    }
}

/// Reads the arguments of a formula, `name: value` each, separated by
/// commas, up to a `)` or to an argument that no comma follows.
#[verifier::opaque]
pub open spec fn formula_args(t: Seq<Lexeme>, i: int, acc: Seq<(Seq<char>, ExprModel)>) -> Result<
    (Seq<(Seq<char>, ExprModel)>, int),
    Seq<char>,
>
    decreases t.len() - i, 8int,
{
    if at(t, i) == Some(Lexeme::RParen) {
        Ok((acc, i))
    } else {
        match at(t, i) {
            Some(Lexeme::Identifier(name)) => match expect(t, i + 1, Lexeme::Colon) {
                Err(m) => Err(m),
                Ok(j) => match expression(t, j, None) {
                    Err(m) => Err(m),
                    Ok((e, k)) => if at(t, k) == Some(Lexeme::Comma) {
                        if k < i || k >= t.len() {
                            Err(stuck())
                        } else {
                            formula_args(t, k + 1, acc.push((name, e)))
                        }
                    } else {
                        Ok((acc.push((name, e)), k))
                    },
                },
            },
            _ => Err("Expected identifier in formula arguments"@),
        }
    }
}

/// Reads statements up to a `}`.
#[verifier::opaque]
pub open spec fn block(t: Seq<Lexeme>, i: int, acc: Seq<StatementModel>) -> Result<
    (Seq<StatementModel>, int),
    Seq<char>,
>
    decreases t.len() - i, 12int,
{
    if at(t, i) == Some(Lexeme::RBrace) {
        Ok((acc, i))
    } else {
        match statement(t, i) {
            Err(m) => Err(m),
            Ok((s, j)) => if j <= i || j > t.len() {
                Err(stuck())
            } else {
                block(t, j, acc.push(s))
            },
        }
    }
}

/// Reads a body: `{`, statements, `}`.
#[verifier::opaque]
pub open spec fn body(t: Seq<Lexeme>, i: int) -> Result<(Seq<StatementModel>, int), Seq<char>>
    decreases t.len() - i, 13int,
{
    match expect(t, i, Lexeme::LBrace) {
        Err(m) => Err(m),
        Ok(j) => match block(t, j, Seq::empty()) {
            Err(m) => Err(m),
            Ok((stmts, k)) => match expect(t, k, Lexeme::RBrace) {
                Err(m) => Err(m),
                Ok(l) => Ok((stmts, l)),
            },
        },
    }
}

/// Reads a branch of a disjunction after its `{`: statements, `}`, and
/// a cost in square brackets where one is given, else the integer one.
#[verifier::opaque]
pub open spec fn branch(t: Seq<Lexeme>, i: int) -> Result<
    ((Seq<StatementModel>, ExprModel), int),
    Seq<char>,
>
    decreases t.len() - i, 13int,
{
    match block(t, i, Seq::empty()) {
        Err(m) => Err(m),
        Ok((stmts, j)) => match expect(t, j, Lexeme::RBrace) {
            Err(m) => Err(m),
            Ok(k) => if at(t, k) == Some(Lexeme::LBracket) {
                if k < i {
                    Err(stuck())
                } else {
                    match expression(t, k + 1, None) {
                        Err(m) => Err(m),
                        Ok((cost, l)) => match expect(t, l, Lexeme::RBracket) {
                            Err(m) => Err(m),
                            Ok(n) => Ok(((stmts, cost), n)),
                        },
                    }
                }
            } else {
                Ok(((stmts, ExprModel::Int(1)), k))
            },
        },
    }
}

/// Reads the branches of a disjunction after its first `{`: a branch
/// and, after `or` and `{`, the next one.
pub open spec fn disjuncts(
    t: Seq<Lexeme>,
    i: int,
    acc: Seq<(Seq<StatementModel>, ExprModel)>,
) -> Result<(StatementModel, int), Seq<char>>
    decreases t.len() - i, 14int,
{
    match branch(t, i) {
        Err(m) => Err(m),
        Ok((b, k)) => if k <= i || k > t.len() {
            Err(stuck())
        } else {
            more_disjuncts(t, k, acc.push(b))
        },
    }
}

/// Reads `or`, `{` and the next branch, where an `or` comes.
pub open spec fn more_disjuncts(
    t: Seq<Lexeme>,
    i: int,
    acc: Seq<(Seq<StatementModel>, ExprModel)>,
) -> Result<(StatementModel, int), Seq<char>>
    decreases t.len() - i, 0int,
{
    if at(t, i) == Some(Lexeme::Or) {
        match expect(t, i + 1, Lexeme::LBrace) {
            Err(m) => Err(m),
            Ok(j) => disjuncts(t, i + 2, acc),
        }
    } else {
        Ok((StatementModel::Disjunction(acc), i))
    }
}

/// Reads a statement that starts with a dotted name: an assignment
/// where `=` follows the name, the declaration of local fields where an
/// identifier follows it, else an expression with the name as its first
/// operand; each up to its `;`.
#[verifier::opaque]
pub open spec fn named_statement(t: Seq<Lexeme>, i: int) -> Result<
    (StatementModel, int),
    Seq<char>,
> {
    match qualified_id(t, i) {
        Err(m) => Err(m),
        Ok((ids, j)) => match at(t, j) {
            Some(Lexeme::Equal) => match expression(t, j + 1, None) {
                Err(m) => Err(m),
                Ok((value, k)) => match expect(t, k, Lexeme::Semicolon) {
                    Err(m) => Err(m),
                    Ok(l) => Ok((StatementModel::Assign(ids, value), l)),
                },
            },
            Some(Lexeme::Identifier(_)) => local_field(t, j, ids),
            _ => expression_statement(t, j, Some(ExprModel::QualifiedId(ids))),
        },
    }
}

/// Reads an expression and its `;`.
#[verifier::opaque]
pub open spec fn expression_statement(t: Seq<Lexeme>, i: int, first: Option<ExprModel>) -> Result<
    (StatementModel, int),
    Seq<char>,
> {
    match expression(t, i, first) {
        Err(m) => Err(m),
        Ok((e, j)) => match expect(t, j, Lexeme::Semicolon) {
            Err(m) => Err(m),
            Ok(k) => Ok((StatementModel::Expr(e), k)),
        },
    }
}

/// Reads what follows `return`: a value and its `;`.
#[verifier::opaque]
pub open spec fn return_statement(t: Seq<Lexeme>, i: int) -> Result<
    (StatementModel, int),
    Seq<char>,
> {
    match expression(t, i, None) {
        Err(m) => Err(m),
        Ok((value, j)) => match expect(t, j, Lexeme::Semicolon) {
            Err(m) => Err(m),
            Ok(k) => Ok((StatementModel::Return(value), k)),
        },
    }
}

/// Reads the head of a loop after `for`: `(`, a type, a name, `)`.
#[verifier::opaque]
pub open spec fn for_head(t: Seq<Lexeme>, i: int) -> Result<
    ((Seq<Seq<char>>, Seq<char>), int),
    Seq<char>,
> {
    match expect(t, i, Lexeme::LParen) {
        Err(m) => Err(m),
        Ok(j) => match type_path(t, j) {
            Err(m) => Err(m),
            Ok((var_type, k)) => match identifier(t, k, "Expected variable name in for loop"@) {
                Err(m) => Err(m),
                Ok((var_name, l)) => match expect(t, l, Lexeme::RParen) {
                    Err(m) => Err(m),
                    Ok(n) => Ok(((var_type, var_name), n)),
                },
            },
        },
    }
}

/// Reads what follows `for`: the head of the loop and its body.
#[verifier::opaque]
pub open spec fn for_all(t: Seq<Lexeme>, i: int) -> Result<(StatementModel, int), Seq<char>>
    decreases t.len() - i, 14int,
{
    match for_head(t, i) {
        Err(m) => Err(m),
        Ok(((var_type, var_name), n)) => if n <= i || n > t.len() {
            Err(stuck())
        } else {
            match body(t, n) {
                Err(m) => Err(m),
                Ok((stmts, o)) => Ok((StatementModel::ForAll(var_type, var_name, stmts), o)),
            }
        },
    }
}

/// Reads a statement.
#[verifier::opaque]
pub open spec fn statement(t: Seq<Lexeme>, i: int) -> Result<(StatementModel, int), Seq<char>>
    decreases t.len() - i, 11int,
{
    match at(t, i) {
        Some(Lexeme::Bool) => local_field(t, i + 1, seq!["bool"@]),
        Some(Lexeme::Int) => local_field(t, i + 1, seq!["int"@]),
        Some(Lexeme::Real) => local_field(t, i + 1, seq!["real"@]),
        Some(Lexeme::String) => local_field(t, i + 1, seq!["string"@]),
        Some(Lexeme::Identifier(_)) => named_statement(t, i),
        Some(Lexeme::LBrace) => disjuncts(t, i + 1, Seq::empty()),
        Some(Lexeme::For) => for_all(t, i + 1),
        Some(Lexeme::Return) => return_statement(t, i + 1),
        Some(Lexeme::Fact) => formula(t, i + 1, true),
        Some(Lexeme::Goal) => formula(t, i + 1, false),
        _ => expression_statement(t, i, None),
    }
}

/// Reads a formula after `fact` or `goal`: a name, `=`, `new`, the name
/// of a predicate, and its arguments in round brackets, up to the `;`.
#[verifier::opaque]
pub open spec fn formula(t: Seq<Lexeme>, i: int, is_fact: bool) -> Result<
    (StatementModel, int),
    Seq<char>,
>
    decreases t.len() - i, 10int,
{
    match identifier(t, i, "Expected identifier after 'fact' or 'goal'"@) {
        Err(m) => Err(m),
        Ok((name, j)) => match expect(t, j, Lexeme::Equal) {
            Err(m) => Err(m),
            Ok(k) => match expect(t, k, Lexeme::New) {
                Err(m) => Err(m),
                Ok(l) => match qualified_id(t, l) {
                    Err(m) => Err(m),
                    Ok((predicate_name, n)) => match expect(t, n, Lexeme::LParen) {
                        Err(m) => Err(m),
                        Ok(o) => if o <= i || o > t.len() {
                            Err(stuck())
                        } else {
                            match formula_args(t, o, Seq::empty()) {
                                Err(m) => Err(m),
                                Ok((args, p)) => match expect(t, p, Lexeme::RParen) {
                                    Err(m) => Err(m),
                                    Ok(q) => match expect(t, q, Lexeme::Semicolon) {
                                        Err(m) => Err(m),
                                        Ok(r) => Ok(
                                            (
                                                StatementModel::Formula(
                                                    is_fact,
                                                    name,
                                                    predicate_name,
                                                    args,
                                                ),
                                                r,
                                            ),
                                        ),
                                    },
                                },
                            }
                        },
                    },
                },
            },
        },
    }
}

/// Reads typed arguments in round brackets and a body.
#[verifier::opaque]
pub open spec fn signature(t: Seq<Lexeme>, i: int, message: Seq<char>) -> Result<
    ((Seq<(Seq<Seq<char>>, Seq<char>)>, Seq<StatementModel>), int),
    Seq<char>,
> {
    match expect(t, i, Lexeme::LParen) {
        Err(m) => Err(m),
        Ok(j) => match params(t, j, Seq::empty(), message) {
            Err(m) => Err(m),
            Ok((args, k)) => match expect(t, k, Lexeme::RParen) {
                Err(m) => Err(m),
                Ok(l) => match body(t, l) {
                    Err(m) => Err(m),
                    Ok((stmts, n)) => Ok(((args, stmts), n)),
                },
            },
        },
    }
}

/// Reads a predicate: `predicate`, a name, typed arguments, and a body.
#[verifier::opaque]
pub open spec fn predicate(t: Seq<Lexeme>, i: int) -> Result<(PredicateModel, int), Seq<char>> {
    match expect(t, i, Lexeme::Predicate) {
        Err(m) => Err(m),
        Ok(j) => match identifier(t, j, "Expected identifier after 'predicate'"@) {
            Err(m) => Err(m),
            Ok((name, k)) => match signature(t, k, "Expected identifier in predicate arguments"@) {
                Err(m) => Err(m),
                Ok(((args, stmts), l)) => Ok(
                    (PredicateModel { name, args, statements: stmts }, l),
                ),
            },
        },
    }
}

/// Reads a method: `void` or a type, a name, typed arguments, and a body.
#[verifier::opaque]
pub open spec fn method(t: Seq<Lexeme>, i: int) -> Result<(MethodModel, int), Seq<char>> {
    let ret = if at(t, i) == Some(Lexeme::Void) {
        Ok((None, i + 1))
    } else if starts_type(t, i) {
        match type_path(t, i) {
            Err(m) => Err(m),
            Ok((ty, j)) => Ok((Some(ty), j)),
        }
    } else {
        Err("Expected return type or 'void'"@)
    };
    match ret {
        Err(m) => Err(m),
        Ok((return_type, j)) => match identifier(t, j, "Expected method name"@) {
            Err(m) => Err(m),
            Ok((name, k)) => match signature(t, k, "Expected identifier in method arguments"@) {
                Err(m) => Err(m),
                Ok(((args, stmts), l)) => Ok(
                    (MethodModel { return_type, name, args, statements: stmts }, l),
                ),
            },
        },
    }
}

/// Reads the initialisations of a constructor, `field(values)` each,
/// separated by commas, up to a `{` or to one that no comma follows.
#[verifier::opaque]
pub open spec fn init_list(t: Seq<Lexeme>, i: int, acc: Seq<(Seq<char>, Seq<ExprModel>)>) -> Result<
    (Seq<(Seq<char>, Seq<ExprModel>)>, int),
    Seq<char>,
>
    decreases t.len() - i,
{
    if at(t, i) == Some(Lexeme::LBrace) {
        Ok((acc, i))
    } else {
        match identifier(t, i, "Expected identifier in constructor initialization"@) {
            Err(m) => Err(m),
            Ok((name, j)) => match expect(t, j, Lexeme::LParen) {
                Err(m) => Err(m),
                Ok(k) => match expr_list(t, k, Seq::empty()) {
                    Err(m) => Err(m),
                    Ok((values, l)) => match expect(t, l, Lexeme::RParen) {
                        Err(m) => Err(m),
                        Ok(n) => if at(t, n) == Some(Lexeme::Comma) {
                            if n < i || n >= t.len() {
                                Err(stuck())
                            } else {
                                init_list(t, n + 1, acc.push((name, values)))
                            }
                        } else {
                            Ok((acc.push((name, values)), n))
                        },
                    },
                },
            },
        }
    }
}

/// Reads a constructor: a name, typed arguments, after `:` the
/// initialisations, and a body.
#[verifier::opaque]
pub open spec fn constructor(t: Seq<Lexeme>, i: int) -> Result<(ConstructorModel, int), Seq<char>> {
    match identifier(t, i, "Expected constructor name"@) {
        Err(m) => Err(m),
        Ok((name, j)) => match expect(t, j, Lexeme::LParen) {
            Err(m) => Err(m),
            Ok(k) => match params(
                t,
                k,
                Seq::empty(),
                "Expected identifier in constructor arguments"@,
            ) {
                Err(m) => Err(m),
                Ok((args, l)) => match expect(t, l, Lexeme::RParen) {
                    Err(m) => Err(m),
                    Ok(n) => {
                        let init = if at(t, n) == Some(Lexeme::Colon) {
                            init_list(t, n + 1, Seq::empty())
                        } else {
                            Ok((Seq::empty(), n))
                        };
                        match init {
                            Err(m) => Err(m),
                            Ok((init, o)) => match body(t, o) {
                                Err(m) => Err(m),
                                Ok((stmts, p)) => Ok(
                                    (ConstructorModel { args, init, statements: stmts }, p),
                                ),
                            },
                        }
                    },
                },
            },
        },
    }
}

/// Reads `,` and a dotted name, as often as a `,` comes.
#[verifier::opaque]
pub open spec fn parents_tail(t: Seq<Lexeme>, i: int, acc: Seq<Seq<Seq<char>>>) -> Result<
    (Seq<Seq<Seq<char>>>, int),
    Seq<char>,
>
    decreases t.len() - i,
{
    if at(t, i) == Some(Lexeme::Comma) {
        match qualified_id(t, i + 1) {
            Err(m) => Err(m),
            Ok((p, j)) => if j <= i || j > t.len() {
                Err(stuck())
            } else {
                parents_tail(t, j, acc.push(p))
            },
        }
    } else {
        Ok((acc, i))
    }
}

/// Reads `,` and a name, as often as a `,` comes.
#[verifier::opaque]
pub open spec fn names_tail(t: Seq<Lexeme>, i: int, acc: Seq<Seq<char>>) -> Result<
    (Seq<Seq<char>>, int),
    Seq<char>,
>
    decreases t.len() - i,
{
    if at(t, i) == Some(Lexeme::Comma) {
        match at(t, i + 1) {
            Some(Lexeme::Identifier(name)) => names_tail(t, i + 2, acc.push(name)),
            _ => Err("Expected field name"@),
        }
    } else {
        Ok((acc, i))
    }
}

/// Reads the declaration of fields: a type, names separated by commas,
/// and `;`.
#[verifier::opaque]
pub open spec fn fields(t: Seq<Lexeme>, i: int) -> Result<
    ((Seq<Seq<char>>, Seq<Seq<char>>), int),
    Seq<char>,
> {
    match type_path(t, i) {
        Err(m) => Err(m),
        Ok((ty, j)) => match identifier(t, j, "Expected field name"@) {
            Err(m) => Err(m),
            Ok((first, k)) => match names_tail(t, k, seq![first]) {
                Err(m) => Err(m),
                Ok((all, l)) => match expect(t, l, Lexeme::Semicolon) {
                    Err(m) => Err(m),
                    Ok(n) => Ok(((ty, all), n)),
                },
            },
        },
    }
}

/// Reads the members of the class called `name`, up to a `}`: a member
/// that starts with the name of the class is a constructor, one that
/// starts with `predicate` a predicate; one that starts with a type and
/// a name is a method where a `(` follows, else a declaration of fields
/// up to its `;`; one that starts with `void` is a method.
#[verifier::opaque]
pub open spec fn members(t: Seq<Lexeme>, i: int, name: Seq<char>, acc: ClassModel) -> Result<
    (ClassModel, int),
    Seq<char>,
>
    decreases t.len() - i,
{
    if at(t, i) == Some(Lexeme::RBrace) {
        Ok((acc, i))
    } else if at(t, i) == Some(Lexeme::Identifier(name)) {
        match constructor(t, i) {
            Err(m) => Err(m),
            Ok((c, j)) => if j <= i || j > t.len() {
                Err(stuck())
            } else {
                members(t, j, name, ClassModel { constructors: acc.constructors.push(c), ..acc })
            },
        }
    } else if at(t, i) == Some(Lexeme::Predicate) {
        match predicate(t, i) {
            Err(m) => Err(m),
            Ok((p, j)) => if j <= i || j > t.len() {
                Err(stuck())
            } else {
                members(t, j, name, ClassModel { predicates: acc.predicates.push(p), ..acc })
            },
        }
    } else if starts_type(t, i) && is_field(t, i) {
        match fields(t, i) {
            Err(m) => Err(m),
            Ok((f, j)) => if j <= i || j > t.len() {
                Err(stuck())
            } else {
                members(t, j, name, ClassModel { fields: acc.fields.push(f), ..acc })
            },
        }
    } else if at(t, i) == Some(Lexeme::Void) || starts_type(t, i) {
        match method(t, i) {
            Err(m) => Err(m),
            Ok((me, j)) => if j <= i || j > t.len() {
                Err(stuck())
            } else {
                members(t, j, name, ClassModel { methods: acc.methods.push(me), ..acc })
            },
        }
    } else {
        Err("Expected 'constructor', 'predicate', or method definition"@)
    }
}

/// Whether the member at place `i` declares fields: a type and a name
/// that no `(` follows.
#[verifier::opaque]
pub open spec fn is_field(t: Seq<Lexeme>, i: int) -> bool {
    match type_path(t, i) {
        Ok((ty, j)) => match at(t, j) {
            Some(Lexeme::Identifier(_)) => at(t, j + 1) != Some(Lexeme::LParen),
            _ => false,
        },
        Err(_) => false,
    }
}

/// Reads the parents of a class after its name: none, or after `:`
/// dotted names separated by commas.
#[verifier::opaque]
pub open spec fn parents(t: Seq<Lexeme>, i: int) -> Result<(Seq<Seq<Seq<char>>>, int), Seq<char>> {
    if at(t, i) == Some(Lexeme::Colon) {
        match qualified_id(t, i + 1) {
            Err(m) => Err(m),
            Ok((p, l)) => parents_tail(t, l, seq![p]),
        }
    } else {
        Ok((Seq::empty(), i))
    }
}

/// Reads a class: `class`, a name, after `:` its parents, and its
/// members in curly brackets.
#[verifier::opaque]
pub open spec fn class(t: Seq<Lexeme>, i: int) -> Result<(ClassModel, int), Seq<char>> {
    match expect(t, i, Lexeme::Class) {
        Err(m) => Err(m),
        Ok(j) => match identifier(t, j, "Expected class name"@) {
            Err(m) => Err(m),
            Ok((name, k)) => match parents(t, k) {
                Err(m) => Err(m),
                Ok((parents, l)) => match expect(t, l, Lexeme::LBrace) {
                    Err(m) => Err(m),
                    Ok(n) => match members(
                        t,
                        n,
                        name,
                        ClassModel {
                            name,
                            parents,
                            fields: Seq::empty(),
                            constructors: Seq::empty(),
                            methods: Seq::empty(),
                            predicates: Seq::empty(),
                        },
                    ) {
                        Err(m) => Err(m),
                        Ok((c, o)) => match expect(t, o, Lexeme::RBrace) {
                            Err(m) => Err(m),
                            Ok(p) => Ok((c, p)),
                        },
                    },
                },
            },
        },
    }
}

} // verus!
