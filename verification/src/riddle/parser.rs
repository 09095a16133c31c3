//! The parser of the modelling language: tokens to syntax trees, by
//! recursive descent along the grammar.

use crate::riddle::ast::branches;
use crate::riddle::ast::decls;
use crate::riddle::ast::exprs;
use crate::riddle::ast::inits;
use crate::riddle::ast::named_exprs;
use crate::riddle::ast::params;
use crate::riddle::ast::statements;
use crate::riddle::ast::Class;
use crate::riddle::ast::ClassModel;
use crate::riddle::ast::Constructor;
use crate::riddle::ast::ConstructorModel;
use crate::riddle::ast::Method;
use crate::riddle::ast::MethodModel;
use crate::riddle::ast::Predicate;
use crate::riddle::ast::PredicateModel;
use crate::riddle::ast::Statement;
use crate::riddle::ast::StatementModel;
use crate::riddle::grammar;
use crate::riddle::ast::maybe;
use crate::riddle::ast::names;
use crate::riddle::ast::Expr;
use crate::riddle::ast::ExprModel;
use crate::riddle::grammar::additive;
use crate::riddle::grammar::additive_tail;
use crate::riddle::grammar::and_expr;
use crate::riddle::grammar::and_tail;
use crate::riddle::grammar::at;
use crate::riddle::grammar::equality;
use crate::riddle::grammar::expect;
use crate::riddle::grammar::expected_message;
use crate::riddle::grammar::expr_list;
use crate::riddle::grammar::expression;
use crate::riddle::grammar::multiplicative;
use crate::riddle::grammar::multiplicative_tail;
use crate::riddle::grammar::or_expr;
use crate::riddle::grammar::or_tail;
use crate::riddle::grammar::path_tail;
use crate::riddle::grammar::primary;
use crate::riddle::grammar::qualified_id;
use crate::riddle::grammar::relational;
use crate::riddle::lexer::lemma_lex_advances;
use crate::riddle::lexer::lex;
use crate::riddle::lexer::Lexeme;
use crate::riddle::lexer::Lexer;
use crate::riddle::lexer::Token;
use vstd::prelude::*;
use vstd::string::StringExecFns;

verus! {

/// The tokens of the text `s` from place `i` on, up to its end.
pub open spec fn tokens_of(s: Seq<char>, i: int) -> Seq<Lexeme>
    decreases s.len() - i,
{
    let (x, j) = lex(s, i);
    if x is EOF || j <= i || j > s.len() {
        Seq::empty()
    } else {
        seq![x] + tokens_of(s, j)
    }
}

/// The content of a list of tokens.
pub open spec fn lexemes(v: Seq<Token>) -> Seq<Lexeme> {
    Seq::new(v.len(), |i: int| v[i]@)
}

/// Whether the answer `r`, with the parser at place `end`, is what the grammar says.
pub open spec fn ok_expr(
    r: Result<Expr, String>,
    want: Result<(ExprModel, int), Seq<char>>,
    end: int,
) -> bool {
    match (r, want) {
        (Ok(e), Ok((m, j))) => e.model() == m && end == j,
        (Err(s), Err(m)) => s@ == m,
        _ => false,
    }
}

/// The same for a list of expressions.
pub open spec fn ok_exprs(
    r: Result<Vec<Expr>, String>,
    want: Result<(Seq<ExprModel>, int), Seq<char>>,
    end: int,
) -> bool {
    match (r, want) {
        (Ok(v), Ok((m, j))) => exprs(v@) == m && end == j,
        (Err(s), Err(m)) => s@ == m,
        _ => false,
    }
}

/// The same for a list of names.
pub open spec fn ok_names(
    r: Result<Vec<String>, String>,
    want: Result<(Seq<Seq<char>>, int), Seq<char>>,
    end: int,
) -> bool {
    match (r, want) {
        (Ok(v), Ok((m, j))) => names(v@) == m && end == j,
        (Err(s), Err(m)) => s@ == m,
        _ => false,
    }
}

/// The content of an expression with one more at the end of a list.
pub proof fn lemma_exprs_push(v: Seq<Expr>, e: Expr)
    ensures
        exprs(v.push(e)) == exprs(v).push(e.model()),
        exprs(seq![e]) == seq![e.model()],
        exprs(Seq::<Expr>::empty()) == Seq::<ExprModel>::empty(),
{
    assert(exprs(v.push(e)) =~= exprs(v).push(e.model()));
    assert(exprs(seq![e]) =~= seq![e.model()]);
    assert(exprs(Seq::<Expr>::empty()) =~= Seq::<ExprModel>::empty());
}

/// The content of a list of names with one more at the end.
pub proof fn lemma_names_push(v: Seq<String>, s: String)
    ensures
        names(v.push(s)) == names(v).push(s@),
        names(seq![s]) == seq![s@],
{
    assert(names(v.push(s)) =~= names(v).push(s@));
    assert(names(seq![s]) =~= seq![s@]);
}

/// The content of the expressions that hold lists.
pub proof fn lemma_list_models(v: Vec<Expr>)
    ensures
        (Expr::Or { terms: v }).model() == ExprModel::Or(exprs(v@)),
        (Expr::And { terms: v }).model() == ExprModel::And(exprs(v@)),
        (Expr::Sum { terms: v }).model() == ExprModel::Sum(exprs(v@)),
        (Expr::Mul { factors: v }).model() == ExprModel::Mul(exprs(v@)),
{
    assert((Expr::Or { terms: v }).model()->Or_0 =~= exprs(v@));
    assert((Expr::And { terms: v }).model()->And_0 =~= exprs(v@));
    assert((Expr::Sum { terms: v }).model()->Sum_0 =~= exprs(v@));
    assert((Expr::Mul { factors: v }).model()->Mul_0 =~= exprs(v@));
}

/// The content of a call.
pub proof fn lemma_function_model(name: Vec<String>, v: Vec<Expr>)
    ensures
        (Expr::Function { name, args: v }).model() == ExprModel::Function(names(name@), exprs(v@)),
{
    assert((Expr::Function { name, args: v }).model()->Function_1 =~= exprs(v@));
}

/// The parser: the tokens of a text and the place that it has come to.
pub struct Parser {
    tokens: Vec<Token>,
    pos: usize,
}

impl Parser {
    /// The tokens that are read.
    pub closed spec fn toks(&self) -> Seq<Lexeme> {
        lexemes(self.tokens@)
    }

    /// The place that the parser has come to.
    pub closed spec fn place(&self) -> int {
        self.pos as int
    }

    /// The parser stays within its tokens.
    pub closed spec fn wf(&self) -> bool {
        self.pos <= self.tokens@.len()
    }

    /// What is left to read.
    pub open spec fn left(&self) -> int {
        self.toks().len() - self.place()
    }

    /// A parser at the start of the tokens that `lexer` has yet to give.
    pub fn new(lexer: Lexer) -> (p: Parser)
        requires
            lexer.wf(),
        ensures
            p.wf(),
            p.place() == 0,
            p.toks() == tokens_of(lexer.text(), lexer.place()),
    {
        let mut lx = lexer;
        let mut tokens: Vec<Token> = Vec::new();
        let ghost s = lexer.text();
        let ghost start = lexer.place();
        proof {
            lx.lemma_bounds();
            assert(lexemes(tokens@) =~= Seq::<Lexeme>::empty());
            assert(lexemes(tokens@) + tokens_of(s, start) =~= tokens_of(s, start));
        }
        loop
            invariant
                lx.wf(),
                lx.text() == s,
                s == lexer.text(),
                start == lexer.place(),
                0 <= lx.place() <= s.len(),
                lexemes(tokens@) + tokens_of(s, lx.place()) == tokens_of(s, start),
            decreases s.len() - lx.place(),
        {
            let ghost here = lx.place();
            proof {
                lemma_lex_advances(s, here);
            }
            let token = lx.next_token();
            proof {
                lx.lemma_bounds();
            }
            if token.same(&Token::EOF) {
                proof {
                    assert(token@ == Lexeme::EOF);
                    assert(lex(s, here).0 is EOF);
                    assert(tokens_of(s, here) =~= Seq::<Lexeme>::empty());
                    assert(lexemes(tokens@) + Seq::<Lexeme>::empty() =~= lexemes(tokens@));
                    assert(lexemes(tokens@) == tokens_of(s, start));
                }
                let p = Parser { tokens, pos: 0 };
                assert(p.toks() == tokens_of(s, start));
                return p;
            }
            let ghost before = tokens@;
            tokens.push(token);
            proof {
                assert(lexemes(tokens@) =~= lexemes(before).push(token@));
                assert(tokens_of(s, here) == seq![token@] + tokens_of(s, lx.place()));
                assert(lexemes(tokens@) + tokens_of(s, lx.place()) =~= lexemes(before) + (
                seq![token@] + tokens_of(s, lx.place())));
            }
        }
    }

    /// The place of the parser among the tokens.
    pub fn position(&self) -> (p: usize)
        ensures
            p == self.place(),
    {
        self.pos
    }

    /// The number of tokens.
    pub fn len(&self) -> (n: usize)
        ensures
            n == self.toks().len(),
    {
        self.tokens.len()
    }

    /// The token at the place of the parser, if there is one.
    fn peek(&self) -> (r: Option<&Token>)
        requires
            self.wf(),
        ensures
            match r {
                Some(tok) => at(self.toks(), self.place()) == Some(tok@),
                None => at(self.toks(), self.place()).is_none(),
            },
    {
        if self.pos < self.tokens.len() {
            Some(&self.tokens[self.pos])
        } else {
            None
        }
    }

    /// The `n`-th token from the place of the parser on, counting from one.
    pub fn peek_n(&self, n: usize) -> (r: Option<&Token>)
        requires
            self.wf(),
            n >= 1,
        ensures
            match r {
                Some(tok) => at(self.toks(), self.place() + n - 1) == Some(tok@),
                None => at(self.toks(), self.place() + n - 1).is_none(),
            },
    {
        if n - 1 < self.tokens.len() - self.pos {
            Some(&self.tokens[self.pos + (n - 1)])
        } else {
            None
        }
    }

    /// Whether the token at the place of the parser is `token`.
    fn sees(&self, token: &Token) -> (b: bool)
        requires
            self.wf(),
        ensures
            b == (at(self.toks(), self.place()) == Some(token@)),
    {
        match self.peek() {
            Some(t) => t.same(token),
            None => false,
        }
    }

    /// Passes the token at the place of the parser.
    fn bump(&mut self)
        requires
            old(self).wf(),
            at(old(self).toks(), old(self).place()).is_some(),
        ensures
            final(self).wf(),
            final(self).toks() == old(self).toks(),
            final(self).place() == old(self).place() + 1,
            final(self).place() <= final(self).toks().len(),
    {
        if self.pos < self.tokens.len() {
            self.pos += 1;
        }
    }

    /// The parser is within its tokens.
    proof fn lemma_bounds(&self)
        requires
            self.wf(),
        ensures
            0 <= self.place() <= self.toks().len(),
    {
    }

    /// Takes the token at the place of the parser, if there is one.
    fn next(&mut self) -> (r: Option<Token>)
        requires
            old(self).wf(),
        ensures
            final(self).wf(),
            final(self).toks() == old(self).toks(),
            match r {
                Some(tok) => at(old(self).toks(), old(self).place()) == Some(tok@) && final(self).place() == old(self).place() + 1,
                None => at(old(self).toks(), old(self).place()).is_none() && final(self).place()
                    == old(self).place(),
            },
    {
        if self.pos < self.tokens.len() {
            let t = self.tokens[self.pos].duplicate();
            self.pos += 1;
            Some(t)
        } else {
            None
        }
    }

    /// Takes the token at the place of the parser, which is to be `expected`.
    fn expect(&mut self, expected: Token) -> (r: Result<Token, String>)
        requires
            old(self).wf(),
        ensures
            final(self).wf(),
            final(self).toks() == old(self).toks(),
            old(self).place() <= final(self).place() <= final(self).toks().len(),
            match (r, expect(old(self).toks(), old(self).place(), expected@)) {
                (Ok(tok), Ok(j)) => tok@ == expected@ && final(self).place() == j,
                (Err(s), Err(m)) => s@ == m,
                _ => false,
            },
    {
        match self.next() {
            Some(token) => {
                if token.same(&expected) {
                    Ok(token)
                } else {
                    let mut s = String::from_str("Expected ");
                    s.append(expected.describe().as_str());
                    s.append(", found ");
                    s.append(token.describe().as_str());
                    Err(s)
                }
            },
            None => {
                let mut s = String::from_str("Expected ");
                s.append(expected.describe().as_str());
                s.append(", found end of input");
                Err(s)
            },
        }
    }

    /// Reads the rest of a dotted name after the names of `ids`.
    fn parse_path_tail(&mut self, ids: Vec<String>) -> (r: Result<Vec<String>, String>)
        requires
            old(self).wf(),
        ensures
            final(self).wf(),
            final(self).toks() == old(self).toks(),
            old(self).place() <= final(self).place() <= final(self).toks().len(),
            ok_names(r, path_tail(old(self).toks(), old(self).place(), names(ids@)), final(self).place()),
    {
        let ghost given = names(ids@);
        let mut list = ids;
        while self.sees(&Token::Dot)
            invariant
                given == names(ids@),
                self.wf(),
                self.toks() == old(self).toks(),
                old(self).place() <= self.place() <= self.toks().len(),
                path_tail(self.toks(), self.place(), names(list@)) == path_tail(
                    old(self).toks(),
                    old(self).place(),
                    given,
                ),
            decreases self.toks().len() - self.place(),
        {
            let ghost t = self.toks();
            let ghost i = self.place();
            let ghost acc = names(list@);
            self.bump();
            match self.next() {
                Some(Token::Identifier(name)) => {
                    proof {
                        lemma_names_push(list@, name);
                        assert(at(t, i + 1) == Some(Lexeme::Identifier(name@)));
                    }
                    list.push(name);
                },
                Some(other) => {
                    proof {
                        assert(at(t, i + 1) == Some(other@));
                        assert(!(other@ is Identifier));
                        assert(path_tail(t, i, acc) == Err::<(Seq<Seq<char>>, int), Seq<char>>(
                            "Expected identifier after '.'"@,
                        ));
                    }
                    return Err(String::from_str("Expected identifier after '.'"));
                },
                None => {
                    proof {
                        assert(path_tail(t, i, acc) == Err::<(Seq<Seq<char>>, int), Seq<char>>(
                            "Expected identifier after '.'"@,
                        ));
                    }
                    return Err(String::from_str("Expected identifier after '.'"));
                },
            }
        }
        Ok(list)
    }

    /// Reads a dotted name.
    fn parse_qualified_id(&mut self) -> (r: Result<Vec<String>, String>)
        requires
            old(self).wf(),
        ensures
            final(self).wf(),
            final(self).toks() == old(self).toks(),
            old(self).place() <= final(self).place() <= final(self).toks().len(),
            r is Ok ==> old(self).place() < final(self).place(),
            ok_names(r, qualified_id(old(self).toks(), old(self).place()), final(self).place()),
    {
        match self.next() {
            Some(Token::Identifier(name)) => {
                let mut ids: Vec<String> = Vec::new();
                proof {
                    lemma_names_push(ids@, name);
                    assert(ids@.push(name) =~= seq![name]);
                }
                ids.push(name);
                self.parse_path_tail(ids)
            },
            _ => Err(String::from_str("Expected identifier")),
        }
    }

    /// Reads an expression; `first`, where given, is its first operand,
    /// already read.
    #[verifier::loop_isolation(false)]
    #[verifier::spinoff_prover]
    pub fn parse_expression(&mut self, first: Option<Expr>) -> (r: Result<Expr, String>)
        requires
            old(self).wf(),
        ensures
            final(self).wf(),
            final(self).toks() == old(self).toks(),
            old(self).place() <= final(self).place() <= final(self).toks().len(),
            r is Ok && first is None ==> old(self).place() < final(self).place(),
            ok_expr(r, expression(old(self).toks(), old(self).place(), maybe(first)), final(self).place()),
        decreases old(self).left(), 7int,
    {
        let ghost given = maybe(first);
        let r = self.parse_or_expression(first);
        assert(ok_expr(r, expression(old(self).toks(), old(self).place(), given), self.place())) by {
            reveal(expression);
        }
        r
    }

    #[verifier::loop_isolation(false)]
    #[verifier::spinoff_prover]
    #[verifier::rlimit(100)]
    fn parse_or_expression(&mut self, first: Option<Expr>) -> (r: Result<Expr, String>)
        requires
            old(self).wf(),
        ensures
            final(self).wf(),
            final(self).toks() == old(self).toks(),
            old(self).place() <= final(self).place() <= final(self).toks().len(),
            r is Ok && first is None ==> old(self).place() < final(self).place(),
            ok_expr(r, or_expr(old(self).toks(), old(self).place(), maybe(first)), final(self).place()),
        decreases old(self).left(), 6int,
    {
        let e = match self.parse_and_expression(first) {
            Ok(e) => e,
            Err(m) => {
                return Err(m);
            },
        };
        let ghost mid = self.place();
        let mut terms: Vec<Expr> = Vec::new();
        proof {
            lemma_exprs_push(terms@, e);
            assert(terms@.push(e) =~= seq![e]);
        }
        terms.push(e);
        while self.sees(&Token::Bar)
            invariant
                self.wf(),
                self.toks() == old(self).toks(),
                mid <= self.place() <= self.toks().len(),
                old(self).place() <= mid,
                terms@.len() >= 1,
                or_tail(self.toks(), self.place(), exprs(terms@)) == or_tail(
                    old(self).toks(),
                    mid,
                    seq![e.model()],
                ),
            decreases self.toks().len() - self.place(),
        {
            self.bump();
            match self.parse_and_expression(None) {
                Ok(x) => {
                    proof {
                        lemma_exprs_push(terms@, x);
                    }
                    terms.push(x);
                },
                Err(m) => {
                    return Err(m);
                },
            }
        }
        if terms.len() == 1 {
            Ok(terms.remove(0))
        } else {
            proof {
                lemma_list_models(terms);
            }
            Ok(Expr::Or { terms })
        }
    }

    #[verifier::loop_isolation(false)]
    #[verifier::spinoff_prover]
    #[verifier::rlimit(100)]
    fn parse_and_expression(&mut self, first: Option<Expr>) -> (r: Result<Expr, String>)
        requires
            old(self).wf(),
        ensures
            final(self).wf(),
            final(self).toks() == old(self).toks(),
            old(self).place() <= final(self).place() <= final(self).toks().len(),
            r is Ok && first is None ==> old(self).place() < final(self).place(),
            ok_expr(r, and_expr(old(self).toks(), old(self).place(), maybe(first)), final(self).place()),
        decreases old(self).left(), 5int,
    {
        let e = match self.parse_equality_expression(first) {
            Ok(e) => e,
            Err(m) => {
                return Err(m);
            },
        };
        let ghost mid = self.place();
        let mut terms: Vec<Expr> = Vec::new();
        proof {
            lemma_exprs_push(terms@, e);
            assert(terms@.push(e) =~= seq![e]);
        }
        terms.push(e);
        while self.sees(&Token::Amp)
            invariant
                self.wf(),
                self.toks() == old(self).toks(),
                mid <= self.place() <= self.toks().len(),
                old(self).place() <= mid,
                terms@.len() >= 1,
                and_tail(self.toks(), self.place(), exprs(terms@)) == and_tail(
                    old(self).toks(),
                    mid,
                    seq![e.model()],
                ),
            decreases self.toks().len() - self.place(),
        {
            self.bump();
            match self.parse_equality_expression(None) {
                Ok(x) => {
                    proof {
                        lemma_exprs_push(terms@, x);
                    }
                    terms.push(x);
                },
                Err(m) => {
                    return Err(m);
                },
            }
        }
        if terms.len() == 1 {
            Ok(terms.remove(0))
        } else {
            proof {
                lemma_list_models(terms);
            }
            Ok(Expr::And { terms })
        }
    }

    #[verifier::loop_isolation(false)]
    #[verifier::spinoff_prover]
    fn parse_equality_expression(&mut self, first: Option<Expr>) -> (r: Result<Expr, String>)
        requires
            old(self).wf(),
        ensures
            final(self).wf(),
            final(self).toks() == old(self).toks(),
            old(self).place() <= final(self).place() <= final(self).toks().len(),
            r is Ok && first is None ==> old(self).place() < final(self).place(),
            ok_expr(r, equality(old(self).toks(), old(self).place(), maybe(first)), final(self).place()),
        decreases old(self).left(), 4int,
    {
        let left = match self.parse_relational_expression(first) {
            Ok(e) => e,
            Err(m) => {
                return Err(m);
            },
        };
        let equal = self.sees(&Token::EqualEqual);
        if equal || self.sees(&Token::NotEqual) {
            self.bump();
            match self.parse_relational_expression(None) {
                Ok(right) => if equal {
                    Ok(Expr::Eq { left: Box::new(left), right: Box::new(right) })
                } else {
                    Ok(Expr::Neq { left: Box::new(left), right: Box::new(right) })
                },
                Err(m) => Err(m),
            }
        } else {
            Ok(left)
        }
    }

    #[verifier::loop_isolation(false)]
    #[verifier::spinoff_prover]
    fn parse_relational_expression(&mut self, first: Option<Expr>) -> (r: Result<Expr, String>)
        requires
            old(self).wf(),
        ensures
            final(self).wf(),
            final(self).toks() == old(self).toks(),
            old(self).place() <= final(self).place() <= final(self).toks().len(),
            r is Ok && first is None ==> old(self).place() < final(self).place(),
            ok_expr(r, relational(old(self).toks(), old(self).place(), maybe(first)), final(self).place()),
        decreases old(self).left(), 3int,
    {
        let left = match self.parse_additive_expression(first) {
            Ok(e) => e,
            Err(m) => {
                return Err(m);
            },
        };
        let lt = self.sees(&Token::LessThan);
        let leq = self.sees(&Token::LessEqual);
        let gt = self.sees(&Token::GreaterThan);
        let geq = self.sees(&Token::GreaterEqual);
        if lt || leq || gt || geq {
            self.bump();
            match self.parse_additive_expression(None) {
                Ok(right) => if lt {
                    Ok(Expr::Lt { left: Box::new(left), right: Box::new(right) })
                } else if leq {
                    Ok(Expr::Leq { left: Box::new(left), right: Box::new(right) })
                } else if gt {
                    Ok(Expr::Gt { left: Box::new(left), right: Box::new(right) })
                } else {
                    Ok(Expr::Geq { left: Box::new(left), right: Box::new(right) })
                },
                Err(m) => Err(m),
            }
        } else {
            Ok(left)
        }
    }

    #[verifier::loop_isolation(false)]
    #[verifier::spinoff_prover]
    fn parse_additive_expression(&mut self, first: Option<Expr>) -> (r: Result<Expr, String>)
        requires
            old(self).wf(),
        ensures
            final(self).wf(),
            final(self).toks() == old(self).toks(),
            old(self).place() <= final(self).place() <= final(self).toks().len(),
            r is Ok && first is None ==> old(self).place() < final(self).place(),
            ok_expr(r, additive(old(self).toks(), old(self).place(), maybe(first)), final(self).place()),
        decreases old(self).left(), 2int,
    {
        let e = match self.parse_multiplicative_expression(first) {
            Ok(e) => e,
            Err(m) => {
                return Err(m);
            },
        };
        let ghost mid = self.place();
        let mut terms: Vec<Expr> = Vec::new();
        proof {
            lemma_exprs_push(terms@, e);
            assert(terms@.push(e) =~= seq![e]);
        }
        terms.push(e);
        loop
            invariant
                self.wf(),
                self.toks() == old(self).toks(),
                mid <= self.place() <= self.toks().len(),
                old(self).place() <= mid,
                terms@.len() >= 1,
                additive_tail(self.toks(), self.place(), exprs(terms@)) == additive_tail(
                    old(self).toks(),
                    mid,
                    seq![e.model()],
                ),
            decreases self.toks().len() - self.place(),
        {
            let plus = self.sees(&Token::Plus);
            if !plus && !self.sees(&Token::Minus) {
                break ;
            }
            self.bump();
            match self.parse_multiplicative_expression(None) {
                Ok(x) => {
                    let y = if plus {
                        x
                    } else {
                        Expr::Opposite { term: Box::new(x) }
                    };
                    proof {
                        lemma_exprs_push(terms@, y);
                    }
                    terms.push(y);
                },
                Err(m) => {
                    return Err(m);
                },
            }
        }
        if terms.len() == 1 {
            Ok(terms.remove(0))
        } else {
            proof {
                lemma_list_models(terms);
            }
            Ok(Expr::Sum { terms })
        }
    }

    #[verifier::loop_isolation(false)]
    #[verifier::spinoff_prover]
    fn parse_multiplicative_expression(&mut self, first: Option<Expr>) -> (r: Result<Expr, String>)
        requires
            old(self).wf(),
        ensures
            final(self).wf(),
            final(self).toks() == old(self).toks(),
            old(self).place() <= final(self).place() <= final(self).toks().len(),
            r is Ok && first is None ==> old(self).place() < final(self).place(),
            ok_expr(r, multiplicative(old(self).toks(), old(self).place(), maybe(first)), final(self).place()),
        decreases old(self).left(), 1int,
    {
        let e = match first {
            Some(e) => e,
            None => match self.parse_primary_expression() {
                Ok(e) => e,
                Err(m) => {
                    return Err(m);
                },
            },
        };
        let ghost mid = self.place();
        let mut factors: Vec<Expr> = Vec::new();
        proof {
            lemma_exprs_push(factors@, e);
            assert(factors@.push(e) =~= seq![e]);
        }
        factors.push(e);
        loop
            invariant
                self.wf(),
                self.toks() == old(self).toks(),
                mid <= self.place() <= self.toks().len(),
                old(self).place() <= mid,
                first is None ==> old(self).place() < mid,
                factors@.len() >= 1,
                multiplicative_tail(self.toks(), self.place(), exprs(factors@))
                    == multiplicative_tail(old(self).toks(), mid, seq![e.model()]),
            decreases self.toks().len() - self.place(),
        {
            if self.sees(&Token::Asterisk) {
                self.bump();
                match self.parse_primary_expression() {
                    Ok(x) => {
                        proof {
                            lemma_exprs_push(factors@, x);
                        }
                        factors.push(x);
                    },
                    Err(m) => {
                        return Err(m);
                    },
                }
            } else if self.sees(&Token::Slash) {
                self.bump();
                match self.parse_primary_expression() {
                    Ok(right) => {
                        let ghost all = factors@;
                        let left = factors.pop().unwrap();
                        assert(left.model() == exprs(all)[all.len() - 1]);
                        return Ok(Expr::Div { left: Box::new(left), right: Box::new(right) });
                    },
                    Err(m) => {
                        return Err(m);
                    },
                }
            } else {
                break ;
            }
        }
        if factors.len() == 1 {
            Ok(factors.remove(0))
        } else {
            proof {
                lemma_list_models(factors);
            }
            Ok(Expr::Mul { factors })
        }
    }

    #[verifier::loop_isolation(false)]
    #[verifier::spinoff_prover]
    #[verifier::rlimit(100)]
    fn parse_primary_expression(&mut self) -> (r: Result<Expr, String>)
        requires
            old(self).wf(),
        ensures
            final(self).wf(),
            final(self).toks() == old(self).toks(),
            old(self).place() <= final(self).place() <= final(self).toks().len(),
            r is Ok ==> old(self).place() < final(self).place(),
            ok_expr(r, primary(old(self).toks(), old(self).place()), final(self).place()),
        decreases old(self).left(), 0int,
    {
        match self.next() {
            Some(Token::BoolLiteral(value)) => Ok(Expr::Bool(value)),
            Some(Token::IntLiteral(value)) => Ok(Expr::Int(value)),
            Some(Token::RealLiteral(num, den)) => Ok(Expr::Real(num, den)),
            Some(Token::Identifier(name)) => {
                let mut start: Vec<String> = Vec::new();
                proof {
                    lemma_names_push(start@, name);
                    assert(start@.push(name) =~= seq![name]);
                }
                start.push(name);
                let ids = match self.parse_path_tail(start) {
                    Ok(ids) => ids,
                    Err(m) => {
                        return Err(m);
                    },
                };
                if self.sees(&Token::LParen) {
                    self.bump();
                    let args = match self.parse_expr_list() {
                        Ok(args) => args,
                        Err(m) => {
                            return Err(m);
                        },
                    };
                    match self.expect(Token::RParen) {
                        Ok(_) => {
                            proof {
                                lemma_function_model(ids, args);
                            }
                            Ok(Expr::Function { name: ids, args })
                        },
                        Err(m) => Err(m),
                    }
                } else {
                    Ok(Expr::QualifiedId { ids })
                }
            },
            Some(Token::LParen) => {
                let e = match self.parse_expression(None) {
                    Ok(e) => e,
                    Err(m) => {
                        return Err(m);
                    },
                };
                match self.expect(Token::RParen) {
                    Ok(_) => Ok(e),
                    Err(m) => Err(m),
                }
            },
            Some(token) => {
                let mut s = String::from_str("Unexpected token: ");
                s.append(token.describe().as_str());
                Err(s)
            },
            None => Err(String::from_str("Unexpected end of input")),
        }
    }

    /// Reads expressions separated by commas, up to a `)` or to an
    /// expression that no comma follows.
    #[verifier::loop_isolation(false)]
    #[verifier::spinoff_prover]
    fn parse_expr_list(&mut self) -> (r: Result<Vec<Expr>, String>)
        requires
            old(self).wf(),
        ensures
            final(self).wf(),
            final(self).toks() == old(self).toks(),
            old(self).place() <= final(self).place() <= final(self).toks().len(),
            ok_exprs(
                r,
                expr_list(old(self).toks(), old(self).place(), Seq::empty()),
                final(self).place(),
            ),
        decreases old(self).left(), 8int,
    {
        let mut list: Vec<Expr> = Vec::new();
        proof {
            assert(exprs(list@) =~= Seq::<ExprModel>::empty());
        }
        while !self.sees(&Token::RParen)
            invariant
                self.wf(),
                self.toks() == old(self).toks(),
                old(self).place() <= self.place() <= self.toks().len(),
                expr_list(self.toks(), self.place(), exprs(list@)) == expr_list(
                    old(self).toks(),
                    old(self).place(),
                    Seq::empty(),
                ),
            decreases self.toks().len() - self.place(),
        {
            match self.parse_expression(None) {
                Ok(e) => {
                    proof {
                        lemma_exprs_push(list@, e);
                    }
                    list.push(e);
                },
                Err(m) => {
                    return Err(m);
                },
            }
            if self.sees(&Token::Comma) {
                self.bump();
            } else {
                return Ok(list);
            }
        }
        Ok(list)
    }
}

/// Whether the answer `r`, with the parser at place `end`, is what the grammar says.
pub open spec fn ok_stmt(
    r: Result<Statement, String>,
    want: Result<(StatementModel, int), Seq<char>>,
    end: int,
) -> bool {
    match (r, want) {
        (Ok(e), Ok((m, j))) => e.model() == m && end == j,
        (Err(s), Err(m)) => s@ == m,
        _ => false,
    }
}

/// The same for a list of statements.
pub open spec fn ok_stmts(
    r: Result<Vec<Statement>, String>,
    want: Result<(Seq<StatementModel>, int), Seq<char>>,
    end: int,
) -> bool {
    match (r, want) {
        (Ok(v), Ok((m, j))) => statements(v@) == m && end == j,
        (Err(s), Err(m)) => s@ == m,
        _ => false,
    }
}

/// The same for a name.
pub open spec fn ok_name(
    r: Result<String, String>,
    want: Result<(Seq<char>, int), Seq<char>>,
    end: int,
) -> bool {
    match (r, want) {
        (Ok(v), Ok((m, j))) => v@ == m && end == j,
        (Err(s), Err(m)) => s@ == m,
        _ => false,
    }
}

/// The same for the declaration of a variable.
pub open spec fn ok_decl(
    r: Result<(String, Option<Expr>), String>,
    want: Result<((Seq<char>, Option<ExprModel>), int), Seq<char>>,
    end: int,
) -> bool {
    match (r, want) {
        (Ok(v), Ok((m, j))) => (v.0@, maybe(v.1)) == m && end == j,
        (Err(s), Err(m)) => s@ == m,
        _ => false,
    }
}

/// The same for typed arguments.
pub open spec fn ok_params(
    r: Result<Vec<(Vec<String>, String)>, String>,
    want: Result<(Seq<(Seq<Seq<char>>, Seq<char>)>, int), Seq<char>>,
    end: int,
) -> bool {
    match (r, want) {
        (Ok(v), Ok((m, j))) => params(v@) == m && end == j,
        (Err(s), Err(m)) => s@ == m,
        _ => false,
    }
}

/// The same for the arguments of a formula.
pub open spec fn ok_named(
    r: Result<Vec<(String, Expr)>, String>,
    want: Result<(Seq<(Seq<char>, ExprModel)>, int), Seq<char>>,
    end: int,
) -> bool {
    match (r, want) {
        (Ok(v), Ok((m, j))) => named_exprs(v@) == m && end == j,
        (Err(s), Err(m)) => s@ == m,
        _ => false,
    }
}

/// The same for the initialisations of a constructor.
pub open spec fn ok_inits(
    r: Result<Vec<(String, Vec<Expr>)>, String>,
    want: Result<(Seq<(Seq<char>, Seq<ExprModel>)>, int), Seq<char>>,
    end: int,
) -> bool {
    match (r, want) {
        (Ok(v), Ok((m, j))) => inits(v@) == m && end == j,
        (Err(s), Err(m)) => s@ == m,
        _ => false,
    }
}

/// The same for typed arguments with a body.
pub open spec fn ok_signature(
    r: Result<(Vec<(Vec<String>, String)>, Vec<Statement>), String>,
    want: Result<((Seq<(Seq<Seq<char>>, Seq<char>)>, Seq<StatementModel>), int), Seq<char>>,
    end: int,
) -> bool {
    match (r, want) {
        (Ok(v), Ok((m, j))) => params(v.0@) == m.0 && statements(v.1@) == m.1 && end == j,
        (Err(s), Err(m)) => s@ == m,
        _ => false,
    }
}

/// The same for a predicate.
pub open spec fn ok_predicate(
    r: Result<Predicate, String>,
    want: Result<(PredicateModel, int), Seq<char>>,
    end: int,
) -> bool {
    match (r, want) {
        (Ok(v), Ok((m, j))) => v.model() == m && end == j,
        (Err(s), Err(m)) => s@ == m,
        _ => false,
    }
}

/// The same for a method.
pub open spec fn ok_method(
    r: Result<Method, String>,
    want: Result<(MethodModel, int), Seq<char>>,
    end: int,
) -> bool {
    match (r, want) {
        (Ok(v), Ok((m, j))) => v.model() == m && end == j,
        (Err(s), Err(m)) => s@ == m,
        _ => false,
    }
}

/// The same for a constructor.
pub open spec fn ok_constructor(
    r: Result<Constructor, String>,
    want: Result<(ConstructorModel, int), Seq<char>>,
    end: int,
) -> bool {
    match (r, want) {
        (Ok(v), Ok((m, j))) => v.model() == m && end == j,
        (Err(s), Err(m)) => s@ == m,
        _ => false,
    }
}

/// The same for a class.
pub open spec fn ok_class(
    r: Result<Class, String>,
    want: Result<(ClassModel, int), Seq<char>>,
    end: int,
) -> bool {
    match (r, want) {
        (Ok(v), Ok((m, j))) => v.model() == m && end == j,
        (Err(s), Err(m)) => s@ == m,
        _ => false,
    }
}

/// The content of lists with one more element at the end.
pub proof fn lemma_statements_push(v: Seq<Statement>, s: Statement)
    ensures
        statements(v.push(s)) == statements(v).push(s.model()),
        statements(Seq::<Statement>::empty()) == Seq::<StatementModel>::empty(),
{
    assert(statements(v.push(s)) =~= statements(v).push(s.model()));
    assert(statements(Seq::<Statement>::empty()) =~= Seq::<StatementModel>::empty());
}

/// The content of declarations with one more at the end.
pub proof fn lemma_decls_push(v: Seq<(String, Option<Expr>)>, d: (String, Option<Expr>))
    ensures
        decls(v.push(d)) == decls(v).push((d.0@, maybe(d.1))),
        decls(seq![d]) == seq![(d.0@, maybe(d.1))],
{
    assert(decls(v.push(d)) =~= decls(v).push((d.0@, maybe(d.1))));
    assert(decls(seq![d]) =~= seq![(d.0@, maybe(d.1))]);
}

/// The content of typed arguments with one more at the end.
pub proof fn lemma_params_push(v: Seq<(Vec<String>, String)>, d: (Vec<String>, String))
    ensures
        params(v.push(d)) == params(v).push((names(d.0@), d.1@)),
        params(Seq::<(Vec<String>, String)>::empty()) == Seq::<
            (Seq<Seq<char>>, Seq<char>),
        >::empty(),
{
    assert(params(v.push(d)) =~= params(v).push((names(d.0@), d.1@)));
    assert(params(Seq::<(Vec<String>, String)>::empty()) =~= Seq::<
        (Seq<Seq<char>>, Seq<char>),
    >::empty());
}

/// The content of named expressions with one more at the end.
pub proof fn lemma_named_push(v: Seq<(String, Expr)>, d: (String, Expr))
    ensures
        named_exprs(v.push(d)) == named_exprs(v).push((d.0@, d.1.model())),
        named_exprs(Seq::<(String, Expr)>::empty()) == Seq::<(Seq<char>, ExprModel)>::empty(),
{
    assert(named_exprs(v.push(d)) =~= named_exprs(v).push((d.0@, d.1.model())));
    assert(named_exprs(Seq::<(String, Expr)>::empty()) =~= Seq::<(Seq<char>, ExprModel)>::empty());
}

/// The content of initialisations with one more at the end.
pub proof fn lemma_inits_push(v: Seq<(String, Vec<Expr>)>, d: (String, Vec<Expr>))
    ensures
        inits(v.push(d)) == inits(v).push((d.0@, exprs(d.1@))),
        inits(Seq::<(String, Vec<Expr>)>::empty()) == Seq::<(Seq<char>, Seq<ExprModel>)>::empty(),
{
    assert(inits(v.push(d)) =~= inits(v).push((d.0@, exprs(d.1@))));
    assert(inits(Seq::<(String, Vec<Expr>)>::empty()) =~= Seq::<
        (Seq<char>, Seq<ExprModel>),
    >::empty());
}

/// The content of branches with one more at the end.
pub proof fn lemma_branches_push(v: Seq<(Vec<Statement>, Expr)>, d: (Vec<Statement>, Expr))
    ensures
        branches(v.push(d)) == branches(v).push((statements(d.0@), d.1.model())),
        branches(Seq::<(Vec<Statement>, Expr)>::empty()) == Seq::<
            (Seq<StatementModel>, ExprModel),
        >::empty(),
{
    assert(branches(v.push(d)) =~= branches(v).push((statements(d.0@), d.1.model())));
    assert(branches(Seq::<(Vec<Statement>, Expr)>::empty()) =~= Seq::<
        (Seq<StatementModel>, ExprModel),
    >::empty());
}

/// The content of the statements that hold lists of statements.
pub proof fn lemma_for_all_model(var_type: Vec<String>, var_name: String, stmts: Vec<Statement>)
    ensures
        (Statement::ForAll { var_type, var_name, statements: stmts }).model()
            == StatementModel::ForAll(names(var_type@), var_name@, statements(stmts@)),
{
    assert((Statement::ForAll { var_type, var_name, statements: stmts }).model()->ForAll_2
        =~= statements(stmts@));
}

/// The content of a disjunction.
pub proof fn lemma_disjunction_model(v: Vec<(Vec<Statement>, Expr)>)
    ensures
        (Statement::Disjunction { disjuncts: v }).model() == StatementModel::Disjunction(
            branches(v@),
        ),
{
    let a = (Statement::Disjunction { disjuncts: v }).model()->Disjunction_0;
    let b = branches(v@);
    assert(a.len() == b.len());
    assert forall|i: int| 0 <= i < a.len() implies a[i] == b[i] by {
        assert(a[i].0 =~= b[i].0);
    }
    assert(a =~= b);
}

impl Parser {
    /// The list that holds the name `word` alone.
    fn one_name(word: &str) -> (v: Vec<String>)
        ensures
            names(v@) == seq![word@],
    {
        let mut v: Vec<String> = Vec::new();
        let w = String::from_str(word);
        proof {
            lemma_names_push(v@, w);
            assert(v@.push(w) =~= seq![w]);
        }
        v.push(w);
        v
    }

    /// Reads the name of a type.
    #[verifier::spinoff_prover]
    fn parse_type(&mut self) -> (r: Result<Vec<String>, String>)
        requires
            old(self).wf(),
        ensures
            final(self).wf(),
            final(self).toks() == old(self).toks(),
            old(self).place() <= final(self).place() <= final(self).toks().len(),
            r is Ok ==> old(self).place() < final(self).place(),
            ok_names(r, grammar::type_path(old(self).toks(), old(self).place()), final(self).place()),
    {
        proof {
            self.lemma_bounds();
        }
        match self.peek() {
            Some(Token::Bool) => {
                self.bump();
                Ok(Parser::one_name("bool"))
            },
            Some(Token::Int) => {
                self.bump();
                Ok(Parser::one_name("int"))
            },
            Some(Token::Real) => {
                self.bump();
                Ok(Parser::one_name("real"))
            },
            Some(Token::String) => {
                self.bump();
                Ok(Parser::one_name("string"))
            },
            Some(Token::Identifier(_)) => self.parse_qualified_id(),
            _ => Err(String::from_str("Expected type name")),
        }
    }

    /// Reads an identifier, or fails with `message`.
    #[verifier::spinoff_prover]
    fn parse_identifier(&mut self, message: &str) -> (r: Result<String, String>)
        requires
            old(self).wf(),
        ensures
            final(self).wf(),
            final(self).toks() == old(self).toks(),
            old(self).place() <= final(self).place() <= final(self).toks().len(),
            r is Ok ==> old(self).place() < final(self).place(),
            ok_name(r, grammar::identifier(old(self).toks(), old(self).place(), message@), final(self).place()),
    {
        proof {
            self.lemma_bounds();
        }
        match self.next() {
            Some(Token::Identifier(name)) => Ok(name),
            _ => Err(String::from_str(message)),
        }
    }

    /// Reads the declaration of a variable.
    #[verifier::spinoff_prover]
    fn parse_var_decl(&mut self) -> (r: Result<(String, Option<Expr>), String>)
        requires
            old(self).wf(),
        ensures
            final(self).wf(),
            final(self).toks() == old(self).toks(),
            old(self).place() <= final(self).place() <= final(self).toks().len(),
            r is Ok ==> old(self).place() < final(self).place(),
            ok_decl(r, grammar::var_decl(old(self).toks(), old(self).place()), final(self).place()),
        decreases old(self).left(), 8int,
    {
        proof {
            self.lemma_bounds();
        }
        let r = match self.next() {
            Some(Token::Identifier(name)) => if self.sees(&Token::Equal) {
                self.bump();
                match self.parse_expression(None) {
                    Ok(e) => Ok((name, Some(e))),
                    Err(m) => Err(m),
                }
            } else {
                Ok((name, None))
            },
            _ => Err(String::from_str("Expected variable name")),
        };
        assert(ok_decl(r, grammar::var_decl(old(self).toks(), old(self).place()), self.place())) by {
            reveal(grammar::var_decl);
        }
        r
    }

    /// Reads `,` and a declaration, as often as a `,` comes, after the
    /// declarations of `fields`.
    #[verifier::spinoff_prover]
    fn parse_var_decls_tail(&mut self, fields: Vec<(String, Option<Expr>)>) -> (r: Result<
        Vec<(String, Option<Expr>)>,
        String,
    >)
        requires
            old(self).wf(),
        ensures
            final(self).wf(),
            final(self).toks() == old(self).toks(),
            old(self).place() <= final(self).place() <= final(self).toks().len(),
            match (
                r,
                grammar::var_decls_tail(old(self).toks(), old(self).place(), decls(fields@)),
            ) {
                (Ok(v), Ok((m, j))) => decls(v@) == m && final(self).place() == j,
                (Err(s), Err(m)) => s@ == m,
                _ => false,
            },
        decreases old(self).left(), 9int,
    {
        proof {
            self.lemma_bounds();
        }
        let ghost t = self.toks();
        let ghost i = self.place();
        let ghost given = decls(fields@);
        if self.sees(&Token::Comma) {
            self.bump();
            match self.parse_var_decl() {
                Ok(x) => {
                    let mut more = fields;
                    proof {
                        lemma_decls_push(more@, x);
                    }
                    more.push(x);
                    let ghost j = self.place();
                    let r = self.parse_var_decls_tail(more);
                    assert(grammar::var_decls_tail(t, i, given) == grammar::var_decls_tail(
                        t,
                        j,
                        decls(more@),
                    )) by {
                        reveal(grammar::var_decls_tail);
                    }
                    r
                },
                Err(m) => {
                    assert(grammar::var_decls_tail(t, i, given) is Err && grammar::var_decls_tail(
                        t,
                        i,
                        given,
                    )->Err_0 == m@) by {
                        reveal(grammar::var_decls_tail);
                    }
                    Err(m)
                },
            }
        } else {
            assert(grammar::var_decls_tail(t, i, given) == Ok::<
                (Seq<(Seq<char>, Option<ExprModel>)>, int),
                Seq<char>,
            >((given, i))) by {
                reveal(grammar::var_decls_tail);
            }
            Ok(fields)
        }
    }

    /// Reads the declarations of local fields of the type `field_type`, up to the `;`.
    #[verifier::spinoff_prover]
    fn parse_local_field(&mut self, field_type: Vec<String>) -> (r: Result<Statement, String>)
        requires
            old(self).wf(),
        ensures
            final(self).wf(),
            final(self).toks() == old(self).toks(),
            old(self).place() <= final(self).place() <= final(self).toks().len(),
            r is Ok ==> old(self).place() < final(self).place(),
            ok_stmt(
                r,
                grammar::local_field(old(self).toks(), old(self).place(), names(field_type@)),
                final(self).place(),
            ),
        decreases old(self).left(), 10int,
    {
        let ghost ty = names(field_type@);
        let r = match self.parse_var_decl() {
            Err(m) => Err(m),
            Ok(d) => {
                let mut fields: Vec<(String, Option<Expr>)> = Vec::new();
                proof {
                    lemma_decls_push(fields@, d);
                    assert(fields@.push(d) =~= seq![d]);
                }
                fields.push(d);
                match self.parse_var_decls_tail(fields) {
                    Err(m) => Err(m),
                    Ok(all) => match self.expect(Token::Semicolon) {
                        Ok(_) => Ok(Statement::LocalField { field_type, fields: all }),
                        Err(m) => Err(m),
                    },
                }
            },
        };
        assert(ok_stmt(
            r,
            grammar::local_field(old(self).toks(), old(self).place(), ty),
            self.place(),
        )) by {
            reveal(grammar::local_field);
        }
        r
    }

    /// Reads typed arguments up to a `)`, after the arguments of `args`.
    #[verifier::spinoff_prover]
    fn parse_params(&mut self, args: Vec<(Vec<String>, String)>, message: &str) -> (r: Result<
        Vec<(Vec<String>, String)>,
        String,
    >)
        requires
            old(self).wf(),
        ensures
            final(self).wf(),
            final(self).toks() == old(self).toks(),
            old(self).place() <= final(self).place() <= final(self).toks().len(),
            ok_params(
                r,
                grammar::params(old(self).toks(), old(self).place(), params(args@), message@),
                final(self).place(),
            ),
        decreases old(self).left(),
    {
        proof {
            self.lemma_bounds();
        }
        let ghost t = self.toks();
        let ghost i = self.place();
        let ghost given = params(args@);
        if self.sees(&Token::RParen) {
            assert(grammar::params(t, i, given, message@) == Ok::<
                (Seq<(Seq<Seq<char>>, Seq<char>)>, int),
                Seq<char>,
            >((given, i))) by {
                reveal(grammar::params);
            }
            return Ok(args);
        }
        let ty = match self.parse_type() {
            Ok(ty) => ty,
            Err(m) => {
                assert(grammar::params(t, i, given, message@) is Err && grammar::params(
                    t,
                    i,
                    given,
                    message@,
                )->Err_0 == m@) by {
                    reveal(grammar::params);
                }
                return Err(m);
            },
        };
        let ghost j = self.place();
        let name = match self.next() {
            Some(Token::Identifier(name)) => name,
            _ => {
                assert(grammar::params(t, i, given, message@) is Err && grammar::params(
                    t,
                    i,
                    given,
                    message@,
                )->Err_0 == message@) by {
                    reveal(grammar::params);
                }
                return Err(String::from_str(message));
            },
        };
        let mut more = args;
        proof {
            lemma_params_push(more@, (ty, name));
        }
        more.push((ty, name));
        if self.sees(&Token::Comma) {
            self.bump();
            let r = self.parse_params(more, message);
            assert(grammar::params(t, i, given, message@) == grammar::params(
                t,
                j + 2,
                params(more@),
                message@,
            )) by {
                reveal(grammar::params);
            }
            r
        } else {
            assert(grammar::params(t, i, given, message@) == Ok::<
                (Seq<(Seq<Seq<char>>, Seq<char>)>, int),
                Seq<char>,
            >((params(more@), j + 1))) by {
                reveal(grammar::params);
            }
            Ok(more)
        }
    }

    /// Reads the arguments of a formula up to a `)`, after those of `args`.
    #[verifier::spinoff_prover]
    fn parse_formula_args(&mut self, args: Vec<(String, Expr)>) -> (r: Result<
        Vec<(String, Expr)>,
        String,
    >)
        requires
            old(self).wf(),
        ensures
            final(self).wf(),
            final(self).toks() == old(self).toks(),
            old(self).place() <= final(self).place() <= final(self).toks().len(),
            ok_named(
                r,
                grammar::formula_args(old(self).toks(), old(self).place(), named_exprs(args@)),
                final(self).place(),
            ),
        decreases old(self).left(), 8int,
    {
        proof {
            self.lemma_bounds();
        }
        let ghost t = self.toks();
        let ghost i = self.place();
        let ghost given = named_exprs(args@);
        if self.sees(&Token::RParen) {
            assert(grammar::formula_args(t, i, given) == Ok::<
                (Seq<(Seq<char>, ExprModel)>, int),
                Seq<char>,
            >((given, i))) by {
                reveal(grammar::formula_args);
            }
            return Ok(args);
        }
        let name = match self.next() {
            Some(Token::Identifier(name)) => name,
            _ => {
                assert(grammar::formula_args(t, i, given) is Err && grammar::formula_args(
                    t,
                    i,
                    given,
                )->Err_0 == "Expected identifier in formula arguments"@) by {
                    reveal(grammar::formula_args);
                }
                return Err(String::from_str("Expected identifier in formula arguments"));
            },
        };
        match self.expect(Token::Colon) {
            Ok(_) => {},
            Err(m) => {
                assert(grammar::formula_args(t, i, given) is Err && grammar::formula_args(
                    t,
                    i,
                    given,
                )->Err_0 == m@) by {
                    reveal(grammar::formula_args);
                }
                return Err(m);
            },
        }
        let e = match self.parse_expression(None) {
            Ok(e) => e,
            Err(m) => {
                assert(grammar::formula_args(t, i, given) is Err && grammar::formula_args(
                    t,
                    i,
                    given,
                )->Err_0 == m@) by {
                    reveal(grammar::formula_args);
                }
                return Err(m);
            },
        };
        let ghost k = self.place();
        let mut more = args;
        proof {
            lemma_named_push(more@, (name, e));
        }
        more.push((name, e));
        if self.sees(&Token::Comma) {
            self.bump();
            let r = self.parse_formula_args(more);
            assert(grammar::formula_args(t, i, given) == grammar::formula_args(
                t,
                k + 1,
                named_exprs(more@),
            )) by {
                reveal(grammar::formula_args);
            }
            r
        } else {
            assert(grammar::formula_args(t, i, given) == Ok::<
                (Seq<(Seq<char>, ExprModel)>, int),
                Seq<char>,
            >((named_exprs(more@), k))) by {
                reveal(grammar::formula_args);
            }
            Ok(more)
        }
    }

    /// Reads statements up to a `}`, after the statements of `list`.
    #[verifier::spinoff_prover]
    fn parse_block(&mut self, list: Vec<Statement>) -> (r: Result<Vec<Statement>, String>)
        requires
            old(self).wf(),
        ensures
            final(self).wf(),
            final(self).toks() == old(self).toks(),
            old(self).place() <= final(self).place() <= final(self).toks().len(),
            ok_stmts(
                r,
                grammar::block(old(self).toks(), old(self).place(), statements(list@)),
                final(self).place(),
            ),
        decreases old(self).left(), 12int,
    {
        proof {
            self.lemma_bounds();
        }
        let ghost t = self.toks();
        let ghost i = self.place();
        let ghost given = statements(list@);
        if self.sees(&Token::RBrace) {
            assert(grammar::block(t, i, given) == Ok::<(Seq<StatementModel>, int), Seq<char>>(
                (given, i),
            )) by {
                reveal(grammar::block);
            }
            return Ok(list);
        }
        match self.parse_statement() {
            Ok(s) => {
                let mut more = list;
                proof {
                    lemma_statements_push(more@, s);
                }
                more.push(s);
                let ghost j = self.place();
                let r = self.parse_block(more);
                assert(grammar::block(t, i, given) == grammar::block(t, j, statements(more@))) by {
                    reveal(grammar::block);
                }
                r
            },
            Err(m) => {
                assert(grammar::block(t, i, given) is Err && grammar::block(t, i, given)->Err_0
                    == m@) by {
                    reveal(grammar::block);
                }
                Err(m)
            },
        }
    }

    /// Reads a body: `{`, statements, `}`.
    #[verifier::spinoff_prover]
    fn parse_body(&mut self) -> (r: Result<Vec<Statement>, String>)
        requires
            old(self).wf(),
        ensures
            final(self).wf(),
            final(self).toks() == old(self).toks(),
            old(self).place() <= final(self).place() <= final(self).toks().len(),
            r is Ok ==> old(self).place() < final(self).place(),
            ok_stmts(r, grammar::body(old(self).toks(), old(self).place()), final(self).place()),
        decreases old(self).left(), 13int,
    {
        let r = match self.expect(Token::LBrace) {
            Err(m) => Err(m),
            Ok(_) => {
                let list: Vec<Statement> = Vec::new();
                proof {
                    assert(statements(list@) =~= Seq::<StatementModel>::empty());
                }
                match self.parse_block(list) {
                    Err(m) => Err(m),
                    Ok(all) => match self.expect(Token::RBrace) {
                        Ok(_) => Ok(all),
                        Err(m) => Err(m),
                    },
                }
            },
        };
        assert(ok_stmts(r, grammar::body(old(self).toks(), old(self).place()), self.place())) by {
            reveal(grammar::body);
        }
        r
    }

    /// Reads a branch of a disjunction after its `{`.
    #[verifier::spinoff_prover]
    fn parse_branch(&mut self) -> (r: Result<(Vec<Statement>, Expr), String>)
        requires
            old(self).wf(),
        ensures
            final(self).wf(),
            final(self).toks() == old(self).toks(),
            old(self).place() <= final(self).place() <= final(self).toks().len(),
            r is Ok ==> old(self).place() < final(self).place(),
            match (r, grammar::branch(old(self).toks(), old(self).place())) {
                (Ok(v), Ok((m, j))) => (statements(v.0@), v.1.model()) == m && final(self).place()
                    == j,
                (Err(s), Err(m)) => s@ == m,
                _ => false,
            },
        decreases old(self).left(), 13int,
    {
        let list: Vec<Statement> = Vec::new();
        proof {
            assert(statements(list@) =~= Seq::<StatementModel>::empty());
        }
        let r = match self.parse_block(list) {
            Err(m) => Err(m),
            Ok(stmts) => match self.expect(Token::RBrace) {
                Err(m) => Err(m),
                Ok(_) => if self.sees(&Token::LBracket) {
                    self.bump();
                    match self.parse_expression(None) {
                        Err(m) => Err(m),
                        Ok(e) => match self.expect(Token::RBracket) {
                            Ok(_) => Ok((stmts, e)),
                            Err(m) => Err(m),
                        },
                    }
                } else {
                    Ok((stmts, Expr::Int(1)))
                },
            },
        };
        assert(match (r, grammar::branch(old(self).toks(), old(self).place())) {
            (Ok(v), Ok((m, j))) => (statements(v.0@), v.1.model()) == m && self.place() == j,
            (Err(s), Err(m)) => s@ == m,
            _ => false,
        }) by {
            reveal(grammar::branch);
        }
        r
    }

    /// Reads the branches of a disjunction after its first `{`, after
    /// the branches of `list`.
    #[verifier::spinoff_prover]
    fn parse_disjuncts(&mut self, list: Vec<(Vec<Statement>, Expr)>) -> (r: Result<
        Statement,
        String,
    >)
        requires
            old(self).wf(),
        ensures
            final(self).wf(),
            final(self).toks() == old(self).toks(),
            old(self).place() <= final(self).place() <= final(self).toks().len(),
            ok_stmt(
                r,
                grammar::disjuncts(old(self).toks(), old(self).place(), branches(list@)),
                final(self).place(),
            ),
        decreases old(self).left(), 14int,
    {
        proof {
            self.lemma_bounds();
        }
        let ghost t = self.toks();
        let ghost i = self.place();
        let ghost given = branches(list@);
        let b = match self.parse_branch() {
            Ok(b) => b,
            Err(m) => {
                assert(grammar::disjuncts(t, i, given) is Err && grammar::disjuncts(
                    t,
                    i,
                    given,
                )->Err_0 == m@) by {
                    reveal(grammar::disjuncts);
                }
                return Err(m);
            },
        };
        let ghost k = self.place();
        let ghost bm = (statements(b.0@), b.1.model());
        let mut more = list;
        proof {
            lemma_branches_push(more@, b);
        }
        more.push(b);
        let ghost all = branches(more@);
        proof {
            assert(all == given.push(bm));
            assert(grammar::branch(t, i) == Ok::<
                ((Seq<StatementModel>, ExprModel), int),
                Seq<char>,
            >((bm, k)));
            assert(i < k <= t.len());
            assert(grammar::disjuncts(t, i, given) == grammar::more_disjuncts(t, k, all)) by {
                reveal(grammar::disjuncts);
            }
        }
        if self.sees(&Token::Or) {
            self.bump();
            match self.expect(Token::LBrace) {
                Ok(_) => {
                    proof {
                        assert(at(t, k) == Some(Lexeme::Or));
                        assert(expect(t, k + 1, Lexeme::LBrace) == Ok::<int, Seq<char>>(k + 2));
                        assert(grammar::more_disjuncts(t, k, all) == grammar::disjuncts(
                            t,
                            k + 2,
                            all,
                        )) by {
                            reveal(grammar::more_disjuncts);
                        }
                    }
                    self.parse_disjuncts(more)
                },
                Err(m) => {
                    assert(grammar::more_disjuncts(t, k, branches(more@)) is Err
                        && grammar::more_disjuncts(t, k, branches(more@))->Err_0 == m@) by {
                        reveal(grammar::more_disjuncts);
                    }
                    Err(m)
                },
            }
        } else {
            proof {
                lemma_disjunction_model(more);
                assert(grammar::more_disjuncts(t, k, branches(more@)) == Ok::<
                    (StatementModel, int),
                    Seq<char>,
                >((StatementModel::Disjunction(branches(more@)), k))) by {
                    reveal(grammar::more_disjuncts);
                }
            }
            Ok(Statement::Disjunction { disjuncts: more })
        }
    }

    /// Reads a formula after `fact` or `goal`.
    #[verifier::spinoff_prover]
    fn parse_formula(&mut self, is_fact: bool) -> (r: Result<Statement, String>)
        requires
            old(self).wf(),
        ensures
            final(self).wf(),
            final(self).toks() == old(self).toks(),
            old(self).place() <= final(self).place() <= final(self).toks().len(),
            ok_stmt(
                r,
                grammar::formula(old(self).toks(), old(self).place(), is_fact),
                final(self).place(),
            ),
        decreases old(self).left(), 10int,
    {
        let r = match self.parse_identifier("Expected identifier after 'fact' or 'goal'") {
            Err(m) => Err(m),
            Ok(name) => match self.expect(Token::Equal) {
                Err(m) => Err(m),
                Ok(_) => match self.expect(Token::New) {
                    Err(m) => Err(m),
                    Ok(_) => match self.parse_qualified_id() {
                        Err(m) => Err(m),
                        Ok(predicate_name) => match self.expect(Token::LParen) {
                            Err(m) => Err(m),
                            Ok(_) => {
                                let none: Vec<(String, Expr)> = Vec::new();
                                proof {
                                    assert(named_exprs(none@) =~= Seq::<
                                        (Seq<char>, ExprModel),
                                    >::empty());
                                }
                                match self.parse_formula_args(none) {
                                    Err(m) => Err(m),
                                    Ok(args) => match self.expect(Token::RParen) {
                                        Err(m) => Err(m),
                                        Ok(_) => match self.expect(Token::Semicolon) {
                                            Ok(_) => Ok(
                                                Statement::Formula {
                                                    is_fact,
                                                    name,
                                                    predicate_name,
                                                    args,
                                                },
                                            ),
                                            Err(m) => Err(m),
                                        },
                                    },
                                }
                            },
                        },
                    },
                },
            },
        };
        assert(ok_stmt(
            r,
            grammar::formula(old(self).toks(), old(self).place(), is_fact),
            self.place(),
        )) by {
            reveal(grammar::formula);
        }
        r
    }

    /// Reads an expression and its `;`.
    #[verifier::spinoff_prover]
    fn parse_expression_statement(&mut self, first: Option<Expr>) -> (r: Result<Statement, String>)
        requires
            old(self).wf(),
        ensures
            final(self).wf(),
            final(self).toks() == old(self).toks(),
            old(self).place() <= final(self).place() <= final(self).toks().len(),
            r is Ok ==> old(self).place() < final(self).place(),
            ok_stmt(
                r,
                grammar::expression_statement(old(self).toks(), old(self).place(), maybe(first)),
                final(self).place(),
            ),
    {
        let ghost given = maybe(first);
        let r = match self.parse_expression(first) {
            Err(m) => Err(m),
            Ok(e) => match self.expect(Token::Semicolon) {
                Ok(_) => Ok(Statement::Expr(e)),
                Err(m) => Err(m),
            },
        };
        assert(ok_stmt(
            r,
            grammar::expression_statement(old(self).toks(), old(self).place(), given),
            self.place(),
        ) && (r is Ok ==> old(self).place() < self.place())) by {
            reveal(grammar::expression_statement);
        }
        r
    }

    /// Reads what follows `return`.
    #[verifier::spinoff_prover]
    fn parse_return(&mut self) -> (r: Result<Statement, String>)
        requires
            old(self).wf(),
        ensures
            final(self).wf(),
            final(self).toks() == old(self).toks(),
            old(self).place() <= final(self).place() <= final(self).toks().len(),
            ok_stmt(
                r,
                grammar::return_statement(old(self).toks(), old(self).place()),
                final(self).place(),
            ),
    {
        let r = match self.parse_expression(None) {
            Err(m) => Err(m),
            Ok(value) => match self.expect(Token::Semicolon) {
                Ok(_) => Ok(Statement::Return { value }),
                Err(m) => Err(m),
            },
        };
        assert(ok_stmt(
            r,
            grammar::return_statement(old(self).toks(), old(self).place()),
            self.place(),
        )) by {
            reveal(grammar::return_statement);
        }
        r
    }

    /// Reads a statement that starts with a dotted name.
    #[verifier::spinoff_prover]
    fn parse_named_statement(&mut self) -> (r: Result<Statement, String>)
        requires
            old(self).wf(),
        ensures
            final(self).wf(),
            final(self).toks() == old(self).toks(),
            old(self).place() <= final(self).place() <= final(self).toks().len(),
            r is Ok ==> old(self).place() < final(self).place(),
            ok_stmt(
                r,
                grammar::named_statement(old(self).toks(), old(self).place()),
                final(self).place(),
            ),
    {
        let r = match self.parse_qualified_id() {
            Err(m) => Err(m),
            Ok(ids) => if self.sees(&Token::Equal) {
                self.bump();
                match self.parse_expression(None) {
                    Err(m) => Err(m),
                    Ok(value) => match self.expect(Token::Semicolon) {
                        Ok(_) => Ok(Statement::Assign { name: ids, value }),
                        Err(m) => Err(m),
                    },
                }
            } else {
                let declares = match self.peek() {
                    Some(Token::Identifier(_)) => true,
                    _ => false,
                };
                if declares {
                    self.parse_local_field(ids)
                } else {
                    self.parse_expression_statement(Some(Expr::QualifiedId { ids }))
                }
            },
        };
        assert(ok_stmt(
            r,
            grammar::named_statement(old(self).toks(), old(self).place()),
            self.place(),
        )) by {
            reveal(grammar::named_statement);
        }
        r
    }

    /// Reads the head of a loop after `for`.
    #[verifier::spinoff_prover]
    fn parse_for_head(&mut self) -> (r: Result<(Vec<String>, String), String>)
        requires
            old(self).wf(),
        ensures
            final(self).wf(),
            final(self).toks() == old(self).toks(),
            old(self).place() <= final(self).place() <= final(self).toks().len(),
            r is Ok ==> old(self).place() < final(self).place(),
            match (r, grammar::for_head(old(self).toks(), old(self).place())) {
                (Ok(v), Ok((m, j))) => (names(v.0@), v.1@) == m && final(self).place() == j,
                (Err(s), Err(m)) => s@ == m,
                _ => false,
            },
    {
        let r = match self.expect(Token::LParen) {
            Err(m) => Err(m),
            Ok(_) => match self.parse_type() {
                Err(m) => Err(m),
                Ok(var_type) => match self.parse_identifier("Expected variable name in for loop") {
                    Err(m) => Err(m),
                    Ok(var_name) => match self.expect(Token::RParen) {
                        Ok(_) => Ok((var_type, var_name)),
                        Err(m) => Err(m),
                    },
                },
            },
        };
        assert(match (r, grammar::for_head(old(self).toks(), old(self).place())) {
            (Ok(v), Ok((m, j))) => (names(v.0@), v.1@) == m && self.place() == j,
            (Err(s), Err(m)) => s@ == m,
            _ => false,
        }) by {
            reveal(grammar::for_head);
        }
        r
    }

    /// Reads what follows `for`.
    #[verifier::spinoff_prover]
    fn parse_for_all(&mut self) -> (r: Result<Statement, String>)
        requires
            old(self).wf(),
        ensures
            final(self).wf(),
            final(self).toks() == old(self).toks(),
            old(self).place() <= final(self).place() <= final(self).toks().len(),
            ok_stmt(r, grammar::for_all(old(self).toks(), old(self).place()), final(self).place()),
        decreases old(self).left(), 14int,
    {
        let r = match self.parse_for_head() {
            Err(m) => Err(m),
            Ok((var_type, var_name)) => match self.parse_body() {
                Ok(stmts) => {
                    proof {
                        lemma_for_all_model(var_type, var_name, stmts);
                    }
                    Ok(Statement::ForAll { var_type, var_name, statements: stmts })
                },
                Err(m) => Err(m),
            },
        };
        assert(ok_stmt(r, grammar::for_all(old(self).toks(), old(self).place()), self.place())) by {
            reveal(grammar::for_all);
        }
        r
    }

    /// Reads a statement.
    #[verifier::spinoff_prover]
    pub fn parse_statement(&mut self) -> (r: Result<Statement, String>)
        requires
            old(self).wf(),
        ensures
            final(self).wf(),
            final(self).toks() == old(self).toks(),
            old(self).place() <= final(self).place() <= final(self).toks().len(),
            r is Ok ==> old(self).place() < final(self).place(),
            ok_stmt(r, grammar::statement(old(self).toks(), old(self).place()), final(self).place()),
        decreases old(self).left(), 11int,
    {
        proof {
            self.lemma_bounds();
        }
        let r = match self.peek() {
            Some(Token::Bool) => {
                self.bump();
                self.parse_local_field(Parser::one_name("bool"))
            },
            Some(Token::Int) => {
                self.bump();
                self.parse_local_field(Parser::one_name("int"))
            },
            Some(Token::Real) => {
                self.bump();
                self.parse_local_field(Parser::one_name("real"))
            },
            Some(Token::String) => {
                self.bump();
                self.parse_local_field(Parser::one_name("string"))
            },
            Some(Token::Identifier(_)) => self.parse_named_statement(),
            Some(Token::LBrace) => {
                self.bump();
                let none: Vec<(Vec<Statement>, Expr)> = Vec::new();
                proof {
                    assert(branches(none@) =~= Seq::<(Seq<StatementModel>, ExprModel)>::empty());
                }
                self.parse_disjuncts(none)
            },
            Some(Token::For) => {
                self.bump();
                self.parse_for_all()
            },
            Some(Token::Return) => {
                self.bump();
                self.parse_return()
            },
            Some(Token::Fact) => {
                self.bump();
                self.parse_formula(true)
            },
            Some(Token::Goal) => {
                self.bump();
                self.parse_formula(false)
            },
            _ => self.parse_expression_statement(None),
        };
        assert(ok_stmt(r, grammar::statement(old(self).toks(), old(self).place()), self.place())
            && (r is Ok ==> old(self).place() < self.place())) by {
            reveal(grammar::statement);
        }
        r
    }
}

impl Parser {
    /// Reads typed arguments in round brackets and a body.
    #[verifier::spinoff_prover]
    fn parse_signature(&mut self, message: &str) -> (r: Result<
        (Vec<(Vec<String>, String)>, Vec<Statement>),
        String,
    >)
        requires
            old(self).wf(),
        ensures
            final(self).wf(),
            final(self).toks() == old(self).toks(),
            old(self).place() <= final(self).place() <= final(self).toks().len(),
            r is Ok ==> old(self).place() < final(self).place(),
            ok_signature(
                r,
                grammar::signature(old(self).toks(), old(self).place(), message@),
                final(self).place(),
            ),
    {
        let r = match self.expect(Token::LParen) {
            Err(m) => Err(m),
            Ok(_) => {
                let none: Vec<(Vec<String>, String)> = Vec::new();
                proof {
                    assert(params(none@) =~= Seq::<(Seq<Seq<char>>, Seq<char>)>::empty());
                }
                match self.parse_params(none, message) {
                    Err(m) => Err(m),
                    Ok(args) => match self.expect(Token::RParen) {
                        Err(m) => Err(m),
                        Ok(_) => match self.parse_body() {
                            Ok(stmts) => Ok((args, stmts)),
                            Err(m) => Err(m),
                        },
                    },
                }
            },
        };
        assert(ok_signature(
            r,
            grammar::signature(old(self).toks(), old(self).place(), message@),
            self.place(),
        )) by {
            reveal(grammar::signature);
        }
        r
    }

    /// Reads a predicate: `predicate`, a name, typed arguments, and a body.
    #[verifier::spinoff_prover]
    pub fn parse_predicate(&mut self) -> (r: Result<Predicate, String>)
        requires
            old(self).wf(),
        ensures
            final(self).wf(),
            final(self).toks() == old(self).toks(),
            old(self).place() <= final(self).place() <= final(self).toks().len(),
            r is Ok ==> old(self).place() < final(self).place(),
            ok_predicate(
                r,
                grammar::predicate(old(self).toks(), old(self).place()),
                final(self).place(),
            ),
    {
        let r = match self.expect(Token::Predicate) {
            Err(m) => Err(m),
            Ok(_) => match self.parse_identifier("Expected identifier after 'predicate'") {
                Err(m) => Err(m),
                Ok(name) => match self.parse_signature(
                    "Expected identifier in predicate arguments",
                ) {
                    Ok((args, statements)) => Ok(Predicate { name, args, statements }),
                    Err(m) => Err(m),
                },
            },
        };
        assert(ok_predicate(
            r,
            grammar::predicate(old(self).toks(), old(self).place()),
            self.place(),
        )) by {
            reveal(grammar::predicate);
        }
        r
    }

    /// Reads a method: `void` or a type, a name, typed arguments, and a body.
    #[verifier::spinoff_prover]
    pub fn parse_method(&mut self) -> (r: Result<Method, String>)
        requires
            old(self).wf(),
        ensures
            final(self).wf(),
            final(self).toks() == old(self).toks(),
            old(self).place() <= final(self).place() <= final(self).toks().len(),
            r is Ok ==> old(self).place() < final(self).place(),
            ok_method(r, grammar::method(old(self).toks(), old(self).place()), final(self).place()),
    {
        proof {
            self.lemma_bounds();
        }
        let ret = match self.peek() {
            Some(Token::Void) => {
                self.bump();
                Ok(None)
            },
            Some(Token::Bool) | Some(Token::Int) | Some(Token::Real) | Some(Token::String) | Some(
                Token::Identifier(_),
            ) => match self.parse_type() {
                Ok(ty) => Ok(Some(ty)),
                Err(m) => Err(m),
            },
            _ => Err(String::from_str("Expected return type or 'void'")),
        };
        let r = match ret {
            Err(m) => Err(m),
            Ok(return_type) => match self.parse_identifier("Expected method name") {
                Err(m) => Err(m),
                Ok(name) => match self.parse_signature("Expected identifier in method arguments") {
                    Ok((args, statements)) => Ok(Method { return_type, name, args, statements }),
                    Err(m) => Err(m),
                },
            },
        };
        assert(ok_method(r, grammar::method(old(self).toks(), old(self).place()), self.place())) by {
            reveal(grammar::method);
        }
        r
    }

    /// Reads the initialisations of a constructor up to a `{`, after
    /// those of `list`.
    #[verifier::spinoff_prover]
    fn parse_init_list(&mut self, list: Vec<(String, Vec<Expr>)>) -> (r: Result<
        Vec<(String, Vec<Expr>)>,
        String,
    >)
        requires
            old(self).wf(),
        ensures
            final(self).wf(),
            final(self).toks() == old(self).toks(),
            old(self).place() <= final(self).place() <= final(self).toks().len(),
            ok_inits(
                r,
                grammar::init_list(old(self).toks(), old(self).place(), inits(list@)),
                final(self).place(),
            ),
        decreases old(self).left(),
    {
        proof {
            self.lemma_bounds();
        }
        let ghost t = self.toks();
        let ghost i = self.place();
        let ghost given = inits(list@);
        if self.sees(&Token::LBrace) {
            assert(grammar::init_list(t, i, given) == Ok::<
                (Seq<(Seq<char>, Seq<ExprModel>)>, int),
                Seq<char>,
            >((given, i))) by {
                reveal(grammar::init_list);
            }
            return Ok(list);
        }
        let head = match self.parse_identifier("Expected identifier in constructor initialization") {
            Err(m) => Err(m),
            Ok(name) => match self.expect(Token::LParen) {
                Err(m) => Err(m),
                Ok(_) => match self.parse_expr_list() {
                    Err(m) => Err(m),
                    Ok(values) => match self.expect(Token::RParen) {
                        Ok(_) => Ok((name, values)),
                        Err(m) => Err(m),
                    },
                },
            },
        };
        match head {
            Err(m) => {
                assert(grammar::init_list(t, i, given) is Err && grammar::init_list(
                    t,
                    i,
                    given,
                )->Err_0 == m@) by {
                    reveal(grammar::init_list);
                }
                Err(m)
            },
            Ok(one) => {
                let ghost n = self.place();
                let mut more = list;
                proof {
                    lemma_inits_push(more@, one);
                }
                more.push(one);
                if self.sees(&Token::Comma) {
                    self.bump();
                    assert(grammar::init_list(t, i, given) == grammar::init_list(
                        t,
                        n + 1,
                        inits(more@),
                    )) by {
                        reveal(grammar::init_list);
                    }
                    self.parse_init_list(more)
                } else {
                    assert(grammar::init_list(t, i, given) == Ok::<
                        (Seq<(Seq<char>, Seq<ExprModel>)>, int),
                        Seq<char>,
                    >((inits(more@), n))) by {
                        reveal(grammar::init_list);
                    }
                    Ok(more)
                }
            },
        }
    }

    /// Reads a constructor: a name, typed arguments, after `:` the
    /// initialisations, and a body.
    #[verifier::spinoff_prover]
    pub fn parse_constructor(&mut self) -> (r: Result<Constructor, String>)
        requires
            old(self).wf(),
        ensures
            final(self).wf(),
            final(self).toks() == old(self).toks(),
            old(self).place() <= final(self).place() <= final(self).toks().len(),
            r is Ok ==> old(self).place() < final(self).place(),
            ok_constructor(
                r,
                grammar::constructor(old(self).toks(), old(self).place()),
                final(self).place(),
            ),
    {
        let r = match self.parse_identifier("Expected constructor name") {
            Err(m) => Err(m),
            Ok(_) => match self.expect(Token::LParen) {
                Err(m) => Err(m),
                Ok(_) => {
                    let none: Vec<(Vec<String>, String)> = Vec::new();
                    proof {
                        assert(params(none@) =~= Seq::<(Seq<Seq<char>>, Seq<char>)>::empty());
                    }
                    match self.parse_params(none, "Expected identifier in constructor arguments") {
                        Err(m) => Err(m),
                        Ok(args) => match self.expect(Token::RParen) {
                            Err(m) => Err(m),
                            Ok(_) => {
                                let no_init: Vec<(String, Vec<Expr>)> = Vec::new();
                                proof {
                                    assert(inits(no_init@) =~= Seq::<
                                        (Seq<char>, Seq<ExprModel>),
                                    >::empty());
                                }
                                let init = if self.sees(&Token::Colon) {
                                    self.bump();
                                    self.parse_init_list(no_init)
                                } else {
                                    Ok(no_init)
                                };
                                match init {
                                    Err(m) => Err(m),
                                    Ok(init) => match self.parse_body() {
                                        Ok(statements) => Ok(
                                            Constructor { args, init, statements },
                                        ),
                                        Err(m) => Err(m),
                                    },
                                }
                            },
                        },
                    }
                },
            },
        };
        assert(ok_constructor(
            r,
            grammar::constructor(old(self).toks(), old(self).place()),
            self.place(),
        )) by {
            reveal(grammar::constructor);
        }
        r
    }
}

impl Parser {
    /// Reads `,` and a name, as often as a `,` comes, after the names of `list`.
    #[verifier::spinoff_prover]
    fn parse_names_tail(&mut self, list: Vec<String>) -> (r: Result<Vec<String>, String>)
        requires
            old(self).wf(),
        ensures
            final(self).wf(),
            final(self).toks() == old(self).toks(),
            old(self).place() <= final(self).place() <= final(self).toks().len(),
            ok_names(
                r,
                grammar::names_tail(old(self).toks(), old(self).place(), names(list@)),
                final(self).place(),
            ),
        decreases old(self).left(),
    {
        proof {
            self.lemma_bounds();
        }
        let ghost t = self.toks();
        let ghost i = self.place();
        let ghost given = names(list@);
        if !self.sees(&Token::Comma) {
            assert(grammar::names_tail(t, i, given) == Ok::<(Seq<Seq<char>>, int), Seq<char>>(
                (given, i),
            )) by {
                reveal(grammar::names_tail);
            }
            return Ok(list);
        }
        self.bump();
        match self.next() {
            Some(Token::Identifier(name)) => {
                let mut more = list;
                proof {
                    lemma_names_push(more@, name);
                }
                more.push(name);
                assert(grammar::names_tail(t, i, given) == grammar::names_tail(
                    t,
                    i + 2,
                    names(more@),
                )) by {
                    reveal(grammar::names_tail);
                }
                self.parse_names_tail(more)
            },
            _ => {
                assert(grammar::names_tail(t, i, given) is Err && grammar::names_tail(
                    t,
                    i,
                    given,
                )->Err_0 == "Expected field name"@) by {
                    reveal(grammar::names_tail);
                }
                Err(String::from_str("Expected field name"))
            },
        }
    }

    /// Reads `,` and a dotted name, as often as a `,` comes, after the
    /// names of `list`.
    #[verifier::spinoff_prover]
    fn parse_parents_tail(&mut self, list: Vec<Vec<String>>) -> (r: Result<
        Vec<Vec<String>>,
        String,
    >)
        requires
            old(self).wf(),
        ensures
            final(self).wf(),
            final(self).toks() == old(self).toks(),
            old(self).place() <= final(self).place() <= final(self).toks().len(),
            match (
                r,
                grammar::parents_tail(
                    old(self).toks(),
                    old(self).place(),
                    Seq::new(list@.len(), |i: int| names(list@[i]@)),
                ),
            ) {
                (Ok(v), Ok((m, j))) => Seq::new(v@.len(), |i: int| names(v@[i]@)) == m && final(self).place() == j,
                (Err(s), Err(m)) => s@ == m,
                _ => false,
            },
        decreases old(self).left(),
    {
        proof {
            self.lemma_bounds();
        }
        let ghost t = self.toks();
        let ghost i = self.place();
        let ghost given = Seq::new(list@.len(), |i: int| names(list@[i]@));
        if !self.sees(&Token::Comma) {
            assert(grammar::parents_tail(t, i, given) == Ok::<
                (Seq<Seq<Seq<char>>>, int),
                Seq<char>,
            >((given, i))) by {
                reveal(grammar::parents_tail);
            }
            return Ok(list);
        }
        self.bump();
        match self.parse_qualified_id() {
            Ok(p) => {
                let ghost j = self.place();
                let mut more = list;
                more.push(p);
                let ghost all = Seq::new(more@.len(), |i: int| names(more@[i]@));
                assert(all =~= given.push(names(p@)));
                assert(grammar::parents_tail(t, i, given) == grammar::parents_tail(t, j, all)) by {
                    reveal(grammar::parents_tail);
                }
                self.parse_parents_tail(more)
            },
            Err(m) => {
                assert(grammar::parents_tail(t, i, given) is Err && grammar::parents_tail(
                    t,
                    i,
                    given,
                )->Err_0 == m@) by {
                    reveal(grammar::parents_tail);
                }
                Err(m)
            },
        }
    }

    /// Whether the member at the place of the parser declares fields: a
    /// type and a name that no `(` follows.
    #[verifier::spinoff_prover]
    fn sees_field(&mut self) -> (b: bool)
        requires
            old(self).wf(),
        ensures
            final(self).wf(),
            final(self).toks() == old(self).toks(),
            final(self).place() == old(self).place(),
            b == grammar::is_field(old(self).toks(), old(self).place()),
    {
        let saved = self.pos;
        let b = match self.parse_type() {
            Err(_) => false,
            Ok(_) => {
                let named = match self.peek() {
                    Some(Token::Identifier(_)) => true,
                    _ => false,
                };
                if named {
                    self.bump();
                    !self.sees(&Token::LParen)
                } else {
                    false
                }
            },
        };
        assert(b == grammar::is_field(old(self).toks(), old(self).place())) by {
            reveal(grammar::is_field);
        }
        self.pos = saved;
        b
    }

    /// Reads the declaration of fields: a type, names separated by
    /// commas, and `;`.
    #[verifier::spinoff_prover]
    fn parse_fields(&mut self) -> (r: Result<(Vec<String>, Vec<String>), String>)
        requires
            old(self).wf(),
        ensures
            final(self).wf(),
            final(self).toks() == old(self).toks(),
            old(self).place() <= final(self).place() <= final(self).toks().len(),
            r is Ok ==> old(self).place() < final(self).place(),
            match (r, grammar::fields(old(self).toks(), old(self).place())) {
                (Ok(v), Ok((m, j))) => (names(v.0@), names(v.1@)) == m && final(self).place() == j,
                (Err(s), Err(m)) => s@ == m,
                _ => false,
            },
    {
        let r = match self.parse_type() {
            Err(m) => Err(m),
            Ok(ty) => match self.parse_identifier("Expected field name") {
                Err(m) => Err(m),
                Ok(first) => {
                    let mut list: Vec<String> = Vec::new();
                    proof {
                        lemma_names_push(list@, first);
                        assert(list@.push(first) =~= seq![first]);
                    }
                    list.push(first);
                    match self.parse_names_tail(list) {
                        Err(m) => Err(m),
                        Ok(all) => match self.expect(Token::Semicolon) {
                            Ok(_) => Ok((ty, all)),
                            Err(m) => Err(m),
                        },
                    }
                },
            },
        };
        assert(match (r, grammar::fields(old(self).toks(), old(self).place())) {
            (Ok(v), Ok((m, j))) => (names(v.0@), names(v.1@)) == m && self.place() == j,
            (Err(s), Err(m)) => s@ == m,
            _ => false,
        }) by {
            reveal(grammar::fields);
        }
        r
    }

    /// Reads the members of the class `class` up to a `}`, after those
    /// that it holds.
    #[verifier::spinoff_prover]
    fn parse_members(&mut self, class: Class) -> (r: Result<Class, String>)
        requires
            old(self).wf(),
        ensures
            final(self).wf(),
            final(self).toks() == old(self).toks(),
            old(self).place() <= final(self).place() <= final(self).toks().len(),
            ok_class(
                r,
                grammar::members(old(self).toks(), old(self).place(), class.name@, class.model()),
                final(self).place(),
            ),
        decreases old(self).left(),
    {
        proof {
            self.lemma_bounds();
        }
        let ghost t = self.toks();
        let ghost i = self.place();
        let ghost acc = class.model();
        let ghost name = class.name@;
        let mut class = class;
        if self.sees(&Token::RBrace) {
            assert(grammar::members(t, i, name, acc) == Ok::<(ClassModel, int), Seq<char>>(
                (acc, i),
            )) by {
                reveal(grammar::members);
            }
            return Ok(class);
        }
        let own = match self.peek() {
            Some(Token::Identifier(id)) => *id == class.name,
            _ => false,
        };
        if own {
            match self.parse_constructor() {
                Ok(c) => {
                    let ghost j = self.place();
                    class.constructors.push(c);
                    proof {
                        assert(class.model().constructors =~= acc.constructors.push(c.model()));
                        assert(class.model() == (ClassModel {
                            constructors: acc.constructors.push(c.model()),
                            ..acc
                        }));
                        assert(grammar::members(t, i, name, acc) == grammar::members(
                            t,
                            j,
                            name,
                            class.model(),
                        )) by {
                            reveal(grammar::members);
                        }
                    }
                    self.parse_members(class)
                },
                Err(m) => {
                    assert(grammar::members(t, i, name, acc) is Err && grammar::members(
                        t,
                        i,
                        name,
                        acc,
                    )->Err_0 == m@) by {
                        reveal(grammar::members);
                    }
                    Err(m)
                },
            }
        } else if self.sees(&Token::Predicate) {
            match self.parse_predicate() {
                Ok(p) => {
                    let ghost j = self.place();
                    class.predicates.push(p);
                    proof {
                        assert(class.model().predicates =~= acc.predicates.push(p.model()));
                        assert(class.model() == (ClassModel {
                            predicates: acc.predicates.push(p.model()),
                            ..acc
                        }));
                        assert(grammar::members(t, i, name, acc) == grammar::members(
                            t,
                            j,
                            name,
                            class.model(),
                        )) by {
                            reveal(grammar::members);
                        }
                    }
                    self.parse_members(class)
                },
                Err(m) => {
                    assert(grammar::members(t, i, name, acc) is Err && grammar::members(
                        t,
                        i,
                        name,
                        acc,
                    )->Err_0 == m@) by {
                        reveal(grammar::members);
                    }
                    Err(m)
                },
            }
        } else {
            let typed = match self.peek() {
                Some(Token::Bool) | Some(Token::Int) | Some(Token::Real) | Some(Token::String)
                | Some(Token::Identifier(_)) => true,
                _ => false,
            };
            let void = self.sees(&Token::Void);
            if !typed && !void {
                assert(grammar::members(t, i, name, acc) is Err && grammar::members(
                    t,
                    i,
                    name,
                    acc,
                )->Err_0 == "Expected 'constructor', 'predicate', or method definition"@) by {
                    reveal(grammar::members);
                }
                return Err(
                    String::from_str("Expected 'constructor', 'predicate', or method definition"),
                );
            }
            let field = typed && self.sees_field();
            if field {
                match self.parse_fields() {
                    Ok(f) => {
                        let ghost j = self.place();
                        class.fields.push(f);
                        proof {
                            assert(class.model().fields =~= acc.fields.push(
                                (names(f.0@), names(f.1@)),
                            ));
                            assert(class.model() == (ClassModel {
                                fields: acc.fields.push((names(f.0@), names(f.1@))),
                                ..acc
                            }));
                            assert(grammar::members(t, i, name, acc) == grammar::members(
                                t,
                                j,
                                name,
                                class.model(),
                            )) by {
                                reveal(grammar::members);
                            }
                        }
                        self.parse_members(class)
                    },
                    Err(m) => {
                        assert(grammar::members(t, i, name, acc) is Err && grammar::members(
                            t,
                            i,
                            name,
                            acc,
                        )->Err_0 == m@) by {
                            reveal(grammar::members);
                        }
                        Err(m)
                    },
                }
            } else {
                match self.parse_method() {
                    Ok(me) => {
                        let ghost j = self.place();
                        class.methods.push(me);
                        proof {
                            assert(class.model().methods =~= acc.methods.push(me.model()));
                            assert(class.model() == (ClassModel {
                                methods: acc.methods.push(me.model()),
                                ..acc
                            }));
                            assert(grammar::members(t, i, name, acc) == grammar::members(
                                t,
                                j,
                                name,
                                class.model(),
                            )) by {
                                reveal(grammar::members);
                            }
                        }
                        self.parse_members(class)
                    },
                    Err(m) => {
                        assert(grammar::members(t, i, name, acc) is Err && grammar::members(
                            t,
                            i,
                            name,
                            acc,
                        )->Err_0 == m@) by {
                            reveal(grammar::members);
                        }
                        Err(m)
                    },
                }
            }
        }
    }

    /// Reads the parents of a class after its name: none, or after `:`
    /// dotted names separated by commas.
    #[verifier::spinoff_prover]
    fn parse_parents(&mut self) -> (r: Result<Vec<Vec<String>>, String>)
        requires
            old(self).wf(),
        ensures
            final(self).wf(),
            final(self).toks() == old(self).toks(),
            old(self).place() <= final(self).place() <= final(self).toks().len(),
            match (r, grammar::parents(old(self).toks(), old(self).place())) {
                (Ok(v), Ok((m, j))) => Seq::new(v@.len(), |i: int| names(v@[i]@)) == m && final(self).place() == j,
                (Err(s), Err(m)) => s@ == m,
                _ => false,
            },
    {
        proof {
            self.lemma_bounds();
        }
        let r = if self.sees(&Token::Colon) {
            self.bump();
            match self.parse_qualified_id() {
                Err(m) => Err(m),
                Ok(p) => {
                    let mut list: Vec<Vec<String>> = Vec::new();
                    list.push(p);
                    proof {
                        assert(Seq::new(list@.len(), |i: int| names(list@[i]@)) =~= seq![
                            names(p@),
                        ]);
                    }
                    self.parse_parents_tail(list)
                },
            }
        } else {
            let none: Vec<Vec<String>> = Vec::new();
            proof {
                assert(Seq::new(none@.len(), |i: int| names(none@[i]@)) =~= Seq::<
                    Seq<Seq<char>>,
                >::empty());
            }
            Ok(none)
        };
        assert(match (r, grammar::parents(old(self).toks(), old(self).place())) {
            (Ok(v), Ok((m, j))) => Seq::new(v@.len(), |i: int| names(v@[i]@)) == m && self.place()
                == j,
            (Err(s), Err(m)) => s@ == m,
            _ => false,
        }) by {
            reveal(grammar::parents);
        }
        r
    }

    /// Reads a class: `class`, a name, after `:` its parents, and its
    /// members in curly brackets.
    #[verifier::spinoff_prover]
    pub fn parse_class(&mut self) -> (r: Result<Class, String>)
        requires
            old(self).wf(),
        ensures
            final(self).wf(),
            final(self).toks() == old(self).toks(),
            old(self).place() <= final(self).place() <= final(self).toks().len(),
            ok_class(r, grammar::class(old(self).toks(), old(self).place()), final(self).place()),
    {
        let r = match self.expect(Token::Class) {
            Err(m) => Err(m),
            Ok(_) => match self.parse_identifier("Expected class name") {
                Err(m) => Err(m),
                Ok(name) => match self.parse_parents() {
                    Err(m) => Err(m),
                    Ok(parents) => match self.expect(Token::LBrace) {
                        Err(m) => Err(m),
                        Ok(_) => {
                            let class = Class {
                                name,
                                parents,
                                fields: Vec::new(),
                                constructors: Vec::new(),
                                methods: Vec::new(),
                                predicates: Vec::new(),
                            };
                            proof {
                                assert(class.model().fields =~= Seq::empty());
                                assert(class.model().constructors =~= Seq::empty());
                                assert(class.model().methods =~= Seq::empty());
                                assert(class.model().predicates =~= Seq::empty());
                            }
                            match self.parse_members(class) {
                                Err(m) => Err(m),
                                Ok(c) => match self.expect(Token::RBrace) {
                                    Ok(_) => Ok(c),
                                    Err(m) => Err(m),
                                },
                            }
                        },
                    },
                },
            },
        };
        assert(ok_class(r, grammar::class(old(self).toks(), old(self).place()), self.place())) by {
            reveal(grammar::class);
        }
        r
    }
}

} // verus!
