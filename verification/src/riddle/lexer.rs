//! The lexer of the modelling language: characters to tokens.

use crate::utils::text::append_signed_decimal;
use crate::utils::text::signed_decimal;
use vstd::prelude::*;
use vstd::string::StrSliceExecFns;
use vstd::string::StringExecFns;

verus! {

/// A token of the modelling language.
#[derive(Debug, PartialEq, Clone)]
pub enum Token {
    Identifier(String),
    BoolLiteral(bool),
    IntLiteral(i64),
    RealLiteral(i64, i64),
    Plus,
    Minus,
    Asterisk,
    Slash,
    Amp,
    Bar,
    Dot,
    LParen,
    RParen,
    LBracket,
    RBracket,
    LBrace,
    RBrace,
    Comma,
    Colon,
    Equal,
    EqualEqual,
    NotEqual,
    LessThan,
    LessEqual,
    GreaterThan,
    GreaterEqual,
    Semicolon,
    Bool,
    Int,
    Real,
    String,
    Class,
    Predicate,
    Enum,
    New,
    For,
    This,
    Void,
    Return,
    Fact,
    Goal,
    Or,
    EOF,
}

/// The mathematical content of a token.
pub enum Lexeme {
    Identifier(Seq<char>),
    BoolLiteral(bool),
    IntLiteral(int),
    RealLiteral(int, int),
    Plus,
    Minus,
    Asterisk,
    Slash,
    Amp,
    Bar,
    Dot,
    LParen,
    RParen,
    LBracket,
    RBracket,
    LBrace,
    RBrace,
    Comma,
    Colon,
    Equal,
    EqualEqual,
    NotEqual,
    LessThan,
    LessEqual,
    GreaterThan,
    GreaterEqual,
    Semicolon,
    Bool,
    Int,
    Real,
    String,
    Class,
    Predicate,
    Enum,
    New,
    For,
    This,
    Void,
    Return,
    Fact,
    Goal,
    Or,
    EOF,
}

impl View for Token {
    type V = Lexeme;

    open spec fn view(&self) -> Lexeme {
        match self {
            Token::Identifier(s) => Lexeme::Identifier(s@),
            Token::BoolLiteral(b) => Lexeme::BoolLiteral(*b),
            Token::IntLiteral(n) => Lexeme::IntLiteral(*n as int),
            Token::RealLiteral(n, d) => Lexeme::RealLiteral(*n as int, *d as int),
            Token::Plus => Lexeme::Plus,
            Token::Minus => Lexeme::Minus,
            Token::Asterisk => Lexeme::Asterisk,
            Token::Slash => Lexeme::Slash,
            Token::Amp => Lexeme::Amp,
            Token::Bar => Lexeme::Bar,
            Token::Dot => Lexeme::Dot,
            Token::LParen => Lexeme::LParen,
            Token::RParen => Lexeme::RParen,
            Token::LBracket => Lexeme::LBracket,
            Token::RBracket => Lexeme::RBracket,
            Token::LBrace => Lexeme::LBrace,
            Token::RBrace => Lexeme::RBrace,
            Token::Comma => Lexeme::Comma,
            Token::Colon => Lexeme::Colon,
            Token::Equal => Lexeme::Equal,
            Token::EqualEqual => Lexeme::EqualEqual,
            Token::NotEqual => Lexeme::NotEqual,
            Token::LessThan => Lexeme::LessThan,
            Token::LessEqual => Lexeme::LessEqual,
            Token::GreaterThan => Lexeme::GreaterThan,
            Token::GreaterEqual => Lexeme::GreaterEqual,
            Token::Semicolon => Lexeme::Semicolon,
            Token::Bool => Lexeme::Bool,
            Token::Int => Lexeme::Int,
            Token::Real => Lexeme::Real,
            Token::String => Lexeme::String,
            Token::Class => Lexeme::Class,
            Token::Predicate => Lexeme::Predicate,
            Token::Enum => Lexeme::Enum,
            Token::New => Lexeme::New,
            Token::For => Lexeme::For,
            Token::This => Lexeme::This,
            Token::Void => Lexeme::Void,
            Token::Return => Lexeme::Return,
            Token::Fact => Lexeme::Fact,
            Token::Goal => Lexeme::Goal,
            Token::Or => Lexeme::Or,
            Token::EOF => Lexeme::EOF,
        }
    }
}

/// White space: the characters that Unicode gives the property.
pub open spec fn is_space(c: char) -> bool {
    let u = c as u32;
    (9 <= u <= 13) || u == 0x20 || u == 0x85 || u == 0xa0 || u == 0x1680 || (0x2000 <= u <= 0x200a)
        || u == 0x2028 || u == 0x2029 || u == 0x202f || u == 0x205f || u == 0x3000
}

/// A decimal digit.
pub open spec fn is_digit(c: char) -> bool {
    48 <= c as u32 <= 57
}

/// A letter of the English alphabet, or an underscore.
pub open spec fn is_letter(c: char) -> bool {
    let u = c as u32;
    (97 <= u <= 122) || (65 <= u <= 90) || u == 95
}

/// The first place from `i` on that holds no white space.
pub open spec fn skip_spaces(s: Seq<char>, i: int) -> int
    decreases s.len() - i,
{
    if 0 <= i < s.len() && is_space(s[i]) {
        skip_spaces(s, i + 1)
    } else {
        i
    }
}

/// The end of the number that starts at `i`: digits with at most one point.
pub open spec fn number_end(s: Seq<char>, i: int, dot_seen: bool) -> int
    decreases s.len() - i,
{
    if 0 <= i < s.len() && is_digit(s[i]) {
        number_end(s, i + 1, dot_seen)
    } else if 0 <= i < s.len() && s[i] == '.' && !dot_seen {
        number_end(s, i + 1, true)
    } else {
        i
    }
}

/// The end of the word that starts at `i`: letters, digits and underscores.
pub open spec fn word_end(s: Seq<char>, i: int) -> int
    decreases s.len() - i,
{
    if 0 <= i < s.len() && (is_letter(s[i]) || is_digit(s[i])) {
        word_end(s, i + 1)
    } else {
        i
    }
}

/// The first place in `[i, end)` that holds a point; `end` where none does.
pub open spec fn point_at(s: Seq<char>, i: int, end: int) -> int
    decreases end - i,
{
    if i >= end {
        end
    } else if s[i] == '.' {
        i
    } else {
        point_at(s, i + 1, end)
    }
}

/// The number that a run of digits writes.
pub open spec fn digits_nat(d: Seq<char>) -> nat
    decreases d.len(),
{
    if d.len() == 0 {
        0
    } else {
        digits_nat(d.drop_last()) * 10 + (d.last() as u32 - 48) as nat
    }
}

/// The number that a run of digits stands for: what it writes, or zero
/// where there are no digits or they write more than 64 bits hold.
pub open spec fn parsed(d: Seq<char>) -> int {
    if d.len() == 0 || digits_nat(d) > i64::MAX {
        0
    } else {
        digits_nat(d) as int
    }
}

/// Ten to the power `k`.
pub open spec fn pow10(k: nat) -> nat
    decreases k,
{
    if k == 0 {
        1
    } else {
        10 * pow10((k - 1) as nat)
    }
}

/// The token of a number with a point: the digits before it, `ip`, and
/// those after it, `fp`, give the fraction `(ip * 10^k + fp) / 10^k`, where
/// `k` is the number of digits after the point. A fraction whose parts do
/// not fit in 64 bits is `0 / 1`.
pub open spec fn real_lexeme(ip: Seq<char>, fp: Seq<char>) -> Lexeme {
    let scale = pow10(fp.len());
    let num = parsed(ip) * scale + parsed(fp);
    if scale > i64::MAX || num > i64::MAX {
        Lexeme::RealLiteral(0, 1)
    } else {
        Lexeme::RealLiteral(num, scale as int)
    }
}

/// The token of the number written in `[i, end)`.
pub open spec fn number_lexeme(s: Seq<char>, i: int, end: int) -> Lexeme {
    let p = point_at(s, i, end);
    if p == end {
        Lexeme::IntLiteral(parsed(s.subrange(i, end)))
    } else {
        real_lexeme(s.subrange(i, p), s.subrange(p + 1, end))
    }
}

/// The token of a word: a keyword, a truth value, or an identifier.
pub open spec fn word_lexeme(w: Seq<char>) -> Lexeme {
    if w == "true"@ {
        Lexeme::BoolLiteral(true)
    } else if w == "false"@ {
        Lexeme::BoolLiteral(false)
    } else if w == "bool"@ {
        Lexeme::Bool
    } else if w == "int"@ {
        Lexeme::Int
    } else if w == "real"@ {
        Lexeme::Real
    } else if w == "string"@ {
        Lexeme::String
    } else if w == "class"@ {
        Lexeme::Class
    } else if w == "predicate"@ {
        Lexeme::Predicate
    } else if w == "enum"@ {
        Lexeme::Enum
    } else if w == "new"@ {
        Lexeme::New
    } else if w == "for"@ {
        Lexeme::For
    } else if w == "this"@ {
        Lexeme::This
    } else if w == "void"@ {
        Lexeme::Void
    } else if w == "return"@ {
        Lexeme::Return
    } else if w == "fact"@ {
        Lexeme::Fact
    } else if w == "goal"@ {
        Lexeme::Goal
    } else if w == "or"@ {
        Lexeme::Or
    } else {
        Lexeme::Identifier(w)
    }
}

/// Whether `s` holds `c` at place `i`.
pub open spec fn holds(s: Seq<char>, i: int, c: char) -> bool {
    0 <= i < s.len() && s[i] == c
}

/// The token that starts at the first place from `i` on that is no white
/// space, and the place after it. A character that starts no token is
/// passed over, as is an exclamation mark that no `=` follows.
pub open spec fn lex(s: Seq<char>, i: int) -> (Lexeme, int)
    decreases s.len() - i,
{
    let j = skip_spaces(s, i);
    if j < i || j >= s.len() {
        (Lexeme::EOF, j)
    } else {
        let c = s[j];
        if c == '+' {
            (Lexeme::Plus, j + 1)
        } else if c == '-' {
            (Lexeme::Minus, j + 1)
        } else if c == '*' {
            (Lexeme::Asterisk, j + 1)
        } else if c == '/' {
            (Lexeme::Slash, j + 1)
        } else if c == '&' {
            (Lexeme::Amp, j + 1)
        } else if c == '|' {
            (Lexeme::Bar, j + 1)
        } else if c == '(' {
            (Lexeme::LParen, j + 1)
        } else if c == ')' {
            (Lexeme::RParen, j + 1)
        } else if c == '[' {
            (Lexeme::LBracket, j + 1)
        } else if c == ']' {
            (Lexeme::RBracket, j + 1)
        } else if c == '{' {
            (Lexeme::LBrace, j + 1)
        } else if c == '}' {
            (Lexeme::RBrace, j + 1)
        } else if c == ',' {
            (Lexeme::Comma, j + 1)
        } else if c == ':' {
            (Lexeme::Colon, j + 1)
        } else if c == ';' {
            (Lexeme::Semicolon, j + 1)
        } else if c == '=' {
            if holds(s, j + 1, '=') {
                (Lexeme::EqualEqual, j + 2)
            } else {
                (Lexeme::Equal, j + 1)
            }
        } else if c == '!' {
            if holds(s, j + 1, '=') {
                (Lexeme::NotEqual, j + 2)
            } else {
                lex(s, j + 1)
            }
        } else if c == '<' {
            if holds(s, j + 1, '=') {
                (Lexeme::LessEqual, j + 2)
            } else {
                (Lexeme::LessThan, j + 1)
            }
        } else if c == '>' {
            if holds(s, j + 1, '=') {
                (Lexeme::GreaterEqual, j + 2)
            } else {
                (Lexeme::GreaterThan, j + 1)
            }
        } else if c == '.' {
            if j + 1 < s.len() && is_digit(s[j + 1]) {
                (number_lexeme(s, j, number_end(s, j, false)), number_end(s, j, false))
            } else {
                (Lexeme::Dot, j + 1)
            }
        } else if is_digit(c) {
            (number_lexeme(s, j, number_end(s, j, false)), number_end(s, j, false))
        } else if is_letter(c) {
            (word_lexeme(s.subrange(j, word_end(s, j))), word_end(s, j))
        } else {
            lex(s, j + 1)
        }
    }
}

/// Skipping white space only moves forward, and stays within the text.
pub proof fn lemma_skip_spaces(s: Seq<char>, i: int)
    requires
        0 <= i <= s.len(),
    ensures
        i <= skip_spaces(s, i) <= s.len(),
    decreases s.len() - i,
{
    if i < s.len() && is_space(s[i]) {
        lemma_skip_spaces(s, i + 1);
    }
}

/// A number ends within the text, after its first digit or point.
pub proof fn lemma_number_end(s: Seq<char>, i: int, dot_seen: bool)
    requires
        0 <= i <= s.len(),
    ensures
        i <= number_end(s, i, dot_seen) <= s.len(),
        i < s.len() && (is_digit(s[i]) || (s[i] == '.' && !dot_seen)) ==> i < number_end(
            s,
            i,
            dot_seen,
        ),
    decreases s.len() - i,
{
    if i < s.len() && is_digit(s[i]) {
        lemma_number_end(s, i + 1, dot_seen);
    } else if i < s.len() && s[i] == '.' && !dot_seen {
        lemma_number_end(s, i + 1, true);
    }
}

/// A word ends within the text, after its first letter.
pub proof fn lemma_word_end(s: Seq<char>, i: int)
    requires
        0 <= i <= s.len(),
    ensures
        i <= word_end(s, i) <= s.len(),
        i < s.len() && (is_letter(s[i]) || is_digit(s[i])) ==> i < word_end(s, i),
    decreases s.len() - i,
{
    if i < s.len() && (is_letter(s[i]) || is_digit(s[i])) {
        lemma_word_end(s, i + 1);
    }
}

/// A token ends within the text, and every token but the end of the
/// input takes at least one character.
pub proof fn lemma_lex_advances(s: Seq<char>, i: int)
    requires
        0 <= i <= s.len(),
    ensures
        i <= lex(s, i).1 <= s.len(),
        !(lex(s, i).0 is EOF) ==> i < lex(s, i).1,
        lex(s, i).0 is EOF ==> lex(s, i).1 == s.len(),
    decreases s.len() - i,
{
    lemma_skip_spaces(s, i);
    let j = skip_spaces(s, i);
    if j < s.len() {
        let c = s[j];
        lemma_number_end(s, j, false);
        lemma_word_end(s, j);
        if c == '!' && !holds(s, j + 1, '=') {
            lemma_lex_advances(s, j + 1);
        }
        if !(c == '+' || c == '-' || c == '*' || c == '/' || c == '&' || c == '|' || c == '('
            || c == ')' || c == '[' || c == ']' || c == '{' || c == '}' || c == ',' || c == ':'
            || c == ';' || c == '=' || c == '!' || c == '<' || c == '>' || c == '.' || is_digit(c)
            || is_letter(c)) {
            lemma_lex_advances(s, j + 1);
        }
        lemma_number_is_no_end(s, j, number_end(s, j, false));
        lemma_word_is_no_end(s.subrange(j, word_end(s, j)));
    }
}

/// A number is never the end of the input.
pub proof fn lemma_number_is_no_end(s: Seq<char>, i: int, end: int)
    ensures
        !(number_lexeme(s, i, end) is EOF),
{
}

/// A word is never the end of the input.
pub proof fn lemma_word_is_no_end(w: Seq<char>)
    ensures
        !(word_lexeme(w) is EOF),
{
}

/// The lexer: a text and the place that it has come to.
pub struct Lexer<'a> {
    input: &'a str,
    chars: Vec<char>,
    pos: usize,
}

/// Whether `c` is white space.
fn space(c: char) -> (b: bool)
    ensures
        b == is_space(c),
{
    let u = c as u32;
    (9 <= u && u <= 13) || u == 0x20 || u == 0x85 || u == 0xa0 || u == 0x1680 || (0x2000 <= u && u
        <= 0x200a) || u == 0x2028 || u == 0x2029 || u == 0x202f || u == 0x205f || u == 0x3000
}

/// Whether `c` is a decimal digit.
fn digit(c: char) -> (b: bool)
    ensures
        b == is_digit(c),
{
    let u = c as u32;
    48 <= u && u <= 57
}

/// Whether `c` is a letter or an underscore.
fn letter(c: char) -> (b: bool)
    ensures
        b == is_letter(c),
{
    let u = c as u32;
    (97 <= u && u <= 122) || (65 <= u && u <= 90) || u == 95
}

/// The number that the digits in `[from, to)` stand for.
fn parse_digits(chars: &Vec<char>, from: usize, to: usize) -> (v: i64)
    requires
        from <= to <= chars@.len(),
        forall|i: int| from <= i < to ==> is_digit(chars@[i]),
    ensures
        v == parsed(chars@.subrange(from as int, to as int)),
{
    let mut acc: u64 = 0;
    let mut overflow = false;
    let mut i: usize = from;
    assert(chars@.subrange(from as int, from as int) =~= Seq::<char>::empty());
    while i < to
        invariant
            from <= i <= to <= chars@.len(),
            forall|k: int| from <= k < to ==> is_digit(chars@[k]),
            !overflow ==> acc == digits_nat(chars@.subrange(from as int, i as int)) && acc
                <= i64::MAX,
            overflow ==> digits_nat(chars@.subrange(from as int, i as int)) > i64::MAX,
        decreases to - i,
    {
        let d = (chars[i] as u32 - 48) as u64;
        proof {
            let next = chars@.subrange(from as int, i as int + 1);
            assert(next.drop_last() =~= chars@.subrange(from as int, i as int));
            assert(next.last() == chars@[i as int]);
        }
        if !overflow {
            let wide: u128 = (acc as u128) * 10 + (d as u128);
            if wide > 0x7fff_ffff_ffff_ffff {
                overflow = true;
            } else {
                acc = wide as u64;
            }
        }
        i += 1;
    }
    if overflow || from == to {
        0
    } else {
        acc as i64
    }
}

/// Ten to the power `k`, where 64 bits hold it.
fn power_of_ten(k: usize) -> (p: Option<i64>)
    ensures
        match p {
            Some(v) => v == pow10(k as nat),
            None => pow10(k as nat) > i64::MAX,
        },
{
    let mut acc: u64 = 1;
    let mut overflow = false;
    let mut i: usize = 0;
    while i < k
        invariant
            i <= k,
            !overflow ==> acc == pow10(i as nat) && acc <= i64::MAX,
            overflow ==> pow10(i as nat) > i64::MAX,
        decreases k - i,
    {
        if !overflow {
            let wide: u128 = (acc as u128) * 10;
            if wide > 0x7fff_ffff_ffff_ffff {
                overflow = true;
            } else {
                acc = wide as u64;
            }
        }
        i += 1;
    }
    if overflow {
        None
    } else {
        Some(acc as i64)
    }
}

impl<'a> Lexer<'a> {
    /// The text that is read.
    pub closed spec fn text(&self) -> Seq<char> {
        self.input@
    }

    /// The place that the lexer has come to.
    pub closed spec fn place(&self) -> int {
        self.pos as int
    }

    /// The lexer keeps the characters of its text, and stays within it.
    pub closed spec fn wf(&self) -> bool {
        self.chars@ == self.input@ && self.pos <= self.chars@.len()
    }

    /// The lexer is within its text.
    pub proof fn lemma_bounds(&self)
        requires
            self.wf(),
        ensures
            0 <= self.place() <= self.text().len(),
    {
    }

    /// A lexer at the start of `input`.
    pub fn new(input: &'a str) -> (l: Lexer<'a>)
        ensures
            l.wf(),
            l.text() == input@,
            l.place() == 0,
    {
        let n = input.unicode_len();
        let mut chars: Vec<char> = Vec::new();
        let mut i: usize = 0;
        while i < n
            invariant
                i <= n,
                n == input@.len(),
                chars@ == input@.subrange(0, i as int),
            decreases n - i,
        {
            chars.push(input.get_char(i));
            i += 1;
            assert(chars@ =~= input@.subrange(0, i as int));
        }
        assert(chars@ =~= input@);
        Lexer { input, chars, pos: 0 }
    }

    /// Passes over white space.
    fn skip_whitespace(&mut self)
        requires
            old(self).wf(),
        ensures
            final(self).wf(),
            final(self).text() == old(self).text(),
            final(self).place() == skip_spaces(old(self).text(), old(self).place()),
    {
        while self.pos < self.chars.len() && space(self.chars[self.pos])
            invariant
                self.wf(),
                self.text() == old(self).text(),
                skip_spaces(self.text(), self.place()) == skip_spaces(
                    old(self).text(),
                    old(self).place(),
                ),
            decreases self.chars@.len() - self.pos,
        {
            self.pos += 1;
        }
    }

    /// Reads the number that starts at the place of the lexer.
    fn read_number(&mut self) -> (t: Token)
        requires
            old(self).wf(),
        ensures
            final(self).wf(),
            final(self).text() == old(self).text(),
            final(self).place() == number_end(old(self).text(), old(self).place(), false),
            t@ == number_lexeme(old(self).text(), old(self).place(), final(self).place()),
    {
        let start = self.pos;
        let ghost s = self.chars@;
        let mut point: Option<usize> = None;
        while self.pos < self.chars.len() && (digit(self.chars[self.pos]) || (self.chars[self.pos]
            == '.' && point.is_none()))
            invariant
                self.wf(),
                self.text() == old(self).text(),
                s == self.chars@,
                start <= self.pos,
                number_end(s, self.pos as int, point.is_some()) == number_end(s, start as int, false),
                match point {
                    Some(p) => start <= p < self.pos && s[p as int] == '.' && point_at(
                        s,
                        start as int,
                        self.pos as int,
                    ) == p && (forall|k: int| start <= k < p ==> is_digit(s[k])) && (forall|k: int|
                        p < k < self.pos ==> is_digit(s[k])),
                    None => point_at(s, start as int, self.pos as int) == self.pos && (forall|
                        k: int,
                    |
                        start <= k < self.pos ==> is_digit(s[k])),
                },
            decreases self.chars@.len() - self.pos,
        {
            proof {
                lemma_point_step(s, start as int, self.pos as int);
            }
            if self.chars[self.pos] == '.' {
                point = Some(self.pos);
            }
            self.pos += 1;
        }
        let end = self.pos;
        match point {
            None => Token::IntLiteral(parse_digits(&self.chars, start, end)),
            Some(p) => {
                let iv = parse_digits(&self.chars, start, p);
                let fv = parse_digits(&self.chars, p + 1, end);
                assert(s.subrange(p as int + 1, end as int).len() == end - p - 1);
                match power_of_ten(end - p - 1) {
                    None => Token::RealLiteral(0, 1),
                    Some(scale) => {
                        assert(iv * scale >= 0 && iv * scale <= 0x7fff_ffff_ffff_ffff
                            * 0x7fff_ffff_ffff_ffff) by (nonlinear_arith)
                            requires
                                0 <= iv <= 0x7fff_ffff_ffff_ffff,
                                0 <= scale <= 0x7fff_ffff_ffff_ffff,
                        ;
                        let num: i128 = (iv as i128) * (scale as i128) + (fv as i128);
                        if num > 0x7fff_ffff_ffff_ffff {
                            Token::RealLiteral(0, 1)
                        } else {
                            Token::RealLiteral(num as i64, scale)
                        }
                    },
                }
            },
        }
    }

    /// Reads the word that starts at the place of the lexer.
    fn read_identifier(&mut self) -> (t: Token)
        requires
            old(self).wf(),
        ensures
            final(self).wf(),
            final(self).text() == old(self).text(),
            final(self).place() == word_end(old(self).text(), old(self).place()),
            t@ == word_lexeme(
                old(self).text().subrange(old(self).place(), final(self).place()),
            ),
    {
        let start = self.pos;
        while self.pos < self.chars.len() && (letter(self.chars[self.pos]) || digit(
            self.chars[self.pos],
        ))
            invariant
                self.wf(),
                self.text() == old(self).text(),
                start <= self.pos,
                word_end(self.text(), self.place()) == word_end(old(self).text(), start as int),
            decreases self.chars@.len() - self.pos,
        {
            self.pos += 1;
        }
        let word = String::from_str(self.input.substring_char(start, self.pos));
        if word == String::from_str("true") {
            Token::BoolLiteral(true)
        } else if word == String::from_str("false") {
            Token::BoolLiteral(false)
        } else if word == String::from_str("bool") {
            Token::Bool
        } else if word == String::from_str("int") {
            Token::Int
        } else if word == String::from_str("real") {
            Token::Real
        } else if word == String::from_str("string") {
            Token::String
        } else if word == String::from_str("class") {
            Token::Class
        } else if word == String::from_str("predicate") {
            Token::Predicate
        } else if word == String::from_str("enum") {
            Token::Enum
        } else if word == String::from_str("new") {
            Token::New
        } else if word == String::from_str("for") {
            Token::For
        } else if word == String::from_str("this") {
            Token::This
        } else if word == String::from_str("void") {
            Token::Void
        } else if word == String::from_str("return") {
            Token::Return
        } else if word == String::from_str("fact") {
            Token::Fact
        } else if word == String::from_str("goal") {
            Token::Goal
        } else if word == String::from_str("or") {
            Token::Or
        } else {
            Token::Identifier(word)
        }
    }

    /// Whether the character after the place of the lexer is `c`.
    fn follows(&self, c: char) -> (b: bool)
        requires
            self.wf(),
        ensures
            b == holds(self.text(), self.place() + 1, c),
    {
        self.pos < self.chars.len() && self.pos + 1 < self.chars.len() && self.chars[self.pos
            + 1] == c
    }

    /// The next token, and `EOF` at the end of the text.
    pub fn next_token(&mut self) -> (t: Token)
        requires
            old(self).wf(),
        ensures
            final(self).wf(),
            final(self).text() == old(self).text(),
            t@ == lex(old(self).text(), old(self).place()).0,
            final(self).place() == lex(old(self).text(), old(self).place()).1,
    {
        loop
            invariant
                self.wf(),
                self.text() == old(self).text(),
                lex(self.text(), self.place()) == lex(old(self).text(), old(self).place()),
            decreases self.chars@.len() - self.pos,
        {
            let ghost before = self.place();
            proof {
                lemma_skip_spaces(self.text(), self.place());
            }
            self.skip_whitespace();
            if self.pos >= self.chars.len() {
                return Token::EOF;
            }
            let c = self.chars[self.pos];
            let one = if c == '+' {
                Some(Token::Plus)
            } else if c == '-' {
                Some(Token::Minus)
            } else if c == '*' {
                Some(Token::Asterisk)
            } else if c == '/' {
                Some(Token::Slash)
            } else if c == '&' {
                Some(Token::Amp)
            } else if c == '|' {
                Some(Token::Bar)
            } else if c == '(' {
                Some(Token::LParen)
            } else if c == ')' {
                Some(Token::RParen)
            } else if c == '[' {
                Some(Token::LBracket)
            } else if c == ']' {
                Some(Token::RBracket)
            } else if c == '{' {
                Some(Token::LBrace)
            } else if c == '}' {
                Some(Token::RBrace)
            } else if c == ',' {
                Some(Token::Comma)
            } else if c == ':' {
                Some(Token::Colon)
            } else if c == ';' {
                Some(Token::Semicolon)
            } else {
                None
            };
            if let Some(t) = one {
                self.pos += 1;
                return t;
            }
            if c == '=' || c == '<' || c == '>' {
                let double = self.follows('=');
                self.pos += if double {
                    2
                } else {
                    1
                };
                return if c == '=' {
                    if double {
                        Token::EqualEqual
                    } else {
                        Token::Equal
                    }
                } else if c == '<' {
                    if double {
                        Token::LessEqual
                    } else {
                        Token::LessThan
                    }
                } else if double {
                    Token::GreaterEqual
                } else {
                    Token::GreaterThan
                };
            }
            if c == '!' {
                if self.follows('=') {
                    self.pos += 2;
                    return Token::NotEqual;
                }
                self.pos += 1;
            } else if c == '.' {
                if self.pos + 1 < self.chars.len() && digit(self.chars[self.pos + 1]) {
                    return self.read_number();
                }
                self.pos += 1;
                return Token::Dot;
            } else if digit(c) {
                return self.read_number();
            } else if letter(c) {
                return self.read_identifier();
            } else {
                self.pos += 1;
            }
        }
    }

    /// Whether the whole text has been read.
    pub fn at_end(&self) -> (b: bool)
        requires
            self.wf(),
        ensures
            b == (self.place() >= self.text().len()),
    {
        self.pos >= self.chars.len()
    }
}

/// The first point of a longer stretch is that of the shorter one, or the
/// new character.
pub proof fn lemma_point_step(s: Seq<char>, i: int, end: int)
    requires
        0 <= i <= end < s.len(),
    ensures
        point_at(s, i, end + 1) == (if point_at(s, i, end) < end {
            point_at(s, i, end)
        } else if s[end] == '.' {
            end
        } else {
            end + 1
        }),
        i <= point_at(s, i, end) <= end,
    decreases end - i,
{
    reveal_with_fuel(point_at, 3);
    if i < end && s[i] != '.' {
        lemma_point_step(s, i + 1, end);
    }
}

impl Lexeme {
    /// The text that names the token in messages: the name of its sort,
    /// with what it holds in brackets.
    #[verifier::opaque]
    pub open spec fn describe(self) -> Seq<char> {
        match self {
            Lexeme::Identifier(s) => "Identifier(\""@ + s + "\")"@,
            Lexeme::BoolLiteral(b) => if b {
                "BoolLiteral(true)"@
            } else {
                "BoolLiteral(false)"@
            },
            Lexeme::IntLiteral(n) => "IntLiteral("@ + signed_decimal(n) + ")"@,
            Lexeme::RealLiteral(n, d) => "RealLiteral("@ + signed_decimal(n) + ", "@ + signed_decimal(
                d,
            ) + ")"@,
            Lexeme::Plus => "Plus"@,
            Lexeme::Minus => "Minus"@,
            Lexeme::Asterisk => "Asterisk"@,
            Lexeme::Slash => "Slash"@,
            Lexeme::Amp => "Amp"@,
            Lexeme::Bar => "Bar"@,
            Lexeme::Dot => "Dot"@,
            Lexeme::LParen => "LParen"@,
            Lexeme::RParen => "RParen"@,
            Lexeme::LBracket => "LBracket"@,
            Lexeme::RBracket => "RBracket"@,
            Lexeme::LBrace => "LBrace"@,
            Lexeme::RBrace => "RBrace"@,
            Lexeme::Comma => "Comma"@,
            Lexeme::Colon => "Colon"@,
            Lexeme::Equal => "Equal"@,
            Lexeme::EqualEqual => "EqualEqual"@,
            Lexeme::NotEqual => "NotEqual"@,
            Lexeme::LessThan => "LessThan"@,
            Lexeme::LessEqual => "LessEqual"@,
            Lexeme::GreaterThan => "GreaterThan"@,
            Lexeme::GreaterEqual => "GreaterEqual"@,
            Lexeme::Semicolon => "Semicolon"@,
            Lexeme::Bool => "Bool"@,
            Lexeme::Int => "Int"@,
            Lexeme::Real => "Real"@,
            Lexeme::String => "String"@,
            Lexeme::Class => "Class"@,
            Lexeme::Predicate => "Predicate"@,
            Lexeme::Enum => "Enum"@,
            Lexeme::New => "New"@,
            Lexeme::For => "For"@,
            Lexeme::This => "This"@,
            Lexeme::Void => "Void"@,
            Lexeme::Return => "Return"@,
            Lexeme::Fact => "Fact"@,
            Lexeme::Goal => "Goal"@,
            Lexeme::Or => "Or"@,
            Lexeme::EOF => "EOF"@,
        }
    }
}

impl Token {
    /// The text that names the token in messages.
    pub fn describe(&self) -> (s: String)
        ensures
            s@ == self@.describe(),
    {
        let s = match self {
            Token::Identifier(name) => {
                let mut s = String::from_str("Identifier(\"");
                s.append(name.as_str());
                s.append("\")");
                s
            },
            Token::BoolLiteral(b) => if *b {
                String::from_str("BoolLiteral(true)")
            } else {
                String::from_str("BoolLiteral(false)")
            },
            Token::IntLiteral(n) => {
                let mut s = String::from_str("IntLiteral(");
                append_signed_decimal(&mut s, *n);
                s.append(")");
                s
            },
            Token::RealLiteral(n, d) => {
                let mut s = String::from_str("RealLiteral(");
                append_signed_decimal(&mut s, *n);
                s.append(", ");
                append_signed_decimal(&mut s, *d);
                s.append(")");
                s
            },
            Token::Plus => String::from_str("Plus"),
            Token::Minus => String::from_str("Minus"),
            Token::Asterisk => String::from_str("Asterisk"),
            Token::Slash => String::from_str("Slash"),
            Token::Amp => String::from_str("Amp"),
            Token::Bar => String::from_str("Bar"),
            Token::Dot => String::from_str("Dot"),
            Token::LParen => String::from_str("LParen"),
            Token::RParen => String::from_str("RParen"),
            Token::LBracket => String::from_str("LBracket"),
            Token::RBracket => String::from_str("RBracket"),
            Token::LBrace => String::from_str("LBrace"),
            Token::RBrace => String::from_str("RBrace"),
            Token::Comma => String::from_str("Comma"),
            Token::Colon => String::from_str("Colon"),
            Token::Equal => String::from_str("Equal"),
            Token::EqualEqual => String::from_str("EqualEqual"),
            Token::NotEqual => String::from_str("NotEqual"),
            Token::LessThan => String::from_str("LessThan"),
            Token::LessEqual => String::from_str("LessEqual"),
            Token::GreaterThan => String::from_str("GreaterThan"),
            Token::GreaterEqual => String::from_str("GreaterEqual"),
            Token::Semicolon => String::from_str("Semicolon"),
            Token::Bool => String::from_str("Bool"),
            Token::Int => String::from_str("Int"),
            Token::Real => String::from_str("Real"),
            Token::String => String::from_str("String"),
            Token::Class => String::from_str("Class"),
            Token::Predicate => String::from_str("Predicate"),
            Token::Enum => String::from_str("Enum"),
            Token::New => String::from_str("New"),
            Token::For => String::from_str("For"),
            Token::This => String::from_str("This"),
            Token::Void => String::from_str("Void"),
            Token::Return => String::from_str("Return"),
            Token::Fact => String::from_str("Fact"),
            Token::Goal => String::from_str("Goal"),
            Token::Or => String::from_str("Or"),
            Token::EOF => String::from_str("EOF"),
        };
        assert(s@ == self@.describe()) by {
            reveal(Lexeme::describe);
        }
        s
    }

    /// Whether the two tokens are the same.
    pub fn same(&self, other: &Token) -> (b: bool)
        ensures
            b == (self@ == other@),
    {
        match (self, other) {
            (Token::Identifier(a), Token::Identifier(b)) => *a == *b,
            (Token::BoolLiteral(a), Token::BoolLiteral(b)) => *a == *b,
            (Token::IntLiteral(a), Token::IntLiteral(b)) => *a == *b,
            (Token::RealLiteral(a, c), Token::RealLiteral(b, d)) => *a == *b && *c == *d,
            (Token::Plus, Token::Plus) => true,
            (Token::Minus, Token::Minus) => true,
            (Token::Asterisk, Token::Asterisk) => true,
            (Token::Slash, Token::Slash) => true,
            (Token::Amp, Token::Amp) => true,
            (Token::Bar, Token::Bar) => true,
            (Token::Dot, Token::Dot) => true,
            (Token::LParen, Token::LParen) => true,
            (Token::RParen, Token::RParen) => true,
            (Token::LBracket, Token::LBracket) => true,
            (Token::RBracket, Token::RBracket) => true,
            (Token::LBrace, Token::LBrace) => true,
            (Token::RBrace, Token::RBrace) => true,
            (Token::Comma, Token::Comma) => true,
            (Token::Colon, Token::Colon) => true,
            (Token::Equal, Token::Equal) => true,
            (Token::EqualEqual, Token::EqualEqual) => true,
            (Token::NotEqual, Token::NotEqual) => true,
            (Token::LessThan, Token::LessThan) => true,
            (Token::LessEqual, Token::LessEqual) => true,
            (Token::GreaterThan, Token::GreaterThan) => true,
            (Token::GreaterEqual, Token::GreaterEqual) => true,
            (Token::Semicolon, Token::Semicolon) => true,
            (Token::Bool, Token::Bool) => true,
            (Token::Int, Token::Int) => true,
            (Token::Real, Token::Real) => true,
            (Token::String, Token::String) => true,
            (Token::Class, Token::Class) => true,
            (Token::Predicate, Token::Predicate) => true,
            (Token::Enum, Token::Enum) => true,
            (Token::New, Token::New) => true,
            (Token::For, Token::For) => true,
            (Token::This, Token::This) => true,
            (Token::Void, Token::Void) => true,
            (Token::Return, Token::Return) => true,
            (Token::Fact, Token::Fact) => true,
            (Token::Goal, Token::Goal) => true,
            (Token::Or, Token::Or) => true,
            (Token::EOF, Token::EOF) => true,
            _ => false,
        }
    }

    /// A copy of the token.
    pub fn duplicate(&self) -> (t: Token)
        ensures
            t@ == self@,
    {
        match self {
            Token::Identifier(name) => Token::Identifier(name.clone()),
            Token::BoolLiteral(b) => Token::BoolLiteral(*b),
            Token::IntLiteral(n) => Token::IntLiteral(*n),
            Token::RealLiteral(n, d) => Token::RealLiteral(*n, *d),
            Token::Plus => Token::Plus,
            Token::Minus => Token::Minus,
            Token::Asterisk => Token::Asterisk,
            Token::Slash => Token::Slash,
            Token::Amp => Token::Amp,
            Token::Bar => Token::Bar,
            Token::Dot => Token::Dot,
            Token::LParen => Token::LParen,
            Token::RParen => Token::RParen,
            Token::LBracket => Token::LBracket,
            Token::RBracket => Token::RBracket,
            Token::LBrace => Token::LBrace,
            Token::RBrace => Token::RBrace,
            Token::Comma => Token::Comma,
            Token::Colon => Token::Colon,
            Token::Equal => Token::Equal,
            Token::EqualEqual => Token::EqualEqual,
            Token::NotEqual => Token::NotEqual,
            Token::LessThan => Token::LessThan,
            Token::LessEqual => Token::LessEqual,
            Token::GreaterThan => Token::GreaterThan,
            Token::GreaterEqual => Token::GreaterEqual,
            Token::Semicolon => Token::Semicolon,
            Token::Bool => Token::Bool,
            Token::Int => Token::Int,
            Token::Real => Token::Real,
            Token::String => Token::String,
            Token::Class => Token::Class,
            Token::Predicate => Token::Predicate,
            Token::Enum => Token::Enum,
            Token::New => Token::New,
            Token::For => Token::For,
            Token::This => Token::This,
            Token::Void => Token::Void,
            Token::Return => Token::Return,
            Token::Fact => Token::Fact,
            Token::Goal => Token::Goal,
            Token::Or => Token::Or,
            Token::EOF => Token::EOF,
        }
    }
}


} // verus!
