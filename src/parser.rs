//! The SQL parser: tokens to statements.

use vstd::prelude::*;
use crate::ast::{Column, Consts, Expression, Statement};
use crate::error::Error;
use crate::lexer::{Keyword, Lexer, Token, TokenView, lex_spec, str_eq, chars_of, digit_char};
use crate::types::DataType;

verus! {

/// The value of a constant.
pub ghost enum ConstView {
    Null,
    Boolean(bool),
    Integer(int),
    Float(Seq<char>),
    Str(Seq<char>),
}

pub open spec fn const_view(c: &Consts) -> ConstView {
    match c {
        Consts::Null => ConstView::Null,
        Consts::Boolean(b) => ConstView::Boolean(*b),
        Consts::Integer(i) => ConstView::Integer(*i as int),
        Consts::Float(s) => ConstView::Float(s@),
        Consts::String(s) => ConstView::Str(s@),
    }
}

pub open spec fn expr_view(e: &Expression) -> ConstView {
    match e {
        Expression::Consts(c) => const_view(c),
    }
}

/// The number a string of decimal digits spells.
pub open spec fn digits_value(s: Seq<char>) -> int
    decreases s.len(),
{
    if s.len() == 0 {
        0
    } else {
        digits_value(s.drop_last()) * 10 + (s.last() as int - '0' as int)
    }
}

pub open spec fn all_digits(s: Seq<char>) -> bool {
    forall|i: int| 0 <= i < s.len() ==> digit_char(#[trigger] s[i])
}

/// The constant a token stands for: an all-digit number is an integer (and
/// must fit an `i64`), any other number a float.
pub open spec fn const_of(t: TokenView) -> Option<ConstView> {
    match t {
        TokenView::Number(n) => if all_digits(n) {
            if digits_value(n) <= i64::MAX {
                Some(ConstView::Integer(digits_value(n)))
            } else {
                None
            }
        } else {
            Some(ConstView::Float(n))
        },
        TokenView::Str(s) => Some(ConstView::Str(s)),
        TokenView::Keyword(Keyword::True) => Some(ConstView::Boolean(true)),
        TokenView::Keyword(Keyword::False) => Some(ConstView::Boolean(false)),
        TokenView::Keyword(Keyword::Null) => Some(ConstView::Null),
        _ => None,
    }
}

/// The column type a type keyword names.
pub open spec fn datatype_of(t: TokenView) -> Option<DataType> {
    match t {
        TokenView::Keyword(Keyword::Int) => Some(DataType::Integer),
        TokenView::Keyword(Keyword::Integer) => Some(DataType::Integer),
        TokenView::Keyword(Keyword::Boolean) => Some(DataType::Boolean),
        TokenView::Keyword(Keyword::Bool) => Some(DataType::Boolean),
        TokenView::Keyword(Keyword::Float) => Some(DataType::Float),
        TokenView::Keyword(Keyword::Double) => Some(DataType::Float),
        TokenView::Keyword(Keyword::String) => Some(DataType::String),
        TokenView::Keyword(Keyword::Text) => Some(DataType::String),
        TokenView::Keyword(Keyword::Varchar) => Some(DataType::String),
        _ => None,
    }
}

/// The value of a decimal digit string, or `None` where it does not fit an `i64`.
pub fn parse_integer(s: &str) -> (r: Option<i64>)
    requires
        all_digits(s@),
    ensures
        digits_value(s@) <= i64::MAX ==> r == Some(digits_value(s@) as i64),
        digits_value(s@) > i64::MAX ==> r is None,
{
    let cs = chars_of(s);
    let n = cs.len();
    let mut acc: i64 = 0;
    let mut i: usize = 0;
    while i < n
        invariant
            n == cs@.len(),
            cs@ == s@,
            i <= n,
            all_digits(s@),
            acc as int == digits_value(s@.take(i as int)),
            acc >= 0,
        decreases n - i,
    {
        let d = (cs[i] as u32 - '0' as u32) as i64;
        proof {
            assert(digit_char(s@[i as int]));
            assert(s@.take(i + 1).drop_last() =~= s@.take(i as int));
            lemma_digits_value_mono(s@, i as int);
        }
        if acc > (i64::MAX - d) / 10 {
            proof {
                assert(acc * 10 + d > i64::MAX) by (nonlinear_arith)
                    requires
                        acc > (i64::MAX - d) / 10,
                        0 <= d <= 9,
                ;
            }
            return None;
        }
        proof {
            assert(acc * 10 + d <= i64::MAX) by (nonlinear_arith)
                requires
                    acc <= (i64::MAX - d) / 10,
                    0 <= d <= 9,
                    acc >= 0,
            ;
        }
        acc = acc * 10 + d;
        i = i + 1;
    }
    proof {
        assert(s@.take(n as int) =~= s@);
    }
    Some(acc)
}

/// Taking more digits never makes the number smaller.
proof fn lemma_digits_value_mono(s: Seq<char>, i: int)
    requires
        0 <= i < s.len(),
        all_digits(s),
    ensures
        digits_value(s.take(i + 1)) >= 0,
        digits_value(s.take(i + 1)) > i64::MAX ==> digits_value(s) > i64::MAX,
    decreases s.len(),
{
    lemma_digits_value_nonneg(s.take(i + 1));
    if i + 1 < s.len() {
        assert(all_digits(s.drop_last()));
        assert(s.drop_last().take(i + 1) =~= s.take(i + 1));
        lemma_digits_value_mono(s.drop_last(), i);
        lemma_digits_value_nonneg(s.drop_last());
        assert(digit_char(s.last()));
    } else {
        assert(s.take(i + 1) =~= s);
    }
}

proof fn lemma_digits_value_nonneg(s: Seq<char>)
    requires
        all_digits(s),
    ensures
        digits_value(s) >= 0,
    decreases s.len(),
{
    if s.len() > 0 {
        assert(all_digits(s.drop_last()));
        lemma_digits_value_nonneg(s.drop_last());
        assert(digit_char(s.last()));
    }
}

/// The value of a column definition.
pub ghost struct ColumnView {
    pub name: Seq<char>,
    pub datatype: DataType,
    pub nullable: Option<bool>,
    pub default: Option<ConstView>,
}

/// The value of a statement.
pub ghost enum StatementView {
    CreateTable { name: Seq<char>, columns: Seq<ColumnView> },
    Insert { table_name: Seq<char>, columns: Option<Seq<Seq<char>>>, values: Seq<Seq<ConstView>> },
    Select { table_name: Seq<char> },
}

pub open spec fn opt_const_view(e: Option<Expression>) -> Option<ConstView> {
    match e {
        Some(x) => Some(expr_view(&x)),
        None => None,
    }
}

pub open spec fn column_view(c: Column) -> ColumnView {
    ColumnView {
        name: c.name@,
        datatype: c.datatype,
        nullable: c.nullable,
        default: opt_const_view(c.default),
    }
}

pub open spec fn exprs_view(r: Seq<Expression>) -> Seq<ConstView> {
    r.map_values(|e: Expression| expr_view(&e))
}

pub open spec fn rows_view(v: Seq<Vec<Expression>>) -> Seq<Seq<ConstView>> {
    v.map_values(|r: Vec<Expression>| exprs_view(r@))
}

pub open spec fn names_view(v: Seq<String>) -> Seq<Seq<char>> {
    v.map_values(|s: String| s@)
}

pub open spec fn opt_names_view(o: &Option<Vec<String>>) -> Option<Seq<Seq<char>>> {
    match o {
        Some(c) => Some(names_view(c@)),
        None => None,
    }
}

pub open spec fn columns_view(v: Seq<Column>) -> Seq<ColumnView> {
    v.map_values(|c: Column| column_view(c))
}

pub open spec fn statement_view(s: Statement) -> StatementView {
    match s {
        Statement::CreateTable { name, columns } => StatementView::CreateTable {
            name: name@,
            columns: columns_view(columns@),
        },
        Statement::Insert { table_name, columns, values } => StatementView::Insert {
            table_name: table_name@,
            columns: opt_names_view(&columns),
            values: rows_view(values@),
        },
        Statement::Select { table_name } => StatementView::Select { table_name: table_name@ },
    }
}

pub open spec fn tok_is(t: Seq<TokenView>, i: int, x: TokenView) -> bool {
    0 <= i < t.len() && t[i] == x
}

pub open spec fn ident_at(t: Seq<TokenView>, i: int) -> bool {
    0 <= i < t.len() && t[i] is Ident
}

/// `NULL`, `NOT NULL` and `DEFAULT <constant>` after a column's type, from `i` on.
pub open spec fn mods_spec(
    t: Seq<TokenView>,
    i: int,
    nullable: Option<bool>,
    default: Option<ConstView>,
) -> Option<(Option<bool>, Option<ConstView>, int)>
    decreases t.len() - i,
{
    if 0 <= i < t.len() && t[i] is Keyword {
        let k = t[i]->Keyword_0;
        if k == Keyword::Null {
            mods_spec(t, i + 1, Some(true), default)
        } else if k == Keyword::Not {
            if tok_is(t, i + 1, TokenView::Keyword(Keyword::Null)) {
                mods_spec(t, i + 2, Some(false), default)
            } else {
                None
            }
        } else if k == Keyword::Default {
            if i + 1 < t.len() && const_of(t[i + 1]) is Some {
                mods_spec(t, i + 2, nullable, const_of(t[i + 1]))
            } else {
                None
            }
        } else {
            None
        }
    } else {
        Some((nullable, default, i))
    }
}

/// A column definition from `i` on: name, type, then modifiers.
pub open spec fn column_spec(t: Seq<TokenView>, i: int) -> Option<(ColumnView, int)> {
    if ident_at(t, i) && i + 1 < t.len() && datatype_of(t[i + 1]) is Some {
        match mods_spec(t, i + 2, None, None) {
            Some((n, d, j)) => Some(
                (
                    ColumnView {
                        name: t[i]->Ident_0,
                        datatype: datatype_of(t[i + 1])->Some_0,
                        nullable: n,
                        default: d,
                    },
                    j,
                ),
            ),
            None => None,
        }
    } else {
        None
    }
}

/// Column definitions separated by commas, from `i` on.
pub open spec fn columns_spec(t: Seq<TokenView>, i: int) -> Option<(Seq<ColumnView>, int)>
    decreases t.len() - i,
{
    match column_spec(t, i) {
        Some((c, j)) => if tok_is(t, j, TokenView::Comma) && j > i {
            match columns_spec(t, j + 1) {
                Some((cs, k)) => Some((seq![c] + cs, k)),
                None => None,
            }
        } else {
            Some((seq![c], j))
        },
        None => None,
    }
}

/// `name ( columns )` from `i` on, after `CREATE TABLE`.
pub open spec fn create_body_spec(t: Seq<TokenView>, i: int) -> Option<(StatementView, int)> {
    if ident_at(t, i) && tok_is(t, i + 1, TokenView::OpenParen) {
        match columns_spec(t, i + 2) {
            Some((cs, j)) => if tok_is(t, j, TokenView::CloseParen) {
                Some((StatementView::CreateTable { name: t[i]->Ident_0, columns: cs }, j + 1))
            } else {
                None
            },
            None => None,
        }
    } else {
        None
    }
}

/// `CREATE TABLE name ( columns )` from `i` on.
pub open spec fn create_spec(t: Seq<TokenView>, i: int) -> Option<(StatementView, int)> {
    if tok_is(t, i, TokenView::Keyword(Keyword::Create)) && tok_is(t, i + 1, TokenView::Keyword(Keyword::Table)) {
        create_body_spec(t, i + 2)
    } else {
        None
    }
}

/// `SELECT * FROM name` from `i` on.
pub open spec fn select_spec(t: Seq<TokenView>, i: int) -> Option<(StatementView, int)> {
    if tok_is(t, i, TokenView::Keyword(Keyword::Select)) && tok_is(t, i + 1, TokenView::Asterisk)
        && tok_is(t, i + 2, TokenView::Keyword(Keyword::From)) && ident_at(t, i + 3) {
        Some((StatementView::Select { table_name: t[i + 3]->Ident_0 }, i + 4))
    } else {
        None
    }
}

/// Column names, each followed by a comma or the closing parenthesis, from `i` on.
pub open spec fn names_spec(t: Seq<TokenView>, i: int) -> Option<(Seq<Seq<char>>, int)>
    decreases t.len() - i,
{
    if ident_at(t, i) && i + 1 < t.len() {
        if t[i + 1] == TokenView::CloseParen {
            Some((seq![t[i]->Ident_0], i + 2))
        } else if t[i + 1] == TokenView::Comma {
            match names_spec(t, i + 2) {
                Some((ns, j)) => Some((seq![t[i]->Ident_0] + ns, j)),
                None => None,
            }
        } else {
            None
        }
    } else {
        None
    }
}

/// Constants, each followed by a comma or the closing parenthesis, from `i` on.
pub open spec fn exprs_spec(t: Seq<TokenView>, i: int) -> Option<(Seq<ConstView>, int)>
    decreases t.len() - i,
{
    if 0 <= i && i + 1 < t.len() && const_of(t[i]) is Some {
        let c = const_of(t[i])->Some_0;
        if t[i + 1] == TokenView::CloseParen {
            Some((seq![c], i + 2))
        } else if t[i + 1] == TokenView::Comma {
            match exprs_spec(t, i + 2) {
                Some((cs, j)) => Some((seq![c] + cs, j)),
                None => None,
            }
        } else {
            None
        }
    } else {
        None
    }
}

/// Parenthesized rows separated by commas, from `i` on.
pub open spec fn rows_spec(t: Seq<TokenView>, i: int) -> Option<(Seq<Seq<ConstView>>, int)>
    decreases t.len() - i,
{
    if tok_is(t, i, TokenView::OpenParen) {
        match exprs_spec(t, i + 1) {
            Some((row, j)) => if tok_is(t, j, TokenView::Comma) && j > i {
                match rows_spec(t, j + 1) {
                    Some((rs, k)) => Some((seq![row] + rs, k)),
                    None => None,
                }
            } else {
                Some((seq![row], j))
            },
            None => None,
        }
    } else {
        None
    }
}

/// `INSERT INTO name [( names )] VALUES rows` from `i` on.
pub open spec fn insert_spec(t: Seq<TokenView>, i: int) -> Option<(StatementView, int)> {
    if tok_is(t, i, TokenView::Keyword(Keyword::Insert)) && tok_is(t, i + 1, TokenView::Keyword(Keyword::Into))
        && ident_at(t, i + 2) {
        let cols: Option<(Option<Seq<Seq<char>>>, int)> = if tok_is(t, i + 3, TokenView::OpenParen) {
            match names_spec(t, i + 4) {
                Some((ns, j)) => Some((Some(ns), j)),
                None => None,
            }
        } else {
            Some((None, i + 3))
        };
        match cols {
            Some((cs, j)) => if tok_is(t, j, TokenView::Keyword(Keyword::Values)) {
                match rows_spec(t, j + 1) {
                    Some((rs, k)) => Some(
                        (StatementView::Insert { table_name: t[i + 2]->Ident_0, columns: cs, values: rs }, k),
                    ),
                    None => None,
                }
            } else {
                None
            },
            None => None,
        }
    } else {
        None
    }
}

/// A statement from `i` on, by its first token.
pub open spec fn statement_spec(t: Seq<TokenView>, i: int) -> Option<(StatementView, int)> {
    if tok_is(t, i, TokenView::Keyword(Keyword::Create)) {
        create_spec(t, i)
    } else if tok_is(t, i, TokenView::Keyword(Keyword::Select)) {
        select_spec(t, i)
    } else if tok_is(t, i, TokenView::Keyword(Keyword::Insert)) {
        insert_spec(t, i)
    } else {
        None
    }
}

/// The statement the tokens from `i` on spell: one statement, a semicolon,
/// and nothing after.
pub open spec fn parse_spec(t: Seq<TokenView>, i: int) -> Option<StatementView> {
    match statement_spec(t, i) {
        Some((st, j)) => if tok_is(t, j, TokenView::Semicolon) && j + 1 == t.len() {
            Some(st)
        } else {
            None
        },
        None => None,
    }
}


proof fn lemma_mods_progress(t: Seq<TokenView>, i: int, n: Option<bool>, d: Option<ConstView>)
    ensures
        mods_spec(t, i, n, d) is Some ==> mods_spec(t, i, n, d)->Some_0.2 >= i,
    decreases t.len() - i,
{
    if 0 <= i < t.len() && t[i] is Keyword {
        lemma_mods_progress(t, i + 1, Some(true), d);
        if i + 1 < t.len() {
            lemma_mods_progress(t, i + 2, Some(false), d);
            lemma_mods_progress(t, i + 2, n, const_of(t[i + 1]));
        }
    }
}

proof fn lemma_exprs_progress(t: Seq<TokenView>, i: int)
    ensures
        exprs_spec(t, i) is Some ==> exprs_spec(t, i)->Some_0.1 >= i + 2,
    decreases t.len() - i,
{
    if 0 <= i && i + 1 < t.len() {
        lemma_exprs_progress(t, i + 2);
    }
}

/// A copy of a token.
pub fn clone_token(t: &Token) -> (r: Token)
    ensures
        r@ == t@,
{
    match t {
        Token::Keyword(k) => Token::Keyword(*k),
        Token::Ident(s) => Token::Ident(s.clone()),
        Token::String(s) => Token::String(s.clone()),
        Token::Number(s) => Token::Number(s.clone()),
        Token::OpenParen => Token::OpenParen,
        Token::CloseParen => Token::CloseParen,
        Token::Comma => Token::Comma,
        Token::Semicolon => Token::Semicolon,
        Token::Asterisk => Token::Asterisk,
        Token::Plus => Token::Plus,
        Token::Minus => Token::Minus,
        Token::Slash => Token::Slash,
    }
}

/// Two tokens are the same.
pub fn token_eq(a: &Token, b: &Token) -> (r: bool)
    ensures
        r == (a@ == b@),
{
    match (a, b) {
        (Token::Keyword(x), Token::Keyword(y)) => *x == *y,
        (Token::Ident(x), Token::Ident(y)) => str_eq(x.as_str(), y.as_str()),
        (Token::String(x), Token::String(y)) => str_eq(x.as_str(), y.as_str()),
        (Token::Number(x), Token::Number(y)) => str_eq(x.as_str(), y.as_str()),
        (Token::OpenParen, Token::OpenParen) => true,
        (Token::CloseParen, Token::CloseParen) => true,
        (Token::Comma, Token::Comma) => true,
        (Token::Semicolon, Token::Semicolon) => true,
        (Token::Asterisk, Token::Asterisk) => true,
        (Token::Plus, Token::Plus) => true,
        (Token::Minus, Token::Minus) => true,
        (Token::Slash, Token::Slash) => true,
        _ => false,
    }
}

/// What `next_if` accepts.
pub enum TokenClass {
    AnyKeyword,
    Exactly(Token),
}

pub open spec fn accepts(c: &TokenClass, t: TokenView) -> bool {
    match c {
        TokenClass::AnyKeyword => t is Keyword,
        TokenClass::Exactly(x) => t == x@,
    }
}

/// Parses one statement from its text.
pub struct Parser {
    tokens: Vec<Token>,
    pos: usize,
    lexed: bool,
}

impl Parser {
    /// The tokens of the text.
    pub closed spec fn toks(&self) -> Seq<TokenView> {
        self.tokens@.map_values(|t: Token| t@)
    }

    /// How many tokens have been read.
    pub closed spec fn at(&self) -> int {
        self.pos as int
    }

    /// The whole text lexed.
    pub closed spec fn lexed(&self) -> bool {
        self.lexed
    }

    pub closed spec fn wf(&self) -> bool {
        self.pos <= self.tokens@.len()
    }

    pub open spec fn current(&self) -> Option<TokenView> {
        if self.at() < self.toks().len() {
            Some(self.toks()[self.at()])
        } else {
            None
        }
    }

    pub fn new(input: &str) -> (r: Parser)
        ensures
            r.wf(),
            r.at() == 0,
            r.lexed() <==> lex_spec(input@) is Some,
            r.lexed() ==> lex_spec(input@) == Some(r.toks()),
    {
        let mut lexer = Lexer::new(input);
        match lexer.tokens() {
            Ok(tokens) => Parser { tokens, pos: 0, lexed: true },
            Err(_) => Parser { tokens: Vec::new(), pos: 0, lexed: false },
        }
    }

    fn peek(&self) -> (r: Option<Token>)
        requires
            self.wf(),
        ensures
            match r {
                Some(t) => self.current() == Some(t@),
                None => self.current() is None,
            },
    {
        if self.pos < self.tokens.len() {
            Some(clone_token(&self.tokens[self.pos]))
        } else {
            None
        }
    }

    /// Takes the next token; fails at the end of the input.
    fn next(&mut self) -> (r: Result<Token, Error>)
        requires
            old(self).wf(),
        ensures
            final(self).wf(),
            final(self).toks() == old(self).toks(),
            final(self).lexed() == old(self).lexed(),
            match r {
                Ok(t) => old(self).current() == Some(t@) && final(self).at() == old(self).at() + 1,
                Err(e) => old(self).current() is None && final(self).at() == old(self).at() && e == Error::Parse,
            },
    {
        if self.pos < self.tokens.len() {
            let t = clone_token(&self.tokens[self.pos]);
            self.pos = self.pos + 1;
            Ok(t)
        } else {
            Err(Error::Parse)
        }
    }

    /// Takes the next token, which must be an identifier.
    fn next_indent(&mut self) -> (r: Result<String, Error>)
        requires
            old(self).wf(),
        ensures
            final(self).wf(),
            final(self).toks() == old(self).toks(),
            final(self).lexed() == old(self).lexed(),
            final(self).at() <= old(self).at() + 1,
            match r {
                Ok(name) => old(self).current() == Some(TokenView::Ident(name@)) && final(self).at() == old(self).at() + 1,
                Err(e) => !(old(self).current() matches Some(TokenView::Ident(_))) && e == Error::Parse,
            },
    {
        match self.next()? {
            Token::Ident(ident) => Ok(ident),
            _ => Err(Error::Parse),
        }
    }

    /// Takes the next token, which must be `expect`.
    fn next_expect(&mut self, expect: Token) -> (r: Result<(), Error>)
        requires
            old(self).wf(),
        ensures
            final(self).wf(),
            final(self).toks() == old(self).toks(),
            final(self).lexed() == old(self).lexed(),
            final(self).at() <= old(self).at() + 1,
            r is Ok <==> old(self).current() == Some(expect@),
            r is Ok ==> final(self).at() == old(self).at() + 1,
            r is Err ==> r == Err::<(), Error>(Error::Parse),
    {
        let token = self.next()?;
        if !token_eq(&token, &expect) {
            return Err(Error::Parse);
        }
        Ok(())
    }

    /// Takes the next token where it is in the class.
    fn next_if(&mut self, class: &TokenClass) -> (r: Option<Token>)
        requires
            old(self).wf(),
        ensures
            final(self).wf(),
            final(self).toks() == old(self).toks(),
            final(self).lexed() == old(self).lexed(),
            match old(self).current() {
                Some(t) => if accepts(class, t) {
                    r is Some && r->Some_0@ == t && final(self).at() == old(self).at() + 1
                } else {
                    r is None && final(self).at() == old(self).at()
                },
                None => r is None && final(self).at() == old(self).at(),
            },
    {
        let t = match self.peek() {
            Some(t) => t,
            None => return None,
        };
        let ok = match class {
            TokenClass::AnyKeyword => match t {
                Token::Keyword(_) => true,
                _ => false,
            },
            TokenClass::Exactly(x) => token_eq(&t, x),
        };
        if !ok {
            return None;
        }
        self.next().ok()
    }

    fn next_if_keyword(&mut self) -> (r: Option<Token>)
        requires
            old(self).wf(),
        ensures
            final(self).wf(),
            final(self).toks() == old(self).toks(),
            final(self).lexed() == old(self).lexed(),
            match old(self).current() {
                Some(TokenView::Keyword(k)) => r is Some && r->Some_0@ == TokenView::Keyword(k) && final(self).at() == old(self).at() + 1,
                _ => r is None && final(self).at() == old(self).at(),
            },
    {
        self.next_if(&TokenClass::AnyKeyword)
    }

    fn next_if_token(&mut self, token: Token) -> (r: Option<Token>)
        requires
            old(self).wf(),
        ensures
            final(self).wf(),
            final(self).toks() == old(self).toks(),
            final(self).lexed() == old(self).lexed(),
            old(self).current() == Some(token@) ==> r is Some && final(self).at() == old(self).at() + 1,
            old(self).current() != Some(token@) ==> r is None && final(self).at() == old(self).at(),
    {
        self.next_if(&TokenClass::Exactly(token))
    }

    /// A constant.
    fn parse_expression(&mut self) -> (r: Result<Expression, Error>)
        requires
            old(self).wf(),
        ensures
            final(self).wf(),
            final(self).toks() == old(self).toks(),
            final(self).lexed() == old(self).lexed(),
            final(self).at() <= old(self).at() + 1,
            match r {
                Ok(e) => old(self).current() is Some && const_of(old(self).current()->Some_0) == Some(expr_view(&e))
                    && final(self).at() == old(self).at() + 1,
                Err(e) => e == Error::Parse && (old(self).current() is None || const_of(old(self).current()->Some_0) is None),
            },
    {
        let c = match self.next()? {
            Token::Number(n) => {
                let cs = chars_of(n.as_str());
                let mut digits = true;
                let mut i: usize = 0;
                while i < cs.len()
                    invariant
                        cs@ == n@,
                        i <= cs@.len(),
                        digits == all_digits(n@.take(i as int)),
                    decreases cs@.len() - i,
                {
                    let ghost before = digits;
                    if !('0' <= cs[i] && cs[i] <= '9') {
                        digits = false;
                    }
                    proof {
                        let a = n@.take(i as int);
                        let b = n@.take(i + 1);
                        assert(forall|j: int| 0 <= j < i ==> b[j] == a[j]);
                        assert(b[i as int] == cs@[i as int]);
                        if digits {
                            assert forall|j: int| 0 <= j < b.len() implies digit_char(#[trigger] b[j]) by {
                                if j < i {
                                    assert(b[j] == a[j]);
                                }
                            }
                        } else if !before {
                            let j = choose|j: int| 0 <= j < a.len() && !digit_char(#[trigger] a[j]);
                            assert(b[j] == a[j]);
                        } else {
                            assert(!digit_char(b[i as int]));
                        }
                    }
                    i = i + 1;
                }
                proof {
                    assert(n@.take(cs@.len() as int) =~= n@);
                    assert(digits == all_digits(n@));
                    if digits {
                        lemma_digits_value_nonneg(n@);
                    }
                }
                if digits {
                    match parse_integer(n.as_str()) {
                        Some(v) => Consts::Integer(v),
                        None => return Err(Error::Parse),
                    }
                } else {
                    Consts::Float(n)
                }
            },
            Token::String(s) => Consts::String(s),
            Token::Keyword(Keyword::True) => Consts::Boolean(true),
            Token::Keyword(Keyword::False) => Consts::Boolean(false),
            Token::Keyword(Keyword::Null) => Consts::Null,
            _ => return Err(Error::Parse),
        };
        Ok(Expression::Consts(c))
    }

    pub open spec fn same_input(&self, other: &Parser) -> bool {
        other.wf() && other.toks() == self.toks() && other.lexed() == self.lexed()
    }

    /// `SELECT * FROM name`.
    fn parse_select(&mut self) -> (r: Result<Statement, Error>)
        requires
            old(self).wf(),
        ensures
            old(self).same_input(final(self)),
            match r {
                Ok(st) => select_spec(old(self).toks(), old(self).at()) == Some((statement_view(st), final(self).at())),
                Err(e) => select_spec(old(self).toks(), old(self).at()) is None && e == Error::Parse,
            },
    {
        self.next_expect(Token::Keyword(Keyword::Select))?;
        self.next_expect(Token::Asterisk)?;
        self.next_expect(Token::Keyword(Keyword::From))?;
        let table_name = self.next_indent()?;
        Ok(Statement::Select { table_name })
    }

    /// A column definition: name, type, then `NULL`, `NOT NULL` or `DEFAULT`.
    fn parse_ddl_column(&mut self) -> (r: Result<Column, Error>)
        requires
            old(self).wf(),
        ensures
            old(self).same_input(final(self)),
            match r {
                Ok(c) => column_spec(old(self).toks(), old(self).at()) == Some((column_view(c), final(self).at())),
                Err(e) => column_spec(old(self).toks(), old(self).at()) is None && e == Error::Parse,
            },
    {
        let ghost t = self.toks();
        let ghost i0 = self.at();
        let name = self.next_indent()?;
        let datatype = match self.next()? {
            Token::Keyword(Keyword::Int) => DataType::Integer,
            Token::Keyword(Keyword::Integer) => DataType::Integer,
            Token::Keyword(Keyword::Boolean) => DataType::Boolean,
            Token::Keyword(Keyword::Bool) => DataType::Boolean,
            Token::Keyword(Keyword::Float) => DataType::Float,
            Token::Keyword(Keyword::Double) => DataType::Float,
            Token::Keyword(Keyword::String) => DataType::String,
            Token::Keyword(Keyword::Text) => DataType::String,
            Token::Keyword(Keyword::Varchar) => DataType::String,
            _ => return Err(Error::Parse),
        };
        let mut column = Column { name, datatype, nullable: None, default: None };
        loop
            invariant
                self.wf(),
                self.toks() == t,
                self.lexed() == old(self).lexed(),
                t == old(self).toks(),
                i0 == old(self).at(),
                ident_at(t, i0) && i0 + 1 < t.len() && datatype_of(t[i0 + 1]) == Some(column.datatype),
                column.name@ == t[i0]->Ident_0,
                self.at() >= i0 + 2,
                mods_spec(t, i0 + 2, None, None) == mods_spec(t, self.at(), column.nullable, opt_const_view(column.default)),
            ensures
                self.wf(),
                self.toks() == t,
                self.lexed() == old(self).lexed(),
                t == old(self).toks(),
                ident_at(t, i0) && i0 + 1 < t.len() && datatype_of(t[i0 + 1]) == Some(column.datatype),
                column.name@ == t[i0]->Ident_0,
                mods_spec(t, i0 + 2, None, None) == Some((column.nullable, opt_const_view(column.default), self.at())),
            decreases t.len() - self.at(),
        {
            let ghost at0 = self.at();
            match self.next_if_keyword() {
                Some(Token::Keyword(k)) => {
                    match k {
                        Keyword::Null => {
                            column.nullable = Some(true);
                        },
                        Keyword::Not => {
                            self.next_expect(Token::Keyword(Keyword::Null))?;
                            column.nullable = Some(false);
                        },
                        Keyword::Default => {
                            let e = self.parse_expression()?;
                            column.default = Some(e);
                        },
                        _ => {
                            return Err(Error::Parse);
                        },
                    }
                },
                _ => {
                    break;
                },
            }
        }
        Ok(column)
    }

    /// `name ( columns )`, after `CREATE TABLE`.
    fn parse_ddl_create_table(&mut self) -> (r: Result<Statement, Error>)
        requires
            old(self).wf(),
        ensures
            old(self).same_input(final(self)),
            match r {
                Ok(st) => create_body_spec(old(self).toks(), old(self).at()) == Some((statement_view(st), final(self).at())),
                Err(e) => create_body_spec(old(self).toks(), old(self).at()) is None && e == Error::Parse,
            },
    {
        let ghost t = self.toks();
        let table_name = self.next_indent()?;
        self.next_expect(Token::OpenParen)?;
        let ghost start = self.at();
        let mut columns: Vec<Column> = Vec::new();
        loop
            invariant_except_break
                columns_spec(t, start) == match columns_spec(t, self.at()) {
                    Some((cs, k)) => Some((columns_view(columns@) + cs, k)),
                    None => None::<(Seq<ColumnView>, int)>,
                },
            invariant
                self.wf(),
                self.toks() == t,
                self.lexed() == old(self).lexed(),
                t == old(self).toks(),
                start == old(self).at() + 2,
                self.at() >= start,
            ensures
                self.wf(),
                self.toks() == t,
                self.lexed() == old(self).lexed(),
                t == old(self).toks(),
                columns_spec(t, start) == Some((columns_view(columns@), self.at())),
            decreases t.len() - self.at(),
        {
            let ghost at0 = self.at();
            let c = self.parse_ddl_column()?;
            let ghost at1 = self.at();
            let ghost c0 = columns@;
            columns.push(c);
            proof {
                assert(columns_view(columns@) =~= columns_view(c0).push(column_view(c)));
                let cv = column_view(c);
                lemma_mods_progress(t, at0 + 2, None, None);
            }
            if self.next_if_token(Token::Comma).is_none() {
                proof {
                    assert(columns_view(c0) + seq![column_view(c)] =~= columns_view(columns@));
                }
                break;
            }
            proof {
                match columns_spec(t, self.at()) {
                    Some((cs, k)) => {
                        assert(columns_view(c0) + (seq![column_view(c)] + cs) =~= columns_view(columns@) + cs);
                    },
                    None => {},
                }
            }
        }
        self.next_expect(Token::CloseParen)?;
        Ok(Statement::CreateTable { name: table_name, columns })
    }

    /// `CREATE TABLE ...`.
    fn parse_ddl(&mut self) -> (r: Result<Statement, Error>)
        requires
            old(self).wf(),
        ensures
            old(self).same_input(final(self)),
            match r {
                Ok(st) => create_spec(old(self).toks(), old(self).at()) == Some((statement_view(st), final(self).at())),
                Err(e) => create_spec(old(self).toks(), old(self).at()) is None && e == Error::Parse,
            },
    {
        match self.next()? {
            Token::Keyword(Keyword::Create) => match self.next()? {
                Token::Keyword(Keyword::Table) => self.parse_ddl_create_table(),
                _ => Err(Error::Parse),
            },
            _ => Err(Error::Parse),
        }
    }

    /// `INSERT INTO name [( names )] VALUES ( constants ) [, ( constants )]...`.
    fn parse_insert(&mut self) -> (r: Result<Statement, Error>)
        requires
            old(self).wf(),
        ensures
            old(self).same_input(final(self)),
            match r {
                Ok(st) => insert_spec(old(self).toks(), old(self).at()) == Some((statement_view(st), final(self).at())),
                Err(e) => insert_spec(old(self).toks(), old(self).at()) is None && e == Error::Parse,
            },
    {
        let ghost t = self.toks();
        let ghost i0 = self.at();
        self.next_expect(Token::Keyword(Keyword::Insert))?;
        self.next_expect(Token::Keyword(Keyword::Into))?;
        let table_name = self.next_indent()?;
        let columns = if self.next_if_token(Token::OpenParen).is_some() {
            let ghost start = self.at();
            let mut cols: Vec<String> = Vec::new();
            loop
                invariant_except_break
                    names_spec(t, start) == match names_spec(t, self.at()) {
                        Some((ns, k)) => Some((names_view(cols@) + ns, k)),
                        None => None::<(Seq<Seq<char>>, int)>,
                    },
                invariant
                    self.wf(),
                    self.toks() == t,
                    self.lexed() == old(self).lexed(),
                    t == old(self).toks(),
                    start == i0 + 4,
                    i0 == old(self).at(),
                    tok_is(t, i0, TokenView::Keyword(Keyword::Insert)),
                    tok_is(t, i0 + 1, TokenView::Keyword(Keyword::Into)),
                    ident_at(t, i0 + 2),
                    tok_is(t, i0 + 3, TokenView::OpenParen),
                    self.at() >= start,
                ensures
                    self.wf(),
                    self.toks() == t,
                    self.lexed() == old(self).lexed(),
                    t == old(self).toks(),
                    names_spec(t, start) == Some((names_view(cols@), self.at())),
                decreases t.len() - self.at(),
            {
                let ghost at0 = self.at();
                let name = self.next_indent()?;
                let ghost c0 = cols@;
                let ghost nv = name@;
                cols.push(name);
                proof {
                    assert(names_view(cols@) =~= names_view(c0).push(nv));
                }
                match self.next()? {
                    Token::CloseParen => {
                        proof {
                            assert(names_view(c0) + seq![nv] =~= names_view(cols@));
                        }
                        break;
                    },
                    Token::Comma => {
                        proof {
                            match names_spec(t, self.at()) {
                                Some((ns, k)) => {
                                    assert(names_view(c0) + (seq![nv] + ns) =~= names_view(cols@) + ns);
                                },
                                None => {},
                            }
                        }
                    },
                    _ => {
                        return Err(Error::Parse);
                    },
                }
            }
            Some(cols)
        } else {
            None
        };
        self.next_expect(Token::Keyword(Keyword::Values))?;
        let ghost rstart = self.at();
        let ghost cv = opt_names_view(&columns);
        let ghost tn = table_name@;
        proof {
            assert(insert_spec(t, i0) == match rows_spec(t, rstart) {
                Some((rs, k)) => Some((StatementView::Insert { table_name: tn, columns: cv, values: rs }, k)),
                None => None::<(StatementView, int)>,
            });
        }
        let mut values: Vec<Vec<Expression>> = Vec::new();
        loop
            invariant_except_break
                rows_spec(t, rstart) == match rows_spec(t, self.at()) {
                    Some((rs, k)) => Some((rows_view(values@) + rs, k)),
                    None => None::<(Seq<Seq<ConstView>>, int)>,
                },
            invariant
                self.wf(),
                self.toks() == t,
                self.lexed() == old(self).lexed(),
                t == old(self).toks(),
                i0 == old(self).at(),
                self.at() >= rstart,
                insert_spec(t, i0) == match rows_spec(t, rstart) {
                    Some((rs, k)) => Some((StatementView::Insert { table_name: tn, columns: cv, values: rs }, k)),
                    None => None::<(StatementView, int)>,
                },
            ensures
                self.wf(),
                self.toks() == t,
                self.lexed() == old(self).lexed(),
                t == old(self).toks(),
                rows_spec(t, rstart) == Some((rows_view(values@), self.at())),
            decreases t.len() - self.at(),
        {
            let ghost at0 = self.at();
            self.next_expect(Token::OpenParen)?;
            let ghost estart = self.at();
            let mut exprs: Vec<Expression> = Vec::new();
            loop
                invariant_except_break
                    exprs_spec(t, estart) == match exprs_spec(t, self.at()) {
                        Some((es, k)) => Some((exprs_view(exprs@) + es, k)),
                        None => None::<(Seq<ConstView>, int)>,
                    },
                invariant
                    self.wf(),
                    self.toks() == t,
                    self.lexed() == old(self).lexed(),
                    t == old(self).toks(),
                    i0 == old(self).at(),
                    insert_spec(t, i0) == match rows_spec(t, rstart) {
                        Some((rs, k)) => Some((StatementView::Insert { table_name: tn, columns: cv, values: rs }, k)),
                        None => None::<(StatementView, int)>,
                    },
                    rows_spec(t, rstart) == match rows_spec(t, at0) {
                        Some((rs, k)) => Some((rows_view(values@) + rs, k)),
                        None => None::<(Seq<Seq<ConstView>>, int)>,
                    },
                    tok_is(t, at0, TokenView::OpenParen),
                    exprs_spec(t, estart) is None ==> rows_spec(t, at0) is None,
                    at0 >= rstart,
                    self.at() >= estart,
                ensures
                    self.wf(),
                    self.toks() == t,
                    self.lexed() == old(self).lexed(),
                    t == old(self).toks(),
                    exprs_spec(t, estart) == Some((exprs_view(exprs@), self.at())),
                decreases t.len() - self.at(),
            {
                let e = self.parse_expression()?;
                let ghost e0 = exprs@;
                let ghost ev = expr_view(&e);
                exprs.push(e);
                proof {
                    assert(exprs_view(exprs@) =~= exprs_view(e0).push(ev));
                }
                match self.next()? {
                    Token::CloseParen => {
                        proof {
                            assert(exprs_view(e0) + seq![ev] =~= exprs_view(exprs@));
                        }
                        break;
                    },
                    Token::Comma => {
                        proof {
                            match exprs_spec(t, self.at()) {
                                Some((es, k)) => {
                                    assert(exprs_view(e0) + (seq![ev] + es) =~= exprs_view(exprs@) + es);
                                },
                                None => {},
                            }
                        }
                    },
                    _ => {
                        return Err(Error::Parse);
                    },
                }
            }
            let ghost v0 = values@;
            let ghost rv = exprs_view(exprs@);
            values.push(exprs);
            proof {
                assert(rows_view(values@) =~= rows_view(v0).push(rv));
                lemma_exprs_progress(t, estart);
            }
            if self.next_if_token(Token::Comma).is_none() {
                proof {
                    assert(rows_view(v0) + seq![rv] =~= rows_view(values@));
                }
                break;
            }
            proof {
                match rows_spec(t, self.at()) {
                    Some((rs, k)) => {
                        assert(rows_view(v0) + (seq![rv] + rs) =~= rows_view(values@) + rs);
                    },
                    None => {},
                }
            }
        }
        Ok(Statement::Insert { table_name, columns, values })
    }

    /// A statement, by its first token.
    fn parse_statement(&mut self) -> (r: Result<Statement, Error>)
        requires
            old(self).wf(),
        ensures
            old(self).same_input(final(self)),
            match r {
                Ok(st) => statement_spec(old(self).toks(), old(self).at()) == Some((statement_view(st), final(self).at())),
                Err(e) => statement_spec(old(self).toks(), old(self).at()) is None && e == Error::Parse,
            },
    {
        match self.peek() {
            Some(Token::Keyword(Keyword::Create)) => self.parse_ddl(),
            Some(Token::Keyword(Keyword::Select)) => self.parse_select(),
            Some(Token::Keyword(Keyword::Insert)) => self.parse_insert(),
            _ => Err(Error::Parse),
        }
    }

    /// Parses the statement: it must end with a semicolon, with nothing after it.
    pub fn parse(&mut self) -> (r: Result<Statement, Error>)
        requires
            old(self).wf(),
        ensures
            old(self).same_input(final(self)),
            match r {
                Ok(st) => old(self).lexed() && parse_spec(old(self).toks(), old(self).at()) == Some(statement_view(st)),
                Err(e) => (!old(self).lexed() || parse_spec(old(self).toks(), old(self).at()) is None) && e == Error::Parse,
            },
    {
        if !self.lexed {
            return Err(Error::Parse);
        }
        let stmt = self.parse_statement()?;
        self.next_expect(Token::Semicolon)?;
        if self.peek().is_some() {
            return Err(Error::Parse);
        }
        Ok(stmt)
    }
}

} // verus!
