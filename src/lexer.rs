//! The SQL lexer: turns statement text into tokens.

use vstd::prelude::*;
use crate::error::Error;

verus! {

/// White space as Unicode defines it (the White_Space property, which
/// `char::is_whitespace` tests).
pub open spec fn whitespace_char(c: char) -> bool {
    ('\u{9}' <= c && c <= '\u{d}') || c == ' ' || c == '\u{85}' || c == '\u{a0}' || c == '\u{1680}' || (
    '\u{2000}' <= c && c <= '\u{200a}') || c == '\u{2028}' || c == '\u{2029}' || c == '\u{202f}' || c
        == '\u{205f}' || c == '\u{3000}'
}

/// What `char::is_alphabetic` says of a character.
pub uninterp spec fn alphabetic_char(c: char) -> bool;

/// What `char::is_alphanumeric` says of a character.
pub uninterp spec fn alphanumeric_char(c: char) -> bool;

/// What `str::to_uppercase` makes of a string.
pub uninterp spec fn upper_of(s: Seq<char>) -> Seq<char>;

/// What `str::to_lowercase` makes of a string.
pub uninterp spec fn lower_of(s: Seq<char>) -> Seq<char>;

/// Whether `c` is white space.
pub fn is_whitespace(c: char) -> (r: bool)
    ensures
        r == whitespace_char(c),
{
    ('\u{9}' <= c && c <= '\u{d}') || c == ' ' || c == '\u{85}' || c == '\u{a0}' || c == '\u{1680}' || (
    '\u{2000}' <= c && c <= '\u{200a}') || c == '\u{2028}' || c == '\u{2029}' || c == '\u{202f}' || c
        == '\u{205f}' || c == '\u{3000}'
}

/// Relies on char::is_alphabetic (Unicode Alphabetic).
#[verifier::external_body]
fn is_alphabetic(c: char) -> (r: bool)
    ensures
        r == alphabetic_char(c),
{
    c.is_alphabetic()
}

/// Relies on char::is_alphanumeric (Unicode Alphabetic or Numeric).
#[verifier::external_body]
fn is_alphanumeric(c: char) -> (r: bool)
    ensures
        r == alphanumeric_char(c),
{
    c.is_alphanumeric()
}

/// Relies on str::to_uppercase: the result depends on the characters alone.
#[verifier::external_body]
fn to_uppercase(s: &str) -> (r: String)
    ensures
        r@ == upper_of(s@),
{
    s.to_uppercase()
}

/// Relies on str::to_lowercase: the result depends on the characters alone.
#[verifier::external_body]
fn to_lowercase(s: &str) -> (r: String)
    ensures
        r@ == lower_of(s@),
{
    s.to_lowercase()
}

/// Relies on String's FromIterator<&char>: the string of the given characters.
#[verifier::external_body]
fn string_of(v: &Vec<char>) -> (r: String)
    ensures
        r@ == v@,
{
    v.iter().collect()
}

pub open spec fn digit_char(c: char) -> bool {
    '0' <= c && c <= '9'
}

/// The characters of `s`.
pub fn chars_of(s: &str) -> (r: Vec<char>)
    ensures
        r@ == s@,
{
    let n = s.unicode_len();
    let mut out: Vec<char> = Vec::new();
    let mut i: usize = 0;
    while i < n
        invariant
            n == s@.len(),
            i <= n,
            out@ == s@.subrange(0, i as int),
        decreases n - i,
    {
        out.push(s.get_char(i));
        proof {
            assert(out@ =~= s@.subrange(0, i + 1));
        }
        i = i + 1;
    }
    proof {
        assert(out@ =~= s@);
    }
    out
}

/// `a` and `b` hold the same characters.
pub fn str_eq(a: &str, b: &str) -> (r: bool)
    ensures
        r == (a@ == b@),
{
    let n = a.unicode_len();
    if n != b.unicode_len() {
        return false;
    }
    let mut i: usize = 0;
    while i < n
        invariant
            n == a@.len(),
            n == b@.len(),
            i <= n,
            a@.subrange(0, i as int) == b@.subrange(0, i as int),
        decreases n - i,
    {
        if a.get_char(i) != b.get_char(i) {
            return false;
        }
        proof {
            assert(a@.subrange(0, i + 1) =~= a@.subrange(0, i as int).push(a@[i as int]));
            assert(b@.subrange(0, i + 1) =~= b@.subrange(0, i as int).push(b@[i as int]));
        }
        i = i + 1;
    }
    proof {
        assert(a@.subrange(0, n as int) =~= a@);
        assert(b@.subrange(0, n as int) =~= b@);
    }
    true
}

/// The keywords of the SQL dialect.
#[derive(Debug, Clone, Copy, PartialEq, Eq, Structural)]
pub enum Keyword {
    Create,
    Table,
    Int,
    Integer,
    Boolean,
    Bool,
    String,
    Text,
    Varchar,
    Float,
    Double,
    Select,
    From,
    Insert,
    Into,
    Values,
    True,
    False,
    Default,
    Not,
    Null,
    Primary,
    Key,
}

/// The keyword spelled `u` (in upper case), if any.
pub open spec fn keyword_of(u: Seq<char>) -> Option<Keyword> {
    if u == "CREATE"@ {
        Some(Keyword::Create)
    } else if u == "TABLE"@ {
        Some(Keyword::Table)
    } else if u == "INT"@ {
        Some(Keyword::Int)
    } else if u == "INTEGER"@ {
        Some(Keyword::Integer)
    } else if u == "BOOLEAN"@ {
        Some(Keyword::Boolean)
    } else if u == "BOOL"@ {
        Some(Keyword::Bool)
    } else if u == "STRING"@ {
        Some(Keyword::String)
    } else if u == "TEXT"@ {
        Some(Keyword::Text)
    } else if u == "VARCHAR"@ {
        Some(Keyword::Varchar)
    } else if u == "FLOAT"@ {
        Some(Keyword::Float)
    } else if u == "DOUBLE"@ {
        Some(Keyword::Double)
    } else if u == "SELECT"@ {
        Some(Keyword::Select)
    } else if u == "FROM"@ {
        Some(Keyword::From)
    } else if u == "INSERT"@ {
        Some(Keyword::Insert)
    } else if u == "INTO"@ {
        Some(Keyword::Into)
    } else if u == "VALUES"@ {
        Some(Keyword::Values)
    } else if u == "TRUE"@ {
        Some(Keyword::True)
    } else if u == "FALSE"@ {
        Some(Keyword::False)
    } else if u == "DEFAULT"@ {
        Some(Keyword::Default)
    } else if u == "NOT"@ {
        Some(Keyword::Not)
    } else if u == "NULL"@ {
        Some(Keyword::Null)
    } else if u == "PRIMARY"@ {
        Some(Keyword::Primary)
    } else if u == "KEY"@ {
        Some(Keyword::Key)
    } else {
        None
    }
}

/// How a keyword is written out.
pub open spec fn keyword_text(k: Keyword) -> Seq<char> {
    match k {
        Keyword::Create => "CREATE"@,
        Keyword::Table => "TABLE"@,
        Keyword::Int => "INT"@,
        Keyword::Integer => "INTEGER"@,
        Keyword::Boolean => "BOOLEAN"@,
        Keyword::String => "STRING"@,
        Keyword::Text => "TEXT"@,
        Keyword::Varchar => "VARCHAR"@,
        Keyword::Float => "FLOAT"@,
        Keyword::Double => "DOUBLE"@,
        Keyword::Select => "SELECT"@,
        Keyword::From => "FROM"@,
        Keyword::Insert => "INSERT"@,
        Keyword::Into => "INTO"@,
        Keyword::Values => "VALUES"@,
        Keyword::True => "TRUE"@,
        Keyword::False => "FALSE"@,
        Keyword::Default => "DEFAULT"@,
        Keyword::Not => "NOT"@,
        Keyword::Null => "NULL"@,
        Keyword::Primary => "PRIMARY"@,
        Keyword::Key => "KEY"@,
        Keyword::Bool => "Bool"@,
    }
}

impl Keyword {
    /// The keyword an identifier spells, whatever its case.
    pub fn from_str(ident: &str) -> (r: Option<Keyword>)
        ensures
            r == keyword_of(upper_of(ident@)),
    {
        let upper = to_uppercase(ident);
        Self::from_upper(upper.as_str())
    }

    /// The keyword spelled by an upper-case word.
    pub fn from_upper(u: &str) -> (r: Option<Keyword>)
        ensures
            r == keyword_of(u@),
    {
        if str_eq(u, "CREATE") {
            Some(Keyword::Create)
        } else if str_eq(u, "TABLE") {
            Some(Keyword::Table)
        } else if str_eq(u, "INT") {
            Some(Keyword::Int)
        } else if str_eq(u, "INTEGER") {
            Some(Keyword::Integer)
        } else if str_eq(u, "BOOLEAN") {
            Some(Keyword::Boolean)
        } else if str_eq(u, "BOOL") {
            Some(Keyword::Bool)
        } else if str_eq(u, "STRING") {
            Some(Keyword::String)
        } else if str_eq(u, "TEXT") {
            Some(Keyword::Text)
        } else if str_eq(u, "VARCHAR") {
            Some(Keyword::Varchar)
        } else if str_eq(u, "FLOAT") {
            Some(Keyword::Float)
        } else if str_eq(u, "DOUBLE") {
            Some(Keyword::Double)
        } else if str_eq(u, "SELECT") {
            Some(Keyword::Select)
        } else if str_eq(u, "FROM") {
            Some(Keyword::From)
        } else if str_eq(u, "INSERT") {
            Some(Keyword::Insert)
        } else if str_eq(u, "INTO") {
            Some(Keyword::Into)
        } else if str_eq(u, "VALUES") {
            Some(Keyword::Values)
        } else if str_eq(u, "TRUE") {
            Some(Keyword::True)
        } else if str_eq(u, "FALSE") {
            Some(Keyword::False)
        } else if str_eq(u, "DEFAULT") {
            Some(Keyword::Default)
        } else if str_eq(u, "NOT") {
            Some(Keyword::Not)
        } else if str_eq(u, "NULL") {
            Some(Keyword::Null)
        } else if str_eq(u, "PRIMARY") {
            Some(Keyword::Primary)
        } else if str_eq(u, "KEY") {
            Some(Keyword::Key)
        } else {
            None
        }
    }

    pub fn to_str(&self) -> (r: &'static str)
        ensures
            r@ == keyword_text(*self),
    {
        match self {
            Keyword::Create => "CREATE",
            Keyword::Table => "TABLE",
            Keyword::Int => "INT",
            Keyword::Integer => "INTEGER",
            Keyword::Boolean => "BOOLEAN",
            Keyword::String => "STRING",
            Keyword::Text => "TEXT",
            Keyword::Varchar => "VARCHAR",
            Keyword::Float => "FLOAT",
            Keyword::Double => "DOUBLE",
            Keyword::Select => "SELECT",
            Keyword::From => "FROM",
            Keyword::Insert => "INSERT",
            Keyword::Into => "INTO",
            Keyword::Values => "VALUES",
            Keyword::True => "TRUE",
            Keyword::False => "FALSE",
            Keyword::Default => "DEFAULT",
            Keyword::Not => "NOT",
            Keyword::Null => "NULL",
            Keyword::Primary => "PRIMARY",
            Keyword::Key => "KEY",
            Keyword::Bool => "Bool",
        }
    }
}

/// A lexical token.
#[derive(Debug, Clone, PartialEq)]
pub enum Token {
    Keyword(Keyword),
    Ident(String),
    String(String),
    Number(String),
    OpenParen,
    CloseParen,
    Comma,
    Semicolon,
    Asterisk,
    Plus,
    Minus,
    Slash,
}

/// The value of a [`Token`].
pub ghost enum TokenView {
    Keyword(Keyword),
    Ident(Seq<char>),
    Str(Seq<char>),
    Number(Seq<char>),
    OpenParen,
    CloseParen,
    Comma,
    Semicolon,
    Asterisk,
    Plus,
    Minus,
    Slash,
}

impl View for Token {
    type V = TokenView;

    open spec fn view(&self) -> TokenView {
        match self {
            Token::Keyword(k) => TokenView::Keyword(*k),
            Token::Ident(s) => TokenView::Ident(s@),
            Token::String(s) => TokenView::Str(s@),
            Token::Number(s) => TokenView::Number(s@),
            Token::OpenParen => TokenView::OpenParen,
            Token::CloseParen => TokenView::CloseParen,
            Token::Comma => TokenView::Comma,
            Token::Semicolon => TokenView::Semicolon,
            Token::Asterisk => TokenView::Asterisk,
            Token::Plus => TokenView::Plus,
            Token::Minus => TokenView::Minus,
            Token::Slash => TokenView::Slash,
        }
    }
}

/// The token a symbol character stands for.
pub open spec fn symbol_of(c: char) -> Option<TokenView> {
    if c == '*' {
        Some(TokenView::Asterisk)
    } else if c == '(' {
        Some(TokenView::OpenParen)
    } else if c == ')' {
        Some(TokenView::CloseParen)
    } else if c == ',' {
        Some(TokenView::Comma)
    } else if c == ';' {
        Some(TokenView::Semicolon)
    } else if c == '+' {
        Some(TokenView::Plus)
    } else if c == '-' {
        Some(TokenView::Minus)
    } else if c == '/' {
        Some(TokenView::Slash)
    } else {
        None
    }
}

/// A class of characters the lexer takes runs of.
#[derive(Clone, Copy)]
pub enum CharClass {
    Whitespace,
    Digit,
    Alphabetic,
    /// What may follow the first letter of an identifier.
    IdentTail,
    Exactly(char),
}

pub open spec fn holds(cls: CharClass, c: char) -> bool {
    match cls {
        CharClass::Whitespace => whitespace_char(c),
        CharClass::Digit => digit_char(c),
        CharClass::Alphabetic => alphabetic_char(c),
        CharClass::IdentTail => alphanumeric_char(c) || c == '_',
        CharClass::Exactly(x) => c == x,
    }
}

/// How many characters at the front of `s` are in the class.
pub open spec fn run_len(s: Seq<char>, cls: CharClass) -> nat
    decreases s.len(),
{
    if s.len() > 0 && holds(cls, s[0]) {
        1 + run_len(s.drop_first(), cls)
    } else {
        0
    }
}

/// Where the first quote of `s` is.
pub open spec fn first_quote(s: Seq<char>) -> Option<nat>
    decreases s.len(),
{
    if s.len() == 0 {
        None
    } else if s[0] == '\'' {
        Some(0)
    } else {
        match first_quote(s.drop_first()) {
            Some(q) => Some(q + 1),
            None => None,
        }
    }
}

/// A number: digits, then optionally a point and more digits.
pub open spec fn number_spec(s: Seq<char>) -> (Option<TokenView>, Seq<char>) {
    let d = run_len(s, CharClass::Digit);
    if d == 0 {
        (None, s)
    } else {
        let t = s.skip(d as int);
        if t.len() > 0 && t[0] == '.' {
            let u = t.drop_first();
            let e = run_len(u, CharClass::Digit);
            (Some(TokenView::Number(s.take(d as int) + seq!['.'] + u.take(e as int))), u.skip(e as int))
        } else {
            (Some(TokenView::Number(s.take(d as int))), t)
        }
    }
}

/// An identifier or keyword: a letter, then letters, digits or underscores.
/// A keyword in any case is that keyword; any other word is an identifier
/// in lower case.
pub open spec fn ident_spec(s: Seq<char>) -> (Option<TokenView>, Seq<char>) {
    if s.len() == 0 || !alphabetic_char(s[0]) {
        (None, s)
    } else {
        let n: int = 1 + run_len(s.drop_first(), CharClass::IdentTail) as int;
        let word = s.take(n);
        (
            Some(
                match keyword_of(upper_of(word)) {
                    Some(k) => TokenView::Keyword(k),
                    None => TokenView::Ident(lower_of(word)),
                },
            ),
            s.skip(n),
        )
    }
}

/// A quoted string: everything up to the next quote.
pub open spec fn string_spec(s: Seq<char>) -> (LexStep, Seq<char>) {
    if s.len() == 0 || s[0] != '\'' {
        (LexStep::Nothing, s)
    } else {
        let body = s.drop_first();
        match first_quote(body) {
            Some(q) => (LexStep::Tok(TokenView::Str(body.take(q as int))), body.skip(q as int + 1)),
            None => (LexStep::Fail, s),
        }
    }
}

pub open spec fn symbol_spec(s: Seq<char>) -> (Option<TokenView>, Seq<char>) {
    if s.len() > 0 && symbol_of(s[0]) is Some {
        (symbol_of(s[0]), s.drop_first())
    } else {
        (None, s)
    }
}

/// One step of the lexer.
pub ghost enum LexStep {
    Tok(TokenView),
    Nothing,
    Fail,
}

pub open spec fn step_of(o: Option<TokenView>) -> LexStep {
    match o {
        Some(t) => LexStep::Tok(t),
        None => LexStep::Nothing,
    }
}

/// Skips whitespace, then reads one token by its first character.
pub open spec fn scan_spec(s: Seq<char>) -> (LexStep, Seq<char>) {
    let t = s.skip(run_len(s, CharClass::Whitespace) as int);
    if t.len() == 0 {
        (LexStep::Nothing, t)
    } else if t[0] == '\'' {
        string_spec(t)
    } else if digit_char(t[0]) {
        (step_of(number_spec(t).0), number_spec(t).1)
    } else if alphabetic_char(t[0]) {
        (step_of(ident_spec(t).0), ident_spec(t).1)
    } else {
        (step_of(symbol_spec(t).0), symbol_spec(t).1)
    }
}

/// The tokens of `s`, or `None` where it holds a character no token starts
/// with or an unterminated string.
pub open spec fn lex_spec(s: Seq<char>) -> Option<Seq<TokenView>>
    decreases s.len(),
{
    let (st, rest) = scan_spec(s);
    match st {
        LexStep::Tok(t) => if rest.len() < s.len() {
            match lex_spec(rest) {
                Some(ts) => Some(seq![t] + ts),
                None => None,
            }
        } else {
            None
        },
        LexStep::Nothing => if rest.len() == 0 {
            Some(seq![])
        } else {
            None
        },
        LexStep::Fail => None,
    }
}

pub proof fn lemma_run_len_bound(s: Seq<char>, cls: CharClass)
    ensures
        run_len(s, cls) <= s.len(),
        forall|i: int| 0 <= i < run_len(s, cls) ==> holds(cls, #[trigger] s[i]),
        run_len(s, cls) < s.len() ==> !holds(cls, s[run_len(s, cls) as int]),
    decreases s.len(),
{
    if s.len() > 0 && holds(cls, s[0]) {
        lemma_run_len_bound(s.drop_first(), cls);
        assert forall|i: int| 0 <= i < run_len(s, cls) implies holds(cls, #[trigger] s[i]) by {
            if i > 0 {
                assert(s[i] == s.drop_first()[i - 1]);
            }
        }
    }
}

pub proof fn lemma_first_quote(s: Seq<char>)
    ensures
        first_quote(s) is Some ==> first_quote(s)->Some_0 < s.len() && s[first_quote(s)->Some_0 as int] == '\''
            && forall|i: int| 0 <= i < first_quote(s)->Some_0 ==> #[trigger] s[i] != '\'',
        first_quote(s) is None ==> forall|i: int| 0 <= i < s.len() ==> #[trigger] s[i] != '\'',
    decreases s.len(),
{
    if s.len() > 0 && s[0] != '\'' {
        lemma_first_quote(s.drop_first());
        assert forall|i: int| 1 <= i < s.len() implies #[trigger] s[i] == s.drop_first()[i - 1] by {}
    }
}

/// Reads tokens from statement text.
pub struct Lexer {
    chars: Vec<char>,
    pos: usize,
}

impl Lexer {
    /// The text not yet read.
    pub closed spec fn rest(&self) -> Seq<char> {
        self.chars@.subrange(self.pos as int, self.chars@.len() as int)
    }

    pub closed spec fn wf(&self) -> bool {
        self.pos <= self.chars@.len()
    }

    pub fn new(sql_text: &str) -> (r: Lexer)
        ensures
            r.wf(),
            r.rest() == sql_text@,
    {
        let chars = chars_of(sql_text);
        proof {
            assert(chars@.subrange(0, chars@.len() as int) =~= chars@);
        }
        Lexer { chars, pos: 0 }
    }

    fn peek(&self) -> (r: Option<char>)
        requires
            self.wf(),
        ensures
            self.rest().len() == 0 ==> r is None,
            self.rest().len() > 0 ==> r == Some(self.rest()[0]),
    {
        if self.pos < self.chars.len() {
            Some(self.chars[self.pos])
        } else {
            None
        }
    }

    fn advance(&mut self)
        requires
            old(self).wf(),
            old(self).rest().len() > 0,
        ensures
            final(self).wf(),
            final(self).rest() == old(self).rest().drop_first(),
    {
        let ghost r0 = self.rest();
        let n = self.chars.len();
        proof {
            assert(self.pos < n);
        }
        self.pos = self.pos + 1;
        proof {
            assert(self.rest() =~= r0.drop_first());
        }
    }

    fn test_class(cls: CharClass, c: char) -> (r: bool)
        ensures
            r == holds(cls, c),
    {
        match cls {
            CharClass::Whitespace => is_whitespace(c),
            CharClass::Digit => '0' <= c && c <= '9',
            CharClass::Alphabetic => is_alphabetic(c),
            CharClass::IdentTail => is_alphanumeric(c) || c == '_',
            CharClass::Exactly(x) => c == x,
        }
    }

    /// Takes the next character if it is in the class.
    fn next_if(&mut self, cls: CharClass) -> (r: Option<char>)
        requires
            old(self).wf(),
        ensures
            final(self).wf(),
            old(self).rest().len() > 0 && holds(cls, old(self).rest()[0]) ==> r == Some(
                old(self).rest()[0],
            ) && final(self).rest() == old(self).rest().drop_first(),
            !(old(self).rest().len() > 0 && holds(cls, old(self).rest()[0])) ==> r is None
                && final(self).rest() == old(self).rest(),
    {
        match self.peek() {
            Some(c) => {
                if Self::test_class(cls, c) {
                    self.advance();
                    Some(c)
                } else {
                    None
                }
            },
            None => None,
        }
    }

    /// Takes the next character if it is a symbol, as its token.
    fn next_if_token(&mut self) -> (r: Option<Token>)
        requires
            old(self).wf(),
        ensures
            final(self).wf(),
            match r {
                Some(t) => symbol_spec(old(self).rest()) == (Some(t@), final(self).rest()),
                None => symbol_spec(old(self).rest()) == (None::<TokenView>, final(self).rest()),
            },
    {
        let c = match self.peek() {
            Some(c) => c,
            None => return None,
        };
        let t = if c == '*' {
            Token::Asterisk
        } else if c == '(' {
            Token::OpenParen
        } else if c == ')' {
            Token::CloseParen
        } else if c == ',' {
            Token::Comma
        } else if c == ';' {
            Token::Semicolon
        } else if c == '+' {
            Token::Plus
        } else if c == '-' {
            Token::Minus
        } else if c == '/' {
            Token::Slash
        } else {
            return None;
        };
        self.advance();
        Some(t)
    }

    /// Takes the longest run of characters in the class; `None` where it is empty.
    fn next_while(&mut self, cls: CharClass) -> (r: Option<String>)
        requires
            old(self).wf(),
        ensures
            final(self).wf(),
            ({
                let s = old(self).rest();
                let n = run_len(s, cls);
                &&& final(self).rest() == s.skip(n as int)
                &&& n == 0 ==> r is None
                &&& n > 0 ==> r is Some && r->Some_0@ == s.take(n as int)
            }),
    {
        let ghost s = self.rest();
        let mut value: Vec<char> = Vec::new();
        proof {
            lemma_run_len_bound(s, cls);
        }
        loop
            invariant
                self.wf(),
                value@.len() <= run_len(s, cls),
                run_len(s, cls) <= s.len(),
                value@ == s.take(value@.len() as int),
                self.rest() == s.skip(value@.len() as int),
                run_len(self.rest(), cls) == run_len(s, cls) - value@.len(),
            ensures
                self.wf(),
                value@.len() == run_len(s, cls),
                value@ == s.take(value@.len() as int),
                self.rest() == s.skip(value@.len() as int),
            decreases self.rest().len(),
        {
            let ghost r0 = self.rest();
            match self.next_if(cls) {
                Some(c) => {
                    value.push(c);
                    proof {
                        assert(value@ =~= s.take(value@.len() as int));
                        assert(self.rest() =~= s.skip(value@.len() as int));
                    }
                },
                None => {
                    break;
                },
            }
        }
        if value.len() == 0 {
            None
        } else {
            Some(string_of(&value))
        }
    }

    fn erase_whitespace(&mut self)
        requires
            old(self).wf(),
        ensures
            final(self).wf(),
            final(self).rest() == old(self).rest().skip(run_len(old(self).rest(), CharClass::Whitespace) as int),
    {
        let _ = self.next_while(CharClass::Whitespace);
    }

    /// A quoted string; fails where the closing quote is missing.
    fn scan_string(&mut self) -> (r: Result<Option<Token>, Error>)
        requires
            old(self).wf(),
        ensures
            final(self).wf(),
            ({
                let (st, rest) = string_spec(old(self).rest());
                match r {
                    Ok(Some(t)) => st == LexStep::Tok(t@) && final(self).rest() == rest,
                    Ok(None) => st == LexStep::Nothing && final(self).rest() == rest,
                    Err(e) => st == LexStep::Fail && e == Error::Parse,
                }
            }),
    {
        let ghost s = self.rest();
        if self.next_if(CharClass::Exactly('\'')).is_none() {
            return Ok(None);
        }
        let ghost body = s.drop_first();
        proof {
            lemma_first_quote(body);
        }
        let mut val: Vec<char> = Vec::new();
        loop
            invariant
                self.wf(),
                val@.len() <= body.len(),
                val@ == body.take(val@.len() as int),
                self.rest() == body.skip(val@.len() as int),
                forall|i: int| 0 <= i < val@.len() ==> #[trigger] body[i] != '\'',
                body == s.drop_first(),
                s == old(self).rest(),
                s.len() > 0 && s[0] == '\'',
            decreases self.rest().len(),
        {
            let ghost r0 = self.rest();
            match self.peek() {
                Some(c) => {
                    self.advance();
                    if c == '\'' {
                        proof {
                            lemma_first_quote(body);
                            assert(r0[0] == body[val@.len() as int]);
                            assert(body[val@.len() as int] == '\'');
                            assert(first_quote(body) is Some);
                            let q = first_quote(body)->Some_0;
                            if q < val@.len() {
                                assert(body[q as int] != '\'');
                            }
                            assert(q == val@.len());
                            assert(self.rest() =~= body.skip(q as int + 1));
                        }
                        let text = string_of(&val);
                        return Ok(Some(Token::String(text)));
                    }
                    val.push(c);
                    proof {
                        assert(val@ =~= body.take(val@.len() as int));
                        assert(self.rest() =~= body.skip(val@.len() as int));
                    }
                },
                None => {
                    proof {
                        lemma_first_quote(body);
                        assert(val@.len() == body.len());
                        if first_quote(body) is Some {
                            let q = first_quote(body)->Some_0;
                            assert(body[q as int] != '\'');
                        }
                    }
                    return Err(Error::Parse);
                },
            }
        }
    }

    /// Digits, then optionally a point and more digits.
    fn scan_number(&mut self) -> (r: Option<Token>)
        requires
            old(self).wf(),
        ensures
            final(self).wf(),
            number_spec(old(self).rest()) == (
                match r {
                    Some(t) => Some(t@),
                    None => None::<TokenView>,
                },
                final(self).rest(),
            ),
    {
        let ghost s = self.rest();
        let num = match self.next_while(CharClass::Digit) {
            Some(n) => n,
            None => return None,
        };
        let ghost d = run_len(s, CharClass::Digit);
        let ghost t = s.skip(d as int);
        let mut digits = chars_of(num.as_str());
        if self.next_if(CharClass::Exactly('.')).is_some() {
            digits.push('.');
            let ghost u = t.drop_first();
            let ghost mut i: int = 0;
            proof {
                lemma_run_len_bound(u, CharClass::Digit);
            }
            loop
                invariant
                    self.wf(),
                    s == old(self).rest(),
                    d == run_len(s, CharClass::Digit),
                    t == s.skip(d as int),
                    u == t.drop_first(),
                    0 <= i <= run_len(u, CharClass::Digit),
                    run_len(u, CharClass::Digit) <= u.len(),
                    digits@ == s.take(d as int) + seq!['.'] + u.take(i as int),
                    self.rest() == u.skip(i as int),
                    run_len(self.rest(), CharClass::Digit) == run_len(u, CharClass::Digit) - i,
                ensures
                    self.wf(),
                    digits@ == s.take(d as int) + seq!['.'] + u.take(run_len(u, CharClass::Digit) as int),
                    self.rest() == u.skip(run_len(u, CharClass::Digit) as int),
                decreases self.rest().len(),
            {
                proof {
                    lemma_run_len_bound(u, CharClass::Digit);
                }
                match self.next_if(CharClass::Digit) {
                    Some(c) => {
                        digits.push(c);
                        proof {
                            i = i + 1;
                            assert(digits@ =~= s.take(d as int) + seq!['.'] + u.take(i as int));
                            assert(self.rest() =~= u.skip(i as int));
                        }
                    },
                    None => {
                        break;
                    },
                }
            }
            proof {
                lemma_run_len_bound(u, CharClass::Digit);
            }
        }
        Some(Token::Number(string_of(&digits)))
    }

    /// A word: a keyword, or else an identifier in lower case.
    fn scan_ident(&mut self) -> (r: Option<Token>)
        requires
            old(self).wf(),
        ensures
            final(self).wf(),
            ident_spec(old(self).rest()) == (
                match r {
                    Some(t) => Some(t@),
                    None => None::<TokenView>,
                },
                final(self).rest(),
            ),
    {
        let ghost s = self.rest();
        let first = match self.next_if(CharClass::Alphabetic) {
            Some(c) => c,
            None => return None,
        };
        let mut word: Vec<char> = Vec::new();
        word.push(first);
        let ghost u = s.drop_first();
        match self.next_while(CharClass::IdentTail) {
            Some(tail) => {
                let tail_chars = chars_of(tail.as_str());
                let mut i: usize = 0;
                let n = tail_chars.len();
                while i < n
                    invariant
                        n == tail_chars@.len(),
                        i <= n,
                        word@ == seq![first] + tail_chars@.take(i as int),
                    decreases n - i,
                {
                    word.push(tail_chars[i]);
                    i = i + 1;
                    proof {
                        assert(word@ =~= seq![first] + tail_chars@.take(i as int));
                    }
                }
                proof {
                    assert(tail_chars@.take(n as int) =~= tail_chars@);
                }
            },
            None => {},
        }
        proof {
            let n: int = 1 + run_len(u, CharClass::IdentTail) as int;
            lemma_run_len_bound(u, CharClass::IdentTail);
            assert(word@ =~= s.take(n));
            assert(self.rest() =~= s.skip(n));
        }
        let text = string_of(&word);
        match Keyword::from_str(text.as_str()) {
            Some(k) => Some(Token::Keyword(k)),
            None => Some(Token::Ident(to_lowercase(text.as_str()))),
        }
    }

    fn scan_symbol(&mut self) -> (r: Option<Token>)
        requires
            old(self).wf(),
        ensures
            final(self).wf(),
            symbol_spec(old(self).rest()) == (
                match r {
                    Some(t) => Some(t@),
                    None => None::<TokenView>,
                },
                final(self).rest(),
            ),
    {
        self.next_if_token()
    }

    /// Skips whitespace and reads one token.
    fn scan(&mut self) -> (r: Result<Option<Token>, Error>)
        requires
            old(self).wf(),
        ensures
            final(self).wf(),
            ({
                let (st, rest) = scan_spec(old(self).rest());
                match r {
                    Ok(Some(t)) => st == LexStep::Tok(t@) && final(self).rest() == rest,
                    Ok(None) => st == LexStep::Nothing && final(self).rest() == rest,
                    Err(e) => st == LexStep::Fail && e == Error::Parse,
                }
            }),
    {
        self.erase_whitespace();
        match self.peek() {
            Some(c) => {
                if c == '\'' {
                    self.scan_string()
                } else if '0' <= c && c <= '9' {
                    Ok(self.scan_number())
                } else if is_alphabetic(c) {
                    Ok(self.scan_ident())
                } else {
                    Ok(self.scan_symbol())
                }
            },
            None => Ok(None),
        }
    }

    /// The next token; `None` at the end of the text; an error where the
    /// text holds something no token starts with.
    pub fn next(&mut self) -> (r: Option<Result<Token, Error>>)
        requires
            old(self).wf(),
        ensures
            final(self).wf(),
            ({
                let (st, rest) = scan_spec(old(self).rest());
                match r {
                    Some(Ok(t)) => st == LexStep::Tok(t@) && final(self).rest() == rest,
                    None => st == LexStep::Nothing && rest.len() == 0,
                    Some(Err(e)) => e == Error::Parse && (st == LexStep::Fail || (st
                        == LexStep::Nothing && rest.len() > 0)),
                }
            }),
    {
        match self.scan() {
            Ok(Some(token)) => Some(Ok(token)),
            Ok(None) => match self.peek() {
                Some(_) => Some(Err(Error::Parse)),
                None => None,
            },
            Err(e) => Some(Err(e)),
        }
    }

    /// All the tokens of the text.
    pub fn tokens(&mut self) -> (r: Result<Vec<Token>, Error>)
        requires
            old(self).wf(),
        ensures
            final(self).wf(),
            match r {
                Ok(ts) => lex_spec(old(self).rest()) == Some(ts@.map_values(|t: Token| t@)),
                Err(e) => lex_spec(old(self).rest()) is None && e == Error::Parse,
            },
    {
        let ghost s0 = self.rest();
        let mut out: Vec<Token> = Vec::new();
        loop
            invariant
                self.wf(),
                s0 == old(self).rest(),
                lex_spec(s0) == match lex_spec(self.rest()) {
                    Some(ts) => Some(out@.map_values(|t: Token| t@) + ts),
                    None => None::<Seq<TokenView>>,
                },
            decreases self.rest().len(),
        {
            let ghost s = self.rest();
            proof {
                lemma_scan_progress(s);
            }
            match self.next() {
                Some(Ok(t)) => {
                    let ghost o0 = out@;
                    out.push(t);
                    proof {
                        assert(out@.map_values(|t: Token| t@) =~= o0.map_values(|t: Token| t@).push(t@));
                        match lex_spec(self.rest()) {
                            Some(ts) => {
                                assert(o0.map_values(|t: Token| t@) + (seq![t@] + ts) =~= out@.map_values(|t: Token| t@) + ts);
                            },
                            None => {},
                        }
                    }
                },
                None => {
                    proof {
                        assert(out@.map_values(|t: Token| t@) + seq![] =~= out@.map_values(|t: Token| t@));
                    }
                    return Ok(out);
                },
                Some(Err(e)) => {
                    return Err(e);
                },
            }
        }
    }
}

/// Every token a step reads takes at least one character.
pub proof fn lemma_scan_progress(s: Seq<char>)
    ensures
        scan_spec(s).0 is Tok ==> scan_spec(s).1.len() < s.len(),
        scan_spec(s).1.len() <= s.len(),
{
    let w = run_len(s, CharClass::Whitespace);
    lemma_run_len_bound(s, CharClass::Whitespace);
    let t = s.skip(w as int);
    if t.len() > 0 {
        lemma_run_len_bound(t, CharClass::Digit);
        let d = run_len(t, CharClass::Digit);
        if d > 0 && t.skip(d as int).len() > 0 {
            lemma_run_len_bound(t.skip(d as int).drop_first(), CharClass::Digit);
        }
        lemma_run_len_bound(t.drop_first(), CharClass::IdentTail);
        lemma_first_quote(t.drop_first());
    }
}

} // verus!
