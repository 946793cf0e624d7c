//! The lexer: turns source text into a sequence of positioned tokens.
//!
//! The specification side is a recursive function over the source character
//! sequence, [`lex`], which either yields the abstract token sequence or the
//! position of the first offending character. [`tokenize`] is proved to
//! return exactly that.

use crate::decimal::{digit_char_val, digits_val, is_digit_char};
use crate::errors::CompileError;
use vstd::prelude::*;
use vstd::string::StrSliceExecFns;

verus! {

/// An operator, a punctuation mark, or a reserved word.
#[derive(PartialEq, Eq, Structural, Clone, Copy, Debug)]
pub enum Symbol {
    Add,
    Sub,
    Mul,
    Div,
    LParen,
    RParen,
    Lt,
    Lte,
    Gt,
    Gte,
    Eq,
    Neq,
    Assign,
    SemiColon,
    Ret,
    If,
    Else,
    While,
    For,
}

/// What a token is: a symbol, an integer literal, or an identifier.
#[derive(PartialEq, Debug)]
pub enum TokenKind {
    Symbol(Symbol),
    Num(i64),
    Ident(String),
}

/// Where a token came from: its starting position in the source, and the
/// source itself, carried along for diagnostics.
#[derive(PartialEq, Debug)]
pub struct TokenMetadata<'a> {
    /// How many bytes of the source code the token starts from.
    pub code_location: usize,
    pub user_input: &'a str,
}

/// One token together with its provenance.
#[derive(PartialEq, Debug)]
pub struct Token<'a> {
    pub value: TokenKind,
    pub metadata: TokenMetadata<'a>,
}

/// The token sequence produced by one run of the lexer.
#[derive(PartialEq, Debug)]
pub struct Tokens<'a>(pub(crate) Vec<Token<'a>>);

/// The mathematical content of a token kind: the identifier's characters
/// stand in for the identifier, the literal's value for the literal.
pub enum SpecTokenKind {
    Sym(Symbol),
    Num(int),
    Ident(Seq<char>),
}

/// The mathematical content of a token: its kind and its position.
pub struct SpecToken {
    pub kind: SpecTokenKind,
    pub loc: nat,
}

impl View for TokenKind {
    type V = SpecTokenKind;

    open spec fn view(&self) -> SpecTokenKind {
        match self {
            TokenKind::Symbol(s) => SpecTokenKind::Sym(*s),
            TokenKind::Num(n) => SpecTokenKind::Num(*n as int),
            TokenKind::Ident(w) => SpecTokenKind::Ident(w@),
        }
    }
}

impl<'a> View for Token<'a> {
    type V = SpecToken;

    open spec fn view(&self) -> SpecToken {
        SpecToken { kind: self.value@, loc: self.metadata.code_location as nat }
    }
}

impl<'a> View for Tokens<'a> {
    type V = Seq<SpecToken>;

    closed spec fn view(&self) -> Seq<SpecToken> {
        self.0@.map_values(|t: Token<'a>| t@)
    }
}

impl<'a> Tokens<'a> {
    /// Whether every token carries `src` as its diagnostic back-reference.
    pub closed spec fn all_from(self, src: Seq<char>) -> bool {
        forall|i: int|
            0 <= i < self.0@.len() ==> (#[trigger] self.0@[i]).metadata.user_input@ == src
    }

    fn push(&mut self, token: Token<'a>)
        ensures
            final(self)@ == old(self)@.push(token@),
            final(self).0@ == old(self).0@.push(token),
    {
        self.0.push(token);
        proof {
            assert(self@ =~= old(self)@.push(token@));
        }
    }

    /// Hands the tokens out as a plain vector, in order.
    pub fn into_vec(self) -> (r: Vec<Token<'a>>)
        ensures
            r@.map_values(|t: Token<'a>| t@) == self@,
    {
        self.0
    }
}

impl<'a> Token<'a> {
    fn new(value: TokenKind, code_location: usize, user_input: &'a str) -> (r: Self)
        ensures
            r@ == (SpecToken { kind: value@, loc: code_location as nat }),
            r.metadata.user_input@ == user_input@,
    {
        Self { value, metadata: TokenMetadata { code_location, user_input } }
    }

    /// A symbol token at the given position.
    pub fn symbol(symbol_kind: Symbol, code_location: usize, user_input: &'a str) -> (r: Self)
        ensures
            r@ == (SpecToken { kind: SpecTokenKind::Sym(symbol_kind), loc: code_location as nat }),
            r.metadata.user_input@ == user_input@,
    {
        Self::new(TokenKind::Symbol(symbol_kind), code_location, user_input)
    }

    /// An integer literal token at the given position.
    pub fn num(num: i64, code_location: usize, user_input: &'a str) -> (r: Self)
        ensures
            r@ == (SpecToken { kind: SpecTokenKind::Num(num as int), loc: code_location as nat }),
            r.metadata.user_input@ == user_input@,
    {
        Self::new(TokenKind::Num(num), code_location, user_input)
    }

    /// An identifier token at the given position.
    pub fn ident(ident: String, code_location: usize, user_input: &'a str) -> (r: Self)
        ensures
            r@ == (SpecToken { kind: SpecTokenKind::Ident(ident@), loc: code_location as nat }),
            r.metadata.user_input@ == user_input@,
    {
        Self::new(TokenKind::Ident(ident), code_location, user_input)
    }
}

/// Whitespace that the lexer skips.
pub open spec fn is_space(c: char) -> bool {
    c == ' ' || c == '\n' || c == '\r'
}

/// A character that may start an identifier.
pub open spec fn is_ident_start(c: char) -> bool {
    ('a' <= c && c <= 'z') || ('A' <= c && c <= 'Z') || c == '_'
}

/// A character that may continue an identifier.
pub open spec fn is_ident_char(c: char) -> bool {
    is_ident_start(c) || is_digit_char(c)
}

/// The symbol for a one-character operator or punctuation mark.
pub open spec fn single_char_symbol(c: char) -> Symbol {
    if c == '+' {
        Symbol::Add
    } else if c == '-' {
        Symbol::Sub
    } else if c == '*' {
        Symbol::Mul
    } else if c == '/' {
        Symbol::Div
    } else if c == '(' {
        Symbol::LParen
    } else if c == ')' {
        Symbol::RParen
    } else {
        Symbol::SemiColon
    }
}

/// Whether `c` is one of the one-character operators or punctuation marks.
pub open spec fn is_single_char_symbol(c: char) -> bool {
    c == '+' || c == '-' || c == '*' || c == '/' || c == '(' || c == ')' || c == ';'
}

/// The reserved word written `w`, if any.
pub open spec fn keyword_symbol(w: Seq<char>) -> Option<Symbol> {
    if w == "return"@ {
        Some(Symbol::Ret)
    } else if w == "if"@ {
        Some(Symbol::If)
    } else if w == "else"@ {
        Some(Symbol::Else)
    } else if w == "while"@ {
        Some(Symbol::While)
    } else if w == "for"@ {
        Some(Symbol::For)
    } else {
        None
    }
}

/// The end of the run of decimal digits starting at `i`.
pub open spec fn digits_end(s: Seq<char>, i: int) -> int
    decreases s.len() - i,
{
    if i >= s.len() {
        i
    } else if is_digit_char(s[i]) {
        digits_end(s, i + 1)
    } else {
        i
    }
}

/// The end of the run of identifier characters starting at `i`.
pub open spec fn ident_end(s: Seq<char>, i: int) -> int
    decreases s.len() - i,
{
    if i >= s.len() {
        i
    } else if is_ident_char(s[i]) {
        ident_end(s, i + 1)
    } else {
        i
    }
}

/// A run end lies between its start and the end of the input, and is
/// determined by where the run's characters stop.
pub proof fn lemma_digits_end(s: Seq<char>, i: int, p: int)
    requires
        0 <= i <= p <= s.len(),
        forall|k: int| i <= k < p ==> is_digit_char(#[trigger] s[k]),
        p == s.len() || !is_digit_char(s[p]),
    ensures
        digits_end(s, i) == p,
    decreases p - i,
{
    if i < p {
        lemma_digits_end(s, i + 1, p);
    }
}

/// The identifier-run analogue of [`lemma_digits_end`].
pub proof fn lemma_ident_end(s: Seq<char>, i: int, p: int)
    requires
        0 <= i <= p <= s.len(),
        forall|k: int| i <= k < p ==> is_ident_char(#[trigger] s[k]),
        p == s.len() || !is_ident_char(s[p]),
    ensures
        ident_end(s, i) == p,
    decreases p - i,
{
    if i < p {
        lemma_ident_end(s, i + 1, p);
    }
}

/// Reading one more digit multiplies the value read so far by ten, so the
/// value of a digit run only grows as the run extends.
pub proof fn lemma_digits_val_monotone(s: Seq<char>, i: int, a: int, b: int)
    requires
        0 <= i <= a <= b <= s.len(),
    ensures
        digits_val(s.subrange(i, a)) <= digits_val(s.subrange(i, b)),
    decreases b - a,
{
    if a < b {
        lemma_digits_val_monotone(s, i, a + 1, b);
        assert(s.subrange(i, a + 1).drop_last() =~= s.subrange(i, a));
        assert(digits_val(s.subrange(i, a + 1)) == digits_val(s.subrange(i, a)) * 10
            + digit_char_val(s.subrange(i, a + 1).last()));
        assert(digits_val(s.subrange(i, a)) * 10 >= digits_val(s.subrange(i, a)));
    }
}

/// Prepends a token to the outcome of lexing the rest of the input.
pub open spec fn lex_cons(t: SpecToken, rest: Result<Seq<SpecToken>, int>) -> Result<
    Seq<SpecToken>,
    int,
> {
    match rest {
        Result::Ok(ts) => Result::Ok(seq![t] + ts),
        Result::Err(e) => Result::Err(e),
    }
}

/// A symbol token at position `i`.
pub open spec fn sym_tok(sym: Symbol, i: int) -> SpecToken {
    SpecToken { kind: SpecTokenKind::Sym(sym), loc: i as nat }
}

/// What lexing the input from position `i` onward yields: the token sequence,
/// or the position of the first character that cannot begin a token.
///
/// A digit run whose value does not fit in `i64` is not an integer literal,
/// and is reported at its first digit.
pub open spec fn lex_from(s: Seq<char>, i: int) -> Result<Seq<SpecToken>, int>
    decreases s.len() - i,
{
    if i >= s.len() {
        Result::Ok(seq![])
    } else {
        let c = s[i];
        if is_space(c) {
            lex_from(s, i + 1)
        } else if is_single_char_symbol(c) {
            lex_cons(sym_tok(single_char_symbol(c), i), lex_from(s, i + 1))
        } else if c == '<' {
            if i + 1 < s.len() && s[i + 1] == '=' {
                lex_cons(sym_tok(Symbol::Lte, i), lex_from(s, i + 2))
            } else {
                lex_cons(sym_tok(Symbol::Lt, i), lex_from(s, i + 1))
            }
        } else if c == '>' {
            if i + 1 < s.len() && s[i + 1] == '=' {
                lex_cons(sym_tok(Symbol::Gte, i), lex_from(s, i + 2))
            } else {
                lex_cons(sym_tok(Symbol::Gt, i), lex_from(s, i + 1))
            }
        } else if c == '=' {
            if i + 1 < s.len() && s[i + 1] == '=' {
                lex_cons(sym_tok(Symbol::Eq, i), lex_from(s, i + 2))
            } else {
                lex_cons(sym_tok(Symbol::Assign, i), lex_from(s, i + 1))
            }
        } else if c == '!' {
            if i + 1 < s.len() && s[i + 1] == '=' {
                lex_cons(sym_tok(Symbol::Neq, i), lex_from(s, i + 2))
            } else {
                Result::Err(i)
            }
        } else if is_digit_char(c) {
            let j = digits_end(s, i);
            let v = digits_val(s.subrange(i, j));
            if v > i64::MAX as int || j <= i || j > s.len() {
                Result::Err(i)
            } else {
                lex_cons(
                    SpecToken { kind: SpecTokenKind::Num(v as int), loc: i as nat },
                    lex_from(s, j),
                )
            }
        } else if is_ident_start(c) {
            let j = ident_end(s, i + 1);
            if j <= i || j > s.len() {
                Result::Err(i)
            } else {
                let w = s.subrange(i, j);
                let t = match keyword_symbol(w) {
                    Some(sym) => sym_tok(sym, i),
                    None => SpecToken { kind: SpecTokenKind::Ident(w), loc: i as nat },
                };
                lex_cons(t, lex_from(s, j))
            }
        } else {
            Result::Err(i)
        }
    }
}

/// What lexing the whole input yields.
pub open spec fn lex(s: Seq<char>) -> Result<Seq<SpecToken>, int> {
    lex_from(s, 0)
}

/// On success the lexer yields at most one token per character, every token
/// position lies within the input, and literal values fit in `i64`; on
/// failure the reported position lies within the input.
pub proof fn lemma_lex_from_props(s: Seq<char>, i: int)
    requires
        0 <= i <= s.len(),
    ensures
        match lex_from(s, i) {
            Result::Ok(ts) => {
                &&& ts.len() <= s.len() - i
                &&& forall|k: int|
                    0 <= k < ts.len() ==> i <= (#[trigger] ts[k]).loc < s.len()
                &&& forall|k: int|
                    0 <= k < ts.len() ==> ((#[trigger] ts[k]).kind matches SpecTokenKind::Num(v)
                        ==> 0 <= v <= i64::MAX)
            },
            Result::Err(e) => i <= e < s.len(),
        },
    decreases s.len() - i,
{
    if i >= s.len() {
    } else {
        let c = s[i];
        if is_space(c) {
            lemma_lex_from_props(s, i + 1);
        } else if is_single_char_symbol(c) {
            lemma_lex_from_props(s, i + 1);
        } else if c == '<' || c == '>' || c == '=' {
            if i + 1 < s.len() && s[i + 1] == '=' {
                lemma_lex_from_props(s, i + 2);
            } else {
                lemma_lex_from_props(s, i + 1);
            }
        } else if c == '!' {
            if i + 1 < s.len() && s[i + 1] == '=' {
                lemma_lex_from_props(s, i + 2);
            }
        } else if is_digit_char(c) {
            let j = digits_end(s, i);
            lemma_digits_end_bounds(s, i);
            if !(digits_val(s.subrange(i, j)) > i64::MAX as int || j <= i || j > s.len()) {
                lemma_lex_from_props(s, j);
            }
        } else if is_ident_start(c) {
            let j = ident_end(s, i + 1);
            lemma_ident_end_bounds(s, i + 1);
            if i < j <= s.len() {
                lemma_lex_from_props(s, j);
            }
        }
    }
}

/// A digit run's end never precedes its start nor passes the input's end.
pub proof fn lemma_digits_end_bounds(s: Seq<char>, i: int)
    requires
        0 <= i <= s.len(),
    ensures
        i <= digits_end(s, i) <= s.len(),
    decreases s.len() - i,
{
    if i < s.len() && is_digit_char(s[i]) {
        lemma_digits_end_bounds(s, i + 1);
    }
}

/// An identifier run's end never precedes its start nor passes the input's end.
pub proof fn lemma_ident_end_bounds(s: Seq<char>, i: int)
    requires
        0 <= i <= s.len(),
    ensures
        i <= ident_end(s, i) <= s.len(),
    decreases s.len() - i,
{
    if i < s.len() && is_ident_char(s[i]) {
        lemma_ident_end_bounds(s, i + 1);
    }
}

/// The invariant of the main lexer loop: however lexing continues from
/// position `i`, prepending the tokens already produced gives the outcome of
/// lexing from the start.
spec fn lex_continues(s: Seq<char>, i: int, done: Seq<SpecToken>) -> bool {
    match lex_from(s, i) {
        Result::Ok(rest) => lex(s) == Result::<Seq<SpecToken>, int>::Ok(done + rest),
        Result::Err(e) => lex(s) == Result::<Seq<SpecToken>, int>::Err(e),
    }
}

/// Whether the character at position `p` is a decimal digit.
fn digit_at(s: &str, p: usize) -> (r: bool)
    requires
        p < s@.len(),
    ensures
        r == is_digit_char(s@[p as int]),
{
    let d = s.get_char(p);
    '0' <= d && d <= '9'
}

/// Whether the character at position `p` may continue an identifier.
fn ident_char_at(s: &str, p: usize) -> (r: bool)
    requires
        p < s@.len(),
    ensures
        r == is_ident_char(s@[p as int]),
{
    let d = s.get_char(p);
    ('a' <= d && d <= 'z') || ('A' <= d && d <= 'Z') || d == '_' || ('0' <= d && d <= '9')
}

/// Whether `a` and `b` are the same character sequence.
pub(crate) fn str_content_eq(a: &str, b: &str) -> (r: bool)
    ensures
        r == (a@ == b@),
{
    let n = a.unicode_len();
    if n != b.unicode_len() {
        return false;
    }
    let mut i: usize = 0;
    while i < n
        invariant
            n == a@.len() == b@.len(),
            0 <= i <= n,
            forall|k: int| 0 <= k < i ==> a@[k] == b@[k],
        decreases n - i,
    {
        if a.get_char(i) != b.get_char(i) {
            return false;
        }
        i += 1;
    }
    proof {
        assert(a@ =~= b@);
    }
    true
}

/// Turns source text into tokens, or reports the position of the first
/// character at which no token can start.
pub fn tokenize<'a>(s: &'a str) -> (r: Result<Tokens<'a>, CompileError>)
    ensures
        match lex(s@) {
            Result::Ok(ts) => {
                &&& r matches Result::Ok(toks)
                &&& toks@ == ts
                &&& toks.all_from(s@)
            },
            Result::Err(e) => r == Result::<Tokens<'a>, CompileError>::Err(
                CompileError::InvalidToken { location: e as usize },
            ),
        },
{
    let n = s.unicode_len();
    let mut tokens = Tokens(Vec::new());
    let mut i: usize = 0;
    proof {
        assert(tokens@ =~= Seq::<SpecToken>::empty());
        match lex(s@) {
            Result::Ok(rest) => {
                assert(tokens@ + rest =~= rest);
            },
            Result::Err(_) => {},
        }
    }
    while i < n
        invariant
            n == s@.len(),
            0 <= i <= n,
            lex_continues(s@, i as int, tokens@),
            tokens.all_from(s@),
        decreases n - i,
    {
        let ghost prev = tokens@;
        let c = s.get_char(i);
        if c == ' ' || c == '\n' || c == '\r' {
            proof {
                assert(lex_continues(s@, i as int + 1, tokens@));
            }
            i += 1;
        } else if c == '+' || c == '-' || c == '*' || c == '/' || c == '(' || c == ')' || c == ';' {
            let sym = if c == '+' {
                Symbol::Add
            } else if c == '-' {
                Symbol::Sub
            } else if c == '*' {
                Symbol::Mul
            } else if c == '/' {
                Symbol::Div
            } else if c == '(' {
                Symbol::LParen
            } else if c == ')' {
                Symbol::RParen
            } else {
                Symbol::SemiColon
            };
            let tok = Token::symbol(sym, i, s);
            tokens.push(tok);
            proof {
                assert(tok@ == sym_tok(single_char_symbol(c), i as int));
                lemma_step(s@, i as int, prev, sym_tok(single_char_symbol(c), i as int), i + 1);
                assert(lex_continues(s@, i as int + 1, tokens@));
            }
            i += 1;
        } else if c == '<' || c == '>' || c == '=' {
            let folded = i + 1 < n && s.get_char(i + 1) == '=';
            let sym = if c == '<' {
                if folded {
                    Symbol::Lte
                } else {
                    Symbol::Lt
                }
            } else if c == '>' {
                if folded {
                    Symbol::Gte
                } else {
                    Symbol::Gt
                }
            } else {
                if folded {
                    Symbol::Eq
                } else {
                    Symbol::Assign
                }
            };
            let width: usize = if folded {
                2
            } else {
                1
            };
            let tok = Token::symbol(sym, i, s);
            tokens.push(tok);
            proof {
                assert(tok@ == sym_tok(sym, i as int));
                lemma_step(s@, i as int, prev, sym_tok(sym, i as int), i + width);
                assert(lex_continues(s@, i as int + width as int, tokens@));
            }
            i += width;
        } else if c == '!' {
            if i + 1 < n && s.get_char(i + 1) == '=' {
                let tok = Token::symbol(Symbol::Neq, i, s);
                tokens.push(tok);
                proof {
                    assert(tok@ == sym_tok(Symbol::Neq, i as int));
                    lemma_step(s@, i as int, prev, sym_tok(Symbol::Neq, i as int), i + 2);
                    assert(lex_continues(s@, i as int + 2, tokens@));
                }
                i += 2;
            } else {
                return Result::Err(CompileError::InvalidToken { location: i });
            }
        } else if '0' <= c && c <= '9' {
            let start = i;
            let mut p = i;
            let mut value: i64 = 0;
            let mut overflowed = false;
            while p < n && !overflowed && digit_at(s, p)
                invariant
                    n == s@.len(),
                    start <= p <= n,
                    forall|k: int| start <= k < p ==> is_digit_char(#[trigger] s@[k]),
                    !overflowed ==> 0 <= value && value as int == digits_val(
                        s@.subrange(start as int, p as int),
                    ),
                    overflowed ==> digits_val(s@.subrange(start as int, digits_end(s@, start as int)))
                        > i64::MAX as int,
                decreases n - p, (if overflowed { 0int } else { 1int }),
            {
                let d = s.get_char(p);
                let dv: i64 = (d as u32 - '0' as u32) as i64;
                proof {
                    assert(s@.subrange(start as int, p as int + 1).drop_last() =~= s@.subrange(
                        start as int,
                        p as int,
                    ));
                }
                if value > (i64::MAX - dv) / 10 {
                    proof {
                        let s_ = s@;
                        let a = s_.subrange(start as int, p as int + 1);
                        assert(digits_val(a) == value * 10 + dv as int);
                        assert(value * 10 > i64::MAX - dv) by (nonlinear_arith)
                            requires
                                value > (i64::MAX - dv) / 10,
                                0 <= dv <= 9,
                                0 <= value,
                        ;
                        lemma_digits_end_bounds(s_, p as int + 1);
                        lemma_run_extends(s_, start as int, p as int + 1);
                        lemma_digits_val_monotone(
                            s_,
                            start as int,
                            p as int + 1,
                            digits_end(s_, start as int),
                        );
                    }
                    overflowed = true;
                } else {
                    proof {
                        assert(value * 10 + dv <= i64::MAX) by (nonlinear_arith)
                            requires
                                value <= (i64::MAX - dv) / 10,
                                0 <= dv <= 9,
                                0 <= value,
                        ;
                    }
                    value = value * 10 + dv;
                    p += 1;
                }
            }
            if overflowed {
                proof {
                    assert(lex_from(s@, start as int) == Result::<Seq<SpecToken>, int>::Err(
                        start as int,
                    ));
                }
                return Result::Err(CompileError::InvalidToken { location: start });
            }
            proof {
                assert(start < p) by {
                    assert(is_digit_char(s@[start as int]));
                }
                lemma_digits_end(s@, start as int, p as int);
            }
            let tok = Token::num(value, start, s);
            tokens.push(tok);
            proof {
                let t = SpecToken { kind: SpecTokenKind::Num(value as int), loc: start as nat };
                assert(tok@ == t);
                assert(lex_from(s@, start as int) == lex_cons(t, lex_from(s@, p as int)));
                lemma_step(s@, start as int, prev, t, p as int);
                assert(lex_continues(s@, p as int, tokens@));
            }
            i = p;
        } else if ('a' <= c && c <= 'z') || ('A' <= c && c <= 'Z') || c == '_' {
            let start = i;
            let mut p = i + 1;
            while p < n && ident_char_at(s, p)
                invariant
                    n == s@.len(),
                    start < p <= n,
                    forall|k: int| start + 1 <= k < p ==> is_ident_char(#[trigger] s@[k]),
                decreases n - p,
            {
                p += 1;
            }
            proof {
                lemma_ident_end(s@, start as int + 1, p as int);
            }
            let word = s.substring_char(start, p);
            let token = if str_content_eq(word, "return") {
                Token::symbol(Symbol::Ret, start, s)
            } else if str_content_eq(word, "if") {
                Token::symbol(Symbol::If, start, s)
            } else if str_content_eq(word, "else") {
                Token::symbol(Symbol::Else, start, s)
            } else if str_content_eq(word, "while") {
                Token::symbol(Symbol::While, start, s)
            } else if str_content_eq(word, "for") {
                Token::symbol(Symbol::For, start, s)
            } else {
                Token::ident(word.to_owned(), start, s)
            };
            tokens.push(token);
            proof {
                let w = s@.subrange(start as int, p as int);
                let t = match keyword_symbol(w) {
                    Some(sym) => sym_tok(sym, start as int),
                    None => SpecToken { kind: SpecTokenKind::Ident(w), loc: start as nat },
                };
                assert(token@ == t);
                assert(lex_from(s@, start as int) == lex_cons(t, lex_from(s@, p as int)));
                lemma_step(s@, start as int, prev, t, p as int);
                assert(lex_continues(s@, p as int, tokens@));
            }
            i = p;
        } else {
            return Result::Err(CompileError::InvalidToken { location: i });
        }
    }
    proof {
        assert(lex_from(s@, n as int) == Result::<Seq<SpecToken>, int>::Ok(Seq::empty()));
        assert(tokens@ + Seq::<SpecToken>::empty() =~= tokens@);
    }
    Result::Ok(tokens)
}

/// Every character of a digit run before its end is a digit, so the run's
/// end seen from inside the run is the same end.
proof fn lemma_run_extends(s: Seq<char>, i: int, m: int)
    requires
        0 <= i <= m <= s.len(),
        forall|k: int| i <= k < m ==> is_digit_char(#[trigger] s[k]),
    ensures
        m <= digits_end(s, i),
        digits_end(s, i) == digits_end(s, m),
    decreases m - i,
{
    if i < m {
        lemma_run_extends(s, i + 1, m);
    } else {
        lemma_digits_end_bounds(s, m);
    }
}

/// One step of the main lexer loop: lexing from `i` yields token `t`
/// followed by whatever lexing from `j` yields, so the loop invariant
/// carries over from `i` to `j`.
proof fn lemma_step(s: Seq<char>, i: int, done: Seq<SpecToken>, t: SpecToken, j: int)
    requires
        lex_continues(s, i, done),
        lex_from(s, i) == lex_cons(t, lex_from(s, j)),
    ensures
        lex_continues(s, j, done.push(t)),
{
    match lex_from(s, j) {
        Result::Ok(rest) => {
            assert(done + (seq![t] + rest) =~= done.push(t) + rest);
        },
        Result::Err(_) => {},
    }
}

} // verus!
