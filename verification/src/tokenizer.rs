//! Splits the text of an expression (what follows the `=` of a cell) into
//! tokens.
use vstd::prelude::*;

use crate::common_types::{is_decimal_literal, Numeric, Token};
use crate::text::{
    ascii_alpha, ascii_upper, ascii_ws, digit, is_ascii_alpha, is_ascii_upper, is_ascii_ws,
    is_digit, is_lowercase, is_uppercase, lemma_run_end, lemma_run_end_idempotent,
    lemma_run_end_prefix, lemma_run_end_shift, lemma_run_end_through, run_end,
    string_from_range, unicode_lowercase, unicode_uppercase,
};

verus! {

pub struct ExpressionTokenizer {
    index: usize,
    chars: Vec<char>,
}

#[derive(Debug)]
pub enum TokenizeError {
    UnexpectedCharacter(char),
    InvalidCellName(String),
    InvalidNumber(String),
}

/// A token as the text spells it; a number is given by its literal.
pub ghost enum Lexeme {
    CellName(Seq<char>),
    Number(Seq<char>),
    StringLiteral(Seq<char>),
    FunctionName(Seq<char>),
    Bool(bool),
    Plus,
    Minus,
    Division,
    Multiply,
    LParen,
    RParen,
    Colon,
    Comma,
    Equals,
    NotEquals,
    GreaterThan,
    LessThan,
    GreaterEquals,
    LessEquals,
    And,
    Or,
    Not,
}

/// A tokenizing error as the text spells it.
pub ghost enum LexError {
    UnexpectedCharacter(char),
    InvalidCellName(Seq<char>),
    InvalidNumber(Seq<char>),
}

pub open spec fn ws_end(s: Seq<char>, i: int) -> int {
    run_end(s, i, |c: char| is_ascii_ws(c))
}

pub open spec fn upper_end(s: Seq<char>, i: int) -> int {
    run_end(s, i, |c: char| is_ascii_upper(c))
}

/// Characters that may continue a function name.
pub open spec fn is_name_char(c: char) -> bool {
    is_ascii_alpha(c) || c == '_'
}

pub open spec fn name_end(s: Seq<char>, i: int) -> int {
    run_end(s, i, |c: char| is_name_char(c))
}

/// Characters of a number literal.
pub open spec fn is_number_char(c: char) -> bool {
    is_digit(c) || c == '.'
}

pub open spec fn number_end(s: Seq<char>, i: int) -> int {
    run_end(s, i, |c: char| is_number_char(c))
}

/// Everything but a double quote.
pub open spec fn quote_end(s: Seq<char>, i: int) -> int {
    run_end(s, i, |c: char| c != '"')
}

/// How many points `s` holds.
pub open spec fn dots(s: Seq<char>) -> nat
    decreases s.len(),
{
    if s.len() == 0 {
        0
    } else {
        dots(s.drop_last()) + if s.last() == '.' { 1nat } else { 0nat }
    }
}

pub open spec fn is_operator_char(c: char) -> bool {
    c == '+' || c == '-' || c == '/' || c == '*' || c == '(' || c == ')' || c == ':' || c == ','
}

pub open spec fn is_logical_char(c: char) -> bool {
    c == '=' || c == '!' || c == '>' || c == '<' || c == '&' || c == '|'
}

pub open spec fn operator_lexeme(c: char) -> Lexeme {
    if c == '+' {
        Lexeme::Plus
    } else if c == '-' {
        Lexeme::Minus
    } else if c == '/' {
        Lexeme::Division
    } else if c == '*' {
        Lexeme::Multiply
    } else if c == '(' {
        Lexeme::LParen
    } else if c == ')' {
        Lexeme::RParen
    } else if c == ':' {
        Lexeme::Colon
    } else {
        Lexeme::Comma
    }
}

/// A two-character operator `c` `=`, or `one` alone when `=` does not follow.
pub open spec fn with_optional_eq(
    s: Seq<char>,
    j: int,
    one: Lexeme,
    two: Lexeme,
) -> Result<(Lexeme, int), LexError> {
    if j + 1 < s.len() && s[j + 1] == '=' {
        Ok((two, j + 2))
    } else {
        Ok((one, j + 1))
    }
}

/// A doubled character `c` `c`; the character alone is an error.
pub open spec fn doubled(s: Seq<char>, j: int, two: Lexeme) -> Result<(Lexeme, int), LexError> {
    if j + 1 < s.len() && s[j + 1] == s[j] {
        Ok((two, j + 2))
    } else {
        Err(LexError::UnexpectedCharacter(s[j]))
    }
}

pub open spec fn lex_logical(s: Seq<char>, j: int) -> Result<(Lexeme, int), LexError> {
    let c = s[j];
    if c == '=' {
        doubled(s, j, Lexeme::Equals)
    } else if c == '!' {
        with_optional_eq(s, j, Lexeme::Not, Lexeme::NotEquals)
    } else if c == '>' {
        with_optional_eq(s, j, Lexeme::GreaterThan, Lexeme::GreaterEquals)
    } else if c == '<' {
        with_optional_eq(s, j, Lexeme::LessThan, Lexeme::LessEquals)
    } else if c == '&' {
        doubled(s, j, Lexeme::And)
    } else {
        doubled(s, j, Lexeme::Or)
    }
}

/// A run of uppercase letters: `TRUE`, `FALSE`, or the letters of a cell
/// name, which digits must follow.
pub open spec fn lex_cell_or_bool(s: Seq<char>, j: int) -> Result<(Lexeme, int), LexError> {
    let e = upper_end(s, j);
    let letters = s.subrange(j, e);
    if letters == seq!['T', 'R', 'U', 'E'] {
        Ok((Lexeme::Bool(true), e))
    } else if letters == seq!['F', 'A', 'L', 'S', 'E'] {
        Ok((Lexeme::Bool(false), e))
    } else if e == j {
        Err(LexError::InvalidCellName(Seq::empty()))
    } else {
        let d = crate::text::digits_end(s, e);
        if d == e {
            Err(LexError::InvalidCellName(letters))
        } else {
            Ok((Lexeme::CellName(s.subrange(j, d)), d))
        }
    }
}

/// A run of ASCII letters and underscores. A lowercase character that
/// starts no such run is refused.
pub open spec fn lex_function_name(s: Seq<char>, j: int) -> Result<(Lexeme, int), LexError> {
    let e = name_end(s, j);
    if e == j {
        Err(LexError::UnexpectedCharacter(s[j]))
    } else {
        Ok((Lexeme::FunctionName(s.subrange(j, e)), e))
    }
}

/// A run of digits and points holding at most one point.
pub open spec fn lex_number(s: Seq<char>, j: int) -> Result<(Lexeme, int), LexError> {
    let e = number_end(s, j);
    let text = s.subrange(j, e);
    if dots(text) <= 1 {
        Ok((Lexeme::Number(text), e))
    } else {
        Err(LexError::InvalidNumber(text))
    }
}

/// Text between double quotes; an unclosed quote is refused.
pub open spec fn lex_string(s: Seq<char>, j: int) -> Result<(Lexeme, int), LexError> {
    let q = quote_end(s, j + 1);
    if q >= s.len() {
        Err(LexError::UnexpectedCharacter('"'))
    } else {
        Ok((Lexeme::StringLiteral(s.subrange(j + 1, q)), q + 1))
    }
}

/// `c` is an uppercase letter: `A`..`Z` among ASCII characters, by the
/// Unicode `Uppercase` property beyond.
pub open spec fn upper_char(c: char) -> bool {
    if (c as u32) < 128 {
        is_ascii_upper(c)
    } else {
        unicode_uppercase(c)
    }
}

/// `c` is a lowercase letter: `a`..`z` among ASCII characters, by the
/// Unicode `Lowercase` property beyond.
pub open spec fn lower_char(c: char) -> bool {
    if (c as u32) < 128 {
        'a' <= c && c <= 'z'
    } else {
        unicode_lowercase(c)
    }
}

/// The token that starts at `j` (which holds no whitespace), and where the
/// next one may start.
pub open spec fn lex_token(s: Seq<char>, j: int) -> Result<(Lexeme, int), LexError> {
    let c = s[j];
    if is_operator_char(c) {
        Ok((operator_lexeme(c), j + 1))
    } else if is_logical_char(c) {
        lex_logical(s, j)
    } else if upper_char(c) {
        lex_cell_or_bool(s, j)
    } else if lower_char(c) {
        lex_function_name(s, j)
    } else if is_digit(c) {
        lex_number(s, j)
    } else if c == '"' {
        lex_string(s, j)
    } else {
        Err(LexError::UnexpectedCharacter(c))
    }
}

/// The tokens of `s` from position `i` on: whitespace between tokens is
/// skipped; the first token that cannot be read ends it with an error.
pub open spec fn lex_from(s: Seq<char>, i: int) -> Result<Seq<Lexeme>, LexError>
    decreases s.len() - i,
{
    let j = ws_end(s, i);
    if i < 0 || j < i || j >= s.len() {
        Ok(Seq::empty())
    } else {
        match lex_token(s, j) {
            Err(e) => Err(e),
            Ok((lx, k)) => if k <= j || k > s.len() {
                Err(LexError::UnexpectedCharacter(s[j]))
            } else {
                match lex_from(s, k) {
                    Ok(rest) => Ok(seq![lx] + rest),
                    Err(e) => Err(e),
                }
            },
        }
    }
}

/// `n` is a number that `from_decimal` gave for the literal `text`.
pub open spec fn number_of<N: Numeric>(text: Seq<char>, n: N) -> bool {
    exists|s: &str| s@ == text && #[trigger] call_ensures(N::from_decimal, (s,), n)
}

/// The token `t` is the lexeme `l`.
pub open spec fn denotes<N: Numeric>(t: Token<N>, l: Lexeme) -> bool {
    match (t, l) {
        (Token::CellName(a), Lexeme::CellName(b)) => a@ == b,
        (Token::Number(n), Lexeme::Number(b)) => number_of(b, n),
        (Token::StringLiteral(a), Lexeme::StringLiteral(b)) => a@ == b,
        (Token::FunctionName(a), Lexeme::FunctionName(b)) => a@ == b,
        (Token::Bool(a), Lexeme::Bool(b)) => a == b,
        (Token::Plus, Lexeme::Plus) => true,
        (Token::Minus, Lexeme::Minus) => true,
        (Token::Division, Lexeme::Division) => true,
        (Token::Multiply, Lexeme::Multiply) => true,
        (Token::LParen, Lexeme::LParen) => true,
        (Token::RParen, Lexeme::RParen) => true,
        (Token::Colon, Lexeme::Colon) => true,
        (Token::Comma, Lexeme::Comma) => true,
        (Token::Equals, Lexeme::Equals) => true,
        (Token::NotEquals, Lexeme::NotEquals) => true,
        (Token::GreaterThan, Lexeme::GreaterThan) => true,
        (Token::LessThan, Lexeme::LessThan) => true,
        (Token::GreaterEquals, Lexeme::GreaterEquals) => true,
        (Token::LessEquals, Lexeme::LessEquals) => true,
        (Token::And, Lexeme::And) => true,
        (Token::Or, Lexeme::Or) => true,
        (Token::Not, Lexeme::Not) => true,
        _ => false,
    }
}

pub open spec fn denotes_all<N: Numeric>(ts: Seq<Token<N>>, ls: Seq<Lexeme>) -> bool {
    &&& ts.len() == ls.len()
    &&& forall|i: int| 0 <= i < ts.len() ==> denotes(#[trigger] ts[i], ls[i])
}

pub open spec fn error_denotes(e: TokenizeError, l: LexError) -> bool {
    match (e, l) {
        (TokenizeError::UnexpectedCharacter(a), LexError::UnexpectedCharacter(b)) => a == b,
        (TokenizeError::InvalidCellName(a), LexError::InvalidCellName(b)) => a@ == b,
        (TokenizeError::InvalidNumber(a), LexError::InvalidNumber(b)) => a@ == b,
        _ => false,
    }
}

/// The result of reading one token: the token, or the error.
pub open spec fn step_denotes<N: Numeric>(
    r: Result<Token<N>, TokenizeError>,
    l: Result<(Lexeme, int), LexError>,
) -> bool {
    match (r, l) {
        (Ok(t), Ok((lx, _))) => denotes(t, lx),
        (Err(e), Err(le)) => error_denotes(e, le),
        _ => false,
    }
}

/// Digits and points that start with a digit and hold at most one point
/// form a decimal literal.
proof fn lemma_number_text_is_decimal(t: Seq<char>)
    requires
        t.len() > 0,
        is_digit(t[0]),
        forall|k: int| 0 <= k < t.len() ==> #[trigger] is_number_char(t[k]),
        dots(t) <= 1,
    ensures
        is_decimal_literal(t),
{
    let p = |c: char| is_digit(c);
    let m = run_end(t, 0, p);
    lemma_run_end(t, 0, p);
    if m < t.len() {
        assert(is_number_char(t[m]));
        assert(t[m] == '.');
        lemma_run_end(t, m + 1, p);
        let f = run_end(t, m + 1, p);
        if f < t.len() {
            assert(is_number_char(t[f]));
            assert(t[f] == '.');
            lemma_two_dots(t, m, f);
        }
    }
}

/// Two points at different positions make at least two.
proof fn lemma_two_dots(t: Seq<char>, a: int, b: int)
    requires
        0 <= a < b < t.len(),
        t[a] == '.',
        t[b] == '.',
    ensures
        dots(t) >= 2,
    decreases t.len(),
{
    if b == t.len() - 1 {
        lemma_one_dot(t.drop_last(), a);
    } else {
        lemma_two_dots(t.drop_last(), a, b);
    }
}

proof fn lemma_one_dot(t: Seq<char>, a: int)
    requires
        0 <= a < t.len(),
        t[a] == '.',
    ensures
        dots(t) >= 1,
    decreases t.len(),
{
    if a < t.len() - 1 {
        lemma_one_dot(t.drop_last(), a);
    }
}

impl ExpressionTokenizer {
    pub closed spec fn text(&self) -> Seq<char> {
        self.chars@
    }

    pub closed spec fn position(&self) -> int {
        self.index as int
    }

    pub fn new(chars: Vec<char>) -> (r: Self)
        ensures
            r.text() == chars@,
            r.position() == 0,
    {
        Self { index: 0, chars }
    }

    /// Reads all tokens from the current position to the end of the text.
    pub fn tokenize_expression<N: Numeric>(&mut self) -> (r: Result<Vec<Token<N>>, TokenizeError>)
        requires
            old(self).position() <= old(self).text().len(),
        ensures
            final(self).text() == old(self).text(),
            match lex_from(old(self).text(), old(self).position()) {
                Ok(ls) => r is Ok && denotes_all(r->Ok_0@, ls),
                Err(le) => r is Err && error_denotes(r->Err_0, le),
            },
    {
        let ghost cs = self.chars@;
        let ghost i0 = self.index as int;
        proof {
            lemma_run_end(cs, i0, |c: char| is_ascii_ws(c));
        }
        self.skip_whitespace();
        let mut expr_tokens: Vec<Token<N>> = Vec::new();
        let ghost mut done: Seq<Lexeme> = Seq::empty();
        proof {
            lemma_run_end_idempotent(cs, i0, |c: char| is_ascii_ws(c));
            lemma_lex_from_skips(cs, i0);
        }
        while !self.is_done()
            invariant
                self.chars@ == cs,
                cs == old(self).chars@,
                i0 == old(self).index,
                0 <= self.index <= cs.len(),
                ws_end(cs, self.index as int) == self.index,
                denotes_all(expr_tokens@, done),
                lex_from(cs, i0) == prefixed(done, lex_from(cs, self.index as int)),
            decreases cs.len() - self.index,
        {
            let j = self.index;
            let c = self.chars[j];
            let ghost step = lex_token(cs, j as int);
            let token = if c == '+' || c == '-' || c == '/' || c == '*' || c == '(' || c == ')'
                || c == ':' || c == ',' {
                self.parse_operator()
            } else if c == '=' || c == '!' || c == '>' || c == '<' || c == '&' || c == '|' {
                match self.parse_logical_operator() {
                    Ok(t) => t,
                    Err(e) => {
                        proof {
                            lemma_lex_from_error(cs, j as int);
                        }
                        return Err(e);
                    },
                }
            } else if is_uppercase(c) {
                match self.parse_cell_name_or_bool() {
                    Ok(t) => t,
                    Err(e) => {
                        proof {
                            lemma_lex_from_error(cs, j as int);
                        }
                        return Err(e);
                    },
                }
            } else if is_lowercase(c) {
                match self.parse_function_name() {
                    Ok(t) => t,
                    Err(e) => {
                        proof {
                            lemma_lex_from_error(cs, j as int);
                        }
                        return Err(e);
                    },
                }
            } else if digit(c) {
                match self.parse_number() {
                    Ok(t) => t,
                    Err(e) => {
                        proof {
                            lemma_lex_from_error(cs, j as int);
                        }
                        return Err(e);
                    },
                }
            } else if c == '"' {
                match self.parse_string_literal() {
                    Ok(t) => t,
                    Err(e) => {
                        proof {
                            lemma_lex_from_error(cs, j as int);
                        }
                        return Err(e);
                    },
                }
            } else {
                proof {
                    lemma_lex_from_error(cs, j as int);
                }
                return Err(TokenizeError::UnexpectedCharacter(c));
            };
            let ghost k = self.index as int;
            let ghost lx = step->Ok_0.0;
            assert(step == Ok::<(Lexeme, int), LexError>((lx, k)));
            assert(denotes(token, lx));
            expr_tokens.push(token);
            proof {
                lemma_lex_token_advances(cs, j as int);
                lemma_lex_from_step(cs, j as int);
                lemma_run_end(cs, k, |c: char| is_ascii_ws(c));
                lemma_run_end_idempotent(cs, k, |c: char| is_ascii_ws(c));
                lemma_lex_from_skips(cs, k);
                lemma_prefixed_push(done, lx, lex_from(cs, k));
                done = done.push(lx);
            }
            self.skip_whitespace();
        }
        proof {
            assert(lex_from(cs, self.index as int) == Ok::<Seq<Lexeme>, LexError>(Seq::empty()));
            assert(done + Seq::<Lexeme>::empty() =~= done);
        }
        Ok(expr_tokens)
    }

    fn parse_cell_name_or_bool<N: Numeric>(&mut self) -> (r: Result<Token<N>, TokenizeError>)
        requires
            old(self).index < old(self).chars@.len(),
        ensures
            final(self).chars@ == old(self).chars@,
            step_denotes(r, lex_cell_or_bool(old(self).chars@, old(self).index as int)),
            r is Ok ==> (lex_cell_or_bool(old(self).chars@, old(self).index as int) matches Ok(
                (_, k),
            ) && final(self).index == k),
    {
        let ghost cs = self.chars@;
        let j = self.index;
        proof {
            lemma_run_end(cs, j as int, |c: char| is_ascii_upper(c));
        }
        while self.index < self.chars.len() && ascii_upper(self.chars[self.index])
            invariant
                self.chars@ == cs,
                j <= self.index <= cs.len(),
                upper_end(cs, self.index as int) == upper_end(cs, j as int),
            decreases cs.len() - self.index,
        {
            self.pop();
        }
        let e = self.index;
        let ghost letters = cs.subrange(j as int, e as int);
        if e - j == 4 && self.chars[j] == 'T' && self.chars[j + 1] == 'R' && self.chars[j + 2]
            == 'U' && self.chars[j + 3] == 'E' {
            assert(letters =~= seq!['T', 'R', 'U', 'E']);
            return Ok(Token::Bool(true));
        }
        assert(letters != seq!['T', 'R', 'U', 'E']) by {
            if letters.len() == 4 {
                assert(letters[0] == cs[j as int]);
                assert(letters[1] == cs[j + 1]);
                assert(letters[2] == cs[j + 2]);
                assert(letters[3] == cs[j + 3]);
            }
        }
        if e - j == 5 && self.chars[j] == 'F' && self.chars[j + 1] == 'A' && self.chars[j + 2]
            == 'L' && self.chars[j + 3] == 'S' && self.chars[j + 4] == 'E' {
            assert(letters =~= seq!['F', 'A', 'L', 'S', 'E']);
            return Ok(Token::Bool(false));
        }
        assert(letters != seq!['F', 'A', 'L', 'S', 'E']) by {
            if letters.len() == 5 {
                assert(letters[0] == cs[j as int]);
                assert(letters[1] == cs[j + 1]);
                assert(letters[2] == cs[j + 2]);
                assert(letters[3] == cs[j + 3]);
                assert(letters[4] == cs[j + 4]);
            }
        }
        if e == j {
            let empty = String::new();
            assert(empty@ =~= Seq::<char>::empty());
            return Err(TokenizeError::InvalidCellName(empty));
        }
        proof {
            lemma_run_end(cs, e as int, |c: char| is_digit(c));
        }
        while self.index < self.chars.len() && digit(self.chars[self.index])
            invariant
                self.chars@ == cs,
                e <= self.index <= cs.len(),
                crate::text::digits_end(cs, self.index as int) == crate::text::digits_end(
                    cs,
                    e as int,
                ),
            decreases cs.len() - self.index,
        {
            self.pop();
        }
        let d = self.index;
        if d == e {
            return Err(TokenizeError::InvalidCellName(string_from_range(&self.chars, j, e)));
        }
        Ok(Token::CellName(string_from_range(&self.chars, j, d)))
    }

    fn parse_operator<N: Numeric>(&mut self) -> (r: Token<N>)
        requires
            old(self).index < old(self).chars@.len(),
            is_operator_char(old(self).chars@[old(self).index as int]),
        ensures
            final(self).chars@ == old(self).chars@,
            final(self).index == old(self).index + 1,
            denotes(r, operator_lexeme(old(self).chars@[old(self).index as int])),
    {
        let c = self.pop();
        if c == '+' {
            Token::Plus
        } else if c == '-' {
            Token::Minus
        } else if c == '/' {
            Token::Division
        } else if c == '*' {
            Token::Multiply
        } else if c == '(' {
            Token::LParen
        } else if c == ')' {
            Token::RParen
        } else if c == ':' {
            Token::Colon
        } else {
            Token::Comma
        }
    }

    fn peek(&self) -> (r: Option<char>)
        ensures
            r == if self.index < self.chars@.len() {
                Some(self.chars@[self.index as int])
            } else {
                None::<char>
            },
    {
        if self.index < self.chars.len() {
            Some(self.chars[self.index])
        } else {
            None
        }
    }

    fn is_done(&self) -> (r: bool)
        ensures
            r == (self.index >= self.chars@.len()),
    {
        self.index >= self.chars.len()
    }

    /// The character at the current position, which it moves past.
    fn pop(&mut self) -> (r: char)
        requires
            old(self).index < old(self).chars@.len(),
        ensures
            final(self).chars@ == old(self).chars@,
            final(self).index == old(self).index + 1,
            r == old(self).chars@[old(self).index as int],
    {
        let n = self.chars.len();
        let val = self.chars[self.index];
        self.index = self.index + 1;
        assert(self.index <= n);
        val
    }

    /// Moves past whitespace; tells whether characters remain.
    fn skip_whitespace(&mut self) -> (r: bool)
        requires
            old(self).index <= old(self).chars@.len(),
        ensures
            final(self).chars@ == old(self).chars@,
            final(self).index == ws_end(old(self).chars@, old(self).index as int),
            r == (final(self).index < final(self).chars@.len()),
    {
        let ghost cs = self.chars@;
        let ghost i0 = self.index as int;
        proof {
            lemma_run_end(cs, i0, |c: char| is_ascii_ws(c));
        }
        while !self.is_done() && ascii_ws(self.chars[self.index])
            invariant
                self.chars@ == cs,
                i0 <= self.index <= cs.len(),
                ws_end(cs, self.index as int) == ws_end(cs, i0),
            decreases cs.len() - self.index,
        {
            self.pop();
        }
        if self.is_done() {
            return false;
        }
        true
    }

    fn parse_number<N: Numeric>(&mut self) -> (r: Result<Token<N>, TokenizeError>)
        requires
            old(self).index < old(self).chars@.len(),
            is_digit(old(self).chars@[old(self).index as int]),
        ensures
            final(self).chars@ == old(self).chars@,
            step_denotes(r, lex_number(old(self).chars@, old(self).index as int)),
            r is Ok ==> final(self).index == number_end(old(self).chars@, old(self).index as int),
    {
        let ghost cs = self.chars@;
        let j = self.index;
        proof {
            lemma_run_end(cs, j as int, |c: char| is_number_char(c));
        }
        let mut n_dots: usize = 0;
        while self.index < self.chars.len() && (digit(self.chars[self.index])
            || self.chars[self.index] == '.')
            invariant
                self.chars@ == cs,
                j <= self.index <= cs.len(),
                number_end(cs, self.index as int) == number_end(cs, j as int),
                n_dots == dots(cs.subrange(j as int, self.index as int)),
                n_dots <= self.index - j,
            decreases cs.len() - self.index,
        {
            let c = self.pop();
            let ghost t = cs.subrange(j as int, self.index as int);
            assert(t.drop_last() =~= cs.subrange(j as int, self.index - 1));
            if c == '.' {
                n_dots = n_dots + 1;
            }
        }
        let e = self.index;
        assert(number_end(cs, e as int) == e);
        let text = string_from_range(&self.chars, j, e);
        if n_dots <= 1 {
            proof {
                assert forall|k: int| 0 <= k < text@.len() implies #[trigger] is_number_char(
                    text@[k],
                ) by {
                    assert(text@[k] == cs[j + k]);
                    assert((|c: char| is_number_char(c))(cs[j + k]));
                }
                lemma_number_text_is_decimal(text@);
                crate::common_types::lemma_decimal_is_float(text@);
            }
            let n = N::from_decimal(text.as_str());
            Ok(Token::Number(n))
        } else {
            Err(TokenizeError::InvalidNumber(text))
        }
    }

    fn parse_function_name<N: Numeric>(&mut self) -> (r: Result<Token<N>, TokenizeError>)
        requires
            old(self).index < old(self).chars@.len(),
        ensures
            final(self).chars@ == old(self).chars@,
            step_denotes(r, lex_function_name(old(self).chars@, old(self).index as int)),
            r is Ok ==> final(self).index == name_end(old(self).chars@, old(self).index as int),
    {
        let ghost cs = self.chars@;
        let j = self.index;
        proof {
            lemma_run_end(cs, j as int, |c: char| is_name_char(c));
        }
        while self.index < self.chars.len() && (ascii_alpha(self.chars[self.index])
            || self.chars[self.index] == '_')
            invariant
                self.chars@ == cs,
                j <= self.index <= cs.len(),
                name_end(cs, self.index as int) == name_end(cs, j as int),
            decreases cs.len() - self.index,
        {
            self.pop();
        }
        let e = self.index;
        if e == j {
            return Err(TokenizeError::UnexpectedCharacter(self.chars[j]));
        }
        Ok(Token::FunctionName(string_from_range(&self.chars, j, e)))
    }

    fn parse_string_literal<N: Numeric>(&mut self) -> (r: Result<Token<N>, TokenizeError>)
        requires
            old(self).index < old(self).chars@.len(),
            old(self).chars@[old(self).index as int] == '"',
        ensures
            final(self).chars@ == old(self).chars@,
            step_denotes(r, lex_string(old(self).chars@, old(self).index as int)),
            r is Ok ==> final(self).index == quote_end(old(self).chars@, old(self).index + 1) + 1,
    {
        let ghost cs = self.chars@;
        self.pop();
        let start = self.index;
        proof {
            lemma_run_end(cs, start as int, |c: char| c != '"');
        }
        while self.index < self.chars.len() && self.chars[self.index] != '"'
            invariant
                self.chars@ == cs,
                start <= self.index <= cs.len(),
                quote_end(cs, self.index as int) == quote_end(cs, start as int),
            decreases cs.len() - self.index,
        {
            self.pop();
        }
        if self.is_done() {
            return Err(TokenizeError::UnexpectedCharacter('"'));
        }
        let text = string_from_range(&self.chars, start, self.index);
        self.pop();
        Ok(Token::StringLiteral(text))
    }

    fn parse_logical_operator<N: Numeric>(&mut self) -> (r: Result<Token<N>, TokenizeError>)
        requires
            old(self).index < old(self).chars@.len(),
            is_logical_char(old(self).chars@[old(self).index as int]),
        ensures
            final(self).chars@ == old(self).chars@,
            step_denotes(r, lex_logical(old(self).chars@, old(self).index as int)),
            r is Ok ==> (lex_logical(old(self).chars@, old(self).index as int) matches Ok((_, k))
                && final(self).index == k),
    {
        let first = self.pop();
        let token = if first == '=' {
            if let Some('=') = self.peek() {
                self.pop();
                Token::Equals
            } else {
                return Err(TokenizeError::UnexpectedCharacter('='));
            }
        } else if first == '!' {
            if let Some('=') = self.peek() {
                self.pop();
                Token::NotEquals
            } else {
                Token::Not
            }
        } else if first == '>' {
            if let Some('=') = self.peek() {
                self.pop();
                Token::GreaterEquals
            } else {
                Token::GreaterThan
            }
        } else if first == '<' {
            if let Some('=') = self.peek() {
                self.pop();
                Token::LessEquals
            } else {
                Token::LessThan
            }
        } else if first == '&' {
            if let Some('&') = self.peek() {
                self.pop();
                Token::And
            } else {
                return Err(TokenizeError::UnexpectedCharacter('&'));
            }
        } else {
            if let Some('|') = self.peek() {
                self.pop();
                Token::Or
            } else {
                return Err(TokenizeError::UnexpectedCharacter('|'));
            }
        };
        Ok(token)
    }
}

/// The lexemes `done` followed by the result `rest`.
pub open spec fn prefixed(done: Seq<Lexeme>, rest: Result<Seq<Lexeme>, LexError>) -> Result<
    Seq<Lexeme>,
    LexError,
> {
    match rest {
        Ok(r) => Ok(done + r),
        Err(e) => Err(e),
    }
}

proof fn lemma_prefixed_push(done: Seq<Lexeme>, lx: Lexeme, rest: Result<Seq<Lexeme>, LexError>)
    ensures
        prefixed(done, prefixed(seq![lx], rest)) == prefixed(done.push(lx), rest),
{
    if let Ok(r) = rest {
        assert(done + (seq![lx] + r) =~= done.push(lx) + r);
    }
}

/// Reading from a position reads from the end of the whitespace there.
proof fn lemma_lex_from_skips(s: Seq<char>, i: int)
    requires
        0 <= i <= s.len(),
    ensures
        lex_from(s, i) == lex_from(s, ws_end(s, i)),
{
    lemma_run_end(s, i, |c: char| is_ascii_ws(c));
    lemma_run_end_idempotent(s, i, |c: char| is_ascii_ws(c));
}

/// A token that is read ends after its start and within the text.
proof fn lemma_lex_token_advances(s: Seq<char>, j: int)
    requires
        0 <= j < s.len(),
    ensures
        lex_token(s, j) matches Ok((_, k)) ==> j < k <= s.len(),
{
    lemma_run_end(s, j, |c: char| is_ascii_upper(c));
    lemma_run_end(s, j, |c: char| is_name_char(c));
    lemma_run_end(s, j, |c: char| is_number_char(c));
    assert((|c: char| is_number_char(c))(s[j]) == is_number_char(s[j]));
    if j + 1 <= s.len() {
        lemma_run_end(s, j + 1, |c: char| c != '"');
    }
    let e = upper_end(s, j);
    lemma_run_end(s, e, |c: char| is_digit(c));
    if s.subrange(j, e) == seq!['T', 'R', 'U', 'E'] {
        assert(s.subrange(j, e).len() == 4);
    }
    if s.subrange(j, e) == seq!['F', 'A', 'L', 'S', 'E'] {
        assert(s.subrange(j, e).len() == 5);
    }
}

/// A token that cannot be read ends the reading with its error.
proof fn lemma_lex_from_error(s: Seq<char>, j: int)
    requires
        0 <= j < s.len(),
        ws_end(s, j) == j,
        lex_token(s, j) is Err,
    ensures
        lex_from(s, j) == Err::<Seq<Lexeme>, LexError>(lex_token(s, j)->Err_0),
{
}

/// A token that is read is followed by the tokens after it.
proof fn lemma_lex_from_step(s: Seq<char>, j: int)
    requires
        0 <= j < s.len(),
        ws_end(s, j) == j,
        lex_token(s, j) matches Ok((_, k)) && j < k <= s.len(),
    ensures
        lex_from(s, j) == prefixed(seq![lex_token(s, j)->Ok_0.0], lex_from(s, lex_token(s, j)->Ok_0.1)),
{
}

/// A step of reading at `k` moved to `k + d`.
pub open spec fn shifted(r: Result<(Lexeme, int), LexError>, d: int) -> Result<(Lexeme, int), LexError> {
    match r {
        Ok((lx, k)) => Ok((lx, k + d)),
        Err(e) => Err(e),
    }
}

/// A token read inside `b` is read the same way inside `x + b`.
proof fn lemma_lex_token_shift(x: Seq<char>, b: Seq<char>, j: int)
    requires
        0 <= j < b.len(),
    ensures
        lex_token(x + b, x.len() + j) == shifted(lex_token(b, j), x.len() as int),
{
    let c = x + b;
    let n = x.len() as int;
    assert(c[n + j] == b[j]);
    if j + 1 < b.len() {
        assert(c[n + j + 1] == b[j + 1]);
    }
    lemma_run_end_shift(x, b, j, |c: char| is_ascii_upper(c));
    lemma_run_end_shift(x, b, j, |c: char| is_name_char(c));
    lemma_run_end_shift(x, b, j, |c: char| is_number_char(c));
    lemma_run_end_shift(x, b, j + 1, |c: char| c != '"');
    lemma_run_end(b, j, |c: char| is_ascii_upper(c));
    lemma_run_end(b, j, |c: char| is_name_char(c));
    lemma_run_end(b, j, |c: char| is_number_char(c));
    lemma_run_end(b, j + 1, |c: char| c != '"');
    let e = upper_end(b, j);
    lemma_run_end_shift(x, b, e, |c: char| is_digit(c));
    lemma_run_end(b, e, |c: char| is_digit(c));
    let d = crate::text::digits_end(b, e);
    assert(c.subrange(n + j, n + e) =~= b.subrange(j, e));
    assert(c.subrange(n + j, n + d) =~= b.subrange(j, d));
    let ne = name_end(b, j);
    assert(c.subrange(n + j, n + ne) =~= b.subrange(j, ne));
    let me = number_end(b, j);
    assert(c.subrange(n + j, n + me) =~= b.subrange(j, me));
    let q = quote_end(b, j + 1);
    if q < b.len() {
        assert(c.subrange(n + j + 1, n + q) =~= b.subrange(j + 1, q));
    }
}

/// Reading `x + b` from inside `b` reads what `b` reads from there.
proof fn lemma_lex_from_shift(x: Seq<char>, b: Seq<char>, i: int)
    requires
        0 <= i <= b.len(),
    ensures
        lex_from(x + b, x.len() + i) == lex_from(b, i),
    decreases b.len() - i,
{
    let c = x + b;
    let n = x.len() as int;
    lemma_run_end_shift(x, b, i, |c: char| is_ascii_ws(c));
    lemma_run_end(b, i, |c: char| is_ascii_ws(c));
    let j = ws_end(b, i);
    if j < b.len() {
        lemma_lex_token_shift(x, b, j);
        assert(c[n + j] == b[j]);
        if let Ok((lx, k)) = lex_token(b, j) {
            if j < k <= b.len() {
                lemma_lex_from_shift(x, b, k);
            }
        }
    }
}

/// A token read inside `a` is read the same way when whitespace and more
/// text follow `a`.
proof fn lemma_lex_token_prefix(a: Seq<char>, r: Seq<char>, j: int)
    requires
        0 <= j < a.len(),
        r.len() > 0,
        is_ascii_ws(r[0]),
        lex_token(a, j) is Ok,
    ensures
        lex_token(a + r, j) == lex_token(a, j),
{
    let c = a + r;
    assert(c[j] == a[j]);
    if j + 1 < a.len() {
        assert(c[j + 1] == a[j + 1]);
    } else {
        assert(c[j + 1] == r[0]);
    }
    lemma_lex_token_advances(a, j);
    lemma_run_end(a, j, |c: char| is_ascii_upper(c));
    lemma_run_end(a, j, |c: char| is_name_char(c));
    lemma_run_end(a, j, |c: char| is_number_char(c));
    lemma_run_end_prefix(a, r, j, |c: char| is_ascii_upper(c));
    lemma_run_end_prefix(a, r, j, |c: char| is_name_char(c));
    lemma_run_end_prefix(a, r, j, |c: char| is_number_char(c));
    let e = upper_end(a, j);
    lemma_run_end(a, e, |c: char| is_digit(c));
    lemma_run_end_prefix(a, r, e, |c: char| is_digit(c));
    let d = crate::text::digits_end(a, e);
    assert(c.subrange(j, e) =~= a.subrange(j, e));
    assert(c.subrange(j, d) =~= a.subrange(j, d));
    let ne = name_end(a, j);
    assert(c.subrange(j, ne) =~= a.subrange(j, ne));
    let me = number_end(a, j);
    assert(c.subrange(j, me) =~= a.subrange(j, me));
    if a[j] == '"' {
        lemma_run_end(a, j + 1, |c: char| c != '"');
        let q = quote_end(a, j + 1);
        if q < a.len() {
            lemma_run_end_prefix(a, r, j + 1, |c: char| c != '"');
            assert(c.subrange(j + 1, q) =~= a.subrange(j + 1, q));
        }
    }
}

/// Reading `a + r`, where `r` starts with whitespace, from inside `a` reads
/// the tokens of `a` and then the tokens of `r`, if `a` reads without error.
proof fn lemma_lex_from_prefix(a: Seq<char>, r: Seq<char>, i: int)
    requires
        0 <= i <= a.len(),
        r.len() > 0,
        is_ascii_ws(r[0]),
        lex_from(a, i) is Ok,
    ensures
        lex_from(a + r, i) == prefixed(lex_from(a, i)->Ok_0, lex_from(a + r, a.len() as int)),
    decreases a.len() - i,
{
    let c = a + r;
    let n = a.len() as int;
    lemma_run_end(a, i, |c: char| is_ascii_ws(c));
    let j = ws_end(a, i);
    if j >= n {
        let ws = |c: char| is_ascii_ws(c);
        assert forall|t: int| i <= t < n implies ws(#[trigger] c[t]) by {
            assert(c[t] == a[t]);
            assert(ws(a[t]));
        }
        lemma_run_end_through(c, i, n, ws);
        lemma_lex_from_skips(c, i);
        lemma_lex_from_skips(c, n);
        if let Ok(rest) = lex_from(c, n) {
            assert(Seq::<Lexeme>::empty() + rest =~= rest);
        }
    } else {
        lemma_run_end_prefix(a, r, i, |c: char| is_ascii_ws(c));
        assert(c[j] == a[j]);
        lemma_lex_token_advances(a, j);
        lemma_lex_token_prefix(a, r, j);
        let k = lex_token(a, j)->Ok_0.1;
        let lx = lex_token(a, j)->Ok_0.0;
        lemma_lex_from_prefix(a, r, k);
        let la = lex_from(a, k)->Ok_0;
        if let Ok(rest) = lex_from(c, n) {
            assert(seq![lx] + (la + rest) =~= (seq![lx] + la) + rest);
        }
    }
}

/// Whitespace between two texts that each tokenize keeps their tokens
/// apart: the tokens of `a`, whitespace, then `b` are those of `a` followed
/// by those of `b`.
pub proof fn law_whitespace_separates_tokens(a: Seq<char>, w: Seq<char>, b: Seq<char>)
    requires
        lex_from(a, 0) is Ok,
        lex_from(b, 0) is Ok,
        w.len() > 0,
        forall|i: int| 0 <= i < w.len() ==> is_ascii_ws(#[trigger] w[i]),
    ensures
        lex_from(a + w + b, 0) == Ok::<Seq<Lexeme>, LexError>(
            lex_from(a, 0)->Ok_0 + lex_from(b, 0)->Ok_0,
        ),
{
    let r = w + b;
    assert(a + w + b =~= a + r);
    assert(r[0] == w[0]);
    lemma_lex_from_prefix(a, r, 0);
    lemma_lex_from_shift(a, r, 0);
    assert((a + r).len() == a.len() + r.len());
    assert(a.len() + 0 == a.len());
    // Reading `w + b` skips `w`, then reads `b`.
    let ws = |c: char| is_ascii_ws(c);
    assert forall|t: int| 0 <= t < w.len() implies ws(#[trigger] r[t]) by {
        assert(r[t] == w[t]);
    }
    lemma_run_end_through(r, 0, w.len() as int, ws);
    lemma_run_end(r, 0, |c: char| is_ascii_ws(c));
    lemma_run_end(r, w.len() as int, |c: char| is_ascii_ws(c));
    lemma_lex_from_skips(r, 0);
    lemma_lex_from_skips(r, w.len() as int);
    lemma_lex_from_shift(w, b, 0);
}

/// Whitespace inserted where one token ends and the next begins (or at
/// either end) leaves the tokens as they were: if `a + b` reads as the
/// tokens of `a` followed by those of `b`, so does `a + w + b`.
pub proof fn law_whitespace_at_boundary_keeps_tokens(a: Seq<char>, w: Seq<char>, b: Seq<char>)
    requires
        lex_from(a, 0) is Ok,
        lex_from(b, 0) is Ok,
        lex_from(a + b, 0) == Ok::<Seq<Lexeme>, LexError>(lex_from(a, 0)->Ok_0 + lex_from(b, 0)->Ok_0),
        forall|i: int| 0 <= i < w.len() ==> is_ascii_ws(#[trigger] w[i]),
    ensures
        lex_from(a + w + b, 0) == lex_from(a + b, 0),
{
    if w.len() == 0 {
        assert(a + w + b =~= a + b);
    } else {
        law_whitespace_separates_tokens(a, w, b);
    }
}

/// `t1` and `t2` are the same token: the same kind with the same text, two
/// numbers that `from_decimal` gave for one literal.
pub open spec fn same_token<N: Numeric>(t1: Token<N>, t2: Token<N>) -> bool {
    match (t1, t2) {
        (Token::CellName(a), Token::CellName(b)) => a@ == b@,
        (Token::StringLiteral(a), Token::StringLiteral(b)) => a@ == b@,
        (Token::FunctionName(a), Token::FunctionName(b)) => a@ == b@,
        (Token::Number(x), Token::Number(y)) => exists|text: Seq<char>|
            #[trigger] number_of(text, x) && number_of(text, y),
        (Token::Bool(a), Token::Bool(b)) => a == b,
        _ => t1 == t2 && !(t1 is CellName) && !(t1 is StringLiteral) && !(t1 is FunctionName)
            && !(t1 is Number) && !(t1 is Bool),
    }
}

/// Whitespace inserted where one token ends and the next begins (or at
/// either end) leaves the token list as it was: token by token the same
/// kind and text, numbers read from the same literal.
pub proof fn law_whitespace_keeps_token_list<N: Numeric>(
    a: Seq<char>,
    w: Seq<char>,
    b: Seq<char>,
    t1: Seq<Token<N>>,
    t2: Seq<Token<N>>,
)
    requires
        lex_from(a, 0) is Ok,
        lex_from(b, 0) is Ok,
        lex_from(a + b, 0) == Ok::<Seq<Lexeme>, LexError>(lex_from(a, 0)->Ok_0 + lex_from(b, 0)->Ok_0),
        forall|i: int| 0 <= i < w.len() ==> is_ascii_ws(#[trigger] w[i]),
        denotes_all(t1, lex_from(a + b, 0)->Ok_0),
        denotes_all(t2, lex_from(a + w + b, 0)->Ok_0),
    ensures
        t1.len() == t2.len(),
        forall|i: int| 0 <= i < t1.len() ==> same_token(#[trigger] t1[i], t2[i]),
{
    law_whitespace_at_boundary_keeps_tokens(a, w, b);
    let ls = lex_from(a + b, 0)->Ok_0;
    assert forall|i: int| 0 <= i < t1.len() implies same_token(#[trigger] t1[i], t2[i]) by {
        assert(denotes(t1[i], ls[i]));
        assert(denotes(t2[i], ls[i]));
        if let Lexeme::Number(text) = ls[i] {
            assert(number_of(text, t1[i]->Number_0));
        }
    }
}


/// The number type reads every decimal text as one number: two readings of
/// the same text give the same number.
pub open spec fn decimals_read_alike<N: Numeric>() -> bool {
    forall|s1: &str, s2: &str, x: N, y: N|
        s1@ == s2@ && #[trigger] call_ensures(N::from_decimal, (s1,), x) && #[trigger] call_ensures(
            N::from_decimal,
            (s2,),
            y,
        ) ==> x == y
}

/// For a number type that reads every decimal text as one number,
/// whitespace inserted where one token ends and the next begins (or at
/// either end) leaves the token list as it was: token by token the same
/// kind and text, and the same number.
pub proof fn law_whitespace_keeps_tokens_equal<N: Numeric>(
    a: Seq<char>,
    w: Seq<char>,
    b: Seq<char>,
    t1: Seq<Token<N>>,
    t2: Seq<Token<N>>,
)
    requires
        decimals_read_alike::<N>(),
        lex_from(a, 0) is Ok,
        lex_from(b, 0) is Ok,
        lex_from(a + b, 0) == Ok::<Seq<Lexeme>, LexError>(lex_from(a, 0)->Ok_0 + lex_from(b, 0)->Ok_0),
        forall|i: int| 0 <= i < w.len() ==> is_ascii_ws(#[trigger] w[i]),
        denotes_all(t1, lex_from(a + b, 0)->Ok_0),
        denotes_all(t2, lex_from(a + w + b, 0)->Ok_0),
    ensures
        t1.len() == t2.len(),
        forall|i: int|
            0 <= i < t1.len() ==> same_token(#[trigger] t1[i], t2[i]) && (t1[i] is Number ==> t1[i]
                == t2[i]),
{
    law_whitespace_keeps_token_list(a, w, b, t1, t2);
    assert forall|i: int| 0 <= i < t1.len() && (#[trigger] t1[i]) is Number implies t1[i] == t2[i] by {
        assert(same_token(t1[i], t2[i]));
        let x = t1[i]->Number_0;
        let y = t2[i]->Number_0;
        let text = choose|text: Seq<char>| #[trigger] number_of(text, x) && number_of(text, y);
        let s1 = choose|s: &str| s@ == text && #[trigger] call_ensures(N::from_decimal, (s,), x);
        let s2 = choose|s: &str| s@ == text && #[trigger] call_ensures(N::from_decimal, (s,), y);
        assert(x == y);
    }
}

} // verus!
