//! Reads the text typed into a cell: an expression after `=`, a number when
//! it starts with a digit, a text otherwise.
use vstd::prelude::*;

use crate::ast_creator::{lemma_parse_wf, parse_spec, ASTCreateError, ASTCreator};
use crate::ast_resolver::{ast_cells, wf_ast, ASTResolver};
use crate::cell_names::{cell_ref, is_cell_ref};
use crate::common_types::{
    ascii_lower, ast_view, is_decimal_number, is_float_literal, spells_ignoring_case, AST, Cell, Expression, Index, Numeric, ParseError, ParsedCell, Token,
    Value,
};
use crate::text::{chars_of, digit, digits_end, is_digit, push_char};
use crate::tokenizer::{
    denotes, denotes_all, error_denotes, lex_from, number_of, ExpressionTokenizer, LexError,
    Lexeme, TokenizeError,
};

verus! {

pub struct CellParser {}

/// The message of a tokenizing error.
pub open spec fn lex_error_message(e: LexError) -> Seq<char> {
    match e {
        LexError::UnexpectedCharacter(c) => "Unexpected characther: "@.push(c),
        LexError::InvalidCellName(name) => "Invalid cell name: "@ + name,
        LexError::InvalidNumber(num) => "Invalid number format: "@ + num,
    }
}

/// The message of a tree building error.
pub open spec fn create_error_message(e: ASTCreateError) -> Seq<char> {
    match e {
        ASTCreateError::UnexpectedToken => "Unexpected Token"@,
        ASTCreateError::MismatchedParentheses => "Mismatched Parentheses"@,
        ASTCreateError::InvalidRange => "Invalid Range Expression"@,
    }
}

/// The message for a text that starts with a digit but is no number.
pub open spec fn number_error_message(raw: Seq<char>) -> Seq<char> {
    "Had error: -invalid float literal- parsing number "@ + raw
}

/// Every cell name among the lexemes can be read as a position.
pub open spec fn lexemes_readable(ls: Seq<Lexeme>) -> bool {
    forall|i: int|
        0 <= i < ls.len() && (#[trigger] ls[i]) is CellName ==> is_cell_ref(ls[i]->CellName_0)
}

/// The cell names of the expression in `raw`, if it is one that tokenizes,
/// can all be read as positions (reading any other one fails).
pub open spec fn raw_readable(raw: Seq<char>) -> bool {
    raw.len() > 0 && raw[0] == '=' ==> match lex_from(raw.skip(1), 0) {
        Ok(ls) => lexemes_readable(ls),
        Err(_) => true,
    }
}

/// `r` is what reading the expression text `s` (after the `=`) gives: the
/// tokenizing error, or, for the tokens the text spells, the tree building
/// error or the tree with the positions of the cells the tokens name.
pub open spec fn expression_outcome<N: Numeric>(
    s: Seq<char>,
    r: Result<ParsedCell<N>, ParseError>,
) -> bool {
    match lex_from(s, 0) {
        Err(le) => r is Err && r->Err_0.0@ == lex_error_message(le),
        Ok(ls) => exists|ts: Seq<Token<N>>|
            #[trigger] denotes_all(ts, ls) && match parse_spec(ts) {
                Ok(a) => r matches Ok(ParsedCell::Expr(e)) && ast_view(e.ast) == a
                    && e.dependencies@ == ast_cells(a),
                Err(ae) => r is Err && r->Err_0.0@ == create_error_message(ae),
            },
    }
}

/// `r` is what reading the text `raw` of a cell gives: an expression after
/// `=`; `TRUE` and `FALSE` as booleans; a float literal as a number; an
/// error for any other text that starts with a digit; a text otherwise.
pub open spec fn cell_outcome<N: Numeric>(
    raw: Seq<char>,
    r: Result<ParsedCell<N>, ParseError>,
) -> bool {
    if raw[0] == '=' {
        expression_outcome(raw.skip(1), r)
    } else if raw == "TRUE"@ {
        r == Ok::<ParsedCell<N>, ParseError>(ParsedCell::Value(Value::Bool(true)))
    } else if raw == "FALSE"@ {
        r == Ok::<ParsedCell<N>, ParseError>(ParsedCell::Value(Value::Bool(false)))
    } else if is_float_literal(raw) {
        r matches Ok(ParsedCell::Value(Value::Number(n))) && number_of(raw, n)
    } else if is_digit(raw[0]) {
        r is Err && r->Err_0.0@ == number_error_message(raw)
    } else {
        r matches Ok(ParsedCell::Value(Value::Text(t))) && t@ == raw
    }
}

/// A parsed expression can be evaluated.
pub open spec fn parsed_wf<N>(r: Result<ParsedCell<N>, ParseError>) -> bool {
    r matches Ok(ParsedCell::Expr(e)) ==> wf_ast(ast_view(e.ast))
}

/// Whether `cs` is a decimal number.
fn decimal_number(cs: &Vec<char>) -> (r: bool)
    ensures
        r == is_decimal_number(cs@),
{
    let ghost s = cs@;
    let n = cs.len();
    let mut m: usize = 0;
    while m < n && digit(cs[m])
        invariant
            n == s.len(),
            s == cs@,
            m <= n,
            digits_end(s, m as int) == digits_end(s, 0),
        decreases n - m,
    {
        m = m + 1;
    }
    assert(digits_end(s, m as int) == m);
    let mut f = m;
    if f < n && cs[f] == '.' {
        f = f + 1;
        while f < n && digit(cs[f])
            invariant
                n == s.len(),
                s == cs@,
                m < f <= n,
                digits_end(s, f as int) == digits_end(s, m + 1),
            decreases n - f,
        {
            f = f + 1;
        }
        assert(digits_end(s, f as int) == f);
    }
    if m == 0 && f <= 1 {
        return false;
    }
    if f == n {
        return true;
    }
    if cs[f] != 'e' && cs[f] != 'E' {
        return false;
    }
    let mut g = f + 1;
    if g < n && (cs[g] == '+' || cs[g] == '-') {
        g = g + 1;
    }
    if g >= n {
        return false;
    }
    let mut h = g;
    while h < n && digit(cs[h])
        invariant
            n == s.len(),
            s == cs@,
            g <= h <= n,
            digits_end(s, h as int) == digits_end(s, g as int),
        decreases n - h,
    {
        h = h + 1;
    }
    assert(digits_end(s, h as int) == h);
    h == n
}

/// `c` in lower case, for ASCII letters.
fn lower(c: char) -> (r: char)
    ensures
        r == ascii_lower(c),
{
    if 'A' <= c && c <= 'Z' {
        ((c as u8) + 32) as char
    } else {
        c
    }
}

/// Whether `cs` is the lower-case word `w` in any mix of cases.
fn spells(cs: &Vec<char>, w: &str) -> (r: bool)
    ensures
        r == spells_ignoring_case(cs@, w@),
{
    let n = w.unicode_len();
    if cs.len() != n {
        return false;
    }
    let mut i: usize = 0;
    while i < n
        invariant
            n == w@.len(),
            n == cs@.len(),
            i <= n,
            forall|j: int| 0 <= j < i ==> ascii_lower(#[trigger] cs@[j]) == w@[j],
        decreases n - i,
    {
        if lower(cs[i]) != w.get_char(i) {
            return false;
        }
        i = i + 1;
    }
    true
}

/// Whether `cs` is a float literal.
fn float_literal(cs: &Vec<char>) -> (r: bool)
    ensures
        r == is_float_literal(cs@),
{
    let mut body: Vec<char> = Vec::new();
    let start: usize = if cs.len() > 0 && (cs[0] == '+' || cs[0] == '-') {
        1
    } else {
        0
    };
    let mut i = start;
    while i < cs.len()
        invariant
            start <= i <= cs@.len(),
            body@ == cs@.subrange(start as int, i as int),
        decreases cs@.len() - i,
    {
        body.push(cs[i]);
        i = i + 1;
        assert(body@ =~= cs@.subrange(start as int, i as int));
    }
    assert(body@ =~= cs@.skip(start as int));
    if start == 0 {
        assert(body@ =~= cs@);
    }
    decimal_number(&body) || spells(&body, "inf") || spells(&body, "infinity") || spells(&body, "nan")
}

/// The message of a tokenizing error.
fn tokenize_error_text(e: &TokenizeError) -> (r: String)
    ensures
        forall|le: LexError| error_denotes(*e, le) ==> r@ == lex_error_message(le),
{
    match e {
        TokenizeError::UnexpectedCharacter(c) => {
            let mut m = String::from_str("Unexpected characther: ");
            push_char(&mut m, *c);
            m
        },
        TokenizeError::InvalidCellName(name) => {
            let mut m = String::from_str("Invalid cell name: ");
            m.append(name.as_str());
            m
        },
        TokenizeError::InvalidNumber(num) => {
            let mut m = String::from_str("Invalid number format: ");
            m.append(num.as_str());
            m
        },
    }
}

/// The message of a tree building error.
fn create_error_text(e: &ASTCreateError) -> (r: String)
    ensures
        r@ == create_error_message(*e),
{
    match e {
        ASTCreateError::UnexpectedToken => String::from_str("Unexpected Token"),
        ASTCreateError::MismatchedParentheses => String::from_str("Mismatched Parentheses"),
        ASTCreateError::InvalidRange => String::from_str("Invalid Range Expression"),
    }
}

impl CellParser {
    /// Reads the text of `cell` and records what it was read as.
    pub fn parse_cell<N: Numeric>(cell: &mut Cell<N>)
        requires
            old(cell).raw_representation@.len() > 0,
            raw_readable(old(cell).raw_representation@),
        ensures
            final(cell).raw_representation == old(cell).raw_representation,
            final(cell).computed_value == old(cell).computed_value,
            final(cell).needs_compute == old(cell).needs_compute,
            final(cell).parsed_representation matches Some(r) && cell_outcome(
                old(cell).raw_representation@,
                r,
            ) && parsed_wf(r),
    {
        let raw_cell = cell.raw_representation.as_str();
        let first = raw_cell.get_char(0);
        let parsed_cell = if first == '=' {
            Self::parse_expression(raw_cell)
        } else if crate::text::same_text(raw_cell, "TRUE") {
            Ok(ParsedCell::Value(Value::Bool(true)))
        } else if crate::text::same_text(raw_cell, "FALSE") {
            Ok(ParsedCell::Value(Value::Bool(false)))
        } else if float_literal(&chars_of(raw_cell)) {
            let n = N::from_decimal(raw_cell);
            Ok(ParsedCell::Value(Value::Number(n)))
        } else if digit(first) {
            let mut m = String::from_str("Had error: -invalid float literal- parsing number ");
            m.append(raw_cell);
            Err(ParseError(m))
        } else {
            Ok(ParsedCell::Value(Value::Text(raw_cell.to_string())))
        };
        cell.parsed_representation = Some(parsed_cell);
    }

    /// Reads the expression that follows the `=` of `s`.
    fn parse_expression<N: Numeric>(s: &str) -> (r: Result<ParsedCell<N>, ParseError>)
        requires
            s@.len() > 0,
            s@[0] == '=',
            raw_readable(s@),
        ensures
            expression_outcome(s@.skip(1), r),
            parsed_wf(r),
    {
        let all = chars_of(s);
        let mut rest: Vec<char> = Vec::new();
        let mut i: usize = 1;
        while i < all.len()
            invariant
                all@ == s@,
                1 <= i <= all@.len(),
                rest@ == all@.subrange(1, i as int),
            decreases all@.len() - i,
        {
            rest.push(all[i]);
            i = i + 1;
            assert(rest@ =~= all@.subrange(1, i as int));
        }
        assert(rest@ =~= s@.skip(1));
        let mut tokenizer = ExpressionTokenizer::new(rest);
        let tokens = match tokenizer.tokenize_expression::<N>() {
            Ok(t) => t,
            Err(e) => {
                return Err(ParseError(tokenize_error_text(&e)));
            },
        };
        let ghost ls = lex_from(s@.skip(1), 0)->Ok_0;
        let ghost ts = tokens@;
        proof {
            assert(denotes_all(ts, ls));
            assert forall|k: int| 0 <= k < ts.len() && (#[trigger] ts[k]) is CellName implies is_cell_ref(
                ts[k]->CellName_0@,
            ) by {
                assert(denotes(ts[k], ls[k]));
                assert(ls[k] is CellName);
            }
        }
        let mut creator = ASTCreator::new(tokens);
        match creator.parse() {
            Ok(ast) => {
                proof {
                    lemma_parse_wf(ts);
                }
                let dependencies = Self::find_dependants(&ast);
                Ok(ParsedCell::Expr(Expression { ast, dependencies }))
            },
            Err(e) => Err(ParseError(create_error_text(&e))),
        }
    }

    /// The positions of the cells the expression refers to, in the order
    /// they are written: every cell of a range, and the cell of each other
    /// name.
    fn find_dependants<N>(ast: &AST<N>) -> (r: Vec<Index>)
        requires
            wf_ast(ast_view(*ast)),
        ensures
            r@ == ast_cells(ast_view(*ast)),
    {
        let mut cells: Vec<Index> = Vec::new();
        ASTResolver::collect_cells(ast, &mut cells);
        assert(cells@ =~= ast_cells(ast_view(*ast)));
        cells
    }
}

/// Whether every cell name of the expression in `raw`, if it holds one that
/// tokenizes, can be read as a position: what `parse_cell` needs of a text.
pub fn raw_is_readable<N: Numeric>(raw: &str) -> (r: bool)
    ensures
        r == raw_readable(raw@),
{
    if raw.unicode_len() == 0 || raw.get_char(0) != '=' {
        return true;
    }
    let all = chars_of(raw);
    let mut rest: Vec<char> = Vec::new();
    let mut i: usize = 1;
    while i < all.len()
        invariant
            all@ == raw@,
            1 <= i <= all@.len(),
            rest@ == all@.subrange(1, i as int),
        decreases all@.len() - i,
    {
        rest.push(all[i]);
        i = i + 1;
        assert(rest@ =~= all@.subrange(1, i as int));
    }
    assert(rest@ =~= raw@.skip(1));
    let mut tokenizer = ExpressionTokenizer::new(rest);
    let tokens = match tokenizer.tokenize_expression::<N>() {
        Ok(t) => t,
        Err(_) => {
            return true;
        },
    };
    let ghost ls = lex_from(raw@.skip(1), 0)->Ok_0;
    assert(denotes_all(tokens@, ls));
    assert(raw@[0] == '=');
    let mut k: usize = 0;
    while k < tokens.len()
        invariant
            denotes_all(tokens@, ls),
            raw@.len() > 0,
            raw@[0] == '=',
            lex_from(raw@.skip(1), 0) == Ok::<Seq<Lexeme>, LexError>(ls),
            k <= tokens@.len(),
            forall|j: int|
                0 <= j < k && (#[trigger] ls[j]) is CellName ==> is_cell_ref(ls[j]->CellName_0),
        decreases tokens@.len() - k,
    {
        assert(denotes(tokens@[k as int], ls[k as int]));
        match &tokens[k] {
            Token::CellName(name) => {
                if !cell_ref(name.as_str()) {
                    proof {
                        assert(ls[k as int] is CellName);
                        assert(ls[k as int]->CellName_0 == name@);
                        assert(!lexemes_readable(ls));
                    }
                    return false;
                }
            },
            _ => {},
        }
        k = k + 1;
    }
    true
}

} // verus!
