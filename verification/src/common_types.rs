//! The values, tokens and trees that the lexer, the parser, the evaluator and
//! the sheet pass between them.
use vstd::prelude::*;

verus! {

/// A number of the sheet. The sheet itself never looks inside a number: it
/// asks the implementation of this trait for every number it needs.
/// None of these methods promises anything; contracts of the library that
/// speak of a number say which call, on which arguments, produced it.
pub trait Numeric: Sized + Copy {
    /// The number a float literal stands for.
    fn from_decimal(text: &str) -> Self
        requires
            is_float_literal(text@),
    ;

    /// The number of units in `n` (a count or a length).
    fn from_count(n: usize) -> Self;

    fn zero() -> Self;

    fn one() -> Self;

    fn add(&self, other: &Self) -> Self;

    fn sub(&self, other: &Self) -> Self;

    fn mul(&self, other: &Self) -> Self;

    fn div(&self, other: &Self) -> Self;

    fn max(&self, other: &Self) -> Self;

    fn min(&self, other: &Self) -> Self;

    fn round(&self) -> Self;

    fn pow(&self, exponent: &Self) -> Self;

    /// A number drawn at random from `[0, 1)`.
    fn random() -> Self;

    fn gt(&self, other: &Self) -> bool;

    fn lt(&self, other: &Self) -> bool;

    fn ge(&self, other: &Self) -> bool;

    fn le(&self, other: &Self) -> bool;

    fn equals(&self, other: &Self) -> bool;

    /// How the number is displayed in a cell.
    fn to_text(&self) -> String;
}

/// `s` has the shape of a decimal number literal that begins with a digit:
/// digits, optionally a point and more digits, optionally an exponent
/// (`e` or `E`, an optional sign, at least one digit).
pub open spec fn is_decimal_literal(s: Seq<char>) -> bool {
    let m = crate::text::digits_end(s, 0);
    let f = if m < s.len() && s[m] == '.' { crate::text::digits_end(s, m + 1) } else { m };
    &&& m > 0
    &&& (f == s.len() || {
        &&& (s[f] == 'e' || s[f] == 'E')
        &&& {
            let g = if f + 1 < s.len() && (s[f + 1] == '+' || s[f + 1] == '-') {
                f + 2
            } else {
                f + 1
            };
            &&& g < s.len()
            &&& crate::text::digits_end(s, g) == s.len()
        }
    })
}

/// `s` is a decimal number: digits with an optional point (at least one
/// digit before or after it), then an optional exponent (`e` or `E`, an
/// optional sign, at least one digit).
pub open spec fn is_decimal_number(s: Seq<char>) -> bool {
    let m = crate::text::digits_end(s, 0);
    let f = if m < s.len() && s[m] == '.' { crate::text::digits_end(s, m + 1) } else { m };
    &&& (m > 0 || f > m + 1)
    &&& (f == s.len() || {
        &&& (s[f] == 'e' || s[f] == 'E')
        &&& {
            let g = if f + 1 < s.len() && (s[f + 1] == '+' || s[f + 1] == '-') {
                f + 2
            } else {
                f + 1
            };
            &&& g < s.len()
            &&& crate::text::digits_end(s, g) == s.len()
        }
    })
}

/// `c` in lower case, for ASCII letters.
pub open spec fn ascii_lower(c: char) -> char {
    if 'A' <= c && c <= 'Z' {
        ((c as u32) + 32) as char
    } else {
        c
    }
}

/// `s` is the lower-case word `w` in any mix of cases.
pub open spec fn spells_ignoring_case(s: Seq<char>, w: Seq<char>) -> bool {
    &&& s.len() == w.len()
    &&& forall|i: int| 0 <= i < s.len() ==> ascii_lower(#[trigger] s[i]) == w[i]
}

/// `s` is what a float literal may hold after its sign.
pub open spec fn is_float_body(s: Seq<char>) -> bool {
    ||| is_decimal_number(s)
    ||| spells_ignoring_case(s, "inf"@)
    ||| spells_ignoring_case(s, "infinity"@)
    ||| spells_ignoring_case(s, "nan"@)
}

/// `s` is a float literal as `f64`'s `from_str` reads one: an optional sign,
/// then a decimal number, `inf`, `infinity` or `nan` in any case.
pub open spec fn is_float_literal(s: Seq<char>) -> bool {
    if s.len() > 0 && (s[0] == '+' || s[0] == '-') {
        is_float_body(s.skip(1))
    } else {
        is_float_body(s)
    }
}

/// A decimal literal that starts with a digit is a float literal.
pub proof fn lemma_decimal_is_float(s: Seq<char>)
    requires
        is_decimal_literal(s),
    ensures
        is_float_literal(s),
{
    crate::text::lemma_run_end(s, 0, |c: char| crate::text::is_digit(c));
    assert(crate::text::is_digit(s[0]));
    assert(is_decimal_number(s));
}

/// Zero-based position of a cell: `x` is the column, `y` the row.
#[derive(PartialEq, Eq, Structural, Clone, Copy, Debug, Hash, PartialOrd, Ord)]
pub struct Index {
    pub x: usize,
    pub y: usize,
}

#[derive(Debug, PartialEq, Clone)]
pub enum Token<N> {
    CellName(String),
    Number(N),
    StringLiteral(String),
    Plus,
    Minus,
    Division,
    Multiply,
    LParen,
    RParen,
    Colon,
    Comma,
    FunctionName(String),
    Bool(bool),
    // logical operators
    Equals,
    NotEquals,
    GreaterThan,
    LessThan,
    GreaterEquals,
    LessEquals,
    And,
    Or,
    Not,
}

/// Binding strength of an operator token; 0 for every other token.
pub open spec fn precedence<N>(t: Token<N>) -> usize {
    match t {
        Token::Or => 0,
        Token::And => 1,
        Token::Equals | Token::NotEquals | Token::GreaterThan | Token::LessThan
        | Token::GreaterEquals | Token::LessEquals => 2,
        Token::Plus | Token::Minus => 3,
        Token::Division | Token::Multiply => 4,
        Token::Not => 5,
        _ => 0,
    }
}

impl<N: Copy> Token<N> {
    pub fn get_precedence(&self) -> (r: usize)
        ensures
            r == precedence(*self),
    {
        match self {
            Token::Or => 0,
            Token::And => 1,
            Token::Equals | Token::NotEquals | Token::GreaterThan | Token::LessThan
            | Token::GreaterEquals | Token::LessEquals => 2,
            Token::Plus | Token::Minus => 3,
            Token::Division | Token::Multiply => 4,
            Token::Not => 5,
            _ => 0,
        }
    }

    /// A copy of this token.
    pub fn duplicate(&self) -> (r: Self)
        ensures
            r == *self,
    {
        match self {
            Token::CellName(s) => Token::CellName(s.clone()),
            Token::Number(n) => Token::Number(*n),
            Token::StringLiteral(s) => Token::StringLiteral(s.clone()),
            Token::Plus => Token::Plus,
            Token::Minus => Token::Minus,
            Token::Division => Token::Division,
            Token::Multiply => Token::Multiply,
            Token::LParen => Token::LParen,
            Token::RParen => Token::RParen,
            Token::Colon => Token::Colon,
            Token::Comma => Token::Comma,
            Token::FunctionName(s) => Token::FunctionName(s.clone()),
            Token::Bool(b) => Token::Bool(*b),
            Token::Equals => Token::Equals,
            Token::NotEquals => Token::NotEquals,
            Token::GreaterThan => Token::GreaterThan,
            Token::LessThan => Token::LessThan,
            Token::GreaterEquals => Token::GreaterEquals,
            Token::LessEquals => Token::LessEquals,
            Token::And => Token::And,
            Token::Or => Token::Or,
            Token::Not => Token::Not,
        }
    }
}

#[derive(Debug, PartialEq, Clone)]
pub enum Value<N> {
    Text(String),
    Number(N),
    Bool(bool),
}

/// The arithmetic a number operation stands for.
pub ghost enum NumOp {
    Add,
    Sub,
    Mul,
    Div,
    Max,
    Min,
    Pow,
}

/// `r` is what `Numeric` answered for `op` on `a` and `b`.
pub open spec fn num_op<N: Numeric>(op: NumOp, a: N, b: N, r: N) -> bool {
    match op {
        NumOp::Add => call_ensures(N::add, (&a, &b), r),
        NumOp::Sub => call_ensures(N::sub, (&a, &b), r),
        NumOp::Mul => call_ensures(N::mul, (&a, &b), r),
        NumOp::Div => call_ensures(N::div, (&a, &b), r),
        NumOp::Max => call_ensures(N::max, (&a, &b), r),
        NumOp::Min => call_ensures(N::min, (&a, &b), r),
        NumOp::Pow => call_ensures(N::pow, (&a, &b), r),
    }
}

/// A comparison of two numbers.
pub ghost enum CmpOp {
    Gt,
    Lt,
    Ge,
    Le,
    Eq,
}

/// `r` is what `Numeric` answered for comparing `a` with `b` by `op`.
pub open spec fn num_cmp<N: Numeric>(op: CmpOp, a: N, b: N, r: bool) -> bool {
    match op {
        CmpOp::Gt => call_ensures(N::gt, (&a, &b), r),
        CmpOp::Lt => call_ensures(N::lt, (&a, &b), r),
        CmpOp::Ge => call_ensures(N::ge, (&a, &b), r),
        CmpOp::Le => call_ensures(N::le, (&a, &b), r),
        CmpOp::Eq => call_ensures(N::equals, (&a, &b), r),
    }
}

/// `==` on values: numbers as `equals` answers, texts and booleans by their
/// contents; values of different kinds cannot be compared.
pub open spec fn eq_outcome<N: Numeric>(a: Value<N>, b: Value<N>, r: Option<Value<N>>) -> bool {
    match (a, b) {
        (Value::Number(x), Value::Number(y)) => r matches Some(Value::Bool(c)) && num_cmp(
            CmpOp::Eq,
            x,
            y,
            c,
        ),
        (Value::Text(s), Value::Text(t)) => r == Some(Value::<N>::Bool(s@ == t@)),
        (Value::Bool(p), Value::Bool(q)) => r == Some(Value::<N>::Bool(p == q)),
        _ => r is None,
    }
}

/// `!=` on values: the negation of `==`.
pub open spec fn ne_outcome<N: Numeric>(a: Value<N>, b: Value<N>, r: Option<Value<N>>) -> bool {
    match (a, b) {
        (Value::Number(x), Value::Number(y)) => r matches Some(Value::Bool(c)) && num_cmp(
            CmpOp::Eq,
            x,
            y,
            !c,
        ),
        (Value::Text(s), Value::Text(t)) => r == Some(Value::<N>::Bool(s@ != t@)),
        (Value::Bool(p), Value::Bool(q)) => r == Some(Value::<N>::Bool(p != q)),
        _ => r is None,
    }
}

/// `&&` on values: only booleans have it.
pub open spec fn and_outcome<N>(a: Value<N>, b: Value<N>) -> Option<Value<N>> {
    match (a, b) {
        (Value::Bool(p), Value::Bool(q)) => Some(Value::<N>::Bool(p && q)),
        _ => None,
    }
}

/// `||` on values: only booleans have it.
pub open spec fn or_outcome<N>(a: Value<N>, b: Value<N>) -> Option<Value<N>> {
    match (a, b) {
        (Value::Bool(p), Value::Bool(q)) => Some(Value::<N>::Bool(p || q)),
        _ => None,
    }
}

/// `+` on values: numbers add, texts concatenate, anything else has no sum.
pub open spec fn add_outcome<N: Numeric>(a: Value<N>, b: Value<N>, r: Option<Value<N>>) -> bool {
    match (a, b) {
        (Value::Number(x), Value::Number(y)) => r matches Some(Value::Number(z)) && num_op(
            NumOp::Add,
            x,
            y,
            z,
        ),
        (Value::Text(s), Value::Text(t)) => r matches Some(Value::Text(u)) && u@ == s@ + t@,
        _ => r is None,
    }
}

/// An arithmetic operator that only numbers have.
pub open spec fn arith_outcome<N: Numeric>(
    op: NumOp,
    a: Value<N>,
    b: Value<N>,
    r: Option<Value<N>>,
) -> bool {
    match (a, b) {
        (Value::Number(x), Value::Number(y)) => r matches Some(Value::Number(z)) && num_op(
            op,
            x,
            y,
            z,
        ),
        _ => r is None,
    }
}

/// A comparison that only numbers have; it gives a boolean.
pub open spec fn cmp_outcome<N: Numeric>(
    op: CmpOp,
    a: Value<N>,
    b: Value<N>,
    r: Option<Value<N>>,
) -> bool {
    match (a, b) {
        (Value::Number(x), Value::Number(y)) => r matches Some(Value::Bool(c)) && num_cmp(
            op,
            x,
            y,
            c,
        ),
        _ => r is None,
    }
}

/// `r` is how the value `v` is displayed: a text as it is, a number as
/// `to_text` gives it, a boolean as `TRUE` or `FALSE`.
pub open spec fn shows<N: Numeric>(v: Value<N>, r: String) -> bool {
    match v {
        Value::Text(s) => r@ == s@,
        Value::Number(n) => call_ensures(N::to_text, (&n,), r),
        Value::Bool(b) => r@ == if b {
            "TRUE"@
        } else {
            "FALSE"@
        },
    }
}

impl<N: Numeric> Value<N> {
    /// A copy of this value.
    pub fn duplicate(&self) -> (r: Self)
        ensures
            r == *self,
    {
        match self {
            Value::Text(s) => Value::Text(s.clone()),
            Value::Number(n) => Value::Number(*n),
            Value::Bool(b) => Value::Bool(*b),
        }
    }

    pub fn add(&self, other: Value<N>) -> (r: Option<Value<N>>)
        ensures
            add_outcome(*self, other, r),
    {
        match (self, other) {
            (Value::Number(a), Value::Number(b)) => Some(Value::Number(a.add(&b))),
            (Value::Text(a), Value::Text(b)) => {
                let mut s = a.clone();
                s.append(b.as_str());
                Some(Value::Text(s))
            },
            _ => None,
        }
    }

    pub fn sub(&self, other: Value<N>) -> (r: Option<Value<N>>)
        ensures
            arith_outcome(NumOp::Sub, *self, other, r),
    {
        match (self, other) {
            (Value::Number(a), Value::Number(b)) => Some(Value::Number(a.sub(&b))),
            _ => None,
        }
    }

    pub fn div(&self, other: Value<N>) -> (r: Option<Value<N>>)
        ensures
            arith_outcome(NumOp::Div, *self, other, r),
    {
        match (self, other) {
            (Value::Number(a), Value::Number(b)) => Some(Value::Number(a.div(&b))),
            _ => None,
        }
    }

    pub fn mult(&self, other: Value<N>) -> (r: Option<Value<N>>)
        ensures
            arith_outcome(NumOp::Mul, *self, other, r),
    {
        match (self, other) {
            (Value::Number(a), Value::Number(b)) => Some(Value::Number(a.mul(&b))),
            _ => None,
        }
    }

    pub fn and(&self, other: Value<N>) -> (r: Option<Value<N>>)
        ensures
            r == and_outcome(*self, other),
    {
        match (self, other) {
            (Value::Bool(a), Value::Bool(b)) => Some(Value::Bool(*a && b)),
            _ => None,
        }
    }

    pub fn or(&self, other: Value<N>) -> (r: Option<Value<N>>)
        ensures
            r == or_outcome(*self, other),
    {
        match (self, other) {
            (Value::Bool(a), Value::Bool(b)) => Some(Value::Bool(*a || b)),
            _ => None,
        }
    }

    pub fn equals(&self, other: Value<N>) -> (r: Option<Value<N>>)
        ensures
            eq_outcome(*self, other, r),
    {
        match (self, other) {
            (Value::Number(a), Value::Number(b)) => Some(Value::Bool(a.equals(&b))),
            (Value::Text(a), Value::Text(b)) => Some(
                Value::Bool(crate::text::same_text(a.as_str(), b.as_str())),
            ),
            (Value::Bool(a), Value::Bool(b)) => Some(Value::Bool(*a == b)),
            _ => None,
        }
    }

    pub fn not_equals(&self, other: Value<N>) -> (r: Option<Value<N>>)
        ensures
            ne_outcome(*self, other, r),
    {
        match (self, other) {
            (Value::Number(a), Value::Number(b)) => Some(Value::Bool(!a.equals(&b))),
            (Value::Text(a), Value::Text(b)) => Some(
                Value::Bool(!crate::text::same_text(a.as_str(), b.as_str())),
            ),
            (Value::Bool(a), Value::Bool(b)) => Some(Value::Bool(*a != b)),
            _ => None,
        }
    }

    pub fn greater_than(&self, other: Value<N>) -> (r: Option<Value<N>>)
        ensures
            cmp_outcome(CmpOp::Gt, *self, other, r),
    {
        match (self, other) {
            (Value::Number(a), Value::Number(b)) => Some(Value::Bool(a.gt(&b))),
            _ => None,
        }
    }

    pub fn less_than(&self, other: Value<N>) -> (r: Option<Value<N>>)
        ensures
            cmp_outcome(CmpOp::Lt, *self, other, r),
    {
        match (self, other) {
            (Value::Number(a), Value::Number(b)) => Some(Value::Bool(a.lt(&b))),
            _ => None,
        }
    }

    pub fn greater_equals(&self, other: Value<N>) -> (r: Option<Value<N>>)
        ensures
            cmp_outcome(CmpOp::Ge, *self, other, r),
    {
        match (self, other) {
            (Value::Number(a), Value::Number(b)) => Some(Value::Bool(a.ge(&b))),
            _ => None,
        }
    }

    pub fn less_equals(&self, other: Value<N>) -> (r: Option<Value<N>>)
        ensures
            cmp_outcome(CmpOp::Le, *self, other, r),
    {
        match (self, other) {
            (Value::Number(a), Value::Number(b)) => Some(Value::Bool(a.le(&b))),
            _ => None,
        }
    }

    /// How the value is displayed: a text as it is, a number as `to_text`
    /// gives it, a boolean as `TRUE` or `FALSE`.
    pub fn to_text(&self) -> (r: String)
        ensures
            shows(*self, r),
    {
        match self {
            Value::Text(s) => s.clone(),
            Value::Number(n) => n.to_text(),
            Value::Bool(b) => if *b {
                "TRUE".to_string()
            } else {
                "FALSE".to_string()
            },
        }
    }
}

#[derive(Debug, PartialEq)]
pub enum AST<N> {
    CellName(String),
    Value(Value<N>),
    BinaryOp { op: Token<N>, left: Box<AST<N>>, right: Box<AST<N>> },
    UnaryOp { op: Token<N>, expr: Box<AST<N>> },
    Range { from: String, to: String },
    FunctionCall { name: String, arguments: Vec<AST<N>> },
}

/// An expression tree with its lists of arguments as sequences.
pub ghost enum ASTView<N> {
    CellName(String),
    Value(Value<N>),
    BinaryOp { op: Token<N>, left: Box<ASTView<N>>, right: Box<ASTView<N>> },
    UnaryOp { op: Token<N>, expr: Box<ASTView<N>> },
    Range { from: String, to: String },
    FunctionCall { name: String, arguments: Seq<ASTView<N>> },
}

/// The tree `a` as an `ASTView`.
pub open spec fn ast_view<N>(a: AST<N>) -> ASTView<N>
    decreases a, 1int,
{
    match a {
        AST::CellName(s) => ASTView::CellName(s),
        AST::Value(v) => ASTView::Value(v),
        AST::BinaryOp { op, left, right } => ASTView::BinaryOp {
            op,
            left: Box::new(ast_view(*left)),
            right: Box::new(ast_view(*right)),
        },
        AST::UnaryOp { op, expr } => ASTView::UnaryOp { op, expr: Box::new(ast_view(*expr)) },
        AST::Range { from, to } => ASTView::Range { from, to },
        AST::FunctionCall { name, arguments } => ASTView::FunctionCall {
            name,
            arguments: asts_view(a, arguments@),
        },
    }
}

/// The trees `s` (arguments of `parent`) as `ASTView`s.
pub open spec fn asts_view<N>(parent: AST<N>, s: Seq<AST<N>>) -> Seq<ASTView<N>>
    decreases parent, 0int, s.len(),
    when parent matches AST::FunctionCall { arguments, .. } && s.len() <= arguments@.len() && s
        =~= arguments@.take(s.len() as int)
{
    if s.len() == 0 {
        Seq::empty()
    } else {
        asts_view(parent, s.drop_last()).push(ast_view(s.last()))
    }
}

#[derive(Debug)]
pub struct Expression<N> {
    pub ast: AST<N>,
    pub dependencies: Vec<Index>,
}

#[derive(Debug)]
pub enum ParsedCell<N> {
    Value(Value<N>),
    Expr(Expression<N>),
}

#[derive(Debug, Clone)]
pub struct ParseError(pub String);

#[derive(Debug, Clone)]
pub enum ComputeError {
    ParseError(String),
    TypeError,
    UnfindableReference(String),
    Cycle,
    UnknownFunction,
    InvalidArgument(String),
}

/// How an error is displayed in its cell.
pub open spec fn error_text(e: ComputeError) -> Seq<char> {
    match e {
        ComputeError::ParseError(_) => "!PARSE ERROR!"@,
        ComputeError::TypeError => "!TYPE ERROR!"@,
        ComputeError::UnfindableReference(_) => "!REFERENCE ERROR!"@,
        ComputeError::Cycle => "!CYCLIC REFERENCE!"@,
        ComputeError::UnknownFunction => "!UNKNOWN FUNCTION!"@,
        ComputeError::InvalidArgument(_) => "!INVALID ARGUMENT!"@,
    }
}

impl ComputeError {
    /// A copy of this error.
    pub fn duplicate(&self) -> (r: Self)
        ensures
            r == *self,
    {
        match self {
            ComputeError::ParseError(s) => ComputeError::ParseError(s.clone()),
            ComputeError::TypeError => ComputeError::TypeError,
            ComputeError::UnfindableReference(s) => ComputeError::UnfindableReference(s.clone()),
            ComputeError::Cycle => ComputeError::Cycle,
            ComputeError::UnknownFunction => ComputeError::UnknownFunction,
            ComputeError::InvalidArgument(s) => ComputeError::InvalidArgument(s.clone()),
        }
    }

    /// How the error is displayed in its cell.
    pub fn to_text(&self) -> (r: String)
        ensures
            r@ == error_text(*self),
    {
        match self {
            ComputeError::ParseError(_) => "!PARSE ERROR!".to_string(),
            ComputeError::TypeError => "!TYPE ERROR!".to_string(),
            ComputeError::UnfindableReference(_) => "!REFERENCE ERROR!".to_string(),
            ComputeError::Cycle => "!CYCLIC REFERENCE!".to_string(),
            ComputeError::UnknownFunction => "!UNKNOWN FUNCTION!".to_string(),
            ComputeError::InvalidArgument(_) => "!INVALID ARGUMENT!".to_string(),
        }
    }
}

/// A cell of the sheet: the text typed into it, what that text was read
/// as, and the value computed from it.
#[derive(Debug)]
pub struct Cell<N> {
    pub needs_compute: bool,
    pub raw_representation: String,
    pub parsed_representation: Option<Result<ParsedCell<N>, ParseError>>,
    pub computed_value: Option<Result<Value<N>, ComputeError>>,
}

impl<N> Cell<N> {
    /// A cell holding the text `raw`, not yet read nor computed.
    pub fn from_raw(raw: String) -> (r: Self)
        ensures
            r.raw_representation == raw,
            r.parsed_representation is None,
            r.computed_value is None,
            r.needs_compute,
    {
        Self {
            raw_representation: raw,
            parsed_representation: None,
            computed_value: None,
            needs_compute: true,
        }
    }
}

} // verus!
