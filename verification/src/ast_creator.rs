//! Builds an expression tree from tokens: operators bind by precedence and
//! group to the left; parentheses, function calls and ranges are read as
//! primaries.
use vstd::prelude::*;

use crate::ast_resolver::{wf_args, wf_ast};
use crate::cell_names::is_cell_ref;
use crate::common_types::{ast_view, asts_view, precedence, ASTView, Numeric, Token, Value, AST};

verus! {

pub struct ASTCreator<N> {
    tokens: Vec<Token<N>>,
    pos: usize,
}

#[derive(Debug)]
pub enum ASTCreateError {
    UnexpectedToken,
    MismatchedParentheses,
    InvalidRange,
}

/// What reading a tree gives: the tree and the position after it, or the
/// error and the position reading stopped at.
pub type Parsed<T> = Result<(T, int), (ASTCreateError, int)>;

/// A binary operator: arithmetic, a comparison, `&&` or `||`.
pub open spec fn is_binary_op<N>(t: Token<N>) -> bool {
    ||| t is Plus
    ||| t is Minus
    ||| t is Multiply
    ||| t is Division
    ||| t is Equals
    ||| t is NotEquals
    ||| t is GreaterThan
    ||| t is LessThan
    ||| t is GreaterEquals
    ||| t is LessEquals
    ||| t is And
    ||| t is Or
}

/// The position after `next()` at `p`: one further if a token is there.
pub open spec fn after_next<N>(ts: Seq<Token<N>>, p: int) -> int {
    if p < ts.len() {
        p + 1
    } else {
        p
    }
}

/// A primary at `p`: a function call, a range, a cell name, a literal, or
/// an expression in parentheses.
pub open spec fn parse_primary_spec<N>(ts: Seq<Token<N>>, p: int) -> Parsed<ASTView<N>>
    decreases ts.len() - p, 0int,
{
    if p < 0 || p >= ts.len() {
        Err((ASTCreateError::UnexpectedToken, p))
    } else {
        match ts[p] {
            Token::FunctionName(name) => if p + 1 < ts.len() && ts[p + 1] is LParen {
                match parse_arguments_spec(ts, p + 2, Seq::empty()) {
                    Ok((args, q)) => Ok((ASTView::FunctionCall { name, arguments: args }, q)),
                    Err(e) => Err(e),
                }
            } else {
                Err((ASTCreateError::UnexpectedToken, after_next(ts, p + 1)))
            },
            Token::CellName(name) => if p + 1 < ts.len() && ts[p + 1] is Colon {
                if p + 2 < ts.len() && ts[p + 2] is CellName {
                    Ok((ASTView::Range { from: name, to: ts[p + 2]->CellName_0 }, p + 3))
                } else {
                    Err((ASTCreateError::InvalidRange, after_next(ts, p + 2)))
                }
            } else {
                Ok((ASTView::CellName(name), p + 1))
            },
            Token::Number(n) => Ok((ASTView::Value(Value::Number(n)), p + 1)),
            Token::StringLiteral(s) => Ok((ASTView::Value(Value::Text(s)), p + 1)),
            Token::Bool(b) => Ok((ASTView::Value(Value::Bool(b)), p + 1)),
            Token::LParen => match parse_expression_spec(ts, p + 1, 0) {
                Ok((e, q)) => if q < ts.len() && ts[q] is RParen {
                    Ok((e, q + 1))
                } else {
                    Err((ASTCreateError::MismatchedParentheses, after_next(ts, q)))
                },
                Err(e) => Err(e),
            },
            _ => Err((ASTCreateError::UnexpectedToken, p + 1)),
        }
    }
}

/// An expression at `p` whose operators bind at least as strongly as
/// `min_prec`: a primary, then what `parse_tail_spec` adds to it.
pub open spec fn parse_expression_spec<N>(ts: Seq<Token<N>>, p: int, min_prec: int) -> Parsed<
    ASTView<N>,
>
    decreases ts.len() - p, 3int,
{
    if p < 0 || p > ts.len() {
        Err((ASTCreateError::UnexpectedToken, p))
    } else {
        match parse_primary_spec(ts, p) {
            Ok((left, q)) => if q <= p || q > ts.len() {
                Err((ASTCreateError::UnexpectedToken, q))
            } else {
                parse_tail_spec(ts, left, q, min_prec)
            },
            Err(e) => Err(e),
        }
    }
}

/// While a binary operator binding at least as strongly as `min_prec`
/// follows, it joins `left` to the expression after it, which may only hold
/// operators binding more strongly.
pub open spec fn parse_tail_spec<N>(
    ts: Seq<Token<N>>,
    left: ASTView<N>,
    p: int,
    min_prec: int,
) -> Parsed<ASTView<N>>
    decreases ts.len() - p, 2int,
{
    if 0 <= p < ts.len() && is_binary_op(ts[p]) && precedence(ts[p]) >= min_prec {
        let prec = precedence(ts[p]) as int;
        match parse_expression_spec(ts, p + 1, prec + 1) {
            Ok((right, q)) => if q <= p + 1 || q > ts.len() {
                Err((ASTCreateError::UnexpectedToken, q))
            } else {
                parse_tail_spec(
                    ts,
                    ASTView::BinaryOp { op: ts[p], left: Box::new(left), right: Box::new(right) },
                    q,
                    min_prec,
                )
            },
            Err(e) => Err(e),
        }
    } else {
        Ok((left, p))
    }
}

/// The arguments of a call from `p` on, after the arguments `acc` already
/// read: expressions separated by commas and ended by `)`.
pub open spec fn parse_arguments_spec<N>(
    ts: Seq<Token<N>>,
    p: int,
    acc: Seq<ASTView<N>>,
) -> Parsed<Seq<ASTView<N>>>
    decreases ts.len() - p, 4int,
{
    if p < 0 || p > ts.len() {
        Err((ASTCreateError::UnexpectedToken, p))
    } else {
        match parse_expression_spec(ts, p, 0) {
            Ok((arg, q)) => if q <= p || q > ts.len() {
                Err((ASTCreateError::UnexpectedToken, q))
            } else if q == ts.len() {
                Err((ASTCreateError::MismatchedParentheses, q))
            } else {
                match ts[q] {
                    Token::Comma => parse_arguments_spec(ts, q + 1, acc.push(arg)),
                    Token::RParen => Ok((acc.push(arg), q + 1)),
                    _ => Err((ASTCreateError::UnexpectedToken, q + 1)),
                }
            },
            Err(e) => Err(e),
        }
    }
}

/// The tree that all of `ts` reads as; tokens left over after the
/// expression are an unexpected token, whatever happened before.
pub open spec fn parse_spec<N>(ts: Seq<Token<N>>) -> Result<ASTView<N>, ASTCreateError> {
    match parse_expression_spec(ts, 0, 0) {
        Ok((a, q)) => if q < ts.len() {
            Err(ASTCreateError::UnexpectedToken)
        } else {
            Ok(a)
        },
        Err((e, q)) => if q < ts.len() {
            Err(ASTCreateError::UnexpectedToken)
        } else {
            Err(e)
        },
    }
}

/// A call of an exec reader matches the spec reader from the old position.
pub open spec fn reads_as<T, V>(
    r: Result<T, ASTCreateError>,
    view: spec_fn(T) -> V,
    spec: Parsed<V>,
    new_pos: int,
) -> bool {
    match spec {
        Ok((v, q)) => r is Ok && view(r->Ok_0) == v && new_pos == q,
        Err((e, q)) => r == Err::<T, ASTCreateError>(e) && new_pos == q,
    }
}

impl<N: Numeric> ASTCreator<N> {
    pub closed spec fn tokens(&self) -> Seq<Token<N>> {
        self.tokens@
    }

    pub closed spec fn position(&self) -> int {
        self.pos as int
    }

    pub fn new(tokens: Vec<Token<N>>) -> (r: Self)
        ensures
            r.tokens() == tokens@,
            r.position() == 0,
    {
        Self { tokens, pos: 0 }
    }

    /// Reads all the tokens as one expression.
    pub fn parse(&mut self) -> (r: Result<AST<N>, ASTCreateError>)
        requires
            old(self).position() == 0,
        ensures
            match parse_spec(old(self).tokens()) {
                Ok(a) => r is Ok && ast_view(r->Ok_0) == a,
                Err(e) => r == Err::<AST<N>, ASTCreateError>(e),
            },
    {
        let result = self.parse_expression(0);
        if self.pos < self.tokens.len() {
            // Tokens are left over.
            Err(ASTCreateError::UnexpectedToken)
        } else {
            result
        }
    }

    /// The token at the current position, which it moves past.
    fn next_token(&mut self) -> (r: Option<Token<N>>)
        requires
            old(self).pos <= old(self).tokens@.len(),
        ensures
            final(self).tokens@ == old(self).tokens@,
            final(self).pos == after_next(old(self).tokens@, old(self).pos as int),
            r == if old(self).pos < old(self).tokens@.len() {
                Some(old(self).tokens@[old(self).pos as int])
            } else {
                None::<Token<N>>
            },
    {
        if self.pos < self.tokens.len() {
            let t = self.tokens[self.pos].duplicate();
            self.pos = self.pos + 1;
            Some(t)
        } else {
            None
        }
    }

    fn parse_expression(&mut self, min_precedence: usize) -> (r: Result<AST<N>, ASTCreateError>)
        requires
            old(self).pos <= old(self).tokens@.len(),
        ensures
            final(self).tokens@ == old(self).tokens@,
            final(self).pos <= final(self).tokens@.len(),
            reads_as(
                r,
                |a: AST<N>| ast_view(a),
                parse_expression_spec(old(self).tokens@, old(self).pos as int, min_precedence as int),
                final(self).pos as int,
            ),
            r is Ok ==> final(self).pos > old(self).pos,
        decreases old(self).tokens@.len() - old(self).pos, 3int,
    {
        let ghost ts = self.tokens@;
        let ghost p0 = self.pos as int;
        let mut left = match self.parse_primary() {
            Ok(l) => l,
            Err(e) => {
                return Err(e);
            },
        };
        let ghost q0 = self.pos as int;
        let n_tokens = self.tokens.len();
        assert(parse_expression_spec(ts, p0, min_precedence as int) == parse_tail_spec(
            ts,
            ast_view(left),
            q0,
            min_precedence as int,
        ));
        loop
            invariant
                self.tokens@ == ts,
                ts == old(self).tokens@,
                n_tokens == ts.len(),
                p0 == old(self).pos,
                p0 < self.pos <= ts.len(),
                parse_expression_spec(ts, p0, min_precedence as int) == parse_tail_spec(
                    ts,
                    ast_view(left),
                    self.pos as int,
                    min_precedence as int,
                ),
            ensures
                self.tokens@ == ts,
                p0 < self.pos <= ts.len(),
                parse_expression_spec(ts, p0, min_precedence as int) == Ok::<
                    (ASTView<N>, int),
                    (ASTCreateError, int),
                >((ast_view(left), self.pos as int)),
            decreases ts.len() - self.pos,
        {
            let op = match self.peek_operator() {
                Some(op) => op,
                None => break,
            };
            let precedence = op.get_precedence();
            if precedence < min_precedence {
                break;
            }
            let ghost at = self.pos as int;
            self.pos = self.pos + 1;
            let right = match self.parse_expression(precedence + 1) {
                Ok(r) => r,
                Err(e) => {
                    return Err(e);
                },
            };
            left = AST::BinaryOp { op, left: Box::new(left), right: Box::new(right) };
            assert(ast_view(left) == ASTView::BinaryOp {
                op: ts[at],
                left: Box::new(ast_view(*left->BinaryOp_left)),
                right: Box::new(ast_view(*left->BinaryOp_right)),
            });
        }
        Ok(left)
    }

    fn parse_primary(&mut self) -> (r: Result<AST<N>, ASTCreateError>)
        requires
            old(self).pos <= old(self).tokens@.len(),
        ensures
            final(self).tokens@ == old(self).tokens@,
            final(self).pos <= final(self).tokens@.len(),
            reads_as(
                r,
                |a: AST<N>| ast_view(a),
                parse_primary_spec(old(self).tokens@, old(self).pos as int),
                final(self).pos as int,
            ),
            r is Ok ==> final(self).pos > old(self).pos,
        decreases old(self).tokens@.len() - old(self).pos, 0int,
    {
        let ghost ts = self.tokens@;
        let ghost p = self.pos as int;
        match self.next_token() {
            Some(Token::FunctionName(name)) => {
                self.expect_token(Token::LParen)?;
                assert(self.pos == p + 2);
                let arguments = self.parse_function_arguements()?;
                let ghost args = arguments@;
                let r = AST::FunctionCall { name, arguments };
                proof {
                    lemma_asts_view_all(r);
                    let vs = parse_arguments_spec(ts, p + 2, Seq::empty())->Ok_0.0;
                    assert(r->FunctionCall_arguments@ == args);
                    assert(vs.len() == args.len());
                    assert forall|i: int| 0 <= i < vs.len() implies asts_view(
                        r,
                        r->FunctionCall_arguments@,
                    )[i] == vs[i] by {
                        assert(ast_view(args[i]) == vs[i]);
                    }
                    assert(asts_view(r, r->FunctionCall_arguments@) =~= vs);
                }
                Ok(r)
            },
            Some(Token::CellName(name)) => {
                // A colon after a cell name makes a range.
                if self.pos < self.tokens.len() && self.peek_is_colon() {
                    self.pos = self.pos + 1;
                    match self.next_token() {
                        Some(Token::CellName(to_name)) => Ok(AST::Range { from: name, to: to_name }),
                        _ => Err(ASTCreateError::InvalidRange),
                    }
                } else {
                    Ok(AST::CellName(name))
                }
            },
            Some(Token::Number(n)) => Ok(AST::Value(Value::Number(n))),
            Some(Token::StringLiteral(s)) => Ok(AST::Value(Value::Text(s))),
            Some(Token::Bool(b)) => Ok(AST::Value(Value::Bool(b))),
            Some(Token::LParen) => {
                let expr = self.parse_expression(0)?;
                match self.next_token() {
                    Some(Token::RParen) => Ok(expr),
                    _ => Err(ASTCreateError::MismatchedParentheses),
                }
            },
            _ => Err(ASTCreateError::UnexpectedToken),
        }
    }

    fn peek_is_colon(&self) -> (r: bool)
        requires
            self.pos < self.tokens@.len(),
        ensures
            r == (self.tokens@[self.pos as int] is Colon),
    {
        match &self.tokens[self.pos] {
            Token::Colon => true,
            _ => false,
        }
    }

    /// The arithmetic operator at the current position, if one is there.
    fn peek_operator(&self) -> (r: Option<Token<N>>)
        ensures
            r == if self.pos < self.tokens@.len() && is_binary_op(self.tokens@[self.pos as int]) {
                Some(self.tokens@[self.pos as int])
            } else {
                None::<Token<N>>
            },
    {
        if self.pos >= self.tokens.len() {
            return None;
        }
        match &self.tokens[self.pos] {
            Token::Plus => Some(Token::Plus),
            Token::Minus => Some(Token::Minus),
            Token::Multiply => Some(Token::Multiply),
            Token::Division => Some(Token::Division),
            Token::Equals => Some(Token::Equals),
            Token::NotEquals => Some(Token::NotEquals),
            Token::GreaterThan => Some(Token::GreaterThan),
            Token::LessThan => Some(Token::LessThan),
            Token::GreaterEquals => Some(Token::GreaterEquals),
            Token::LessEquals => Some(Token::LessEquals),
            Token::And => Some(Token::And),
            Token::Or => Some(Token::Or),
            _ => None,
        }
    }

    /// Moves past the next token, which must be `expected` (a token that
    /// carries nothing).
    fn expect_token(&mut self, expected: Token<N>) -> (r: Result<(), ASTCreateError>)
        requires
            old(self).pos <= old(self).tokens@.len(),
            expected is LParen || expected is RParen || expected is Comma || expected is Colon,
        ensures
            final(self).tokens@ == old(self).tokens@,
            final(self).pos == after_next(old(self).tokens@, old(self).pos as int),
            r is Ok <==> (old(self).pos < old(self).tokens@.len() && old(self).tokens@[old(
                self,
            ).pos as int] == expected),
            r is Err ==> r == Err::<(), ASTCreateError>(ASTCreateError::UnexpectedToken),
    {
        match (self.next_token(), expected) {
            (Some(Token::LParen), Token::LParen) => Ok(()),
            (Some(Token::RParen), Token::RParen) => Ok(()),
            (Some(Token::Comma), Token::Comma) => Ok(()),
            (Some(Token::Colon), Token::Colon) => Ok(()),
            _ => Err(ASTCreateError::UnexpectedToken),
        }
    }

    fn parse_function_arguements(&mut self) -> (r: Result<Vec<AST<N>>, ASTCreateError>)
        requires
            old(self).pos <= old(self).tokens@.len(),
        ensures
            final(self).tokens@ == old(self).tokens@,
            final(self).pos <= final(self).tokens@.len(),
            match parse_arguments_spec(old(self).tokens@, old(self).pos as int, Seq::empty()) {
                Ok((vs, q)) => r is Ok && r->Ok_0@.len() == vs.len() && (forall|i: int|
                    0 <= i < vs.len() ==> ast_view(#[trigger] r->Ok_0@[i]) == vs[i])
                    && final(self).pos == q,
                Err((e, q)) => r == Err::<Vec<AST<N>>, ASTCreateError>(e) && final(self).pos == q,
            },
            r is Ok ==> final(self).pos > old(self).pos,
        decreases old(self).tokens@.len() - old(self).pos, 4int,
    {
        let ghost ts = self.tokens@;
        let ghost p0 = self.pos as int;
        let mut arguements: Vec<AST<N>> = Vec::new();
        let ghost mut acc: Seq<ASTView<N>> = Seq::empty();
        loop
            invariant_except_break
                parse_arguments_spec(ts, p0, Seq::empty()) == parse_arguments_spec(
                    ts,
                    self.pos as int,
                    acc,
                ),
            invariant
                self.tokens@ == ts,
                ts == old(self).tokens@,
                p0 == old(self).pos,
                p0 <= self.pos <= ts.len(),
                arguements@.len() == acc.len(),
                forall|i: int| 0 <= i < acc.len() ==> ast_view(#[trigger] arguements@[i]) == acc[i],
                acc.len() > 0 ==> p0 < self.pos,
            ensures
                self.tokens@ == ts,
                p0 < self.pos <= ts.len(),
                arguements@.len() == acc.len(),
                forall|i: int| 0 <= i < acc.len() ==> ast_view(#[trigger] arguements@[i]) == acc[i],
                parse_arguments_spec(ts, p0, Seq::empty()) == Ok::<
                    (Seq<ASTView<N>>, int),
                    (ASTCreateError, int),
                >((acc, self.pos as int)),
            decreases ts.len() - self.pos,
        {
            let ghost at = self.pos as int;
            let arg = self.parse_expression(0)?;
            let ghost q = self.pos as int;
            proof {
                acc = acc.push(ast_view(arg));
            }
            arguements.push(arg);
            match self.next_token() {
                Some(Token::Comma) => {},
                Some(Token::RParen) => {
                    break;
                },
                Some(_unexpected) => {
                    return Err(ASTCreateError::UnexpectedToken);
                },
                None => {
                    return Err(ASTCreateError::MismatchedParentheses);
                },
            }
        }
        Ok(arguements)
    }
}

/// The views of the arguments of a call are the views of its arguments.
pub proof fn lemma_asts_view_all<N>(call: AST<N>)
    requires
        call is FunctionCall,
    ensures
        asts_view(call, call->FunctionCall_arguments@).len() == call->FunctionCall_arguments@.len(),
        forall|i: int|
            0 <= i < call->FunctionCall_arguments@.len() ==> asts_view(
                call,
                call->FunctionCall_arguments@,
            )[i] == ast_view(#[trigger] call->FunctionCall_arguments@[i]),
{
    let args = call->FunctionCall_arguments@;
    lemma_asts_view_prefix(call, args.len() as int);
    assert(args.take(args.len() as int) =~= args);
}

proof fn lemma_asts_view_prefix<N>(call: AST<N>, k: int)
    requires
        call is FunctionCall,
        0 <= k <= call->FunctionCall_arguments@.len(),
    ensures
        asts_view(call, call->FunctionCall_arguments@.take(k)).len() == k,
        forall|i: int|
            0 <= i < k ==> asts_view(call, call->FunctionCall_arguments@.take(k))[i] == ast_view(
                #[trigger] call->FunctionCall_arguments@[i],
            ),
    decreases k,
{
    let args = call->FunctionCall_arguments@;
    if k > 0 {
        lemma_asts_view_prefix(call, k - 1);
        assert(args.take(k).drop_last() =~= args.take(k - 1));
    }
}

/// Every cell name among the tokens can be read as a position.
pub open spec fn names_readable<N>(ts: Seq<Token<N>>) -> bool {
    forall|i: int|
        0 <= i < ts.len() && (#[trigger] ts[i]) is CellName ==> is_cell_ref(
            ts[i]->CellName_0@,
        )
}

/// A call whose arguments can all be evaluated can be evaluated.
proof fn lemma_call_wf<N>(name: String, args: Seq<ASTView<N>>, k: int)
    requires
        0 <= k <= args.len(),
        forall|i: int| 0 <= i < args.len() ==> wf_ast(#[trigger] args[i]),
    ensures
        wf_args(ASTView::FunctionCall { name, arguments: args }, k),
    decreases k,
{
    if k > 0 {
        lemma_call_wf(name, args, k - 1);
    }
}

/// A primary read from tokens whose cell names are readable can be evaluated.
pub proof fn lemma_primary_wf<N>(ts: Seq<Token<N>>, p: int)
    requires
        names_readable(ts),
        parse_primary_spec(ts, p) is Ok,
    ensures
        wf_ast(parse_primary_spec(ts, p)->Ok_0.0),
    decreases ts.len() - p, 0int,
{
    if 0 <= p < ts.len() {
        match ts[p] {
            Token::FunctionName(name) => {
                let args = parse_arguments_spec(ts, p + 2, Seq::empty());
                lemma_arguments_wf(ts, p + 2, Seq::empty());
                lemma_call_wf(name, args->Ok_0.0, args->Ok_0.0.len() as int);
            },
            Token::CellName(name) => {
                assert(ts[p] is CellName);
                if p + 1 < ts.len() && ts[p + 1] is Colon {
                    assert(ts[p + 2] is CellName);
                }
            },
            Token::LParen => {
                lemma_expression_wf(ts, p + 1, 0);
            },
            _ => {},
        }
    }
}

/// An expression read from tokens whose cell names are readable can be
/// evaluated.
pub proof fn lemma_expression_wf<N>(ts: Seq<Token<N>>, p: int, min_prec: int)
    requires
        names_readable(ts),
        parse_expression_spec(ts, p, min_prec) is Ok,
    ensures
        wf_ast(parse_expression_spec(ts, p, min_prec)->Ok_0.0),
    decreases ts.len() - p, 3int,
{
    let pr = parse_primary_spec(ts, p);
    lemma_primary_wf(ts, p);
    let q = pr->Ok_0.1;
    lemma_tail_wf(ts, pr->Ok_0.0, q, min_prec);
}

/// Joining an evaluable tree to what follows keeps it evaluable.
pub proof fn lemma_tail_wf<N>(ts: Seq<Token<N>>, left: ASTView<N>, p: int, min_prec: int)
    requires
        names_readable(ts),
        wf_ast(left),
        parse_tail_spec(ts, left, p, min_prec) is Ok,
    ensures
        wf_ast(parse_tail_spec(ts, left, p, min_prec)->Ok_0.0),
    decreases ts.len() - p, 2int,
{
    if 0 <= p < ts.len() && is_binary_op(ts[p]) && precedence(ts[p]) >= min_prec {
        let prec = precedence(ts[p]) as int;
        let er = parse_expression_spec(ts, p + 1, prec + 1);
        lemma_expression_wf(ts, p + 1, prec + 1);
        let q = er->Ok_0.1;
        lemma_tail_wf(
            ts,
            ASTView::BinaryOp { op: ts[p], left: Box::new(left), right: Box::new(er->Ok_0.0) },
            q,
            min_prec,
        );
    }
}

/// Arguments read from tokens whose cell names are readable can be
/// evaluated.
pub proof fn lemma_arguments_wf<N>(ts: Seq<Token<N>>, p: int, acc: Seq<ASTView<N>>)
    requires
        names_readable(ts),
        forall|i: int| 0 <= i < acc.len() ==> wf_ast(#[trigger] acc[i]),
        parse_arguments_spec(ts, p, acc) is Ok,
    ensures
        forall|i: int|
            0 <= i < parse_arguments_spec(ts, p, acc)->Ok_0.0.len() ==> wf_ast(
                #[trigger] parse_arguments_spec(ts, p, acc)->Ok_0.0[i],
            ),
    decreases ts.len() - p, 4int,
{
    let er = parse_expression_spec(ts, p, 0);
    lemma_expression_wf(ts, p, 0);
    let arg = er->Ok_0.0;
    let q = er->Ok_0.1;
    let acc2 = acc.push(arg);
    assert forall|i: int| 0 <= i < acc2.len() implies wf_ast(#[trigger] acc2[i]) by {
        if i < acc.len() {
            assert(acc2[i] == acc[i]);
        }
    }
    if ts[q] is Comma {
        lemma_arguments_wf(ts, q + 1, acc2);
    }
}

/// A tree read from tokens whose cell names are readable can be evaluated.
pub proof fn lemma_parse_wf<N>(ts: Seq<Token<N>>)
    requires
        names_readable(ts),
        parse_spec(ts) is Ok,
    ensures
        wf_ast(parse_spec(ts)->Ok_0),
{
    lemma_expression_wf(ts, 0, 0);
}


/// A token that is an operand on its own: a cell name, a number, a text or
/// a boolean.
pub open spec fn is_operand<N>(t: Token<N>) -> bool {
    t is CellName || t is Number || t is StringLiteral || t is Bool
}

/// The tree of an operand token.
pub open spec fn leaf<N>(t: Token<N>) -> ASTView<N> {
    match t {
        Token::CellName(n) => ASTView::CellName(n),
        Token::Number(n) => ASTView::Value(Value::Number(n)),
        Token::StringLiteral(s) => ASTView::Value(Value::Text(s)),
        Token::Bool(b) => ASTView::Value(Value::Bool(b)),
        _ => ASTView::Value(Value::Bool(false)),
    }
}

/// A comparison operator: `==`, `!=`, `>`, `<`, `>=` or `<=`.
pub open spec fn is_comparison<N>(t: Token<N>) -> bool {
    t is Equals || t is NotEquals || t is GreaterThan || t is LessThan || t is GreaterEquals
        || t is LessEquals
}

/// An arithmetic operator: `+`, `-`, `*` or `/`.
pub open spec fn is_arithmetic<N>(t: Token<N>) -> bool {
    t is Plus || t is Minus || t is Multiply || t is Division
}

/// A logical operator: `&&` or `||`.
pub open spec fn is_logical<N>(t: Token<N>) -> bool {
    t is And || t is Or
}

/// The tree `(a o1 b) o2 c`.
pub open spec fn joined_left<N>(a: Token<N>, o1: Token<N>, b: Token<N>, o2: Token<N>, c: Token<N>) -> ASTView<N> {
    ASTView::BinaryOp {
        op: o2,
        left: Box::new(ASTView::BinaryOp { op: o1, left: Box::new(leaf(a)), right: Box::new(leaf(b)) }),
        right: Box::new(leaf(c)),
    }
}

/// The tree `a o1 (b o2 c)`.
pub open spec fn joined_right<N>(a: Token<N>, o1: Token<N>, b: Token<N>, o2: Token<N>, c: Token<N>) -> ASTView<N> {
    ASTView::BinaryOp {
        op: o1,
        left: Box::new(leaf(a)),
        right: Box::new(ASTView::BinaryOp { op: o2, left: Box::new(leaf(b)), right: Box::new(leaf(c)) }),
    }
}

/// An operand token at `p` is read as its leaf.
proof fn lemma_primary_operand<N>(ts: Seq<Token<N>>, p: int)
    requires
        0 <= p < ts.len(),
        is_operand(ts[p]),
        p + 1 < ts.len() ==> is_binary_op(ts[p + 1]),
    ensures
        parse_primary_spec(ts, p) == Ok::<(ASTView<N>, int), (ASTCreateError, int)>((leaf(ts[p]), p + 1)),
{
}

/// `a o1 b o2 c` with operands `a`, `b`, `c` reads as `(a o1 b) o2 c` when
/// `o1` binds at least as strongly as `o2`, and as `a o1 (b o2 c)` when it
/// binds less strongly.
proof fn lemma_parse_two_operators<N>(a: Token<N>, o1: Token<N>, b: Token<N>, o2: Token<N>, c: Token<N>)
    requires
        is_operand(a),
        is_operand(b),
        is_operand(c),
        is_binary_op(o1),
        is_binary_op(o2),
    ensures
        precedence(o1) >= precedence(o2) ==> parse_spec(seq![a, o1, b, o2, c]) == Ok::<
            ASTView<N>,
            ASTCreateError,
        >(joined_left(a, o1, b, o2, c)),
        precedence(o1) < precedence(o2) ==> parse_spec(seq![a, o1, b, o2, c]) == Ok::<
            ASTView<N>,
            ASTCreateError,
        >(joined_right(a, o1, b, o2, c)),
{
    let ts = seq![a, o1, b, o2, c];
    let p1 = precedence(o1) as int;
    let p2 = precedence(o2) as int;
    lemma_primary_operand(ts, 0);
    lemma_primary_operand(ts, 2);
    lemma_primary_operand(ts, 4);
    let la = leaf(a);
    let lb = leaf(b);
    let lc = leaf(c);
    assert(parse_tail_spec(ts, lc, 5, p2 + 1) == Ok::<(ASTView<N>, int), (ASTCreateError, int)>((lc, 5)));
    assert(parse_expression_spec(ts, 4, p2 + 1) == Ok::<(ASTView<N>, int), (ASTCreateError, int)>((lc, 5)));
    if p1 >= p2 {
        assert(parse_tail_spec(ts, lb, 3, p1 + 1) == Ok::<(ASTView<N>, int), (ASTCreateError, int)>((lb, 3)));
        assert(parse_expression_spec(ts, 2, p1 + 1) == Ok::<(ASTView<N>, int), (ASTCreateError, int)>((lb, 3)));
        let ab = ASTView::BinaryOp { op: o1, left: Box::new(la), right: Box::new(lb) };
        let whole = joined_left(a, o1, b, o2, c);
        assert(parse_tail_spec(ts, whole, 5, 0) == Ok::<(ASTView<N>, int), (ASTCreateError, int)>((whole, 5)));
        assert(parse_tail_spec(ts, ab, 3, 0) == Ok::<(ASTView<N>, int), (ASTCreateError, int)>((whole, 5)));
        assert(parse_tail_spec(ts, la, 1, 0) == Ok::<(ASTView<N>, int), (ASTCreateError, int)>((whole, 5)));
        assert(parse_expression_spec(ts, 0, 0) == Ok::<(ASTView<N>, int), (ASTCreateError, int)>((whole, 5)));
    } else {
        let bc = ASTView::BinaryOp { op: o2, left: Box::new(lb), right: Box::new(lc) };
        assert(parse_tail_spec(ts, bc, 5, p1 + 1) == Ok::<(ASTView<N>, int), (ASTCreateError, int)>((bc, 5)));
        assert(parse_tail_spec(ts, lb, 3, p1 + 1) == Ok::<(ASTView<N>, int), (ASTCreateError, int)>((bc, 5)));
        assert(parse_expression_spec(ts, 2, p1 + 1) == Ok::<(ASTView<N>, int), (ASTCreateError, int)>((bc, 5)));
        let whole = joined_right(a, o1, b, o2, c);
        assert(parse_tail_spec(ts, whole, 5, 0) == Ok::<(ASTView<N>, int), (ASTCreateError, int)>((whole, 5)));
        assert(parse_tail_spec(ts, la, 1, 0) == Ok::<(ASTView<N>, int), (ASTCreateError, int)>((whole, 5)));
        assert(parse_expression_spec(ts, 0, 0) == Ok::<(ASTView<N>, int), (ASTCreateError, int)>((whole, 5)));
    }
}

/// Arithmetic binds more strongly than a comparison, on either side of it:
/// `a + b < c` reads as `(a + b) < c`, and `a < b + c` as `a < (b + c)`.
pub proof fn law_arithmetic_before_comparison<N>(a: Token<N>, o1: Token<N>, b: Token<N>, o2: Token<N>, c: Token<N>)
    requires
        is_operand(a),
        is_operand(b),
        is_operand(c),
    ensures
        is_arithmetic(o1) && is_comparison(o2) ==> parse_spec(seq![a, o1, b, o2, c]) == Ok::<
            ASTView<N>,
            ASTCreateError,
        >(joined_left(a, o1, b, o2, c)),
        is_comparison(o1) && is_arithmetic(o2) ==> parse_spec(seq![a, o1, b, o2, c]) == Ok::<
            ASTView<N>,
            ASTCreateError,
        >(joined_right(a, o1, b, o2, c)),
{
    if (is_arithmetic(o1) && is_comparison(o2)) || (is_comparison(o1) && is_arithmetic(o2)) {
        lemma_parse_two_operators(a, o1, b, o2, c);
    }
}

/// Comparisons all bind alike, and read from left to right: `a < b == c`
/// reads as `(a < b) == c`, whichever the two comparisons are.
pub proof fn law_comparisons_bind_alike<N>(a: Token<N>, o1: Token<N>, b: Token<N>, o2: Token<N>, c: Token<N>)
    requires
        is_operand(a),
        is_operand(b),
        is_operand(c),
        is_comparison(o1),
        is_comparison(o2),
    ensures
        parse_spec(seq![a, o1, b, o2, c]) == Ok::<ASTView<N>, ASTCreateError>(
            joined_left(a, o1, b, o2, c),
        ),
{
    lemma_parse_two_operators(a, o1, b, o2, c);
}

/// A comparison binds more strongly than `&&` and `||`, on either side of
/// them: `a < b && c` reads as `(a < b) && c`, and `a || b < c` as
/// `a || (b < c)`.
pub proof fn law_comparison_before_logic<N>(a: Token<N>, o1: Token<N>, b: Token<N>, o2: Token<N>, c: Token<N>)
    requires
        is_operand(a),
        is_operand(b),
        is_operand(c),
    ensures
        is_comparison(o1) && is_logical(o2) ==> parse_spec(seq![a, o1, b, o2, c]) == Ok::<
            ASTView<N>,
            ASTCreateError,
        >(joined_left(a, o1, b, o2, c)),
        is_logical(o1) && is_comparison(o2) ==> parse_spec(seq![a, o1, b, o2, c]) == Ok::<
            ASTView<N>,
            ASTCreateError,
        >(joined_right(a, o1, b, o2, c)),
{
    if (is_comparison(o1) && is_logical(o2)) || (is_logical(o1) && is_comparison(o2)) {
        lemma_parse_two_operators(a, o1, b, o2, c);
    }
}

/// `*` and `/` bind more strongly than `+` and `-`: `a + b * c` reads as
/// `a + (b * c)`, and `a * b - c` as `(a * b) - c`.
pub proof fn law_products_before_sums<N>(a: Token<N>, o1: Token<N>, b: Token<N>, o2: Token<N>, c: Token<N>)
    requires
        is_operand(a),
        is_operand(b),
        is_operand(c),
    ensures
        (o1 is Plus || o1 is Minus) && (o2 is Multiply || o2 is Division) ==> parse_spec(
            seq![a, o1, b, o2, c],
        ) == Ok::<ASTView<N>, ASTCreateError>(joined_right(a, o1, b, o2, c)),
        (o1 is Multiply || o1 is Division) && (o2 is Plus || o2 is Minus) ==> parse_spec(
            seq![a, o1, b, o2, c],
        ) == Ok::<ASTView<N>, ASTCreateError>(joined_left(a, o1, b, o2, c)),
{
    if is_arithmetic(o1) && is_arithmetic(o2) {
        lemma_parse_two_operators(a, o1, b, o2, c);
    }
}


/// How strongly operators bind: `||` below `&&`, below every comparison,
/// all comparisons alike, below `+` and `-` alike, below `*` and `/` alike.
pub proof fn law_precedence_order<N>()
    ensures
        forall|t1: Token<N>, t2: Token<N>|
            is_comparison(t1) && is_comparison(t2) ==> #[trigger] precedence(t1) == #[trigger] precedence(t2),
        precedence(Token::<N>::Or) < precedence(Token::<N>::And),
        precedence(Token::<N>::And) < precedence(Token::<N>::LessThan),
        precedence(Token::<N>::LessThan) < precedence(Token::<N>::Plus),
        precedence(Token::<N>::Plus) == precedence(Token::<N>::Minus),
        precedence(Token::<N>::Minus) < precedence(Token::<N>::Multiply),
        precedence(Token::<N>::Multiply) == precedence(Token::<N>::Division),
{
}

} // verus!
