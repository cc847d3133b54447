//! Evaluates an expression tree against the values of the cells it names.
use vstd::prelude::*;

use crate::builtin_functions::{builtin_named, builtin_outcome, get_func};
use crate::ast_creator::{is_binary_op, lemma_asts_view_all};
use crate::cell_names::{cell_idx, cell_index, is_cell_ref, lemma_cell_index_bounds};
use crate::common_types::{
    add_outcome, and_outcome, arith_outcome, ast_view, cmp_outcome, eq_outcome, ne_outcome,
    or_outcome, ASTView, CmpOp, ComputeError, Index, NumOp, Numeric, Token, Value, AST,
};

verus! {

/// Where the values of the cells an expression names come from.
pub trait VarContext<N> {
    /// The value of the cell at `index`: `None` when there is no such cell.
    fn get_variable(&self, index: Index) -> Option<Result<Value<N>, ComputeError>>;
}

/// `o` is what `ctx` answered when asked for the cell at `i`.
pub open spec fn var_result<N, C: VarContext<N>>(
    ctx: C,
    i: Index,
    o: Option<Result<Value<N>, ComputeError>>,
) -> bool {
    call_ensures(C::get_variable, (&ctx, i), o)
}

pub struct ASTResolver {}

/// The message for a reference to a cell that is not there.
pub open spec fn unfindable_message(name: Seq<char>) -> Seq<char> {
    "Could not find variable "@ + name + " with in context"@
}

/// Every tree below `a` can be evaluated: no unary operator, only binary
/// operators among its binary nodes, and only names of cells that can be
/// read.
pub open spec fn wf_ast<N>(a: ASTView<N>) -> bool
    decreases a, 1int, 0int,
{
    match a {
        ASTView::CellName(name) => is_cell_ref(name@),
        ASTView::Value(_) => true,
        ASTView::BinaryOp { op, left, right } => is_binary_op(op) && wf_ast(*left) && wf_ast(
            *right,
        ),
        ASTView::UnaryOp { .. } => false,
        ASTView::Range { from, to } => is_cell_ref(from@) && is_cell_ref(to@),
        ASTView::FunctionCall { arguments, .. } => wf_args(a, arguments.len() as int),
    }
}

/// The first `k` arguments of the call `parent` are well formed.
pub open spec fn wf_args<N>(parent: ASTView<N>, k: int) -> bool
    decreases parent, 0int, k,
{
    if k <= 0 {
        true
    } else {
        match parent {
            ASTView::FunctionCall { arguments, .. } => if k <= arguments.len() {
                wf_args(parent, k - 1) && wf_ast(arguments[k - 1])
            } else {
                false
            },
            _ => false,
        }
    }
}

proof fn lemma_wf_args<N>(parent: ASTView<N>, k: int, i: int)
    requires
        wf_args(parent, k),
        0 <= i < k,
    ensures
        parent matches ASTView::FunctionCall { arguments, .. } && i < arguments.len() && wf_ast(
            arguments[i],
        ),
    decreases k,
{
    if i < k - 1 {
        lemma_wf_args(parent, k - 1, i);
    }
}

/// What was observed while evaluating a tree.
pub ghost enum Trace<N> {
    /// Nothing had to be asked.
    Leaf,
    /// What the context answered for the named cell.
    Lookup(Option<Result<Value<N>, ComputeError>>),
    /// The results of both sides and what the operator gave.
    Binary {
        left: Box<Trace<N>>,
        left_res: Result<Value<N>, ComputeError>,
        right: Box<Trace<N>>,
        right_res: Result<Value<N>, ComputeError>,
        op_res: Option<Value<N>>,
    },
    /// What each argument gave.
    Call { args: Seq<ArgTrace<N>> },
}

/// What was observed while evaluating one argument of a call.
pub ghost enum ArgTrace<N> {
    /// An expression, its trace and its result.
    Expr(Box<Trace<N>>, Result<Value<N>, ComputeError>),
    /// A range: what the context answered for each of its cells.
    Cells(Seq<Option<Result<Value<N>, ComputeError>>>),
}

/// The cells `x0..=x1` of row `y`.
pub open spec fn range_row(x0: int, x1: int, y: int) -> Seq<Index> {
    Seq::new((x1 - x0 + 1) as nat, |k: int| Index { x: (x0 + k) as usize, y: y as usize })
}

/// The cells of rows `y0..=y_last`, row by row, each from `x0` to `x1`.
pub open spec fn range_rows(x0: int, x1: int, y0: int, y_last: int) -> Seq<Index>
    decreases y_last - y0 + 1,
{
    if y_last < y0 {
        Seq::empty()
    } else {
        range_rows(x0, x1, y0, y_last - 1) + range_row(x0, x1, y_last)
    }
}

pub open spec fn min_int(a: int, b: int) -> int {
    if a <= b {
        a
    } else {
        b
    }
}

pub open spec fn max_int(a: int, b: int) -> int {
    if a <= b {
        b
    } else {
        a
    }
}

/// The cells of the rectangle with corners `f` and `t`, row by row.
pub open spec fn range_cells(f: Index, t: Index) -> Seq<Index> {
    range_rows(
        min_int(f.x as int, t.x as int),
        max_int(f.x as int, t.x as int),
        min_int(f.y as int, t.y as int),
        max_int(f.y as int, t.y as int),
    )
}

/// The values of a range from what was answered for its cells: the first
/// error, if any; else the values of the cells that are there, in order.
pub open spec fn gather<N>(looks: Seq<Option<Result<Value<N>, ComputeError>>>) -> Result<
    Seq<Value<N>>,
    ComputeError,
>
    decreases looks.len(),
{
    if looks.len() == 0 {
        Ok(Seq::empty())
    } else {
        match gather(looks.drop_last()) {
            Err(e) => Err(e),
            Ok(vs) => match looks.last() {
                Some(Ok(v)) => Ok(vs.push(v)),
                Some(Err(e)) => Err(e),
                None => Ok(vs),
            },
        }
    }
}

/// What one argument contributes to the values a function is called on.
pub open spec fn arg_result<N>(at: ArgTrace<N>) -> Result<Seq<Value<N>>, ComputeError> {
    match at {
        ArgTrace::Expr(_, r) => match r {
            Ok(v) => Ok(seq![v]),
            Err(e) => Err(e),
        },
        ArgTrace::Cells(looks) => gather(looks),
    }
}

/// The values a function is called on: the first error of an argument, if
/// any; else what the arguments contribute, in order.
pub open spec fn combine<N>(ats: Seq<ArgTrace<N>>) -> Result<Seq<Value<N>>, ComputeError>
    decreases ats.len(),
{
    if ats.len() == 0 {
        Ok(Seq::empty())
    } else {
        match combine(ats.drop_last()) {
            Err(e) => Err(e),
            Ok(vs) => match arg_result(ats.last()) {
                Err(e) => Err(e),
                Ok(ws) => Ok(vs + ws),
            },
        }
    }
}

/// The result of an operator, or a type error where it has none.
pub open spec fn op_result<N>(o: Option<Value<N>>) -> Result<Value<N>, ComputeError> {
    match o {
        Some(v) => Ok(v),
        None => Err(ComputeError::TypeError),
    }
}

/// `o` is what the binary operator `op` gave on `lv` and `rv`.
pub open spec fn binop_outcome<N: Numeric>(
    op: Token<N>,
    lv: Value<N>,
    rv: Value<N>,
    o: Option<Value<N>>,
) -> bool {
    match op {
        Token::Plus => add_outcome(lv, rv, o),
        Token::Minus => arith_outcome(NumOp::Sub, lv, rv, o),
        Token::Division => arith_outcome(NumOp::Div, lv, rv, o),
        Token::Multiply => arith_outcome(NumOp::Mul, lv, rv, o),
        Token::Equals => eq_outcome(lv, rv, o),
        Token::NotEquals => ne_outcome(lv, rv, o),
        Token::GreaterThan => cmp_outcome(CmpOp::Gt, lv, rv, o),
        Token::LessThan => cmp_outcome(CmpOp::Lt, lv, rv, o),
        Token::GreaterEquals => cmp_outcome(CmpOp::Ge, lv, rv, o),
        Token::LessEquals => cmp_outcome(CmpOp::Le, lv, rv, o),
        Token::And => o == and_outcome(lv, rv),
        _ => o == or_outcome(lv, rv),
    }
}

/// The answers `looks` were given by `ctx` for the cells `cells`.
pub open spec fn lookups_valid<N, C: VarContext<N>>(
    ctx: C,
    cells: Seq<Index>,
    looks: Seq<Option<Result<Value<N>, ComputeError>>>,
) -> bool {
    &&& looks.len() == cells.len()
    &&& forall|j: int| 0 <= j < cells.len() ==> #[trigger] var_result(ctx, cells[j], looks[j])
}

/// `t` records an evaluation of `a` against `ctx` that gave `res`.
pub open spec fn valid<N: Numeric, C: VarContext<N>>(
    a: ASTView<N>,
    ctx: C,
    t: Trace<N>,
    res: Result<Value<N>, ComputeError>,
) -> bool
    decreases a, 2int, 0int,
{
    match a {
        ASTView::Value(v) => res == Ok::<Value<N>, ComputeError>(v),
        ASTView::CellName(name) => match t {
            Trace::Lookup(o) => var_result(ctx, cell_index(name@), o) && match o {
                Some(x) => res == x,
                None => res matches Err(ComputeError::UnfindableReference(m)) && m@
                    == unfindable_message(name@),
            },
            _ => false,
        },
        ASTView::BinaryOp { op, left, right } => match t {
            Trace::Binary { left: lt, left_res, right: rt, right_res, op_res } => valid(
                *left,
                ctx,
                *lt,
                left_res,
            ) && match left_res {
                Err(e) => res == Err::<Value<N>, ComputeError>(e),
                Ok(lv) => valid(*right, ctx, *rt, right_res) && match right_res {
                    Err(e) => res == Err::<Value<N>, ComputeError>(e),
                    Ok(rv) => binop_outcome(op, lv, rv, op_res) && res == op_result(op_res),
                },
            },
            _ => false,
        },
        ASTView::UnaryOp { .. } => false,
        ASTView::Range { .. } => res == Err::<Value<N>, ComputeError>(ComputeError::TypeError),
        ASTView::FunctionCall { name, arguments } => match builtin_named(name@) {
            None => res == Err::<Value<N>, ComputeError>(ComputeError::UnknownFunction),
            Some(f) => match t {
                Trace::Call { args } => args.len() == arguments.len() && valid_args(
                    a,
                    ctx,
                    args,
                    arguments.len() as int,
                ) && match combine(args) {
                    Err(e) => res == Err::<Value<N>, ComputeError>(e),
                    Ok(vs) => builtin_outcome(f, vs, res),
                },
                _ => false,
            },
        },
    }
}

/// The first `k` argument traces record evaluations of the first `k`
/// arguments of the call `parent`.
pub open spec fn valid_args<N: Numeric, C: VarContext<N>>(
    parent: ASTView<N>,
    ctx: C,
    ats: Seq<ArgTrace<N>>,
    k: int,
) -> bool
    decreases parent, 1int, k,
{
    if k <= 0 {
        true
    } else if k <= ats.len() {
        valid_args(parent, ctx, ats, k - 1) && arg_valid(parent, ctx, ats[k - 1], k - 1)
    } else {
        false
    }
}

/// `at` records an evaluation of argument `i` of the call `parent`.
pub open spec fn arg_valid<N: Numeric, C: VarContext<N>>(
    parent: ASTView<N>,
    ctx: C,
    at: ArgTrace<N>,
    i: int,
) -> bool
    decreases parent, 0int, 0int,
{
    match parent {
        ASTView::FunctionCall { arguments, .. } => if 0 <= i < arguments.len() {
            match arguments[i] {
                ASTView::Range { from, to } => match at {
                    ArgTrace::Cells(looks) => lookups_valid(
                        ctx,
                        range_cells(cell_index(from@), cell_index(to@)),
                        looks,
                    ),
                    _ => false,
                },
                _ => match at {
                    ArgTrace::Expr(tr, r) => valid(arguments[i], ctx, *tr, r),
                    _ => false,
                },
            }
        } else {
            false
        },
        _ => false,
    }
}

/// Evaluating `a` against `ctx` may give `res`: every call of the
/// context and of the numbers made on the way answered as recorded.
pub open spec fn resolves<N: Numeric, C: VarContext<N>>(
    a: ASTView<N>,
    ctx: C,
    res: Result<Value<N>, ComputeError>,
) -> bool {
    exists|t: Trace<N>| #[trigger] valid(a, ctx, t, res)
}

/// Only the first `k` traces count.
proof fn lemma_valid_args_prefix<N: Numeric, C: VarContext<N>>(
    parent: ASTView<N>,
    ctx: C,
    a1: Seq<ArgTrace<N>>,
    a2: Seq<ArgTrace<N>>,
    k: int,
)
    requires
        k <= a1.len(),
        k <= a2.len(),
        forall|j: int| 0 <= j < k ==> a1[j] == a2[j],
        valid_args(parent, ctx, a1, k),
    ensures
        valid_args(parent, ctx, a2, k),
    decreases k,
{
    if k > 0 {
        lemma_valid_args_prefix(parent, ctx, a1, a2, k - 1);
        assert(a1[k - 1] == a2[k - 1]);
    }
}

impl ASTResolver {
    /// Evaluates `ast`, taking the values of the cells it names from
    /// `variables`. A referenced cell that holds an error gives that error.
    pub fn resolve<N: Numeric, C: VarContext<N>>(ast: &AST<N>, variables: &C) -> (r: Result<
        Value<N>,
        ComputeError,
    >)
        requires
            wf_ast(ast_view(*ast)),
        ensures
            resolves(ast_view(*ast), *variables, r),
    {
        let (r, Ghost(t)) = Self::resolve_traced(ast, variables);
        r
    }

    fn resolve_traced<N: Numeric, C: VarContext<N>>(ast: &AST<N>, variables: &C) -> (out: (
        Result<Value<N>, ComputeError>,
        Ghost<Trace<N>>,
    ))
        requires
            wf_ast(ast_view(*ast)),
        ensures
            valid(ast_view(*ast), *variables, out.1@, out.0),
        decreases ast,
    {
        match ast {
            AST::Value(value) => (Ok(value.duplicate()), Ghost(Trace::Leaf)),
            AST::CellName(name) => {
                let idx = Self::get_cell_idx(name.as_str());
                let o = variables.get_variable(idx);
                let ghost og = o;
                let r = match o {
                    Some(value) => value,
                    None => {
                        let mut message = "Could not find variable ".to_string();
                        message.append(name.as_str());
                        message.append(" with in context");
                        Err(ComputeError::UnfindableReference(message))
                    },
                };
                (r, Ghost(Trace::Lookup(og)))
            },
            AST::BinaryOp { op, left, right } => {
                let (lr, Ghost(lt)) = Self::resolve_traced(left, variables);
                let ghost lrg = lr;
                let lv = match lr {
                    Ok(v) => v,
                    Err(e) => {
                        return (
                            Err(e),
                            Ghost(
                                Trace::Binary {
                                    left: Box::new(lt),
                                    left_res: lrg,
                                    right: Box::new(Trace::Leaf),
                                    right_res: lrg,
                                    op_res: None,
                                },
                            ),
                        );
                    },
                };
                let (rr, Ghost(rt)) = Self::resolve_traced(right, variables);
                let ghost rrg = rr;
                let rv = match rr {
                    Ok(v) => v,
                    Err(e) => {
                        return (
                            Err(e),
                            Ghost(
                                Trace::Binary {
                                    left: Box::new(lt),
                                    left_res: lrg,
                                    right: Box::new(rt),
                                    right_res: rrg,
                                    op_res: None,
                                },
                            ),
                        );
                    },
                };
                let o = match op {
                    Token::Plus => lv.add(rv),
                    Token::Minus => lv.sub(rv),
                    Token::Division => lv.div(rv),
                    Token::Multiply => lv.mult(rv),
                    Token::Equals => lv.equals(rv),
                    Token::NotEquals => lv.not_equals(rv),
                    Token::GreaterThan => lv.greater_than(rv),
                    Token::LessThan => lv.less_than(rv),
                    Token::GreaterEquals => lv.greater_equals(rv),
                    Token::LessEquals => lv.less_equals(rv),
                    Token::And => lv.and(rv),
                    _ => lv.or(rv),
                };
                let ghost og = o;
                let r = match o {
                    Some(v) => Ok(v),
                    None => Err(ComputeError::TypeError),
                };
                (
                    r,
                    Ghost(
                        Trace::Binary {
                            left: Box::new(lt),
                            left_res: lrg,
                            right: Box::new(rt),
                            right_res: rrg,
                            op_res: og,
                        },
                    ),
                )
            },
            AST::UnaryOp { .. } => {
                proof {
                    assert(false);
                }
                (Err(ComputeError::TypeError), Ghost(Trace::Leaf))
            },
            AST::Range { .. } => (Err(ComputeError::TypeError), Ghost(Trace::Leaf)),
            AST::FunctionCall { name, arguments } => {
                let ghost av = ast_view(*ast);
                proof {
                    lemma_asts_view_all(*ast);
                }
                let f = match get_func(name.as_str()) {
                    Some(f) => f,
                    None => {
                        return (Err(ComputeError::UnknownFunction), Ghost(Trace::Leaf));
                    },
                };
                let n = arguments.len();
                let mut values: Vec<Value<N>> = Vec::new();
                let mut err: Option<ComputeError> = None;
                let ghost mut ats: Seq<ArgTrace<N>> = Seq::empty();
                let mut i: usize = 0;
                while i < n
                    invariant
                        av == ast_view(*ast),
                        *ast matches AST::FunctionCall { arguments: args2, .. } && args2 == arguments,
                        n == arguments@.len(),
                        av->FunctionCall_arguments.len() == n,
                        forall|j: int|
                            0 <= j < n ==> av->FunctionCall_arguments[j] == ast_view(
                                #[trigger] arguments@[j],
                            ),
                        wf_args(av, n as int),
                        i <= n,
                        ats.len() == i,
                        valid_args(av, *variables, ats, i as int),
                        combine(ats) == match err {
                            None => Ok::<Seq<Value<N>>, ComputeError>(values@),
                            Some(e) => Err(e),
                        },
                    decreases n - i,
                {
                    proof {
                        lemma_wf_args(av, n as int, i as int);
                    }
                    let ghost old_ats = ats;
                    let ghost old_vals = values@;
                    let ghost at: ArgTrace<N>;
                    match &arguments[i] {
                        AST::Range { from, to } => {
                            let (rr, Ghost(looks)) = Self::resolve_range(from, to, variables);
                            proof {
                                at = ArgTrace::Cells(looks);
                            }
                            match rr {
                                Ok(mut vs) => {
                                    if err.is_none() {
                                        values.append(&mut vs);
                                    }
                                },
                                Err(e) => {
                                    if err.is_none() {
                                        err = Some(e);
                                    }
                                },
                            }
                        },
                        _ => {
                            let (r, Ghost(t)) = Self::resolve_traced(&arguments[i], variables);
                            proof {
                                at = ArgTrace::Expr(Box::new(t), r);
                            }
                            match r {
                                Ok(v) => {
                                    if err.is_none() {
                                        values.push(v);
                                    }
                                },
                                Err(e) => {
                                    if err.is_none() {
                                        err = Some(e);
                                    }
                                },
                            }
                        },
                    }
                    proof {
                        ats = old_ats.push(at);
                        assert(ats.drop_last() =~= old_ats);
                        lemma_valid_args_prefix(av, *variables, old_ats, ats, i as int);
                        assert(arg_valid(av, *variables, ats[i as int], i as int));
                        if let ArgTrace::Expr(_, r) = at {
                            if let Ok(v) = r {
                                assert(old_vals + seq![v] =~= old_vals.push(v));
                            }
                        }
                        assert(combine(ats) == match combine(old_ats) {
                            Err(e) => Err(e),
                            Ok(vs) => match arg_result(at) {
                                Err(e) => Err(e),
                                Ok(ws) => Ok::<Seq<Value<N>>, ComputeError>(vs + ws),
                            },
                        });
                    }
                    i = i + 1;
                }
                let r = match err {
                    Some(e) => Err(e),
                    None => f.apply(values),
                };
                (r, Ghost(Trace::Call { args: ats }))
            },
        }
    }

    /// The answers for the cells of the range `from:to`, row by row.
    fn resolve_range<N: Numeric, C: VarContext<N>>(
        from: &String,
        to: &String,
        variables: &C,
    ) -> (out: (
        Result<Vec<Value<N>>, ComputeError>,
        Ghost<Seq<Option<Result<Value<N>, ComputeError>>>>,
    ))
        requires
            is_cell_ref(from@),
            is_cell_ref(to@),
        ensures
            lookups_valid(*variables, range_cells(cell_index(from@), cell_index(to@)), out.1@),
            match gather(out.1@) {
                Ok(vs) => out.0 is Ok && out.0->Ok_0@ == vs,
                Err(e) => out.0 == Err::<Vec<Value<N>>, ComputeError>(e),
            },
    {
        let f = Self::get_cell_idx(from.as_str());
        let t = Self::get_cell_idx(to.as_str());
        proof {
            lemma_cell_index_bounds(from@);
            lemma_cell_index_bounds(to@);
        }
        let x0 = if f.x <= t.x {
            f.x
        } else {
            t.x
        };
        let x1 = if f.x <= t.x {
            t.x
        } else {
            f.x
        };
        let y0 = if f.y <= t.y {
            f.y
        } else {
            t.y
        };
        let y1 = if f.y <= t.y {
            t.y
        } else {
            f.y
        };
        let ghost cells = range_cells(f, t);
        let mut values: Vec<Value<N>> = Vec::new();
        let mut err: Option<ComputeError> = None;
        let ghost mut looks: Seq<Option<Result<Value<N>, ComputeError>>> = Seq::empty();
        let mut y = y0;
        while y <= y1
            invariant
                x0 <= x1 < usize::MAX,
                y0 <= y1 < usize::MAX,
                y0 <= y <= y1 + 1,
                cells == range_rows(x0 as int, x1 as int, y0 as int, y1 as int),
                looks.len() == range_rows(x0 as int, x1 as int, y0 as int, y - 1).len(),
                forall|j: int|
                    0 <= j < looks.len() ==> #[trigger] var_result(
                        *variables,
                        range_rows(x0 as int, x1 as int, y0 as int, y - 1)[j],
                        looks[j],
                    ),
                gather(looks) == match err {
                    None => Ok::<Seq<Value<N>>, ComputeError>(values@),
                    Some(e) => Err(e),
                },
            decreases y1 + 1 - y,
        {
            let ghost before = range_rows(x0 as int, x1 as int, y0 as int, y - 1);
            let ghost row = range_row(x0 as int, x1 as int, y as int);
            let mut x = x0;
            while x <= x1
                invariant
                    x0 <= x1 < usize::MAX,
                    y0 <= y <= y1 < usize::MAX,
                    x0 <= x <= x1 + 1,
                    row == range_row(x0 as int, x1 as int, y as int),
                    looks.len() == before.len() + (x - x0),
                    forall|j: int|
                        0 <= j < looks.len() ==> #[trigger] var_result(
                            *variables,
                            (before + row)[j],
                            looks[j],
                        ),
                    gather(looks) == match err {
                        None => Ok::<Seq<Value<N>>, ComputeError>(values@),
                        Some(e) => Err(e),
                    },
                decreases x1 + 1 - x,
            {
                let idx = Index { x, y };
                let o = variables.get_variable(idx);
                let ghost og = o;
                let ghost old_looks = looks;
                match o {
                    Some(Ok(v)) => {
                        if err.is_none() {
                            values.push(v);
                        }
                    },
                    Some(Err(e)) => {
                        if err.is_none() {
                            err = Some(e);
                        }
                    },
                    None => {},
                }
                proof {
                    looks = old_looks.push(og);
                    assert(looks.drop_last() =~= old_looks);
                    assert((before + row)[looks.len() - 1] == idx);
                    assert forall|j: int|
                        0 <= j < looks.len() implies #[trigger] var_result(
                        *variables,
                        (before + row)[j],
                        looks[j],
                    ) by {
                        if j < old_looks.len() {
                            assert(looks[j] == old_looks[j]);
                        }
                    }
                }
                x = x + 1;
            }
            proof {
                assert(range_rows(x0 as int, x1 as int, y0 as int, y as int) == before + row);
            }
            y = y + 1;
        }
        proof {
            assert(range_rows(x0 as int, x1 as int, y0 as int, y - 1) == cells);
        }
        let r = match err {
            Some(e) => Err(e),
            None => Ok(values),
        };
        (r, Ghost(looks))
    }

    /// The cells of the rectangle with corners `f` and `t`, row by row.
    pub fn range_indices(f: Index, t: Index) -> (r: Vec<Index>)
        requires
            f.x < usize::MAX,
            f.y < usize::MAX,
            t.x < usize::MAX,
            t.y < usize::MAX,
        ensures
            r@ == range_cells(f, t),
    {
        let x0 = if f.x <= t.x {
            f.x
        } else {
            t.x
        };
        let x1 = if f.x <= t.x {
            t.x
        } else {
            f.x
        };
        let y0 = if f.y <= t.y {
            f.y
        } else {
            t.y
        };
        let y1 = if f.y <= t.y {
            t.y
        } else {
            f.y
        };
        let mut cells: Vec<Index> = Vec::new();
        let mut y = y0;
        while y <= y1
            invariant
                x0 <= x1 < usize::MAX,
                y0 <= y1 < usize::MAX,
                y0 <= y <= y1 + 1,
                cells@ == range_rows(x0 as int, x1 as int, y0 as int, y - 1),
            decreases y1 + 1 - y,
        {
            let ghost before = cells@;
            let ghost row = range_row(x0 as int, x1 as int, y as int);
            let mut x = x0;
            while x <= x1
                invariant
                    x0 <= x1 < usize::MAX,
                    y0 <= y <= y1 < usize::MAX,
                    x0 <= x <= x1 + 1,
                    row == range_row(x0 as int, x1 as int, y as int),
                    cells@ == before + row.take(x - x0),
                decreases x1 + 1 - x,
            {
                cells.push(Index { x, y });
                proof {
                    assert(row[x - x0] == Index { x, y });
                    assert(row.take(x - x0 + 1) =~= row.take(x - x0).push(Index { x, y }));
                }
                x = x + 1;
            }
            proof {
                assert(row.take(x - x0) =~= row);
                assert(range_rows(x0 as int, x1 as int, y0 as int, y as int) == before + row);
            }
            y = y + 1;
        }
        cells
    }

    /// The zero-based position that the cell name `cell_name` stands for.
    /// Appends to `out` the cells `ast` refers to, in the order they are
    /// written: each named cell, and every cell of each range.
    pub fn collect_cells<N>(ast: &AST<N>, out: &mut Vec<Index>)
        requires
            wf_ast(ast_view(*ast)),
        ensures
            final(out)@ == old(out)@ + ast_cells(ast_view(*ast)),
        decreases ast,
    {
        let ghost start = out@;
        match ast {
            AST::CellName(name) => {
                let i = Self::get_cell_idx(name.as_str());
                out.push(i);
                assert(out@ =~= start + ast_cells(ast_view(*ast)));
            },
            AST::Value(_) => {
                assert(out@ =~= start + ast_cells(ast_view(*ast)));
            },
            AST::BinaryOp { left, right, .. } => {
                Self::collect_cells(left, out);
                Self::collect_cells(right, out);
                assert(out@ =~= start + ast_cells(ast_view(*ast)));
            },
            AST::UnaryOp { .. } => {},
            AST::Range { from, to } => {
                proof {
                    lemma_cell_index_bounds(from@);
                    lemma_cell_index_bounds(to@);
                }
                let f = Self::get_cell_idx(from.as_str());
                let t = Self::get_cell_idx(to.as_str());
                let mut rect = Self::range_indices(f, t);
                out.append(&mut rect);
            },
            AST::FunctionCall { arguments, .. } => {
                let ghost av = ast_view(*ast);
                proof {
                    lemma_asts_view_all(*ast);
                }
                let n = arguments.len();
                let mut i: usize = 0;
                while i < n
                    invariant
                        av == ast_view(*ast),
                        *ast matches AST::FunctionCall { arguments: args2, .. } && args2 == arguments,
                        n == arguments@.len(),
                        av->FunctionCall_arguments.len() == n,
                        forall|j: int|
                            0 <= j < n ==> av->FunctionCall_arguments[j] == ast_view(
                                #[trigger] arguments@[j],
                            ),
                        wf_args(av, n as int),
                        i <= n,
                        out@ == start + args_cells(av, i as int),
                    decreases n - i,
                {
                    proof {
                        lemma_wf_args(av, n as int, i as int);
                    }
                    let ghost before = out@;
                    Self::collect_cells(&arguments[i], out);
                    proof {
                        assert(args_cells(av, i + 1) == args_cells(av, i as int) + ast_cells(
                            av->FunctionCall_arguments[i as int],
                        ));
                        assert(out@ =~= start + args_cells(av, i + 1));
                    }
                    i = i + 1;
                }
            },
        }
    }

    pub fn get_cell_idx(cell_name: &str) -> (r: Index)
        requires
            is_cell_ref(cell_name@),
        ensures
            r == cell_index(cell_name@),
    {
        cell_idx(cell_name)
    }
}


/// The cells a tree refers to, in the order they are written: each named
/// cell, and every cell of each range.
pub open spec fn ast_cells<N>(a: ASTView<N>) -> Seq<Index>
    decreases a, 1int, 0int,
{
    match a {
        ASTView::CellName(name) => seq![cell_index(name@)],
        ASTView::Value(_) => Seq::empty(),
        ASTView::BinaryOp { left, right, .. } => ast_cells(*left) + ast_cells(*right),
        ASTView::UnaryOp { expr, .. } => ast_cells(*expr),
        ASTView::Range { from, to } => range_cells(cell_index(from@), cell_index(to@)),
        ASTView::FunctionCall { arguments, .. } => args_cells(a, arguments.len() as int),
    }
}

/// The cells the first `k` arguments of the call `parent` refer to.
pub open spec fn args_cells<N>(parent: ASTView<N>, k: int) -> Seq<Index>
    decreases parent, 0int, k,
{
    if k <= 0 {
        Seq::empty()
    } else {
        match parent {
            ASTView::FunctionCall { arguments, .. } => if k <= arguments.len() {
                args_cells(parent, k - 1) + ast_cells(arguments[k - 1])
            } else {
                Seq::empty()
            },
            _ => Seq::empty(),
        }
    }
}

/// `t` records an evaluation of `a` that gave `res`, the value of each
/// cell being what `look` gives for it.
pub open spec fn evals<N: Numeric>(
    a: ASTView<N>,
    look: spec_fn(Index) -> Option<Result<Value<N>, ComputeError>>,
    t: Trace<N>,
    res: Result<Value<N>, ComputeError>,
) -> bool
    decreases a, 2int, 0int,
{
    match a {
        ASTView::Value(v) => res == Ok::<Value<N>, ComputeError>(v),
        ASTView::CellName(name) => match t {
            Trace::Lookup(o) => o == look(cell_index(name@)) && match o {
                Some(x) => res == x,
                None => res matches Err(ComputeError::UnfindableReference(m)) && m@
                    == unfindable_message(name@),
            },
            _ => false,
        },
        ASTView::BinaryOp { op, left, right } => match t {
            Trace::Binary { left: lt, left_res, right: rt, right_res, op_res } => evals(
                *left,
                look,
                *lt,
                left_res,
            ) && match left_res {
                Err(e) => res == Err::<Value<N>, ComputeError>(e),
                Ok(lv) => evals(*right, look, *rt, right_res) && match right_res {
                    Err(e) => res == Err::<Value<N>, ComputeError>(e),
                    Ok(rv) => binop_outcome(op, lv, rv, op_res) && res == op_result(op_res),
                },
            },
            _ => false,
        },
        ASTView::UnaryOp { .. } => false,
        ASTView::Range { .. } => res == Err::<Value<N>, ComputeError>(ComputeError::TypeError),
        ASTView::FunctionCall { name, arguments } => match builtin_named(name@) {
            None => res == Err::<Value<N>, ComputeError>(ComputeError::UnknownFunction),
            Some(f) => match t {
                Trace::Call { args } => args.len() == arguments.len() && evals_args(
                    a,
                    look,
                    args,
                    arguments.len() as int,
                ) && match combine(args) {
                    Err(e) => res == Err::<Value<N>, ComputeError>(e),
                    Ok(vs) => builtin_outcome(f, vs, res),
                },
                _ => false,
            },
        },
    }
}

/// The first `k` argument traces record evaluations, by `look`, of the
/// first `k` arguments of the call `parent`.
pub open spec fn evals_args<N: Numeric>(
    parent: ASTView<N>,
    look: spec_fn(Index) -> Option<Result<Value<N>, ComputeError>>,
    ats: Seq<ArgTrace<N>>,
    k: int,
) -> bool
    decreases parent, 1int, k,
{
    if k <= 0 {
        true
    } else if k <= ats.len() {
        evals_args(parent, look, ats, k - 1) && evals_arg(parent, look, ats[k - 1], k - 1)
    } else {
        false
    }
}

/// `at` records an evaluation, by `look`, of argument `i` of the call
/// `parent`.
pub open spec fn evals_arg<N: Numeric>(
    parent: ASTView<N>,
    look: spec_fn(Index) -> Option<Result<Value<N>, ComputeError>>,
    at: ArgTrace<N>,
    i: int,
) -> bool
    decreases parent, 0int, 0int,
{
    match parent {
        ASTView::FunctionCall { arguments, .. } => if 0 <= i < arguments.len() {
            match arguments[i] {
                ASTView::Range { from, to } => match at {
                    ArgTrace::Cells(looks) => {
                        let cells = range_cells(cell_index(from@), cell_index(to@));
                        &&& looks.len() == cells.len()
                        &&& forall|j: int| 0 <= j < cells.len() ==> looks[j] == look(#[trigger] cells[j])
                    },
                    _ => false,
                },
                _ => match at {
                    ArgTrace::Expr(tr, r) => evals(arguments[i], look, *tr, r),
                    _ => false,
                },
            }
        } else {
            false
        },
        _ => false,
    }
}

/// Evaluating `a`, the value of each cell being what `look` gives for it,
/// may give `res`.
pub open spec fn evaluates<N: Numeric>(
    a: ASTView<N>,
    look: spec_fn(Index) -> Option<Result<Value<N>, ComputeError>>,
    res: Result<Value<N>, ComputeError>,
) -> bool {
    exists|t: Trace<N>| #[trigger] evals(a, look, t, res)
}

/// An evaluation against a context that answers each cell as `look` does
/// is an evaluation by `look`.
pub proof fn lemma_valid_evals<N: Numeric, C: VarContext<N>>(
    a: ASTView<N>,
    ctx: C,
    look: spec_fn(Index) -> Option<Result<Value<N>, ComputeError>>,
    t: Trace<N>,
    res: Result<Value<N>, ComputeError>,
)
    requires
        forall|i: Index, o: Option<Result<Value<N>, ComputeError>>|
            #[trigger] var_result(ctx, i, o) ==> o == look(i),
        valid(a, ctx, t, res),
    ensures
        evals(a, look, t, res),
    decreases a, 2int, 0int,
{
    match a {
        ASTView::BinaryOp { op, left, right } => match t {
            Trace::Binary { left: lt, left_res, right: rt, right_res, op_res } => {
                lemma_valid_evals(*left, ctx, look, *lt, left_res);
                if left_res is Ok {
                    lemma_valid_evals(*right, ctx, look, *rt, right_res);
                }
            },
            _ => {},
        },
        ASTView::FunctionCall { name, arguments } => match builtin_named(name@) {
            Some(f) => match t {
                Trace::Call { args } => {
                    lemma_valid_evals_args(a, ctx, look, args, arguments.len() as int);
                },
                _ => {},
            },
            None => {},
        },
        _ => {},
    }
}

proof fn lemma_valid_evals_args<N: Numeric, C: VarContext<N>>(
    parent: ASTView<N>,
    ctx: C,
    look: spec_fn(Index) -> Option<Result<Value<N>, ComputeError>>,
    ats: Seq<ArgTrace<N>>,
    k: int,
)
    requires
        forall|i: Index, o: Option<Result<Value<N>, ComputeError>>|
            #[trigger] var_result(ctx, i, o) ==> o == look(i),
        valid_args(parent, ctx, ats, k),
    ensures
        evals_args(parent, look, ats, k),
    decreases parent, 1int, k,
{
    if k > 0 {
        lemma_valid_evals_args(parent, ctx, look, ats, k - 1);
        lemma_valid_evals_arg(parent, ctx, look, ats[k - 1], k - 1);
    }
}

proof fn lemma_valid_evals_arg<N: Numeric, C: VarContext<N>>(
    parent: ASTView<N>,
    ctx: C,
    look: spec_fn(Index) -> Option<Result<Value<N>, ComputeError>>,
    at: ArgTrace<N>,
    i: int,
)
    requires
        forall|i: Index, o: Option<Result<Value<N>, ComputeError>>|
            #[trigger] var_result(ctx, i, o) ==> o == look(i),
        arg_valid(parent, ctx, at, i),
    ensures
        evals_arg(parent, look, at, i),
    decreases parent, 0int, 0int,
{
    match parent {
        ASTView::FunctionCall { arguments, .. } => {
            match arguments[i] {
                ASTView::Range { from, to } => {
                    let cells = range_cells(cell_index(from@), cell_index(to@));
                    match at {
                        ArgTrace::Cells(looks) => {
                            assert forall|j: int| 0 <= j < cells.len() implies looks[j] == look(
                                #[trigger] cells[j],
                            ) by {
                                assert(var_result(ctx, cells[j], looks[j]));
                            }
                        },
                        _ => {},
                    }
                },
                _ => match at {
                    ArgTrace::Expr(tr, r) => {
                        lemma_valid_evals(arguments[i], ctx, look, *tr, r);
                    },
                    _ => {},
                },
            }
        },
        _ => {},
    }
}

/// What a sequence holds, a sequence with it at either end holds.
proof fn lemma_concat_contains<A>(s1: Seq<A>, s2: Seq<A>)
    ensures
        forall|x: A| #[trigger] s1.contains(x) ==> (s1 + s2).contains(x),
        forall|x: A| #[trigger] s2.contains(x) ==> (s1 + s2).contains(x),
{
    assert forall|x: A| #[trigger] s1.contains(x) implies (s1 + s2).contains(x) by {
        let j = choose|j: int| 0 <= j < s1.len() && s1[j] == x;
        assert((s1 + s2)[j] == x);
    }
    assert forall|x: A| #[trigger] s2.contains(x) implies (s1 + s2).contains(x) by {
        let j = choose|j: int| 0 <= j < s2.len() && s2[j] == x;
        assert((s1 + s2)[s1.len() + j] == x);
    }
}

/// The cells of argument `i` of a call are among those of its first `k`
/// arguments, for `i < k`.
proof fn lemma_args_cells<N>(parent: ASTView<N>, k: int, i: int)
    requires
        parent matches ASTView::FunctionCall { arguments, .. } && k <= arguments.len(),
        0 <= i < k,
    ensures
        forall|x: Index| #[trigger] ast_cells(parent->arguments[i]).contains(x) ==> args_cells(
            parent,
            k,
        ).contains(x),
    decreases k,
{
    let args = parent->arguments;
    lemma_concat_contains(args_cells(parent, k - 1), ast_cells(args[k - 1]));
    if i < k - 1 {
        lemma_args_cells(parent, k - 1, i);
    }
}

/// An evaluation depends only on the values of the cells the tree refers
/// to: two lookups that agree on them allow the same evaluations.
pub proof fn lemma_evals_frame<N: Numeric>(
    a: ASTView<N>,
    l1: spec_fn(Index) -> Option<Result<Value<N>, ComputeError>>,
    l2: spec_fn(Index) -> Option<Result<Value<N>, ComputeError>>,
    t: Trace<N>,
    res: Result<Value<N>, ComputeError>,
)
    requires
        forall|x: Index| #[trigger] ast_cells(a).contains(x) ==> l1(x) == l2(x),
        evals(a, l1, t, res),
    ensures
        evals(a, l2, t, res),
    decreases a, 2int, 0int,
{
    match a {
        ASTView::CellName(name) => {
            assert(ast_cells(a)[0] == cell_index(name@));
            assert(ast_cells(a).contains(cell_index(name@)));
        },
        ASTView::BinaryOp { op, left, right } => match t {
            Trace::Binary { left: lt, left_res, right: rt, right_res, op_res } => {
                lemma_concat_contains(ast_cells(*left), ast_cells(*right));
                assert(ast_cells(a) == ast_cells(*left) + ast_cells(*right));
                assert forall|x: Index| #[trigger] ast_cells(*left).contains(x) implies l1(x) == l2(x) by {
                    assert(ast_cells(a).contains(x));
                }
                assert forall|x: Index| #[trigger] ast_cells(*right).contains(x) implies l1(x) == l2(x) by {
                    assert(ast_cells(a).contains(x));
                }
                lemma_evals_frame(*left, l1, l2, *lt, left_res);
                if left_res is Ok {
                    lemma_evals_frame(*right, l1, l2, *rt, right_res);
                }
            },
            _ => {},
        },
        ASTView::FunctionCall { name, arguments } => match builtin_named(name@) {
            Some(f) => match t {
                Trace::Call { args } => {
                    assert(ast_cells(a) == args_cells(a, arguments.len() as int));
                    lemma_evals_frame_args(a, l1, l2, args, arguments.len() as int);
                },
                _ => {},
            },
            None => {},
        },
        _ => {},
    }
}

proof fn lemma_evals_frame_args<N: Numeric>(
    parent: ASTView<N>,
    l1: spec_fn(Index) -> Option<Result<Value<N>, ComputeError>>,
    l2: spec_fn(Index) -> Option<Result<Value<N>, ComputeError>>,
    ats: Seq<ArgTrace<N>>,
    k: int,
)
    requires
        parent is FunctionCall,
        k <= parent->arguments.len(),
        forall|x: Index| #[trigger] args_cells(parent, k).contains(x) ==> l1(x) == l2(x),
        evals_args(parent, l1, ats, k),
    ensures
        evals_args(parent, l2, ats, k),
    decreases parent, 1int, k,
{
    if k > 0 {
        let args = parent->arguments;
        lemma_concat_contains(args_cells(parent, k - 1), ast_cells(args[k - 1]));
        assert(args_cells(parent, k) == args_cells(parent, k - 1) + ast_cells(args[k - 1]));
        assert forall|x: Index| #[trigger] args_cells(parent, k - 1).contains(x) implies l1(x) == l2(x) by {
            assert(args_cells(parent, k).contains(x));
        }
        assert forall|x: Index| #[trigger] ast_cells(args[k - 1]).contains(x) implies l1(x) == l2(x) by {
            assert(args_cells(parent, k).contains(x));
        }
        lemma_evals_frame_args(parent, l1, l2, ats, k - 1);
        lemma_evals_frame_arg(parent, l1, l2, ats[k - 1], k - 1);
    }
}

proof fn lemma_evals_frame_arg<N: Numeric>(
    parent: ASTView<N>,
    l1: spec_fn(Index) -> Option<Result<Value<N>, ComputeError>>,
    l2: spec_fn(Index) -> Option<Result<Value<N>, ComputeError>>,
    at: ArgTrace<N>,
    i: int,
)
    requires
        parent is FunctionCall,
        0 <= i < parent->arguments.len(),
        forall|x: Index| #[trigger] ast_cells(parent->arguments[i]).contains(x) ==> l1(x) == l2(x),
        evals_arg(parent, l1, at, i),
    ensures
        evals_arg(parent, l2, at, i),
    decreases parent, 0int, 0int,
{
    let args = parent->arguments;
    match args[i] {
        ASTView::Range { from, to } => {
            let cells = range_cells(cell_index(from@), cell_index(to@));
            match at {
                ArgTrace::Cells(looks) => {
                    assert forall|j: int| 0 <= j < cells.len() implies looks[j] == l2(
                        #[trigger] cells[j],
                    ) by {
                        assert(looks[j] == l1(cells[j]));
                        assert(ast_cells(args[i]).contains(cells[j]));
                    }
                },
                _ => {},
            }
        },
        _ => match at {
            ArgTrace::Expr(tr, r) => {
                lemma_evals_frame(args[i], l1, l2, *tr, r);
            },
            _ => {},
        },
    }
}


/// Comparing two numbers gives the boolean that the number type's own test
/// for that operator answers: `>` asks `gt`, `<` asks `lt`, `>=` asks `ge`,
/// `<=` asks `le`, `==` asks `equals`, and `!=` gives the opposite of
/// `equals`.
pub proof fn law_comparisons_ask_their_own_test<N: Numeric>(
    op: Token<N>,
    x: N,
    y: N,
    o: Option<Value<N>>,
)
    requires
        binop_outcome(op, Value::Number(x), Value::Number(y), o),
    ensures
        op is GreaterThan ==> (o matches Some(Value::Bool(b)) && call_ensures(N::gt, (&x, &y), b)),
        op is LessThan ==> (o matches Some(Value::Bool(b)) && call_ensures(N::lt, (&x, &y), b)),
        op is GreaterEquals ==> (o matches Some(Value::Bool(b)) && call_ensures(N::ge, (&x, &y), b)),
        op is LessEquals ==> (o matches Some(Value::Bool(b)) && call_ensures(N::le, (&x, &y), b)),
        op is Equals ==> (o matches Some(Value::Bool(b)) && call_ensures(N::equals, (&x, &y), b)),
        op is NotEquals ==> (o matches Some(Value::Bool(b)) && call_ensures(
            N::equals,
            (&x, &y),
            !b,
        )),
{
}

/// Evaluating `x op y` for two numbers and a comparison `op`, against any
/// context, gives the boolean that the number type's test for `op` answers
/// (the opposite of `equals` for `!=`).
pub proof fn law_resolve_comparison<N: Numeric, C: VarContext<N>>(
    op: Token<N>,
    x: N,
    y: N,
    ctx: C,
    res: Result<Value<N>, ComputeError>,
)
    requires
        resolves(
            ASTView::BinaryOp {
                op,
                left: Box::new(ASTView::Value(Value::Number(x))),
                right: Box::new(ASTView::Value(Value::Number(y))),
            },
            ctx,
            res,
        ),
    ensures
        op is GreaterThan ==> (res matches Ok(Value::Bool(b)) && call_ensures(N::gt, (&x, &y), b)),
        op is LessThan ==> (res matches Ok(Value::Bool(b)) && call_ensures(N::lt, (&x, &y), b)),
        op is GreaterEquals ==> (res matches Ok(Value::Bool(b)) && call_ensures(N::ge, (&x, &y), b)),
        op is LessEquals ==> (res matches Ok(Value::Bool(b)) && call_ensures(N::le, (&x, &y), b)),
        op is Equals ==> (res matches Ok(Value::Bool(b)) && call_ensures(N::equals, (&x, &y), b)),
        op is NotEquals ==> (res matches Ok(Value::Bool(b)) && call_ensures(
            N::equals,
            (&x, &y),
            !b,
        )),
{
    let a = ASTView::BinaryOp {
        op,
        left: Box::new(ASTView::Value(Value::Number(x))),
        right: Box::new(ASTView::Value(Value::Number(y))),
    };
    let t = choose|t: Trace<N>| #[trigger] valid(a, ctx, t, res);
    match t {
        Trace::Binary { left: lt, left_res, right: rt, right_res, op_res } => {
            assert(valid(ASTView::Value(Value::Number(x)), ctx, *lt, left_res));
            assert(left_res == Ok::<Value<N>, ComputeError>(Value::Number(x)));
            assert(valid(ASTView::Value(Value::Number(y)), ctx, *rt, right_res));
            assert(right_res == Ok::<Value<N>, ComputeError>(Value::Number(y)));
            law_comparisons_ask_their_own_test(op, x, y, op_res);
        },
        _ => {},
    }
}

} // verus!
