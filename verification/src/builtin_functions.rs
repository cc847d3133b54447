//! The functions an expression may call, by name.
use vstd::prelude::*;

use crate::common_types::{num_op, ComputeError, NumOp, Numeric, Value};
use crate::text::same_text;

verus! {

#[derive(Clone, Copy, PartialEq, Eq, Structural, Debug)]
pub enum Builtin {
    Sum,
    Product,
    Max,
    Min,
    Average,
    Count,
    Length,
    If,
    Round,
    Rand,
    Pow,
}

/// The function called `name`, if there is one.
pub open spec fn builtin_named(name: Seq<char>) -> Option<Builtin> {
    if name == "sum"@ {
        Some(Builtin::Sum)
    } else if name == "product"@ {
        Some(Builtin::Product)
    } else if name == "max"@ {
        Some(Builtin::Max)
    } else if name == "min"@ {
        Some(Builtin::Min)
    } else if name == "average"@ {
        Some(Builtin::Average)
    } else if name == "count"@ {
        Some(Builtin::Count)
    } else if name == "length"@ {
        Some(Builtin::Length)
    } else if name == "if"@ {
        Some(Builtin::If)
    } else if name == "round"@ {
        Some(Builtin::Round)
    } else if name == "rand"@ {
        Some(Builtin::Rand)
    } else if name == "pow"@ {
        Some(Builtin::Pow)
    } else {
        None
    }
}

pub fn get_func(name: &str) -> (r: Option<Builtin>)
    ensures
        r == builtin_named(name@),
{
    if same_text(name, "sum") {
        Some(Builtin::Sum)
    } else if same_text(name, "product") {
        Some(Builtin::Product)
    } else if same_text(name, "max") {
        Some(Builtin::Max)
    } else if same_text(name, "min") {
        Some(Builtin::Min)
    } else if same_text(name, "average") {
        Some(Builtin::Average)
    } else if same_text(name, "count") {
        Some(Builtin::Count)
    } else if same_text(name, "length") {
        Some(Builtin::Length)
    } else if same_text(name, "if") {
        Some(Builtin::If)
    } else if same_text(name, "round") {
        Some(Builtin::Round)
    } else if same_text(name, "rand") {
        Some(Builtin::Rand)
    } else if same_text(name, "pow") {
        Some(Builtin::Pow)
    } else {
        None
    }
}

/// Every value of `s` is a number.
pub open spec fn all_numbers<N>(s: Seq<Value<N>>) -> bool {
    forall|i: int| 0 <= i < s.len() ==> #[trigger] s[i] is Number
}

/// The numbers the values `s` hold.
pub open spec fn numbers_of<N>(s: Seq<Value<N>>) -> Seq<N> {
    Seq::new(s.len(), |i: int| s[i]->Number_0)
}

/// `chain` lists the results of combining `start` with each of `xs` in turn
/// by `op`, from `start` itself on.
pub open spec fn is_fold_chain<N: Numeric>(op: NumOp, start: N, xs: Seq<N>, chain: Seq<N>) -> bool {
    &&& chain.len() == xs.len() + 1
    &&& chain[0] == start
    &&& forall|i: int| 0 <= i < xs.len() ==> #[trigger] num_op(op, chain[i], xs[i], chain[i + 1])
}

/// `r` is what combining `start` with each of `xs` in turn by `op` gave.
pub open spec fn folds<N: Numeric>(op: NumOp, start: N, xs: Seq<N>, r: N) -> bool {
    exists|chain: Seq<N>| #[trigger] is_fold_chain(op, start, xs, chain) && chain.last() == r
}

/// `r` is the error for a wrong argument, with message `msg`.
pub open spec fn invalid<N>(r: Result<Value<N>, ComputeError>, msg: Seq<char>) -> bool {
    r matches Err(ComputeError::InvalidArgument(m)) && m@ == msg
}

/// All numbers: the fold of them from `start` by `op`; otherwise the error
/// `msg`.
pub open spec fn fold_outcome<N: Numeric>(
    args: Seq<Value<N>>,
    start: N,
    op: NumOp,
    r: Result<Value<N>, ComputeError>,
    msg: Seq<char>,
) -> bool {
    if all_numbers(args) {
        r matches Ok(Value::Number(s)) && folds(op, start, numbers_of(args), s)
    } else {
        invalid(r, msg)
    }
}

/// What calling `f` on `args` gives.
pub open spec fn builtin_outcome<N: Numeric>(
    f: Builtin,
    args: Seq<Value<N>>,
    r: Result<Value<N>, ComputeError>,
) -> bool {
    match f {
        Builtin::Sum => exists|z: N|
            #[trigger] call_ensures(N::zero, (), z) && fold_outcome(
                args,
                z,
                NumOp::Add,
                r,
                "sum expects only numeric values"@,
            ),
        Builtin::Product => exists|o: N|
            #[trigger] call_ensures(N::one, (), o) && fold_outcome(
                args,
                o,
                NumOp::Mul,
                r,
                "product expects only numeric values"@,
            ),
        Builtin::Max => if args.len() == 0 {
            invalid(r, "max expects at least one numeric value"@)
        } else if all_numbers(args) {
            r matches Ok(Value::Number(m)) && folds(
                NumOp::Max,
                args[0]->Number_0,
                numbers_of(args.skip(1)),
                m,
            )
        } else {
            invalid(r, "max expects only numeric values"@)
        },
        Builtin::Min => if args.len() == 0 {
            invalid(r, "min expects at least one numeric value"@)
        } else if all_numbers(args) {
            r matches Ok(Value::Number(m)) && folds(
                NumOp::Min,
                args[0]->Number_0,
                numbers_of(args.skip(1)),
                m,
            )
        } else {
            invalid(r, "min expects only numeric values"@)
        },
        Builtin::Average => if args.len() == 0 {
            invalid(r, "average expects at least one numeric value"@)
        } else if all_numbers(args) {
            exists|z: N, c: N, t: N|
                #![trigger call_ensures(N::zero, (), z), call_ensures(N::from_count, (args.len() as usize,), c), folds(NumOp::Add, z, numbers_of(args), t)]
                call_ensures(N::zero, (), z) && call_ensures(
                    N::from_count,
                    (args.len() as usize,),
                    c,
                ) && folds(NumOp::Add, z, numbers_of(args), t) && (r matches Ok(Value::Number(a))
                    && num_op(NumOp::Div, t, c, a))
        } else {
            invalid(r, "average expects only numeric values"@)
        },
        Builtin::Count => if all_numbers(args) {
            exists|z: N, o: N|
                #![trigger call_ensures(N::zero, (), z), call_ensures(N::one, (), o)]
                call_ensures(N::zero, (), z) && call_ensures(N::one, (), o) && (r matches Ok(
                    Value::Number(c),
                ) && folds(NumOp::Add, z, Seq::new(args.len(), |i: int| o), c))
        } else {
            invalid(r, "count expects only numeric values"@)
        },
        Builtin::Length => if args.len() != 1 {
            invalid(r, "length expects exactly one argument"@)
        } else {
            match args[0] {
                Value::Text(t) => r matches Ok(Value::Number(n)) && call_ensures(
                    N::from_count,
                    (vstd::utf8::encode_utf8(t@).len() as usize,),
                    n,
                ),
                _ => invalid(r, "length expects a string argument"@),
            }
        },
        Builtin::If => if args.len() != 3 {
            invalid(r, "if expects exactly three arguments"@)
        } else {
            match args[0] {
                Value::Bool(b) => r == Ok::<Value<N>, ComputeError>(
                    if b {
                        args[1]
                    } else {
                        args[2]
                    },
                ),
                _ => invalid(r, "if expects a boolean as the first argument"@),
            }
        },
        Builtin::Round => if args.len() != 1 {
            invalid(r, "round expects exactly one numeric argument"@)
        } else {
            match args[0] {
                Value::Number(x) => r matches Ok(Value::Number(y)) && call_ensures(
                    N::round,
                    (&x,),
                    y,
                ),
                _ => invalid(r, "round expects a numeric argument"@),
            }
        },
        Builtin::Rand => if args.len() != 0 {
            invalid(r, "rand expects no arguments"@)
        } else {
            r matches Ok(Value::Number(x)) && call_ensures(N::random, (), x)
        },
        Builtin::Pow => if args.len() != 2 {
            invalid(r, "pow expects exactly two numeric arguments"@)
        } else {
            match (args[0], args[1]) {
                (Value::Number(a), Value::Number(b)) => r matches Ok(Value::Number(p)) && num_op(
                    NumOp::Pow,
                    a,
                    b,
                    p,
                ),
                _ => invalid(r, "pow expects both arguments to be numeric"@),
            }
        },
    }
}

/// The error for a wrong argument, with message `msg`.
fn invalid_argument<N>(msg: &str) -> (r: Result<Value<N>, ComputeError>)
    ensures
        invalid(r, msg@),
{
    Err(ComputeError::InvalidArgument(msg.to_string()))
}

/// An operation that the folding functions apply.
#[derive(Clone, Copy)]
enum FoldOp {
    Add,
    Mul,
    Max,
    Min,
}

spec fn fold_num_op(f: FoldOp) -> NumOp {
    match f {
        FoldOp::Add => NumOp::Add,
        FoldOp::Mul => NumOp::Mul,
        FoldOp::Max => NumOp::Max,
        FoldOp::Min => NumOp::Min,
    }
}

fn apply_fold<N: Numeric>(f: FoldOp, a: &N, b: &N) -> (r: N)
    ensures
        num_op(fold_num_op(f), *a, *b, r),
{
    match f {
        FoldOp::Add => a.add(b),
        FoldOp::Mul => a.mul(b),
        FoldOp::Max => a.max(b),
        FoldOp::Min => a.min(b),
    }
}

/// Combines `start` with each argument in turn; `None` at the first
/// argument that is no number.
fn fold_numbers<N: Numeric>(args: &Vec<Value<N>>, start: N, f: FoldOp) -> (r: Option<N>)
    ensures
        match r {
            Some(s) => all_numbers(args@) && folds(fold_num_op(f), start, numbers_of(args@), s),
            None => !all_numbers(args@),
        },
{
    let mut acc = start;
    let ghost mut chain: Seq<N> = seq![start];
    let mut i: usize = 0;
    while i < args.len()
        invariant
            i <= args@.len(),
            forall|j: int| 0 <= j < i ==> #[trigger] args@[j] is Number,
            is_fold_chain(fold_num_op(f), start, numbers_of(args@.take(i as int)), chain),
            chain.last() == acc,
        decreases args@.len() - i,
    {
        match &args[i] {
            Value::Number(num) => {
                acc = apply_fold(f, &acc, num);
                proof {
                    let xs = numbers_of(args@.take(i + 1));
                    let old_xs = numbers_of(args@.take(i as int));
                    let c2 = chain.push(acc);
                    assert forall|j: int| 0 <= j < xs.len() implies #[trigger] num_op(
                        fold_num_op(f),
                        c2[j],
                        xs[j],
                        c2[j + 1],
                    ) by {
                        if j < i {
                            assert(xs[j] == old_xs[j]);
                            assert(num_op(fold_num_op(f), chain[j], old_xs[j], chain[j + 1]));
                        }
                    }
                    chain = c2;
                }
            },
            _ => {
                return None;
            },
        }
        i = i + 1;
    }
    proof {
        assert(args@.take(args@.len() as int) =~= args@);
    }
    Some(acc)
}

pub fn sum<N: Numeric>(args: Vec<Value<N>>) -> (r: Result<Value<N>, ComputeError>)
    ensures
        builtin_outcome(Builtin::Sum, args@, r),
{
    let zero = N::zero();
    match fold_numbers(&args, zero, FoldOp::Add) {
        Some(s) => Ok(Value::Number(s)),
        None => invalid_argument("sum expects only numeric values"),
    }
}

pub fn product<N: Numeric>(args: Vec<Value<N>>) -> (r: Result<Value<N>, ComputeError>)
    ensures
        builtin_outcome(Builtin::Product, args@, r),
{
    let one = N::one();
    match fold_numbers(&args, one, FoldOp::Mul) {
        Some(p) => Ok(Value::Number(p)),
        None => invalid_argument("product expects only numeric values"),
    }
}

/// The arguments after the first.
fn rest_of<N: Numeric>(args: &Vec<Value<N>>) -> (r: Vec<Value<N>>)
    requires
        args@.len() > 0,
    ensures
        r@ == args@.skip(1),
{
    let mut rest: Vec<Value<N>> = Vec::new();
    let mut i: usize = 1;
    while i < args.len()
        invariant
            1 <= i <= args@.len(),
            rest@ == args@.subrange(1, i as int),
        decreases args@.len() - i,
    {
        rest.push(args[i].duplicate());
        i = i + 1;
        assert(rest@ =~= args@.subrange(1, i as int));
    }
    assert(rest@ =~= args@.skip(1));
    rest
}

/// The first argument folded with the others by `f`, if all are numbers.
fn fold_from_first<N: Numeric>(args: &Vec<Value<N>>, f: FoldOp) -> (r: Option<N>)
    requires
        args@.len() > 0,
    ensures
        match r {
            Some(m) => all_numbers(args@) && folds(
                fold_num_op(f),
                args@[0]->Number_0,
                numbers_of(args@.skip(1)),
                m,
            ),
            None => !all_numbers(args@),
        },
{
    match &args[0] {
        Value::Number(first) => {
            let rest = rest_of(args);
            let r = fold_numbers(&rest, *first, f);
            proof {
                if r is Some {
                    assert forall|j: int| 0 <= j < args@.len() implies #[trigger] args@[j] is Number by {
                        if j > 0 {
                            assert(rest@[j - 1] == args@[j]);
                        }
                    }
                } else {
                    let j = choose|j: int| 0 <= j < rest@.len() && !(#[trigger] rest@[j] is Number);
                    assert(args@[j + 1] == rest@[j]);
                }
            }
            r
        },
        _ => None,
    }
}

pub fn max<N: Numeric>(args: Vec<Value<N>>) -> (r: Result<Value<N>, ComputeError>)
    ensures
        builtin_outcome(Builtin::Max, args@, r),
{
    if args.len() == 0 {
        return invalid_argument("max expects at least one numeric value");
    }
    match fold_from_first(&args, FoldOp::Max) {
        Some(m) => Ok(Value::Number(m)),
        None => invalid_argument("max expects only numeric values"),
    }
}

pub fn min<N: Numeric>(args: Vec<Value<N>>) -> (r: Result<Value<N>, ComputeError>)
    ensures
        builtin_outcome(Builtin::Min, args@, r),
{
    if args.len() == 0 {
        return invalid_argument("min expects at least one numeric value");
    }
    match fold_from_first(&args, FoldOp::Min) {
        Some(m) => Ok(Value::Number(m)),
        None => invalid_argument("min expects only numeric values"),
    }
}

pub fn average<N: Numeric>(args: Vec<Value<N>>) -> (r: Result<Value<N>, ComputeError>)
    ensures
        builtin_outcome(Builtin::Average, args@, r),
{
    if args.len() == 0 {
        return invalid_argument("average expects at least one numeric value");
    }
    let zero = N::zero();
    let len = N::from_count(args.len());
    match fold_numbers(&args, zero, FoldOp::Add) {
        Some(s) => {
            let a = s.div(&len);
            let r = Ok(Value::Number(a));
            assert(call_ensures(N::from_count, (args@.len() as usize,), len));
            assert(folds(NumOp::Add, zero, numbers_of(args@), s));
            assert(num_op(NumOp::Div, s, len, a));
            r
        },
        None => invalid_argument("average expects only numeric values"),
    }
}

pub fn count<N: Numeric>(args: Vec<Value<N>>) -> (r: Result<Value<N>, ComputeError>)
    ensures
        builtin_outcome(Builtin::Count, args@, r),
{
    let zero = N::zero();
    let one = N::one();
    let ghost ones = Seq::new(args@.len(), |i: int| one);
    let mut count = zero;
    let ghost mut chain: Seq<N> = seq![zero];
    let mut i: usize = 0;
    while i < args.len()
        invariant
            i <= args@.len(),
            ones == Seq::new(args@.len(), |i: int| one),
            forall|j: int| 0 <= j < i ==> #[trigger] args@[j] is Number,
            is_fold_chain(NumOp::Add, zero, ones.take(i as int), chain),
            chain.last() == count,
        decreases args@.len() - i,
    {
        match &args[i] {
            Value::Number(_) => {
                count = count.add(&one);
                proof {
                    let xs = ones.take(i + 1);
                    let c2 = chain.push(count);
                    assert forall|j: int| 0 <= j < xs.len() implies #[trigger] num_op(
                        NumOp::Add,
                        c2[j],
                        xs[j],
                        c2[j + 1],
                    ) by {
                        if j < i {
                            assert(num_op(NumOp::Add, chain[j], ones.take(i as int)[j], chain[j + 1]));
                        }
                    }
                    chain = c2;
                }
            },
            _ => {
                return invalid_argument("count expects only numeric values");
            },
        }
        i = i + 1;
    }
    proof {
        assert(ones.take(args@.len() as int) =~= ones);
    }
    Ok(Value::Number(count))
}

pub fn length<N: Numeric>(args: Vec<Value<N>>) -> (r: Result<Value<N>, ComputeError>)
    ensures
        builtin_outcome(Builtin::Length, args@, r),
{
    if args.len() != 1 {
        return invalid_argument("length expects exactly one argument");
    }
    match &args[0] {
        Value::Text(t) => Ok(Value::Number(N::from_count(t.as_str().len()))),
        _ => invalid_argument("length expects a string argument"),
    }
}

pub fn if_func<N: Numeric>(mut args: Vec<Value<N>>) -> (r: Result<Value<N>, ComputeError>)
    ensures
        builtin_outcome(Builtin::If, args@, r),
{
    if args.len() != 3 {
        return invalid_argument("if expects exactly three arguments");
    }
    match args[0] {
        Value::Bool(b) => {
            if b {
                Ok(args.remove(1))
            } else {
                Ok(args.remove(2))
            }
        },
        _ => invalid_argument("if expects a boolean as the first argument"),
    }
}

pub fn round<N: Numeric>(args: Vec<Value<N>>) -> (r: Result<Value<N>, ComputeError>)
    ensures
        builtin_outcome(Builtin::Round, args@, r),
{
    if args.len() != 1 {
        return invalid_argument("round expects exactly one numeric argument");
    }
    match &args[0] {
        Value::Number(num) => Ok(Value::Number(num.round())),
        _ => invalid_argument("round expects a numeric argument"),
    }
}

pub fn rand_func<N: Numeric>(args: Vec<Value<N>>) -> (r: Result<Value<N>, ComputeError>)
    ensures
        builtin_outcome(Builtin::Rand, args@, r),
{
    if args.len() != 0 {
        return invalid_argument("rand expects no arguments");
    }
    Ok(Value::Number(N::random()))
}

pub fn power<N: Numeric>(mut args: Vec<Value<N>>) -> (r: Result<Value<N>, ComputeError>)
    ensures
        builtin_outcome(Builtin::Pow, args@, r),
{
    if args.len() != 2 {
        return invalid_argument("pow expects exactly two numeric arguments");
    }
    let ghost a = args@;
    let num2 = args.pop().unwrap();
    let num1 = args.pop().unwrap();
    assert(num1 == a[0] && num2 == a[1]);
    match (num1, num2) {
        (Value::Number(n1), Value::Number(n2)) => Ok(Value::Number(n1.pow(&n2))),
        _ => invalid_argument("pow expects both arguments to be numeric"),
    }
}

impl Builtin {
    /// Calls the function on `args`.
    pub fn apply<N: Numeric>(self, args: Vec<Value<N>>) -> (r: Result<Value<N>, ComputeError>)
        ensures
            builtin_outcome(self, args@, r),
    {
        match self {
            Builtin::Sum => sum(args),
            Builtin::Product => product(args),
            Builtin::Max => max(args),
            Builtin::Min => min(args),
            Builtin::Average => average(args),
            Builtin::Count => count(args),
            Builtin::Length => length(args),
            Builtin::If => if_func(args),
            Builtin::Round => round(args),
            Builtin::Rand => rand_func(args),
            Builtin::Pow => power(args),
        }
    }
}


/// The average of numbers is their sum divided by how many there are: what
/// `average` gives is what `div` answers on a result that `sum` can give
/// for the same arguments and on the number of arguments.
pub proof fn law_average_is_sum_over_count<N: Numeric>(
    args: Seq<Value<N>>,
    r: Result<Value<N>, ComputeError>,
)
    requires
        builtin_outcome(Builtin::Average, args, r),
        args.len() > 0,
        all_numbers(args),
    ensures
        exists|t: N, c: N, a: N|
            #![trigger builtin_outcome(Builtin::Sum, args, Ok::<Value<N>, ComputeError>(Value::Number(t))), call_ensures(N::from_count, (args.len() as usize,), c), call_ensures(N::div, (&t, &c), a)]
            builtin_outcome(Builtin::Sum, args, Ok::<Value<N>, ComputeError>(Value::Number(t)))
                && call_ensures(N::from_count, (args.len() as usize,), c) && call_ensures(
                N::div,
                (&t, &c),
                a,
            ) && r == Ok::<Value<N>, ComputeError>(Value::Number(a)),
{
    let (z, c, t) = choose|z: N, c: N, t: N|
        #![trigger call_ensures(N::zero, (), z), call_ensures(N::from_count, (args.len() as usize,), c), folds(NumOp::Add, z, numbers_of(args), t)]
        call_ensures(N::zero, (), z) && call_ensures(N::from_count, (args.len() as usize,), c)
            && folds(NumOp::Add, z, numbers_of(args), t) && (r matches Ok(Value::Number(a))
            && num_op(NumOp::Div, t, c, a));
    let a = r->Ok_0->Number_0;
    assert(fold_outcome(args, z, NumOp::Add, Ok::<Value<N>, ComputeError>(Value::Number(t)), "sum expects only numeric values"@));
    assert(builtin_outcome(Builtin::Sum, args, Ok::<Value<N>, ComputeError>(Value::Number(t))));
    assert(call_ensures(N::div, (&t, &c), a));
}

} // verus!
