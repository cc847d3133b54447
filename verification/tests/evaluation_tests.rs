use spreadsheet::builtin_functions::{
    average, count, get_func, if_func, length, max, min, power, product, rand_func, round, sum,
    Builtin,
};
use spreadsheet::common_types::{ComputeError, Index, Numeric, Value};
use spreadsheet::spreadsheet::SpreadSheet;

/// Numbers of the sheet as `f64`, the way the spreadsheet program computes them.
#[derive(Clone, Copy, Debug, PartialEq)]
struct F(f64);

impl Numeric for F {
    fn from_decimal(text: &str) -> Self {
        F(text.parse().unwrap())
    }
    fn from_count(n: usize) -> Self {
        F(n as f64)
    }
    fn zero() -> Self {
        F(0.0)
    }
    fn one() -> Self {
        F(1.0)
    }
    fn add(&self, other: &Self) -> Self {
        F(self.0 + other.0)
    }
    fn sub(&self, other: &Self) -> Self {
        F(self.0 - other.0)
    }
    fn mul(&self, other: &Self) -> Self {
        F(self.0 * other.0)
    }
    fn div(&self, other: &Self) -> Self {
        F(self.0 / other.0)
    }
    fn max(&self, other: &Self) -> Self {
        F(f64::max(self.0, other.0))
    }
    fn min(&self, other: &Self) -> Self {
        F(f64::min(self.0, other.0))
    }
    fn round(&self) -> Self {
        F(self.0.round())
    }
    fn pow(&self, exponent: &Self) -> Self {
        F(self.0.powf(exponent.0))
    }
    fn random() -> Self {
        F(rand::random::<f64>())
    }
    fn gt(&self, other: &Self) -> bool {
        self.0 > other.0
    }
    fn lt(&self, other: &Self) -> bool {
        self.0 < other.0
    }
    fn ge(&self, other: &Self) -> bool {
        self.0 >= other.0
    }
    fn le(&self, other: &Self) -> bool {
        self.0 <= other.0
    }
    fn equals(&self, other: &Self) -> bool {
        self.0 == other.0
    }
    fn to_text(&self) -> String {
        self.0.to_string()
    }
}

fn idx(x: usize, y: usize) -> Index {
    Index { x, y }
}

fn num(v: f64) -> Value<F> {
    Value::Number(F(v))
}

fn text(s: &str) -> Value<F> {
    Value::Text(s.to_string())
}

/// The value a lone formula computes to in a sheet with A1 = 2, B1 = 3,
/// C1 = 4, A2 = "ab", B2 = TRUE.
fn eval(formula: &str) -> Option<Result<Value<F>, ComputeError>> {
    let mut sheet = SpreadSheet::<F>::default();
    sheet.add_cell_and_compute(idx(0, 0), "2".to_string());
    sheet.add_cell_and_compute(idx(1, 0), "3".to_string());
    sheet.add_cell_and_compute(idx(2, 0), "4".to_string());
    sheet.add_cell_and_compute(idx(0, 1), "ab".to_string());
    sheet.add_cell_and_compute(idx(1, 1), "=TRUE".to_string());
    sheet.add_cell_and_compute(idx(5, 5), formula.to_string());
    sheet.get_computed(idx(5, 5))
}

fn value(r: Option<Result<Value<F>, ComputeError>>) -> Value<F> {
    match r {
        Some(Ok(v)) => v,
        other => panic!("expected a value, got {other:?}"),
    }
}

fn invalid_message(r: Option<Result<Value<F>, ComputeError>>) -> String {
    match r {
        Some(Err(ComputeError::InvalidArgument(m))) => m,
        other => panic!("expected an invalid argument, got {other:?}"),
    }
}

#[test]
fn arithmetic_of_cells() {
    assert_eq!(value(eval("=A1 + B1 * C1")), num(14.0));
    assert_eq!(value(eval("=(A1 + B1) * C1")), num(20.0));
    assert_eq!(value(eval("=C1 / A1 - B1")), num(-1.0));
    assert_eq!(value(eval("=A1 - B1 - C1")), num(-5.0));
    assert_eq!(value(eval("=\"x\" + A2")), text("xab"));
    assert_eq!(value(eval("=1.5")), num(1.5));
    assert_eq!(value(eval("=FALSE")), Value::Bool(false));
}

#[test]
fn mixing_types_is_a_type_error() {
    assert!(matches!(eval("=A1 + A2"), Some(Err(ComputeError::TypeError))));
    assert!(matches!(eval("=A2 * 2"), Some(Err(ComputeError::TypeError))));
    assert!(matches!(eval("=B2 - 1"), Some(Err(ComputeError::TypeError))));
    assert!(matches!(eval("=A1:B1"), Some(Err(ComputeError::TypeError))));
}

#[test]
fn sum_product_max_min_average_count() {
    assert_eq!(value(eval("=sum(A1:C1)")), num(9.0));
    assert_eq!(value(eval("=sum(A1, 10, B1:C1)")), num(19.0));
    assert_eq!(value(eval("=product(A1:C1)")), num(24.0));
    assert_eq!(value(eval("=max(A1:C1, 1)")), num(4.0));
    assert_eq!(value(eval("=min(A1:C1, 10)")), num(2.0));
    assert_eq!(value(eval("=average(A1:C1)")), num(3.0));
    assert_eq!(value(eval("=count(A1:C1, 7)")), num(4.0));
    assert_eq!(invalid_message(eval("=sum(A1:C3)")), "sum expects only numeric values");
}

#[test]
fn ranges_skip_missing_cells_in_row_order() {
    // D1..D3 are empty; only A1..C1 hold values in row 1.
    assert_eq!(value(eval("=sum(A1:D1)")), num(9.0));
    assert_eq!(value(eval("=sum(C1:A1)")), num(9.0));
    assert_eq!(value(eval("=count(D4:E9)")), num(0.0));
}

#[test]
fn length_if_round_pow_rand() {
    assert_eq!(value(eval("=length(A2)")), num(2.0));
    assert_eq!(value(eval("=length(\"héllo\")")), num(6.0));
    assert_eq!(value(eval("=if(B2, A1, B1)")), num(2.0));
    assert_eq!(value(eval("=if(FALSE, A1, \"no\")")), text("no"));
    assert_eq!(value(eval("=round(2.5)")), num(3.0));
    assert_eq!(value(eval("=round(C1 / B1)")), num(1.0));
    assert_eq!(value(eval("=pow(A1, B1)")), num(8.0));
    // A call needs at least one argument to be read.
    assert!(matches!(eval("=rand()"), Some(Err(ComputeError::ParseError(_)))));
    assert!(matches!(eval("=sum()"), Some(Err(ComputeError::ParseError(_)))));
}

#[test]
fn each_invalid_argument_message() {
    assert_eq!(invalid_message(eval("=sum(A2)")), "sum expects only numeric values");
    assert_eq!(invalid_message(eval("=product(1, A2)")), "product expects only numeric values");
    assert_eq!(invalid_message(Some(max::<F>(vec![]))), "max expects at least one numeric value");
    assert_eq!(invalid_message(eval("=max(A2)")), "max expects only numeric values");
    assert_eq!(invalid_message(Some(min::<F>(vec![]))), "min expects at least one numeric value");
    assert_eq!(invalid_message(eval("=min(B2)")), "min expects only numeric values");
    assert_eq!(invalid_message(Some(average::<F>(vec![]))), "average expects at least one numeric value");
    assert_eq!(invalid_message(eval("=average(A2)")), "average expects only numeric values");
    assert_eq!(invalid_message(eval("=count(A2)")), "count expects only numeric values");
    assert_eq!(invalid_message(Some(length::<F>(vec![]))), "length expects exactly one argument");
    assert_eq!(invalid_message(eval("=length(A1)")), "length expects a string argument");
    assert_eq!(invalid_message(eval("=if(B2, 1)")), "if expects exactly three arguments");
    assert_eq!(invalid_message(eval("=if(1, 2, 3)")), "if expects a boolean as the first argument");
    assert_eq!(invalid_message(Some(round::<F>(vec![]))), "round expects exactly one numeric argument");
    assert_eq!(invalid_message(eval("=round(A2)")), "round expects a numeric argument");
    assert_eq!(invalid_message(eval("=rand(1)")), "rand expects no arguments");
    assert_eq!(sum::<F>(vec![]).unwrap(), num(0.0));
    assert_eq!(product::<F>(vec![]).unwrap(), num(1.0));
    assert_eq!(invalid_message(eval("=pow(1)")), "pow expects exactly two numeric arguments");
    assert_eq!(invalid_message(eval("=pow(A2, 1)")), "pow expects both arguments to be numeric");
}

#[test]
fn unknown_functions_and_missing_cells() {
    assert!(matches!(eval("=nope(1)"), Some(Err(ComputeError::UnknownFunction))));
    assert!(matches!(
        eval("=Z9"),
        Some(Err(ComputeError::UnfindableReference(ref m))) if m == "Could not find variable Z9 with in context"
    ));
    // The first error among the arguments is the result.
    assert!(matches!(eval("=sum(Z9, A1 + A2)"), Some(Err(ComputeError::UnfindableReference(_)))));
    assert!(matches!(eval("=sum(A1 + A2, Z9)"), Some(Err(ComputeError::TypeError))));
}

#[test]
fn builtins_called_directly() {
    assert_eq!(sum(vec![num(1.0), num(2.5)]).unwrap(), num(3.5));
    assert_eq!(product(vec![num(2.0), num(2.5)]).unwrap(), num(5.0));
    assert_eq!(max(vec![num(-1.0), num(-7.0)]).unwrap(), num(-1.0));
    assert_eq!(min(vec![num(-1.0), num(-7.0)]).unwrap(), num(-7.0));
    assert_eq!(average(vec![num(1.0), num(2.0)]).unwrap(), num(1.5));
    assert_eq!(count(vec![num(1.0), num(2.0), num(3.0)]).unwrap(), num(3.0));
    assert_eq!(length(vec![text("abc")]).unwrap(), num(3.0));
    assert_eq!(if_func(vec![Value::Bool(true), text("y"), text("n")]).unwrap(), text("y"));
    assert_eq!(round(vec![num(-1.4)]).unwrap(), num(-1.0));
    assert_eq!(power(vec![num(2.0), num(10.0)]).unwrap(), num(1024.0));
    assert!(matches!(rand_func::<F>(vec![]), Ok(Value::Number(F(r))) if (0.0..1.0).contains(&r)));
    assert_eq!(get_func("sum"), Some(Builtin::Sum));
    assert_eq!(get_func("pow"), Some(Builtin::Pow));
    assert_eq!(get_func("if"), Some(Builtin::If));
    assert_eq!(get_func("SUM"), None);
    assert_eq!(Builtin::Max.apply(vec![num(1.0), num(4.0)]).unwrap(), num(4.0));
}

#[test]
fn comparisons_and_logic() {
    assert_eq!(value(eval("=if(A1 > 1, \"big\", \"small\")")), text("big"));
    assert_eq!(value(eval("=if(A1 > 10, TRUE, FALSE)")), Value::Bool(false));
    assert_eq!(value(eval("=A1 == 2")), Value::Bool(true));
    assert_eq!(value(eval("=A2 == \"ab\"")), Value::Bool(true));
    assert_eq!(value(eval("=A1 != B1")), Value::Bool(true));
    assert_eq!(value(eval("=B2 != TRUE")), Value::Bool(false));
    assert_eq!(value(eval("=A1 < B1 && B1 <= C1")), Value::Bool(true));
    assert_eq!(value(eval("=A1 >= B1 || FALSE")), Value::Bool(false));
    assert_eq!(value(eval("=1 + 1 == 2")), Value::Bool(true));
    assert!(matches!(eval("=A1 == A2"), Some(Err(ComputeError::TypeError))));
    assert!(matches!(eval("=TRUE && 1"), Some(Err(ComputeError::TypeError))));
    assert!(matches!(eval("=A2 > A2"), Some(Err(ComputeError::TypeError))));
}

#[test]
fn max_and_min_start_from_the_first_argument() {
    assert_eq!(max(vec![num(f64::NEG_INFINITY)]).unwrap(), num(f64::NEG_INFINITY));
    assert_eq!(min(vec![num(f64::INFINITY)]).unwrap(), num(f64::INFINITY));
    assert_eq!(max(vec![num(3.0), num(9.0), num(-2.0)]).unwrap(), num(9.0));
    assert_eq!(min(vec![num(3.0), num(9.0), num(-2.0)]).unwrap(), num(-2.0));
    assert!(max(vec![text("x"), num(1.0)]).is_err());
}
