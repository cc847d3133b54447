use spreadsheet::common_types::{ComputeError, Index, Numeric, Value};
use spreadsheet::spreadsheet::SpreadSheet;

/// Numbers of the sheet as `f64`, the way the spreadsheet program computes them.
#[derive(Clone, Copy, Debug, PartialEq)]
struct F(f64);

impl Numeric for F {
    fn from_decimal(text: &str) -> Self {
        F(text.parse().unwrap())
    }
    fn from_count(n: usize) -> Self {
        F(n as f64)
    }
    fn zero() -> Self {
        F(0.0)
    }
    fn one() -> Self {
        F(1.0)
    }
    fn add(&self, other: &Self) -> Self {
        F(self.0 + other.0)
    }
    fn sub(&self, other: &Self) -> Self {
        F(self.0 - other.0)
    }
    fn mul(&self, other: &Self) -> Self {
        F(self.0 * other.0)
    }
    fn div(&self, other: &Self) -> Self {
        F(self.0 / other.0)
    }
    fn max(&self, other: &Self) -> Self {
        F(f64::max(self.0, other.0))
    }
    fn min(&self, other: &Self) -> Self {
        F(f64::min(self.0, other.0))
    }
    fn round(&self) -> Self {
        F(self.0.round())
    }
    fn pow(&self, exponent: &Self) -> Self {
        F(self.0.powf(exponent.0))
    }
    fn random() -> Self {
        F(rand::random::<f64>())
    }
    fn gt(&self, other: &Self) -> bool {
        self.0 > other.0
    }
    fn lt(&self, other: &Self) -> bool {
        self.0 < other.0
    }
    fn ge(&self, other: &Self) -> bool {
        self.0 >= other.0
    }
    fn le(&self, other: &Self) -> bool {
        self.0 <= other.0
    }
    fn equals(&self, other: &Self) -> bool {
        self.0 == other.0
    }
    fn to_text(&self) -> String {
        self.0.to_string()
    }
}

#[test]
fn test_empty_ref() {
    let mut spreadsheet = SpreadSheet::<F>::default();
    let a1 = Index { x: 0, y: 0 };

    spreadsheet.add_cell_and_compute(a1, "=A5".to_string());

    assert!(matches!(
        spreadsheet.get_computed(a1),
        Some(Err(ComputeError::UnfindableReference(_)))
    ));
}

#[test]
fn test_circular() {
    let mut spreadsheet = SpreadSheet::<F>::default();
    let a1 = Index { x: 0, y: 0 };
    let a2 = Index { x: 0, y: 1 };
    spreadsheet.add_cell_and_compute(a1, "=A2".to_string());
    spreadsheet.add_cell_and_compute(a2, "=A1".to_string());

    assert!(matches!(
        spreadsheet.get_computed(a1),
        Some(Err(ComputeError::Cycle))
    ));

    assert!(matches!(
        spreadsheet.get_computed(a2),
        Some(Err(ComputeError::Cycle))
    ));
}

#[test]
fn test_mutate() {
    let mut spreadsheet = SpreadSheet::<F>::default();
    let a1 = Index { x: 0, y: 0 };
    let a2 = Index { x: 0, y: 1 };
    let a3 = Index { x: 0, y: 2 };

    spreadsheet.add_cell_and_compute(a3, "=A2 * 3".to_string());
    spreadsheet.add_cell_and_compute(a2, "=A1 * 2".to_string());
    spreadsheet.add_cell_and_compute(a1, "1".to_string());

    assert!(matches!(
        spreadsheet.get_computed(a2),
        Some(Ok(Value::Number(F(2.0))))
    ));

    assert!(matches!(
        spreadsheet.get_computed(a3),
        Some(Ok(Value::Number(F(6.0))))
    ));

    spreadsheet.mutate_cell(a1, "7".to_string());
    assert!(matches!(
        spreadsheet.get_computed(a2),
        Some(Ok(Value::Number(F(14.0))))
    ));

    assert!(matches!(
        spreadsheet.get_computed(a3),
        Some(Ok(Value::Number(F(42.0))))
    ));
}

#[test]
fn test_remove_cell() {
    let mut spreadsheet = SpreadSheet::<F>::default();
    let a1 = Index { x: 0, y: 0 };
    let a2 = Index { x: 0, y: 1 };

    spreadsheet.add_cell_and_compute(a1, "10".to_string());
    spreadsheet.add_cell_and_compute(a2, "=A1 * 2".to_string());

    spreadsheet.remove_cell(a1);

    assert!(matches!(
        spreadsheet.get_computed(a2),
        Some(Err(ComputeError::UnfindableReference(_)))
    ));
}

#[test]
fn test_invalid_expression() {
    let mut spreadsheet = SpreadSheet::<F>::default();
    let a1 = Index { x: 0, y: 0 };

    spreadsheet.add_cell_and_compute(a1, "=A1 +".to_string());

    assert!(matches!(
        spreadsheet.get_computed(a1),
        Some(Err(ComputeError::ParseError(_)))
    ));
}

#[test]
fn test_self_reference() {
    let mut spreadsheet = SpreadSheet::<F>::default();
    let a1 = Index { x: 0, y: 0 };

    spreadsheet.add_cell_and_compute(a1, "=A1".to_string());

    assert!(matches!(
        spreadsheet.get_computed(a1),
        Some(Err(ComputeError::Cycle))
    ));
}

#[test]
fn test_indirect_circular_reference() {
    let mut spreadsheet = SpreadSheet::<F>::default();
    let a1 = Index { x: 0, y: 0 };
    let b1 = Index { x: 1, y: 0 };
    let c1 = Index { x: 2, y: 0 };

    spreadsheet.add_cell_and_compute(a1, "=C1".to_string());
    spreadsheet.add_cell_and_compute(b1, "=A1 * 2".to_string());
    spreadsheet.add_cell_and_compute(c1, "=B1".to_string());

    assert!(matches!(
        spreadsheet.get_computed(a1),
        Some(Err(ComputeError::Cycle))
    ));
    assert!(matches!(
        spreadsheet.get_computed(b1),
        Some(Err(ComputeError::Cycle))
    ));
    assert!(matches!(
        spreadsheet.get_computed(c1),
        Some(Err(ComputeError::Cycle))
    ));
}

#[test]
fn test_function_call(){
    let mut spreadsheet = SpreadSheet::<F>::default();
    let a1 = Index { x: 0, y: 0 };
    let b1 = Index { x: 1, y: 0 };
    let c1 = Index { x: 2, y: 0 };

    spreadsheet.add_cell_and_compute(a1, "15".to_string());
    spreadsheet.add_cell_and_compute(b1, "23".to_string());
    spreadsheet.add_cell_and_compute(c1, "=sum(A1:B1)".to_string());
    let computed = spreadsheet.get_computed(c1);
    assert!(matches!(
        computed,
        Some(Ok(Value::Number(F(38.0))))
    ));
}

#[test]
fn test_string(){
    let mut spreadsheet = SpreadSheet::<F>::default();
    let a1 = Index { x: 0, y: 0 };
    

    spreadsheet.add_cell_and_compute(a1, "=\"hello\"".to_string());
    let computed = spreadsheet.get_computed(a1);
    let expected = String::from("hello");
    assert!(matches!(
        computed,
        Some(Ok(Value::Text(expected)))
    ));
}

#[test]
fn test_history_cycle_broken_by_mutation() {
    let mut spreadsheet = SpreadSheet::<F>::default();
    let a1 = Index { x: 0, y: 0 };
    let b1 = Index { x: 1, y: 0 };
    let c1 = Index { x: 2, y: 0 };
    spreadsheet.add_cell_and_compute(a1, "=B1 + 1".to_string());
    spreadsheet.add_cell_and_compute(b1, "=A1".to_string());
    spreadsheet.add_cell_and_compute(c1, "=A1 * 2".to_string());
    assert!(matches!(spreadsheet.get_computed(a1), Some(Err(ComputeError::Cycle))));
    assert!(matches!(spreadsheet.get_computed(b1), Some(Err(ComputeError::Cycle))));
    assert!(matches!(spreadsheet.get_computed(c1), Some(Err(ComputeError::Cycle))));

    spreadsheet.mutate_cell(b1, "5".to_string());
    assert!(matches!(spreadsheet.get_computed(b1), Some(Ok(Value::Number(F(5.0))))));
    assert!(matches!(spreadsheet.get_computed(a1), Some(Ok(Value::Number(F(6.0))))));
    assert!(matches!(spreadsheet.get_computed(c1), Some(Ok(Value::Number(F(12.0))))));
}

#[test]
fn test_history_cell_after_cycle_shows_its_own_evaluation() {
    let mut spreadsheet = SpreadSheet::<F>::default();
    let a1 = Index { x: 0, y: 0 };
    let b1 = Index { x: 1, y: 0 };
    let c1 = Index { x: 2, y: 0 };
    spreadsheet.add_cell_and_compute(a1, "=B1".to_string());
    spreadsheet.add_cell_and_compute(b1, "=A1".to_string());
    spreadsheet.add_cell_and_compute(c1, "=nope(A1)".to_string());
    assert!(matches!(spreadsheet.get_computed(a1), Some(Err(ComputeError::Cycle))));
    assert!(matches!(spreadsheet.get_computed(c1), Some(Err(ComputeError::UnknownFunction))));
}

#[test]
fn test_history_cycle_broken_by_removal() {
    let mut spreadsheet = SpreadSheet::<F>::default();
    let a1 = Index { x: 0, y: 0 };
    let b1 = Index { x: 1, y: 0 };
    spreadsheet.add_cell_and_compute(a1, "=B1".to_string());
    spreadsheet.add_cell_and_compute(b1, "=A1".to_string());
    spreadsheet.remove_cell(b1);
    assert!(spreadsheet.get_computed(b1).is_none());
    assert!(matches!(
        spreadsheet.get_computed(a1),
        Some(Err(ComputeError::UnfindableReference(ref m))) if m == "Could not find variable B1 with in context"
    ));
}

#[test]
fn test_history_range_dependants_recomputed() {
    let mut spreadsheet = SpreadSheet::<F>::default();
    let a1 = Index { x: 0, y: 0 };
    let a2 = Index { x: 0, y: 1 };
    let b1 = Index { x: 1, y: 0 };
    spreadsheet.add_cell_and_compute(a1, "1".to_string());
    spreadsheet.add_cell_and_compute(b1, "=sum(A1:A3)".to_string());
    assert!(matches!(spreadsheet.get_computed(b1), Some(Ok(Value::Number(F(1.0))))));
    spreadsheet.add_cell_and_compute(a2, "4".to_string());
    assert!(matches!(spreadsheet.get_computed(b1), Some(Ok(Value::Number(F(5.0))))));
    spreadsheet.remove_cell(a1);
    assert!(matches!(spreadsheet.get_computed(b1), Some(Ok(Value::Number(F(4.0))))));
}
