use spreadsheet::ast_resolver::{ASTResolver, VarContext};
use spreadsheet::common_types::{ComputeError, Index, Numeric, Token, Value, AST};
use std::collections::HashMap;

/// Numbers of the sheet as `f64`, the way the spreadsheet program computes them.
#[derive(Clone, Copy, Debug, PartialEq)]
struct F(f64);

impl Numeric for F {
    fn from_decimal(text: &str) -> Self {
        F(text.parse().unwrap())
    }
    fn from_count(n: usize) -> Self {
        F(n as f64)
    }
    fn zero() -> Self {
        F(0.0)
    }
    fn one() -> Self {
        F(1.0)
    }
    fn add(&self, other: &Self) -> Self {
        F(self.0 + other.0)
    }
    fn sub(&self, other: &Self) -> Self {
        F(self.0 - other.0)
    }
    fn mul(&self, other: &Self) -> Self {
        F(self.0 * other.0)
    }
    fn div(&self, other: &Self) -> Self {
        F(self.0 / other.0)
    }
    fn max(&self, other: &Self) -> Self {
        F(f64::max(self.0, other.0))
    }
    fn min(&self, other: &Self) -> Self {
        F(f64::min(self.0, other.0))
    }
    fn round(&self) -> Self {
        F(self.0.round())
    }
    fn pow(&self, exponent: &Self) -> Self {
        F(self.0.powf(exponent.0))
    }
    fn random() -> Self {
        F(rand::random::<f64>())
    }
    fn gt(&self, other: &Self) -> bool {
        self.0 > other.0
    }
    fn lt(&self, other: &Self) -> bool {
        self.0 < other.0
    }
    fn ge(&self, other: &Self) -> bool {
        self.0 >= other.0
    }
    fn le(&self, other: &Self) -> bool {
        self.0 <= other.0
    }
    fn equals(&self, other: &Self) -> bool {
        self.0 == other.0
    }
    fn to_text(&self) -> String {
        self.0.to_string()
    }
}

struct MockVarContext {
    variables: HashMap<Index, Value<F>>,
}

impl VarContext<F> for MockVarContext {
    fn get_variable(&self, index: Index) -> Option<Result<Value<F>, ComputeError>> {
        self.variables.get(&index).cloned().map(Ok)
    }
}

impl MockVarContext {
    fn new(variables: HashMap<Index, Value<F>>) -> Self {
        Self { variables }
    }
}

#[test]
fn test_resolve_value_ast() {
    let variables = MockVarContext::new(HashMap::new());
    let ast = AST::Value(Value::Number(F(42.0)));

    let result = ASTResolver::resolve(&ast, &variables).unwrap();
    assert_eq!(result, Value::Number(F(42.0)));
}

#[test]
fn test_resolve_cellname_ast() {
    let mut vars = HashMap::new();
    vars.insert(Index { x: 0, y: 0 }, Value::Number(F(10.0)));

    let variables = MockVarContext::new(vars);
    let ast = AST::CellName("A1".to_string());

    let result = ASTResolver::resolve(&ast, &variables).unwrap();
    assert_eq!(result, Value::Number(F(10.0)));
}

#[test]
fn test_resolve_binary_op_addition() {
    let mut vars = HashMap::new();
    vars.insert(Index { x: 0, y: 0 }, Value::Number(F(10.0)));
    vars.insert(Index { x: 1, y: 0 }, Value::Number(F(20.0)));

    let variables = MockVarContext::new(vars);
    let ast = AST::BinaryOp {
        op: Token::Plus,
        left: Box::new(AST::CellName("A1".to_string())),
        right: Box::new(AST::CellName("B1".to_string())),
    };

    let result = ASTResolver::resolve(&ast, &variables).unwrap();
    assert_eq!(result, Value::Number(F(30.0)));
}

#[test]
fn test_resolve_binary_op_subtraction() {
    let mut vars = HashMap::new();
    vars.insert(Index { x: 0, y: 0 }, Value::Number(F(30.0)));
    vars.insert(Index { x: 1, y: 0 }, Value::Number(F(20.0)));

    let variables = MockVarContext::new(vars);
    let ast = AST::BinaryOp {
        op: Token::Minus,
        left: Box::new(AST::CellName("A1".to_string())),
        right: Box::new(AST::CellName("B1".to_string())),
    };

    let result = ASTResolver::resolve(&ast, &variables).unwrap();
    assert_eq!(result, Value::Number(F(10.0)));
}

#[test]
fn test_resolve_binary_op_multiplication() {
    let mut vars = HashMap::new();
    vars.insert(Index { x: 0, y: 0 }, Value::Number(F(3.0)));
    vars.insert(Index { x: 1, y: 0 }, Value::Number(F(4.0)));

    let variables = MockVarContext::new(vars);
    let ast = AST::BinaryOp {
        op: Token::Multiply,
        left: Box::new(AST::CellName("A1".to_string())),
        right: Box::new(AST::CellName("B1".to_string())),
    };

    let result = ASTResolver::resolve(&ast, &variables).unwrap();
    assert_eq!(result, Value::Number(F(12.0)));
}

#[test]
fn test_resolve_binary_op_division() {
    let mut vars = HashMap::new();
    vars.insert(Index { x: 0, y: 0 }, Value::Number(F(20.0)));
    vars.insert(Index { x: 1, y: 0 }, Value::Number(F(4.0)));

    let variables = MockVarContext::new(vars);
    let ast = AST::BinaryOp {
        op: Token::Division,
        left: Box::new(AST::CellName("A1".to_string())),
        right: Box::new(AST::CellName("B1".to_string())),
    };

    let result = ASTResolver::resolve(&ast, &variables).unwrap();
    assert_eq!(result, Value::Number(F(5.0)));
}

#[test]
#[should_panic]
fn test_resolve_missing_cellname() {
    let variables = MockVarContext::new(HashMap::new());
    let ast = AST::CellName("A1".to_string());

    // This should panic because "A1" is not in the context
    ASTResolver::resolve(&ast, &variables).unwrap();
}

#[test]
fn test_resolve_deep_tree_addition_multiplication() {
    let mut vars = HashMap::new();
    vars.insert(Index { x: 0, y: 0 }, Value::Number(F(2.0)));
    vars.insert(Index { x: 1, y: 0 }, Value::Number(F(3.0)));
    vars.insert(Index { x: 2, y: 0 }, Value::Number(F(4.0)));

    let variables = MockVarContext::new(vars);
    let ast = AST::BinaryOp {
        op: Token::Plus,
        left: Box::new(AST::BinaryOp {
            op: Token::Multiply,
            left: Box::new(AST::CellName("A1".to_string())),
            right: Box::new(AST::CellName("B1".to_string())),
        }),
        right: Box::new(AST::CellName("C1".to_string())),
    };

    let result = ASTResolver::resolve(&ast, &variables).unwrap();
    assert_eq!(result, Value::Number(F(10.0)));
}

#[test]
fn test_resolve_deep_tree_subtraction_division() {
    let mut vars = HashMap::new();
    vars.insert(Index { x: 0, y: 0 }, Value::Number(F(20.0)));
    vars.insert(Index { x: 1, y: 0 }, Value::Number(F(4.0)));
    vars.insert(Index { x: 2, y: 0 }, Value::Number(F(2.0)));

    let variables = MockVarContext::new(vars);
    let ast = AST::BinaryOp {
        op: Token::Minus,
        left: Box::new(AST::BinaryOp {
            op: Token::Division,
            left: Box::new(AST::CellName("A1".to_string())),
            right: Box::new(AST::CellName("B1".to_string())),
        }),
        right: Box::new(AST::CellName("C1".to_string())),
    };

    let result = ASTResolver::resolve(&ast, &variables).unwrap();
    assert_eq!(result, Value::Number(F(3.0)));
}
