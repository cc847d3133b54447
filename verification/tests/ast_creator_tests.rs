use spreadsheet::ast_creator::{ASTCreateError, ASTCreator};
use spreadsheet::common_types::{Numeric, Token, Value, AST};

/// Numbers of the sheet as `f64`, the way the spreadsheet program computes them.
#[derive(Clone, Copy, Debug, PartialEq)]
struct F(f64);

impl Numeric for F {
    fn from_decimal(text: &str) -> Self {
        F(text.parse().unwrap())
    }
    fn from_count(n: usize) -> Self {
        F(n as f64)
    }
    fn zero() -> Self {
        F(0.0)
    }
    fn one() -> Self {
        F(1.0)
    }
    fn add(&self, other: &Self) -> Self {
        F(self.0 + other.0)
    }
    fn sub(&self, other: &Self) -> Self {
        F(self.0 - other.0)
    }
    fn mul(&self, other: &Self) -> Self {
        F(self.0 * other.0)
    }
    fn div(&self, other: &Self) -> Self {
        F(self.0 / other.0)
    }
    fn max(&self, other: &Self) -> Self {
        F(f64::max(self.0, other.0))
    }
    fn min(&self, other: &Self) -> Self {
        F(f64::min(self.0, other.0))
    }
    fn round(&self) -> Self {
        F(self.0.round())
    }
    fn pow(&self, exponent: &Self) -> Self {
        F(self.0.powf(exponent.0))
    }
    fn random() -> Self {
        F(rand::random::<f64>())
    }
    fn gt(&self, other: &Self) -> bool {
        self.0 > other.0
    }
    fn lt(&self, other: &Self) -> bool {
        self.0 < other.0
    }
    fn ge(&self, other: &Self) -> bool {
        self.0 >= other.0
    }
    fn le(&self, other: &Self) -> bool {
        self.0 <= other.0
    }
    fn equals(&self, other: &Self) -> bool {
        self.0 == other.0
    }
    fn to_text(&self) -> String {
        self.0.to_string()
    }
}

#[test]
fn test_single_cell_name() {
    let tokens: Vec<Token<F>> = vec![Token::CellName("A1".to_string())];
    let mut parser = ASTCreator::new(tokens);
    let ast = parser.parse().unwrap();
    assert_eq!(ast, AST::CellName("A1".to_string()));
}

#[test]
fn test_simple_addition() {
    let tokens: Vec<Token<F>> = vec![
        Token::CellName("A1".to_string()),
        Token::Plus,
        Token::CellName("B2".to_string()),
    ];
    let mut parser = ASTCreator::new(tokens);
    let ast = parser.parse().unwrap();
    assert_eq!(
        ast,
        AST::BinaryOp {
            op: Token::Plus,
            left: Box::new(AST::CellName("A1".to_string())),
            right: Box::new(AST::CellName("B2".to_string())),
        }
    );
}

#[test]
fn test_operator_precedence() {
    let tokens: Vec<Token<F>> = vec![
        Token::CellName("A1".to_string()),
        Token::Plus,
        Token::CellName("B2".to_string()),
        Token::Multiply,
        Token::CellName("C3".to_string()),
    ];
    let mut parser = ASTCreator::new(tokens);
    let ast = parser.parse().unwrap();
    assert_eq!(
        ast,
        AST::BinaryOp {
            op: Token::Plus,
            left: Box::new(AST::CellName("A1".to_string())),
            right: Box::new(AST::BinaryOp {
                op: Token::Multiply,
                left: Box::new(AST::CellName("B2".to_string())),
                right: Box::new(AST::CellName("C3".to_string())),
            }),
        }
    );
}

#[test]
fn test_parentheses_override_precedence() {
    let tokens: Vec<Token<F>> = vec![
        Token::LParen,
        Token::CellName("A1".to_string()),
        Token::Plus,
        Token::CellName("B2".to_string()),
        Token::RParen,
        Token::Multiply,
        Token::CellName("C3".to_string()),
    ];
    let mut parser = ASTCreator::new(tokens);
    let ast = parser.parse().unwrap();
    assert_eq!(
        ast,
        AST::BinaryOp {
            op: Token::Multiply,
            left: Box::new(AST::BinaryOp {
                op: Token::Plus,
                left: Box::new(AST::CellName("A1".to_string())),
                right: Box::new(AST::CellName("B2".to_string())),
            }),
            right: Box::new(AST::CellName("C3".to_string())),
        }
    );
}

#[test]
fn test_mismatched_parentheses() {
    let tokens: Vec<Token<F>> = vec![
        Token::LParen,
        Token::CellName("A1".to_string()),
        Token::Plus,
        Token::CellName("B2".to_string()),
    ];
    let mut parser = ASTCreator::new(tokens);
    let result = parser.parse();
    assert!(matches!(result, Err(ASTCreateError::MismatchedParentheses)));
}

#[test]
fn test_unexpected_token() {
    let tokens: Vec<Token<F>> = vec![Token::Plus, Token::CellName("A1".to_string())];
    let mut parser = ASTCreator::new(tokens);
    let result = parser.parse();
    assert!(matches!(result, Err(ASTCreateError::UnexpectedToken)));
}

#[test]
fn test_nested_parentheses() {
    let tokens: Vec<Token<F>> = vec![
        Token::LParen,
        Token::LParen,
        Token::CellName("A1".to_string()),
        Token::Plus,
        Token::CellName("B2".to_string()),
        Token::RParen,
        Token::Multiply,
        Token::CellName("C3".to_string()),
        Token::RParen,
    ];
    let mut parser = ASTCreator::new(tokens);
    let ast = parser.parse().unwrap();
    assert_eq!(
        ast,
        AST::BinaryOp {
            op: Token::Multiply,
            left: Box::new(AST::BinaryOp {
                op: Token::Plus,
                left: Box::new(AST::CellName("A1".to_string())),
                right: Box::new(AST::CellName("B2".to_string())),
            }),
            right: Box::new(AST::CellName("C3".to_string())),
        }
    );
}

#[test]
fn test_simple_function_call() {
    let tokens: Vec<Token<F>> = vec![
        Token::FunctionName("sum".to_string()),
        Token::LParen,
        Token::CellName("A1".to_string()),
        Token::RParen,
    ];
    let mut parser = ASTCreator::new(tokens);
    let ast = parser.parse().unwrap();
    assert_eq!(
        ast,
        AST::FunctionCall {
            name: "sum".to_string(),
            arguments: vec![AST::CellName("A1".to_string())],
        }
    );
}

#[test]
fn test_function_call_multiple_arguments() {
    let tokens: Vec<Token<F>> = vec![
        Token::FunctionName("average".to_string()),
        Token::LParen,
        Token::CellName("A1".to_string()),
        Token::Comma,
        Token::CellName("B2".to_string()),
        Token::Comma,
        Token::Number(F(42.0)),
        Token::RParen,
    ];
    let mut parser = ASTCreator::new(tokens);
    let ast = parser.parse().unwrap();
    assert_eq!(
        ast,
        AST::FunctionCall {
            name: "average".to_string(),
            arguments: vec![
                AST::CellName("A1".to_string()),
                AST::CellName("B2".to_string()),
                AST::Value(Value::Number(F(42.0))),
            ],
        }
    );
}

#[test]
fn test_nested_function_calls() {
    let tokens: Vec<Token<F>> = vec![
        Token::FunctionName("sum".to_string()),
        Token::LParen,
        Token::FunctionName("average".to_string()),
        Token::LParen,
        Token::CellName("A1".to_string()),
        Token::Comma,
        Token::CellName("B2".to_string()),
        Token::RParen,
        Token::RParen,
    ];
    let mut parser = ASTCreator::new(tokens);
    let ast = parser.parse().unwrap();
    assert_eq!(
        ast,
        AST::FunctionCall {
            name: "sum".to_string(),
            arguments: vec![AST::FunctionCall {
                name: "average".to_string(),
                arguments: vec![
                    AST::CellName("A1".to_string()),
                    AST::CellName("B2".to_string()),
                ],
            }],
        }
    );
}

#[test]
fn test_function_call_with_expression() {
    let tokens: Vec<Token<F>> = vec![
        Token::FunctionName("max".to_string()),
        Token::LParen,
        Token::CellName("A1".to_string()),
        Token::Plus,
        Token::Number(F(10.0)),
        Token::RParen,
    ];
    let mut parser = ASTCreator::new(tokens);
    let ast = parser.parse().unwrap();
    assert_eq!(
        ast,
        AST::FunctionCall {
            name: "max".to_string(),
            arguments: vec![AST::BinaryOp {
                op: Token::Plus,
                left: Box::new(AST::CellName("A1".to_string())),
                right: Box::new(AST::Value(Value::Number(F(10.0)))),
            }],
        }
    );
}

#[test]
fn test_function_call_missing_parentheses() {
    let tokens: Vec<Token<F>> = vec![
        Token::FunctionName("sum".to_string()),
        Token::CellName("A1".to_string()),
    ];
    let mut parser = ASTCreator::new(tokens);
    let result = parser.parse();
    assert!(matches!(result, Err(ASTCreateError::UnexpectedToken)));
}

#[test]
fn test_function_call_missing_closing_parenthesis() {
    let tokens: Vec<Token<F>> = vec![
        Token::FunctionName("sum".to_string()),
        Token::LParen,
        Token::CellName("A1".to_string()),
    ];
    let mut parser = ASTCreator::new(tokens);
    let result = parser.parse();
    assert!(matches!(result, Err(ASTCreateError::MismatchedParentheses)));
}

#[test]
fn test_simple_range() {
    let tokens: Vec<Token<F>> = vec![
        Token::CellName("A1".to_string()),
        Token::Colon,
        Token::CellName("B5".to_string()),
    ];
    let mut parser = ASTCreator::new(tokens);
    let ast = parser.parse().unwrap();
    assert_eq!(
        ast,
        AST::Range {
            from: "A1".to_string(),
            to: "B5".to_string(),
        }
    );
}

#[test]
fn test_range_in_function() {
    let tokens: Vec<Token<F>> = vec![
        Token::FunctionName("sum".to_string()),
        Token::LParen,
        Token::CellName("A1".to_string()),
        Token::Colon,
        Token::CellName("A10".to_string()),
        Token::RParen,
    ];
    let mut parser = ASTCreator::new(tokens);
    let ast = parser.parse().unwrap();
    assert_eq!(
        ast,
        AST::FunctionCall {
            name: "sum".to_string(),
            arguments: vec![AST::Range {
                from: "A1".to_string(),
                to: "A10".to_string(),
            }],
        }
    );
}

#[test]
fn test_invalid_range_missing_second_cell() {
    let tokens: Vec<Token<F>> = vec![
        Token::CellName("A1".to_string()),
        Token::Colon,
        Token::Number(F(42.0)), // Should be a cell name
    ];
    let mut parser = ASTCreator::new(tokens);
    let result = parser.parse();
    assert!(matches!(result, Err(ASTCreateError::InvalidRange)));
}

#[test]
fn test_invalid_range_missing_colon() {
    let tokens: Vec<Token<F>> = vec![
        Token::CellName("A1".to_string()),
        Token::CellName("A10".to_string()),
    ];
    let mut parser = ASTCreator::new(tokens);
    let result = parser.parse();
    assert!(matches!(result, Err(ASTCreateError::UnexpectedToken)));
}

#[test]
fn test_range_with_operation() {
    let tokens: Vec<Token<F>> = vec![
        Token::CellName("A1".to_string()),
        Token::Colon,
        Token::CellName("A10".to_string()),
        Token::Plus,
        Token::Number(F(5.0)),
    ];
    let mut parser = ASTCreator::new(tokens);
    let ast = parser.parse().unwrap();
    assert_eq!(
        ast,
        AST::BinaryOp {
            op: Token::Plus,
            left: Box::new(AST::Range {
                from: "A1".to_string(),
                to: "A10".to_string(),
            }),
            right: Box::new(AST::Value(Value::Number(F(5.0)))),
        }
    );
}
