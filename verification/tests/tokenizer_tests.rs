use spreadsheet::common_types::{Numeric, Token};
use spreadsheet::tokenizer::{ExpressionTokenizer, TokenizeError};

/// Numbers of the sheet as `f64`, the way the spreadsheet program computes them.
#[derive(Clone, Copy, Debug, PartialEq)]
struct F(f64);

impl Numeric for F {
    fn from_decimal(text: &str) -> Self {
        F(text.parse().unwrap())
    }
    fn from_count(n: usize) -> Self {
        F(n as f64)
    }
    fn zero() -> Self {
        F(0.0)
    }
    fn one() -> Self {
        F(1.0)
    }
    fn add(&self, other: &Self) -> Self {
        F(self.0 + other.0)
    }
    fn sub(&self, other: &Self) -> Self {
        F(self.0 - other.0)
    }
    fn mul(&self, other: &Self) -> Self {
        F(self.0 * other.0)
    }
    fn div(&self, other: &Self) -> Self {
        F(self.0 / other.0)
    }
    fn max(&self, other: &Self) -> Self {
        F(f64::max(self.0, other.0))
    }
    fn min(&self, other: &Self) -> Self {
        F(f64::min(self.0, other.0))
    }
    fn round(&self) -> Self {
        F(self.0.round())
    }
    fn pow(&self, exponent: &Self) -> Self {
        F(self.0.powf(exponent.0))
    }
    fn random() -> Self {
        F(rand::random::<f64>())
    }
    fn gt(&self, other: &Self) -> bool {
        self.0 > other.0
    }
    fn lt(&self, other: &Self) -> bool {
        self.0 < other.0
    }
    fn ge(&self, other: &Self) -> bool {
        self.0 >= other.0
    }
    fn le(&self, other: &Self) -> bool {
        self.0 <= other.0
    }
    fn equals(&self, other: &Self) -> bool {
        self.0 == other.0
    }
    fn to_text(&self) -> String {
        self.0.to_string()
    }
}

fn tokenize(s: &str) -> Result<Vec<Token<F>>, TokenizeError> {
    ExpressionTokenizer::new(s.chars().collect()).tokenize_expression::<F>()
}

#[test]
fn test_simple_expression() {
    let s = "A1 + A2";
    let tokens = tokenize(s)
        .unwrap();
    assert_eq!(
        tokens,
        vec![
            Token::CellName("A1".to_string()),
            Token::Plus,
            Token::CellName("A2".to_string())
        ]
    );
}

#[test]
fn test_expression_with_parentheses() {
    let s = "(A1 + B2) * C3";
    let tokens = tokenize(s)
        .unwrap();
    assert_eq!(
        tokens,
        vec![
            Token::LParen,
            Token::CellName("A1".to_string()),
            Token::Plus,
            Token::CellName("B2".to_string()),
            Token::RParen,
            Token::Multiply,
            Token::CellName("C3".to_string())
        ]
    );
}

#[test]
fn test_expression_with_division_and_whitespace() {
    let s = "  A1   /   B2 ";
    let tokens = tokenize(s)
        .unwrap();
    assert_eq!(
        tokens,
        vec![
            Token::CellName("A1".to_string()),
            Token::Division,
            Token::CellName("B2".to_string())
        ]
    );
}

#[test]
fn test_complex_expression() {
    let s = "((A1 + B2) - C3) * D4 / E5";
    let tokens = tokenize(s)
        .unwrap();
    assert_eq!(
        tokens,
        vec![
            Token::LParen,
            Token::LParen,
            Token::CellName("A1".to_string()),
            Token::Plus,
            Token::CellName("B2".to_string()),
            Token::RParen,
            Token::Minus,
            Token::CellName("C3".to_string()),
            Token::RParen,
            Token::Multiply,
            Token::CellName("D4".to_string()),
            Token::Division,
            Token::CellName("E5".to_string())
        ]
    );
}

#[test]
fn test_empty_expression() {
    let s = "";
    let tokens = tokenize(s)
        .unwrap();
    assert!(
        tokens.is_empty(),
        "Expected empty token list for empty expression"
    );
}

#[test]
fn test_expression_with_extra_whitespace() {
    let s = "   A1    +     A2   ";
    let tokens = tokenize(s)
        .unwrap();
    assert_eq!(
        tokens,
        vec![
            Token::CellName("A1".to_string()),
            Token::Plus,
            Token::CellName("A2".to_string())
        ]
    );
}

#[test]
fn test_expression_with_numbers() {
    let s = "3.14 + 42";
    let tokens = tokenize(s)
        .unwrap();
    assert_eq!(
        tokens,
        vec![Token::Number(F(3.14)), Token::Plus, Token::Number(F(42.0)),]
    );
}

#[test]
fn test_expression_with_invalid_cell_name() {
    let s = "A + B2";
    let result = tokenize(s);
    assert!(matches!(result, Err(TokenizeError::InvalidCellName(_))));
}

#[test]
fn test_expression_with_invalid_number() {
    let s = "42.3.14 + B2";
    let result = tokenize(s);
    assert!(matches!(result, Err(TokenizeError::InvalidNumber(_))));
}

#[test]
fn test_expression_with_unexpected_character() {
    let s = "A1 + $B2";
    let result = tokenize(s);
    assert!(matches!(
        result,
        Err(TokenizeError::UnexpectedCharacter('$'))
    ));
}

#[test]
fn test_expression_with_nested_parentheses() {
    let s = "(((A1))) + B2";
    let tokens = tokenize(s)
        .unwrap();
    assert_eq!(
        tokens,
        vec![
            Token::LParen,
            Token::LParen,
            Token::LParen,
            Token::CellName("A1".to_string()),
            Token::RParen,
            Token::RParen,
            Token::RParen,
            Token::Plus,
            Token::CellName("B2".to_string())
        ]
    );
}

#[test]
fn test_expression_with_negative_numbers() {
    let s = "-42.5 * (3 + 4)";
    let tokens = tokenize(s)
        .unwrap();
    assert_eq!(
        tokens,
        vec![
            Token::Minus,
            Token::Number(F(42.5)),
            Token::Multiply,
            Token::LParen,
            Token::Number(F(3.0)),
            Token::Plus,
            Token::Number(F(4.0)),
            Token::RParen,
        ]
    );
}

#[test]
fn test_expression_with_trailing_whitespace() {
    let s = "A1 + B2    ";
    let tokens = tokenize(s)
        .unwrap();
    assert_eq!(
        tokens,
        vec![
            Token::CellName("A1".to_string()),
            Token::Plus,
            Token::CellName("B2".to_string()),
        ]
    );
}

#[test]
fn test_expression_with_multiple_digits_in_cell_name() {
    let s = "A123 + B456";
    let tokens = tokenize(s)
        .unwrap();
    assert_eq!(
        tokens,
        vec![
            Token::CellName("A123".to_string()),
            Token::Plus,
            Token::CellName("B456".to_string()),
        ]
    );
}

#[test]
fn test_expression_with_only_whitespace() {
    let s = "    ";
    let tokens = tokenize(s)
        .unwrap();
    assert!(
        tokens.is_empty(),
        "Expected empty token list for expression with only whitespace"
    );
}

#[test]
fn test_expression_with_complex_numbers() {
    let s = "123.45 * 67.89";
    let tokens = tokenize(s)
        .unwrap();
    assert_eq!(
        tokens,
        vec![Token::Number(F(123.45)), Token::Multiply, Token::Number(F(67.89)),]
    );
}

#[test]
fn test_expression_with_function_and_range() {
    let s = "sum(A1:B1)";
    let tokens = tokenize(s)
        .unwrap();
    assert_eq!(
        tokens,
        vec![
            Token::FunctionName("sum".to_string()),
            Token::LParen,
            Token::CellName("A1".to_string()),
            Token::Colon,
            Token::CellName("B1".to_string()),
            Token::RParen
        ]
    );
}

#[test]
fn test_expression_with_function_multiple_args() {
    let s = "sum(A1, C1)";
    let tokens = tokenize(s)
        .unwrap();
    assert_eq!(
        tokens,
        vec![
            Token::FunctionName("sum".to_string()),
            Token::LParen,
            Token::CellName("A1".to_string()),
            Token::Comma,
            Token::CellName("C1".to_string()),
            Token::RParen
        ]
    );
}

#[test]
fn test_simple_comparison() {
    let s = "A1 == B1";
    let tokens = tokenize(s)
        .unwrap();
    assert_eq!(
        tokens,
        vec![
            Token::CellName("A1".to_string()),
            Token::Equals,
            Token::CellName("B1".to_string()),
        ]
    );
}

#[test]
fn test_complex_logical_expression() {
    let s = "A1 > B1 && C1 <= D1";
    let tokens = tokenize(s)
        .unwrap();
    assert_eq!(
        tokens,
        vec![
            Token::CellName("A1".to_string()),
            Token::GreaterThan,
            Token::CellName("B1".to_string()),
            Token::And,
            Token::CellName("C1".to_string()),
            Token::LessEquals,
            Token::CellName("D1".to_string()),
        ]
    );
}

#[test]
fn test_not_equals_and_or() {
    let s = "A1 != B1 || C1 != D1";
    let tokens = tokenize(s)
        .unwrap();
    assert_eq!(
        tokens,
        vec![
            Token::CellName("A1".to_string()),
            Token::NotEquals,
            Token::CellName("B1".to_string()),
            Token::Or,
            Token::CellName("C1".to_string()),
            Token::NotEquals,
            Token::CellName("D1".to_string()),
        ]
    );
}

#[test]
fn test_logical_with_arithmetic() {
    let s = "A1 + B1 > C1 * D1";
    let tokens = tokenize(s)
        .unwrap();
    assert_eq!(
        tokens,
        vec![
            Token::CellName("A1".to_string()),
            Token::Plus,
            Token::CellName("B1".to_string()),
            Token::GreaterThan,
            Token::CellName("C1".to_string()),
            Token::Multiply,
            Token::CellName("D1".to_string()),
        ]
    );
}

#[test]
fn test_logical_with_function() {
    let s = "sum(A1, B1) >= C1";
    let tokens = tokenize(s)
        .unwrap();
    assert_eq!(
        tokens,
        vec![
            Token::FunctionName("sum".to_string()),
            Token::LParen,
            Token::CellName("A1".to_string()),
            Token::Comma,
            Token::CellName("B1".to_string()),
            Token::RParen,
            Token::GreaterEquals,
            Token::CellName("C1".to_string()),
        ]
    );
}

#[test]
fn test_not_operator() {
    let s = "!A1";
    let tokens = tokenize(s)
        .unwrap();
    assert_eq!(tokens, vec![Token::Not, Token::CellName("A1".to_string()),]);
}

#[test]
fn test_complex_nested_expression() {
    let s = "(A1 > B1 && C1 < D1) || E1 == F1";
    let tokens = tokenize(s)
        .unwrap();
    assert_eq!(
        tokens,
        vec![
            Token::LParen,
            Token::CellName("A1".to_string()),
            Token::GreaterThan,
            Token::CellName("B1".to_string()),
            Token::And,
            Token::CellName("C1".to_string()),
            Token::LessThan,
            Token::CellName("D1".to_string()),
            Token::RParen,
            Token::Or,
            Token::CellName("E1".to_string()),
            Token::Equals,
            Token::CellName("F1".to_string()),
        ]
    );
}

#[test]
fn test_invalid_operators() {
    // Single = is invalid
    let s = "A1 = B1";
    assert!(tokenize(s)
        .is_err());

    // Single & is invalid
    let s = "A1 & B1";
    assert!(tokenize(s)
        .is_err());

    // Single | is invalid
    let s = "A1 | B1";
    assert!(tokenize(s)
        .is_err());
}

#[test]
fn test_bool() {
    let s = "TRUE != FALSE || FALSE != TRUE";
    let tokens = tokenize(s)
        .unwrap();
    assert_eq!(
        tokens,
        vec![
            Token::Bool(true),
            Token::NotEquals,
            Token::Bool(false),
            Token::Or,
            Token::Bool(false),
            Token::NotEquals,
            Token::Bool(true),
        ]
    );
}

#[test]
fn test_simple_boolean() {
    let s = "TRUE";
    let tokens = tokenize(s)
        .unwrap();
    assert_eq!(tokens, vec![Token::Bool(true)]);

    let s = "FALSE";
    let tokens = tokenize(s)
        .unwrap();
    assert_eq!(tokens, vec![Token::Bool(false)]);
}

#[test]
fn test_boolean_comparison() {
    let s = "A1 == TRUE";
    let tokens = tokenize(s)
        .unwrap();
    assert_eq!(
        tokens,
        vec![
            Token::CellName("A1".to_string()),
            Token::Equals,
            Token::Bool(true),
        ]
    );
}

#[test]
fn test_boolean_logical_operators() {
    let s = "TRUE && FALSE || TRUE";
    let tokens = tokenize(s)
        .unwrap();
    assert_eq!(
        tokens,
        vec![
            Token::Bool(true),
            Token::And,
            Token::Bool(false),
            Token::Or,
            Token::Bool(true),
        ]
    );
}

#[test]
fn test_not_boolean() {
    let s = "!TRUE";
    let tokens = tokenize(s)
        .unwrap();
    assert_eq!(tokens, vec![Token::Not, Token::Bool(true),]);
}

#[test]
fn test_boolean_in_function() {
    let s = "if(A1 > 10, TRUE, FALSE)";
    let tokens = tokenize(s)
        .unwrap();
    assert_eq!(
        tokens,
        vec![
            Token::FunctionName("if".to_string()),
            Token::LParen,
            Token::CellName("A1".to_string()),
            Token::GreaterThan,
            Token::Number(F(10.0)),
            Token::Comma,
            Token::Bool(true),
            Token::Comma,
            Token::Bool(false),
            Token::RParen,
        ]
    );
}

#[test]
fn test_complex_boolean_expression() {
    let s = "(A1 > B1 && TRUE) || (C1 == FALSE && !D1)";
    let tokens = tokenize(s)
        .unwrap();
    assert_eq!(
        tokens,
        vec![
            Token::LParen,
            Token::CellName("A1".to_string()),
            Token::GreaterThan,
            Token::CellName("B1".to_string()),
            Token::And,
            Token::Bool(true),
            Token::RParen,
            Token::Or,
            Token::LParen,
            Token::CellName("C1".to_string()),
            Token::Equals,
            Token::Bool(false),
            Token::And,
            Token::Not,
            Token::CellName("D1".to_string()),
            Token::RParen,
        ]
    );
}
