use spreadsheet::cell_names::{cell_idx, cell_name_of, cell_ref, column_idx_to_string, decimal_string};
use spreadsheet::common_types::{Cell, Index, Numeric, ParsedCell, Token, Value, AST};
use spreadsheet::parser::{raw_is_readable, CellParser};
use spreadsheet::ast_resolver::ASTResolver;
use spreadsheet::tokenizer::{ExpressionTokenizer, TokenizeError};

/// Numbers of the sheet as `f64`, the way the spreadsheet program computes them.
#[derive(Clone, Copy, Debug, PartialEq)]
struct F(f64);

impl Numeric for F {
    fn from_decimal(text: &str) -> Self {
        F(text.parse().unwrap())
    }
    fn from_count(n: usize) -> Self {
        F(n as f64)
    }
    fn zero() -> Self {
        F(0.0)
    }
    fn one() -> Self {
        F(1.0)
    }
    fn add(&self, other: &Self) -> Self {
        F(self.0 + other.0)
    }
    fn sub(&self, other: &Self) -> Self {
        F(self.0 - other.0)
    }
    fn mul(&self, other: &Self) -> Self {
        F(self.0 * other.0)
    }
    fn div(&self, other: &Self) -> Self {
        F(self.0 / other.0)
    }
    fn max(&self, other: &Self) -> Self {
        F(f64::max(self.0, other.0))
    }
    fn min(&self, other: &Self) -> Self {
        F(f64::min(self.0, other.0))
    }
    fn round(&self) -> Self {
        F(self.0.round())
    }
    fn pow(&self, exponent: &Self) -> Self {
        F(self.0.powf(exponent.0))
    }
    fn random() -> Self {
        F(rand::random::<f64>())
    }
    fn gt(&self, other: &Self) -> bool {
        self.0 > other.0
    }
    fn lt(&self, other: &Self) -> bool {
        self.0 < other.0
    }
    fn ge(&self, other: &Self) -> bool {
        self.0 >= other.0
    }
    fn le(&self, other: &Self) -> bool {
        self.0 <= other.0
    }
    fn equals(&self, other: &Self) -> bool {
        self.0 == other.0
    }
    fn to_text(&self) -> String {
        self.0.to_string()
    }
}

fn parse(raw: &str) -> Cell<F> {
    let mut cell = Cell::from_raw(raw.to_string());
    CellParser::parse_cell(&mut cell);
    cell
}

fn parse_error_message(raw: &str) -> String {
    match parse(raw).parsed_representation {
        Some(Err(e)) => e.0,
        _ => panic!("expected a parse error for {raw}"),
    }
}

#[test]
fn parse_cell_reads_a_number() {
    let cell = parse("1e-6");
    assert!(matches!(
        cell.parsed_representation,
        Some(Ok(ParsedCell::Value(Value::Number(F(n))))) if n == 1e-6
    ));
    let cell = parse("42.5");
    assert!(matches!(
        cell.parsed_representation,
        Some(Ok(ParsedCell::Value(Value::Number(F(n))))) if n == 42.5
    ));
    let cell = parse("3.");
    assert!(matches!(
        cell.parsed_representation,
        Some(Ok(ParsedCell::Value(Value::Number(F(n))))) if n == 3.0
    ));
    let cell = parse("2E+3");
    assert!(matches!(
        cell.parsed_representation,
        Some(Ok(ParsedCell::Value(Value::Number(F(n))))) if n == 2000.0
    ));
}

#[test]
fn parse_cell_refuses_a_malformed_number() {
    assert_eq!(
        parse_error_message("1.5.2"),
        "Had error: -invalid float literal- parsing number 1.5.2"
    );
    assert_eq!(
        parse_error_message("12abc"),
        "Had error: -invalid float literal- parsing number 12abc"
    );
    assert_eq!(
        parse_error_message("1e"),
        "Had error: -invalid float literal- parsing number 1e"
    );
}

#[test]
fn parse_cell_keeps_text() {
    let cell = parse("hello world");
    assert!(matches!(
        cell.parsed_representation,
        Some(Ok(ParsedCell::Value(Value::Text(ref t)))) if t == "hello world"
    ));
    assert!(cell.computed_value.is_none());
    assert!(cell.needs_compute);
    assert_eq!(cell.raw_representation, "hello world");
    let cell = parse("true");
    assert!(matches!(
        cell.parsed_representation,
        Some(Ok(ParsedCell::Value(Value::Text(ref t)))) if t == "true"
    ));
    let cell = parse("-abc");
    assert!(matches!(
        cell.parsed_representation,
        Some(Ok(ParsedCell::Value(Value::Text(ref t)))) if t == "-abc"
    ));
}

#[test]
fn parse_cell_reads_booleans_and_any_float() {
    assert!(matches!(
        parse("TRUE").parsed_representation,
        Some(Ok(ParsedCell::Value(Value::Bool(true))))
    ));
    assert!(matches!(
        parse("FALSE").parsed_representation,
        Some(Ok(ParsedCell::Value(Value::Bool(false))))
    ));
    for (raw, expected) in [("-2.5", -2.5), (".5", 0.5), ("+3", 3.0), ("-1e3", -1000.0), ("5.", 5.0)] {
        assert!(matches!(
            parse(raw).parsed_representation,
            Some(Ok(ParsedCell::Value(Value::Number(F(n))))) if n == expected
        ));
    }
    assert!(matches!(
        parse("inf").parsed_representation,
        Some(Ok(ParsedCell::Value(Value::Number(F(n))))) if n == f64::INFINITY
    ));
    assert!(matches!(
        parse("-Infinity").parsed_representation,
        Some(Ok(ParsedCell::Value(Value::Number(F(n))))) if n == f64::NEG_INFINITY
    ));
    assert!(matches!(
        parse("NaN").parsed_representation,
        Some(Ok(ParsedCell::Value(Value::Number(F(n))))) if n.is_nan()
    ));
    assert!(matches!(
        parse(".").parsed_representation,
        Some(Ok(ParsedCell::Value(Value::Text(_))))
    ));
    assert!(matches!(
        parse("-").parsed_representation,
        Some(Ok(ParsedCell::Value(Value::Text(_))))
    ));
}

#[test]
fn parse_cell_reads_an_expression_and_its_references() {
    let cell = parse("=A1 + sum(B2:C3) * 2");
    match cell.parsed_representation {
        Some(Ok(ParsedCell::Expr(e))) => {
            assert_eq!(
                e.dependencies,
                vec![
                    Index { x: 0, y: 0 },
                    Index { x: 1, y: 1 },
                    Index { x: 2, y: 1 },
                    Index { x: 1, y: 2 },
                    Index { x: 2, y: 2 }
                ]
            );
            assert_eq!(
                e.ast,
                AST::BinaryOp {
                    op: Token::Plus,
                    left: Box::new(AST::CellName("A1".to_string())),
                    right: Box::new(AST::BinaryOp {
                        op: Token::Multiply,
                        left: Box::new(AST::FunctionCall {
                            name: "sum".to_string(),
                            arguments: vec![AST::Range {
                                from: "B2".to_string(),
                                to: "C3".to_string()
                            }],
                        }),
                        right: Box::new(AST::Value(Value::Number(F(2.0)))),
                    }),
                }
            );
        }
        _ => panic!("expected an expression"),
    }
}

#[test]
fn parse_cell_reports_each_error() {
    assert_eq!(parse_error_message("=A1 $"), "Unexpected characther: $");
    assert_eq!(parse_error_message("=A + 1"), "Invalid cell name: A");
    assert_eq!(parse_error_message("=1.2.3"), "Invalid number format: 1.2.3");
    assert_eq!(parse_error_message("=\"open"), "Unexpected characther: \"");
    assert_eq!(parse_error_message("=(A1"), "Mismatched Parentheses");
    assert_eq!(parse_error_message("=A1:5"), "Invalid Range Expression");
    assert_eq!(parse_error_message("=+"), "Unexpected Token");
    assert_eq!(parse_error_message("=A1 B1"), "Unexpected Token");
    assert_eq!(parse_error_message("=A1 == "), "Unexpected Token");
}

#[test]
fn raw_readability_follows_cell_names() {
    assert!(raw_is_readable::<F>("=A1 + B22"));
    assert!(!raw_is_readable::<F>("=A0"));
    assert!(!raw_is_readable::<F>("=sum(A1:B0)"));
    assert!(raw_is_readable::<F>("=A0 $"));
    assert!(raw_is_readable::<F>("A0"));
    assert!(raw_is_readable::<F>("12"));
}

#[test]
fn column_names_count_like_a_spreadsheet() {
    assert_eq!(column_idx_to_string(0), "A");
    assert_eq!(column_idx_to_string(25), "Z");
    assert_eq!(column_idx_to_string(26), "AA");
    assert_eq!(column_idx_to_string(27), "AB");
    assert_eq!(column_idx_to_string(701), "ZZ");
    assert_eq!(column_idx_to_string(702), "AAA");
}

#[test]
fn column_names_read_back_as_their_index() {
    for x in [0usize, 1, 25, 26, 51, 52, 701, 702, 18277, 123456] {
        let name = format!("{}{}", column_idx_to_string(x), 7);
        assert!(cell_ref(&name));
        assert_eq!(cell_idx(&name), Index { x, y: 6 });
        assert_eq!(ASTResolver::get_cell_idx(&name), Index { x, y: 6 });
    }
}

#[test]
fn cell_names_are_checked() {
    assert!(cell_ref("A1"));
    assert!(cell_ref("AA10"));
    assert!(!cell_ref("A0"));
    assert!(!cell_ref("A"));
    assert!(!cell_ref("1"));
    assert!(!cell_ref("@1"));
    assert!(cell_ref("é1"));
    assert_eq!(cell_idx("é1"), Index { x: 168, y: 0 });
    assert!(!cell_ref("A1B"));
    assert!(!cell_ref("A99999999999999999999999"));
    assert_eq!(cell_idx("B3"), Index { x: 1, y: 2 });
    assert_eq!(cell_idx("Z1"), Index { x: 25, y: 0 });
}

#[test]
fn tokenizer_reads_strings_and_refuses_an_open_quote() {
    let tokens = ExpressionTokenizer::new("\"hi there\" + length(\"x\")".chars().collect())
        .tokenize_expression::<F>()
        .unwrap();
    assert_eq!(
        tokens,
        vec![
            Token::StringLiteral("hi there".to_string()),
            Token::Plus,
            Token::FunctionName("length".to_string()),
            Token::LParen,
            Token::StringLiteral("x".to_string()),
            Token::RParen,
        ]
    );
    let result = ExpressionTokenizer::new("\"open".chars().collect()).tokenize_expression::<F>();
    assert!(matches!(result, Err(TokenizeError::UnexpectedCharacter('"'))));
}

#[test]
fn tokenizer_reports_the_invalid_text() {
    let result = ExpressionTokenizer::new("AB + 1".chars().collect()).tokenize_expression::<F>();
    assert!(matches!(result, Err(TokenizeError::InvalidCellName(ref n)) if n == "AB"));
    let result = ExpressionTokenizer::new("1.2.3".chars().collect()).tokenize_expression::<F>();
    assert!(matches!(result, Err(TokenizeError::InvalidNumber(ref n)) if n == "1.2.3"));
    let result = ExpressionTokenizer::new("é".chars().collect()).tokenize_expression::<F>();
    assert!(matches!(result, Err(TokenizeError::UnexpectedCharacter('é'))));
    let result = ExpressionTokenizer::new("A1 <= B1 < C1 >= 2".chars().collect())
        .tokenize_expression::<F>()
        .unwrap();
    assert_eq!(
        result,
        vec![
            Token::CellName("A1".to_string()),
            Token::LessEquals,
            Token::CellName("B1".to_string()),
            Token::LessThan,
            Token::CellName("C1".to_string()),
            Token::GreaterEquals,
            Token::Number(F(2.0)),
        ]
    );
}

#[test]
fn precedence_of_tokens() {
    assert_eq!(Token::<F>::Or.get_precedence(), 0);
    assert_eq!(Token::<F>::And.get_precedence(), 1);
    assert_eq!(Token::<F>::Equals.get_precedence(), 2);
    assert_eq!(Token::<F>::LessEquals.get_precedence(), 2);
    assert_eq!(Token::<F>::Plus.get_precedence(), 3);
    assert_eq!(Token::<F>::Minus.get_precedence(), 3);
    assert_eq!(Token::<F>::Multiply.get_precedence(), 4);
    assert_eq!(Token::<F>::Division.get_precedence(), 4);
    assert_eq!(Token::<F>::Not.get_precedence(), 5);
    assert_eq!(Token::<F>::Comma.get_precedence(), 0);
}

#[test]
fn cell_names_are_written_and_read_back() {
    assert_eq!(decimal_string(0), "0");
    assert_eq!(decimal_string(1234), "1234");
    assert_eq!(cell_name_of(0, 0), "A1");
    assert_eq!(cell_name_of(26, 9), "AA10");
    assert_eq!(cell_name_of(701, 99), "ZZ100");
    for (x, y) in [(0usize, 0usize), (25, 1), (26, 9), (702, 12345)] {
        let name = cell_name_of(x, y);
        assert!(cell_ref(&name));
        assert_eq!(ASTResolver::get_cell_idx(&name), Index { x, y });
    }
}

#[test]
fn a_range_depends_on_every_cell_it_covers() {
    let cell = parse("=sum(A1:A4)");
    match cell.parsed_representation {
        Some(Ok(ParsedCell::Expr(e))) => assert_eq!(
            e.dependencies,
            vec![
                Index { x: 0, y: 0 },
                Index { x: 0, y: 1 },
                Index { x: 0, y: 2 },
                Index { x: 0, y: 3 }
            ]
        ),
        _ => panic!("expected an expression"),
    }
}

#[test]
fn comparisons_parse_inside_calls() {
    match parse("=if(A1 > 10, TRUE, FALSE)").parsed_representation {
        Some(Ok(ParsedCell::Expr(e))) => assert_eq!(
            e.ast,
            AST::FunctionCall {
                name: "if".to_string(),
                arguments: vec![
                    AST::BinaryOp {
                        op: Token::GreaterThan,
                        left: Box::new(AST::CellName("A1".to_string())),
                        right: Box::new(AST::Value(Value::Number(F(10.0)))),
                    },
                    AST::Value(Value::Bool(true)),
                    AST::Value(Value::Bool(false)),
                ],
            }
        ),
        _ => panic!("expected an expression"),
    }
    match parse("=A1 + 1 > 2 && B1 || C1").parsed_representation {
        Some(Ok(ParsedCell::Expr(e))) => assert_eq!(
            e.ast,
            AST::BinaryOp {
                op: Token::Or,
                left: Box::new(AST::BinaryOp {
                    op: Token::And,
                    left: Box::new(AST::BinaryOp {
                        op: Token::GreaterThan,
                        left: Box::new(AST::BinaryOp {
                            op: Token::Plus,
                            left: Box::new(AST::CellName("A1".to_string())),
                            right: Box::new(AST::Value(Value::Number(F(1.0)))),
                        }),
                        right: Box::new(AST::Value(Value::Number(F(2.0)))),
                    }),
                    right: Box::new(AST::CellName("B1".to_string())),
                }),
                right: Box::new(AST::CellName("C1".to_string())),
            }
        ),
        _ => panic!("expected an expression"),
    }
}

#[test]
fn whitespace_between_tokens_changes_nothing() {
    let tight = ExpressionTokenizer::new("A1+sum(B2:C3)*2>=1".chars().collect())
        .tokenize_expression::<F>()
        .unwrap();
    let loose = ExpressionTokenizer::new("  A1 +\tsum( B2 : C3 )\n* 2 >= 1  ".chars().collect())
        .tokenize_expression::<F>()
        .unwrap();
    assert_eq!(tight, loose);
    // Whitespace inside what would be one token splits it.
    let split = ExpressionTokenizer::new("A 1".chars().collect()).tokenize_expression::<F>();
    assert!(matches!(split, Err(TokenizeError::InvalidCellName(_))));
}

#[test]
fn references_are_listed_in_written_order() {
    let cell = parse("=B1 * (C1 + A1) - max(A1, D2:D3)");
    match cell.parsed_representation {
        Some(Ok(ParsedCell::Expr(e))) => assert_eq!(
            e.dependencies,
            vec![
                Index { x: 1, y: 0 },
                Index { x: 2, y: 0 },
                Index { x: 0, y: 0 },
                Index { x: 0, y: 0 },
                Index { x: 3, y: 1 },
                Index { x: 3, y: 2 }
            ]
        ),
        _ => panic!("expected an expression"),
    }
}
