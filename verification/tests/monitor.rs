use mate_rs::monitor::Monitor;
use mate_rs::token::{Sub, SubMethod, Token, TokenType};

#[test]
fn token_to_string() {
    let test_data: Vec<(String, String)> = Vec::from([
        (
            Token::from(String::from("-25"), (0, 1)).to_string(0),
            String::from("NUMBER(-25)"),
        ),
        (
            Token::from(String::from("/"), (0, 0)).to_string(0),
            String::from("DIVIDE(/)"),
        ),
    ]);

    for (t, expected) in test_data {
        assert_eq!(t, expected);
    }
}

#[test]
fn token_to_string_nested() {
    let inner = Token::new_sub(
        vec![
            Token::from(String::from("2"), (1, 1)),
            Token::from(String::from("^"), (2, 2)),
            Token::from(String::from("x"), (3, 3)),
        ],
        SubMethod::ABS,
    );
    let outer = Token::new_sub(
        vec![inner, Token::from(String::from("+"), (5, 5)), Token::new_sub(vec![], SubMethod::PAREN)],
        SubMethod::PAREN,
    );
    assert_eq!(
        outer.to_string(1),
        "  SUB-EXPRESSION -> {PARENTHESES}\n    SUB-EXPRESSION -> {ABSOLUTE-VALUE}\n      NUMBER(2)\n      POWER(^)\n      IDENTIFIER(x)\n    PLUS(+)\n    SUB-EXPRESSION -> {PARENTHESES}"
    );
    assert_eq!(Token::from(String::from("7"), (0, 0)).to_string(2), "    NUMBER(7)");
}

#[test]
fn token_type_to_string() {
    let test_data: Vec<(String, &str)> = Vec::from([
        (TokenType::NUMBER.to_string(0), "NUMBER"),
        (TokenType::ILLEGAL.to_string(0), "ILLEGAL"),
        (TokenType::SUBEXP.to_string(0), "SUB-EXPRESSION"),
        (TokenType::LPAREN.to_string(0), "LEFT-PARENTHESES"),
        (TokenType::RPAREN.to_string(0), "RIGHT-PARENTHESES"),
        (TokenType::POINTER.to_string(0), "POINTER"),
        (TokenType::PLUS.to_string(0), "PLUS"),
        (TokenType::MINUS.to_string(0), "MINUS"),
        (TokenType::PRODUCT.to_string(0), "PRODUCT"),
        (TokenType::DIVIDE.to_string(0), "DIVIDE"),
        (TokenType::PERCENTAGE.to_string(0), "PERCENTAGE"),
        (TokenType::POWER.to_string(0), "POWER"),
        (TokenType::LABS.to_string(0), "LEFT-ABS"),
        (TokenType::RABS.to_string(0), "RIGHT-ABS"),
    ]);

    for (tt, expected) in test_data {
        assert_eq!(tt, expected);
    }
}

#[test]
fn token_type_to_string_more_kinds() {
    let test_data: Vec<(TokenType, &str)> = Vec::from([
        (TokenType::IDENTIFIER, "IDENTIFIER"),
        (TokenType::FACTORIAL, "FACTORIAL"),
        (TokenType::ASSIGN, "ASSIGN"),
        (TokenType::SQRT, "SQRT"),
        (TokenType::SIN, "SIN"),
        (TokenType::COS, "COS"),
        (TokenType::TAN, "TAN"),
        (TokenType::LOG, "LOG"),
        (TokenType::LN, "LN"),
        (TokenType::EXP, "EXP"),
        (TokenType::FLOOR, "FLOOR"),
        (TokenType::CEIL, "CEIL"),
        (TokenType::ROUND, "ROUND"),
    ]);
    for (tt, expected) in test_data {
        assert_eq!(tt.to_string(3), expected);
    }
}

#[test]
fn sub_to_string() {
    let test_data: Vec<(String, &str)> = Vec::from([
        (
            Sub::new(Vec::new(), SubMethod::PAREN).to_string(0),
            "PARENTHESES",
        ),
        (
            Sub::new(Vec::new(), SubMethod::ABS).to_string(0),
            "ABSOLUTE-VALUE",
        ),
    ]);

    for (s, expected) in test_data {
        assert_eq!(s, expected);
    }
}

#[test]
fn sub_type_to_string() {
    let test_data: Vec<(String, &str)> = Vec::from([
        (SubMethod::PAREN.to_string(0), "PARENTHESES"),
        (SubMethod::ABS.to_string(0), "ABSOLUTE-VALUE"),
    ]);

    for (s, expected) in test_data {
        assert_eq!(s, expected);
    }
}
