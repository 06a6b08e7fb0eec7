use mate_rs::errors::{Error, ErrorKind};
use mate_rs::token::{Token, TokenType};

#[test]
fn errors_new() {
    let result: Error = Error::new(String::from("test message"));
    assert_eq!(result.to_string(), String::from("test message"));
    assert_eq!(result.kind(), ErrorKind::Other);
}

#[test]
fn empty_input() {
    let result: Error = Error::empty_input();
    assert_eq!(
        result.to_string(),
        String::from("error: cannot parse an empty input")
    );
    assert_eq!(result.kind(), ErrorKind::EmptyInput);
    assert_eq!(
        result,
        Error::new(String::from("error: cannot parse an empty input"))
    );
    assert_ne!(result, Error::empty_tokens());
}

#[test]
fn empty_tokens() {
    let result: Error = Error::empty_tokens();
    assert_eq!(
        result.to_string(),
        String::from("error: cannot calculate result from an empty token list")
    );
    assert_eq!(result.kind(), ErrorKind::EmptyTokens);
    assert_eq!(
        result,
        Error::new(String::from("error: cannot calculate result from an empty token list"))
    );
}

#[test]
fn failures_are_equal_by_their_messages() {
    let report = Error::mismatched_parentheses(String::from("(1"), 1);
    assert_eq!(Error::new(report.to_string()), report);
    let report = Error::missing_some_tokens(String::from("1 +"), 2);
    assert_eq!(Error::new(report.to_string()), report);
    assert_eq!(Error::new(Error::invalid_order().to_string()), Error::invalid_order());
    assert_ne!(Error::new(String::from("a")), Error::new(String::from("b")));
    assert_eq!(
        Error::new(String::from("error: cannot parse an empty input")).kind(),
        ErrorKind::EmptyInput
    );
    assert_eq!(
        Error::new(String::from("error: cannot calculate result from an empty token list")).kind(),
        ErrorKind::EmptyTokens
    );
    assert_eq!(Error::new(Error::invalid_order().to_string()).kind(), ErrorKind::InvalidOrder);
    assert_eq!(Error::new(String::from("error: cannot parse")).kind(), ErrorKind::Other);
}

#[test]
fn to_string() {
    let error: Error = Error::new(String::from("A new message"));
    assert_eq!(error.to_string(), String::from("A new message"));
    assert_eq!(error.clone(), error);
}

#[test]
fn invalid_order_text() {
    let e = Error::invalid_order();
    assert_eq!(e.kind(), ErrorKind::InvalidOrder);
    assert_eq!(
        e.to_string(),
        "error: invalid order of token characters\n      A valid token/character order is:      [Numerable], [Operation], [Numerable]"
    );
}

#[test]
fn missing_some_tokens_text() {
    let e = Error::missing_some_tokens(String::from("5 +"), 2);
    assert_eq!(e.kind(), ErrorKind::MissingTokens);
    assert_eq!(
        e.to_string(),
        concat_lines(&[
            "error: missing some tokens to calculate result",
            "",
            "     \"5 + {X}\" ",
            "           |",
            "           | > Expected a token character.",
            "           | > hint: `42`, `+`, `-`, `/`, `*`, `%`, `^`.",
        ])
    );
}

#[test]
fn missing_some_tokens_keeps_a_single_space() {
    let e = Error::missing_some_tokens(String::from("5 + 5   "), 1);
    let text = e.to_string();
    assert!(text.contains("\"5 +{X} 5\" "), "{}", text);
    let e = Error::missing_some_tokens(String::from("(3)"), -1);
    assert!(e.to_string().contains("\" {X}(3)\" "), "{}", e.to_string());
    let e = Error::missing_some_tokens(String::from("12"), 40);
    assert!(e.to_string().contains("\"12 {X}\" "), "{}", e.to_string());
    let e = Error::missing_some_tokens(String::from("12"), i32::MIN);
    assert!(e.to_string().contains("\"}X{ 12\" "), "{}", e.to_string());
}

#[test]
fn cannot_parse_to_number_text() {
    let token = Token::from(String::from("1,5"), (4, 6));
    let e = Error::cannot_parse_to_number(String::from("2 + 1,5  "), token);
    assert_eq!(e.kind(), ErrorKind::CannotParseNumber);
    assert_eq!(
        e.to_string(),
        concat_lines(&[
            "error: cannot parse token literal: `1,5` to a number",
            "",
            "     \"2 + 1,5\" ",
            "            |",
            "            | > Cannot convert the character (that represented",
            "            | > as number) to the actual number representation.",
        ])
    );
}

#[test]
fn illegal_token_text() {
    let token = Token::from(String::from("}"), (0, 0));
    let e = Error::illeagal_token(String::from("} + 1"), token);
    assert_eq!(e.kind(), ErrorKind::IllegalToken);
    assert_eq!(
        e.to_string(),
        concat_lines(&[
            "error: found an illegal character: `}` ",
            "",
            "     \"} + 1\" ",
            "      |",
            "      | > We do not know how to parse this character.",
            "      | > hint: `42`, `+`, `-`, `/`, `*`, `%`, `^`.",
        ])
    );
}

#[test]
fn mismatched_parentheses_text() {
    let e = Error::mismatched_parentheses(String::from("(5 + 3]"), 1);
    assert_eq!(e.kind(), ErrorKind::MismatchedParentheses);
    assert_eq!(
        e.to_string(),
        concat_lines(&[
            "error: mismatched parentheses or absolute-value brackets",
            "",
            "     \"(5 + 3]\" ",
            "      |",
            "      | > This bracket is not closed, closes nothing,",
            "      | > or closes a bracket of the other kind.",
        ])
    );
    let far = Error::mismatched_parentheses(String::from("5 + 3)"), 6);
    assert!(far.to_string().contains("\n           |\n"), "{}", far.to_string());
}

#[test]
fn division_by_zero_text() {
    let e = Error::division_by_zero(String::from("10 / 0"), 5);
    assert_eq!(e.kind(), ErrorKind::DivisionByZero);
    assert_eq!(
        e.to_string(),
        concat_lines(&[
            "error: division by zero",
            "",
            "     \"10 / 0\" ",
            "           |",
            "           | > The right side of this division is zero.",
        ])
    );
}

#[test]
fn value_errors_text() {
    let e = Error::undefined_variable("radius");
    assert_eq!(e.kind(), ErrorKind::UndefinedVariable);
    assert_eq!(e.to_string(), "error: undefined variable 'radius'");
    let e = Error::factorial_negative("-1");
    assert_eq!(e.kind(), ErrorKind::FactorialDomain);
    assert_eq!(
        e.to_string(),
        "error: factorial is not defined for negative numbers: -1"
    );
    let e = Error::factorial_fraction("3.5");
    assert_eq!(e.kind(), ErrorKind::FactorialDomain);
    assert_eq!(e.to_string(), "error: factorial is only defined for integers: 3.5");
    let e = Error::factorial_too_large("171");
    assert_eq!(e.kind(), ErrorKind::FactorialDomain);
    assert_eq!(e.to_string(), "error: factorial of 171 is too large to compute");
}

#[test]
fn function_domain_text() {
    let e = Error::function_domain(TokenType::SQRT, "-1");
    assert_eq!(e.kind(), ErrorKind::FunctionDomain);
    assert_eq!(
        e.to_string(),
        "error: cannot take square root of negative number: -1"
    );
    assert_eq!(
        Error::function_domain(TokenType::LOG, "0").to_string(),
        "error: logarithm undefined for non-positive number: 0"
    );
    assert_eq!(
        Error::function_domain(TokenType::LN, "-2").to_string(),
        "error: natural log undefined for non-positive number: -2"
    );
    assert_eq!(
        Error::function_domain(TokenType::SIN, "1").to_string(),
        "error: argument outside the domain of the function: 1"
    );
}

fn concat_lines(lines: &[&str]) -> String {
    let mut out = String::new();
    for l in lines {
        out.push_str(l);
        out.push('\n');
    }
    out
}
