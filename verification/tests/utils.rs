use mate_rs::token::Token;
use mate_rs::utils::{same_text, stripped, trimmed_len, ChUtils};

#[test]
fn is_number() {
    let test_data: Vec<(String, bool)> = Vec::from([
        (String::from("42"), true),
        (String::from("-25"), true),
        (String::from("+50"), true),
        (String::from("-"), false),
        (String::from("+"), false),
        (String::from("/"), false),
    ]);

    for (target, expected) in test_data {
        assert_eq!(target.is_number(), expected);
        assert_eq!(Token::from(target, (0, 0)).is_number(), expected);
    }
}

#[test]
fn is_number_wants_an_ascii_digit() {
    assert!(String::from("a1").is_number());
    assert!(String::from(" 7 ").is_number());
    assert!(!String::from("").is_number());
    assert!(!String::from("abc").is_number());
    assert!(!String::from("٣").is_number());
}

#[test]
fn is_point() {
    let test_data: Vec<(String, bool)> = Vec::from([
        (String::from("."), true),
        (String::from(","), true),
        (String::from("-"), false),
        (String::from("+"), false),
        (String::from("/"), false),
        (String::from("5"), false),
    ]);

    for (target, expected) in test_data {
        assert_eq!(target.is_point(), expected);
    }
    assert!(!Token::from(String::from("."), (0, 0)).is_point());
}

#[test]
fn is_plus_or_minus() {
    let test_data: Vec<(String, bool)> = Vec::from([
        (String::from("-"), true),
        (String::from("+"), true),
        (String::from("/"), false),
        (String::from(".5"), false),
        (String::from("/"), false),
        (String::from("*"), false),
    ]);

    for (target, expected) in test_data {
        assert_eq!(target.is_plus_or_minus(), expected);
        assert_eq!(Token::from(target, (0, 0)).is_plus_or_minus(), expected);
    }
}

#[test]
fn is_div_or_prod() {
    let test_data: Vec<(String, bool)> = Vec::from([
        (String::from("/"), true),
        (String::from("*"), true),
        (String::from(":"), true),
        (String::from("•"), true),
        (String::from("-"), false),
        (String::from("+"), false),
        (String::from(".5"), false),
    ]);

    for (target, expected) in test_data {
        assert_eq!(target.is_div_or_prod(), expected);
        assert_eq!(Token::from(target, (0, 0)).is_div_or_prod(), expected);
    }
}

#[test]
fn is_operation_sign() {
    let test_data: Vec<(String, bool)> = Vec::from([
        (String::from("/"), true),
        (String::from("*"), true),
        (String::from(":"), true),
        (String::from("•"), true),
        (String::from("-"), true),
        (String::from("+"), true),
        (String::from("5"), false),
        (String::from("."), false),
        (String::from(","), false),
    ]);

    for (target, expected) in test_data {
        assert_eq!(target.is_operation_sign(), expected);
        assert_eq!(Token::from(target, (0, 0)).is_operation_sign(), expected);
    }
}

#[test]
fn is_parentheses() {
    let test_data: Vec<(String, bool)> = Vec::from([
        (String::from("/"), false),
        (String::from("*"), false),
        (String::from(":"), false),
        (String::from("‚Ä¢"), false),
        (String::from("-"), false),
        (String::from("+"), false),
        (String::from("5"), false),
        (String::from(")"), true),
        (String::from("("), true),
    ]);

    for (target, expected) in test_data {
        assert_eq!(target.is_parentheses(), expected);
        assert_eq!(Token::from(target, (0, 0)).is_parentheses(), expected);
    }
}

#[test]
fn signs_may_stand_among_blanks() {
    assert!(String::from(" + ").is_plus_or_minus());
    assert!(String::from("\t/\n").is_div_or_prod());
    assert!(String::from(" ( ").is_parentheses());
    assert!(!String::from("+ +").is_plus_or_minus());
    assert!(!String::from("").is_operation_sign());
}

#[test]
fn text_helpers() {
    assert_eq!(stripped(" 1 2\t3\r\n"), "123");
    assert_eq!(stripped(""), "");
    assert_eq!(stripped("a•b"), "a•b");
    assert_eq!(trimmed_len("5 + 5   "), 5);
    assert_eq!(trimmed_len("   "), 0);
    assert_eq!(trimmed_len("•• \n"), 2);
    assert!(same_text("abc", "abc"));
    assert!(!same_text("abc", "abd"));
    assert!(!same_text("abc", "ab"));
    assert!(same_text("", ""));
}
