use mate_rs::errors::{Error, ErrorKind};
use mate_rs::lexer::Lexer;
use mate_rs::token::{Sub, SubMethod, Token, TokenType};

#[test]
fn lexer_lex() {
    let test_data: Vec<(String, Result<Sub, Error>)> = Vec::from([
        (String::new(), Err(Error::empty_input())),
        (
            String::from("25"),
            Ok(Sub::new(
                vec![Token::from(String::from("25"), (0, 1))],
                SubMethod::PAREN,
            )),
        ),
        (
            String::from("-25"),
            Ok(Sub::new(
                vec![Token::from(String::from("-25"), (0, 2))],
                SubMethod::PAREN,
            )),
        ),
        (
            String::from("(25)"),
            Ok(Sub::new(
                vec![Token::new_sub(
                    vec![Token::from(String::from("25"), (1, 2))],
                    SubMethod::PAREN,
                )],
                SubMethod::PAREN,
            )),
        ),
        (
            String::from("(-25)"),
            Ok(Sub::new(
                vec![Token::new_sub(
                    vec![Token::from(String::from("-25"), (1, 3))],
                    SubMethod::PAREN,
                )],
                SubMethod::PAREN,
            )),
        ),
        (
            String::from("-25 + 5"),
            Ok(Sub::new(
                vec![
                    Token::from(String::from("-25"), (0, 2)),
                    Token::from(String::from("+"), (4, 4)),
                    Token::from(String::from("5"), (6, 6)),
                ],
                SubMethod::PAREN,
            )),
        ),
        (
            String::from("- - 2 + - 5"),
            Ok(Sub::new(
                vec![
                    Token::from(String::from("-"), (0, 0)),
                    Token::from(String::from("-2"), (2, 4)),
                    Token::from(String::from("+"), (6, 6)),
                    Token::from(String::from("-5"), (8, 10)),
                ],
                SubMethod::PAREN,
            )),
        ),
        (
            String::from("42 * 5"),
            Ok(Sub::new(
                vec![
                    Token::from(String::from("42"), (0, 1)),
                    Token::from(String::from("*"), (3, 3)),
                    Token::from(String::from("5"), (5, 5)),
                ],
                SubMethod::PAREN,
            )),
        ),
        (
            String::from("- 2 * 7 / 5 + - 20 / - 5"),
            Ok(Sub::new(
                vec![
                    Token::new_sub(
                        vec![
                            Token::from(String::from("-2"), (0, 2)),
                            Token::from(String::from("*"), (4, 4)),
                            Token::from(String::from("7"), (6, 6)),
                            Token::from(String::from("/"), (8, 8)),
                            Token::from(String::from("5"), (10, 10)),
                        ],
                        SubMethod::PAREN,
                    ),
                    Token::from(String::from("+"), (12, 12)),
                    Token::new_sub(
                        vec![
                            Token::from(String::from("-20"), (14, 17)),
                            Token::from(String::from("/"), (19, 19)),
                            Token::from(String::from("-5"), (21, 23)),
                        ],
                        SubMethod::PAREN,
                    ),
                ],
                SubMethod::PAREN,
            )),
        ),
        (
            String::from("(5 - 9) - 10"),
            Ok(Sub::new(
                vec![
                    Token::new_sub(
                        vec![
                            Token::from(String::from("5"), (1, 1)),
                            Token::from(String::from("-"), (3, 3)),
                            Token::from(String::from("9"), (5, 5)),
                        ],
                        SubMethod::PAREN,
                    ),
                    Token::from(String::from("-"), (8, 8)),
                    Token::from(String::from("10"), (10, 11)),
                ],
                SubMethod::PAREN,
            )),
        ),
        (
            String::from("(10 - 5) - (10 / 2)"),
            Ok(Sub::new(
                vec![
                    Token::new_sub(
                        vec![
                            Token::from(String::from("10"), (1, 2)),
                            Token::from(String::from("-"), (4, 4)),
                            Token::from(String::from("5"), (6, 6)),
                        ],
                        SubMethod::PAREN,
                    ),
                    Token::from(String::from("-"), (9, 9)),
                    Token::new_sub(
                        vec![
                            Token::from(String::from("10"), (12, 13)),
                            Token::from(String::from("/"), (15, 15)),
                            Token::from(String::from("2"), (17, 17)),
                        ],
                        SubMethod::PAREN,
                    ),
                ],
                SubMethod::PAREN,
            )),
        ),
        (
            String::from("((10 - 5) - (10 / 2)) / 2"),
            Ok(Sub::new(
                vec![
                    Token::new_sub(
                        vec![
                            Token::new_sub(
                                vec![
                                    Token::from(String::from("10"), (2, 3)),
                                    Token::from(String::from("-"), (5, 5)),
                                    Token::from(String::from("5"), (7, 7)),
                                ],
                                SubMethod::PAREN,
                            ),
                            Token::from(String::from("-"), (10, 10)),
                            Token::new_sub(
                                vec![
                                    Token::from(String::from("10"), (13, 14)),
                                    Token::from(String::from("/"), (16, 16)),
                                    Token::from(String::from("2"), (18, 18)),
                                ],
                                SubMethod::PAREN,
                            ),
                        ],
                        SubMethod::PAREN,
                    ),
                    Token::from(String::from("/"), (22, 22)),
                    Token::from(String::from("2"), (24, 24)),
                ],
                SubMethod::PAREN,
            )),
        ),
        (
            String::from("(2 + 5) * (5 - 9 / (8 - 5))"),
            Ok(Sub::new(
                vec![
                    Token::new_sub(
                        vec![
                            Token::from(String::from("2"), (1, 1)),
                            Token::from(String::from("+"), (3, 3)),
                            Token::from(String::from("5"), (5, 5)),
                        ],
                        SubMethod::PAREN,
                    ),
                    Token::from(String::from("*"), (8, 8)),
                    Token::new_sub(
                        vec![
                            Token::from(String::from("5"), (11, 11)),
                            Token::from(String::from("-"), (13, 13)),
                            Token::new_sub(
                                vec![
                                    Token::from(String::from("9"), (15, 15)),
                                    Token::from(String::from("/"), (17, 17)),
                                    Token::new_sub(
                                        vec![
                                            Token::from(String::from("8"), (20, 20)),
                                            Token::from(String::from("-"), (22, 22)),
                                            Token::from(String::from("5"), (24, 24)),
                                        ],
                                        SubMethod::PAREN,
                                    ),
                                ],
                                SubMethod::PAREN,
                            ),
                        ],
                        SubMethod::PAREN,
                    ),
                ],
                SubMethod::PAREN,
            )),
        ),
        (
            String::from("5(5 / 2)(9 * 3)11"),
            Ok(Sub::new(
                vec![
                    Token::from(String::from("5"), (0, 0)),
                    Token::from(String::from("*"), Token::unknown_index()),
                    Token::new_sub(
                        vec![
                            Token::from(String::from("5"), (2, 2)),
                            Token::from(String::from("/"), (4, 4)),
                            Token::from(String::from("2"), (6, 6)),
                        ],
                        SubMethod::PAREN,
                    ),
                    Token::from(String::from("*"), Token::unknown_index()),
                    Token::new_sub(
                        vec![
                            Token::from(String::from("9"), (9, 9)),
                            Token::from(String::from("*"), (11, 11)),
                            Token::from(String::from("3"), (13, 13)),
                        ],
                        SubMethod::PAREN,
                    ),
                    Token::from(String::from("*"), Token::unknown_index()),
                    Token::from(String::from("11"), (15, 16)),
                ],
                SubMethod::PAREN,
            )),
        ),
        (
            String::from("5 ^ 3 ^ 2 ^ 5 * 19 - 50"),
            Ok(Sub::new(
                vec![
                    Token::new_sub(
                        vec![
                            Token::new_sub(
                                vec![
                                    Token::from(String::from("5"), (0, 0)),
                                    Token::from(String::from("^"), (2, 2)),
                                    Token::new_sub(
                                        vec![
                                            Token::from(String::from("3"), (4, 4)),
                                            Token::from(String::from("^"), (6, 6)),
                                            Token::new_sub(
                                                vec![
                                                    Token::from(String::from("2"), (8, 8)),
                                                    Token::from(String::from("^"), (10, 10)),
                                                    Token::from(String::from("5"), (12, 12)),
                                                ],
                                                SubMethod::PAREN,
                                            ),
                                        ],
                                        SubMethod::PAREN,
                                    ),
                                ],
                                SubMethod::PAREN,
                            ),
                            Token::from(String::from("*"), (14, 14)),
                            Token::from(String::from("19"), (16, 17)),
                        ],
                        SubMethod::PAREN,
                    ),
                    Token::from(String::from("-"), (19, 19)),
                    Token::from(String::from("50"), (21, 22)),
                ],
                SubMethod::PAREN,
            )),
        ),
        (
            String::from("5 ^ 3 ^ 19"),
            Ok(Sub::new(
                vec![
                    Token::from(String::from("5"), (0, 0)),
                    Token::from(String::from("^"), (2, 2)),
                    Token::new_sub(
                        vec![
                            Token::from(String::from("3"), (4, 4)),
                            Token::from(String::from("^"), (6, 6)),
                            Token::from(String::from("19"), (8, 9)),
                        ],
                        SubMethod::PAREN,
                    ),
                ],
                SubMethod::PAREN,
            )),
        ),
        (
            String::from("(2 + 3 ^ 5) ^ 9"),
            Ok(Sub::new(
                vec![
                    Token::new_sub(
                        vec![
                            Token::from(String::from("2"), (1, 1)),
                            Token::from(String::from("+"), (3, 3)),
                            Token::new_sub(
                                vec![
                                    Token::from(String::from("3"), (5, 5)),
                                    Token::from(String::from("^"), (7, 7)),
                                    Token::from(String::from("5"), (9, 9)),
                                ],
                                SubMethod::PAREN,
                            ),
                        ],
                        SubMethod::PAREN,
                    ),
                    Token::from(String::from("^"), (12, 12)),
                    Token::from(String::from("9"), (14, 14)),
                ],
                SubMethod::PAREN,
            )),
        ),
        (
            String::from("[2 - 12] - 10"),
            Ok(Sub::new(
                vec![
                    Token::new_sub(
                        vec![
                            Token::from(String::from("2"), (1, 1)),
                            Token::from(String::from("-"), (3, 3)),
                            Token::from(String::from("12"), (5, 6)),
                        ],
                        SubMethod::ABS,
                    ),
                    Token::from(String::from("-"), (9, 9)),
                    Token::from(String::from("10"), (11, 12)),
                ],
                SubMethod::PAREN,
            )),
        ),
        (
            String::from("[7 - 14] * [5 - 9 / [5 - 3]]"),
            Ok(Sub::new(
                vec![
                    Token::new_sub(
                        vec![
                            Token::from(String::from("7"), (1, 1)),
                            Token::from(String::from("-"), (3, 3)),
                            Token::from(String::from("14"), (5, 6)),
                        ],
                        SubMethod::ABS,
                    ),
                    Token::from(String::from("*"), (9, 9)),
                    Token::new_sub(
                        vec![
                            Token::from(String::from("5"), (12, 12)),
                            Token::from(String::from("-"), (14, 14)),
                            Token::new_sub(
                                vec![
                                    Token::from(String::from("9"), (16, 16)),
                                    Token::from(String::from("/"), (18, 18)),
                                    Token::new_sub(
                                        vec![
                                            Token::from(String::from("5"), (21, 21)),
                                            Token::from(String::from("-"), (23, 23)),
                                            Token::from(String::from("3"), (25, 25)),
                                        ],
                                        SubMethod::ABS,
                                    ),
                                ],
                                SubMethod::PAREN,
                            ),
                        ],
                        SubMethod::ABS,
                    ),
                ],
                SubMethod::PAREN,
            )),
        ),
    ]);

    for (input, expected) in test_data {
        let result: Result<Sub, Error> = Lexer::lex(input.as_str());
        assert_eq!(result, expected)
    }
}

#[test]
fn lexer_new() {
    let result = Lexer::new("");
    assert_eq!(result, Err(Error::empty_input()));

    let result = Lexer::new("4 + 2");
    let lexer = result.unwrap();
    assert_eq!(lexer.examination_char(), '4');
    assert_eq!(lexer.position(), 0);
    assert_eq!(lexer.read_position(), 1);
}

#[test]
fn mismatched_parentheses() {
    let test_cases: Vec<&str> = vec![
        "( ]",
        "[ )",
        "(5 + 3]",
        "[5 + 3)",
        "((5 + 3)",
        "(5 + 3))",
        "[[5 + 3]",
        "[5 + 3]]",
        "(5 + [3)",
        "[5 + (3]",
        "5 + (3 * [2)]",
    ];

    for input in test_cases {
        let result = Lexer::lex(input);
        assert!(
            result.is_err(),
            "Expected error for mismatched parentheses in: {}",
            input
        );
    }
}

#[test]
fn valid_parentheses() {
    let test_cases: Vec<&str> = vec![
        "(5 + 3)",
        "[5 + 3]",
        "((5 + 3))",
        "[[5 + 3]]",
        "(5 + [3])",
        "[5 + (3)]",
        "((5) + (3))",
        "5 + (3 * [2 + 1])",
    ];

    for input in test_cases {
        let result = Lexer::lex(input);
        assert!(
            result.is_ok(),
            "Expected valid result for: {}, got error: {:?}",
            input,
            result
        );
    }
}

#[test]
fn mismatched_parentheses_kind_and_place() {
    let cases: Vec<(&str, usize)> = vec![
        ("( ]", 1),
        ("(5 + 3]", 1),
        ("5 + 3)", 6),
        ("((5 + 3)", 1),
        ("(5 + 3))", 8),
        ("(1) + [2", 7),
        ("(1) + 2]", 8),
        ("5 + (3 * [2)]", 5),
    ];
    for (input, place) in cases {
        let error = Lexer::lex(input).unwrap_err();
        assert_eq!(error.kind(), ErrorKind::MismatchedParentheses, "{}", input);
        assert_eq!(
            error,
            Error::mismatched_parentheses(input.to_string(), place as i32),
            "{}",
            input
        );
    }
}

fn kinds(tokens: &[Token]) -> Vec<TokenType> {
    tokens.iter().map(|t| t.typ).collect()
}

fn literals(tokens: &[Token]) -> Vec<String> {
    tokens.iter().map(|t| t.literal.clone()).collect()
}

fn places(tokens: &[Token]) -> Vec<(i32, i32)> {
    tokens.iter().map(|t| t.index).collect()
}

#[test]
fn scan_empty_and_blank() {
    assert_eq!(Lexer::scan(""), Err(Error::empty_input()));
    assert_eq!(Lexer::scan("   "), Ok(vec![]));
    assert_eq!(Lexer::scan(" \t\r\n"), Ok(vec![]));
    assert_eq!(Lexer::lex(" "), Ok(Sub::new(vec![], SubMethod::PAREN)));
    assert_eq!(Lexer::lex(""), Err(Error::empty_input()));
}

#[test]
fn scan_symbols() {
    let tokens = Lexer::scan("+-*•/:()%^[]!=").unwrap();
    assert_eq!(
        kinds(&tokens),
        vec![
            TokenType::PLUS,
            TokenType::MINUS,
            TokenType::PRODUCT,
            TokenType::PRODUCT,
            TokenType::DIVIDE,
            TokenType::DIVIDE,
            TokenType::LPAREN,
            TokenType::RPAREN,
            TokenType::PERCENTAGE,
            TokenType::POWER,
            TokenType::LABS,
            TokenType::RABS,
            TokenType::FACTORIAL,
            TokenType::ASSIGN,
        ]
    );
    assert_eq!(places(&tokens)[3], (3, 3));
    assert_eq!(places(&tokens)[13], (13, 13));
    assert_eq!(literals(&tokens)[3], "•");
}

#[test]
fn scan_synonyms_at_the_end() {
    let tokens = Lexer::scan("2 • 3").unwrap();
    assert_eq!(kinds(&tokens), vec![TokenType::NUMBER, TokenType::PRODUCT, TokenType::NUMBER]);
    assert_eq!(literals(&tokens), vec!["2", "•", "3"]);
    assert_eq!(places(&tokens), vec![(0, 0), (2, 2), (4, 4)]);
    let tokens = Lexer::scan("8 : 2").unwrap();
    assert_eq!(kinds(&tokens), vec![TokenType::NUMBER, TokenType::DIVIDE, TokenType::NUMBER]);
}

#[test]
fn scan_signs() {
    let tokens = Lexer::scan("-5").unwrap();
    assert_eq!(literals(&tokens), vec!["-5"]);
    let tokens = Lexer::scan("+ 5").unwrap();
    assert_eq!(literals(&tokens), vec!["+5"]);
    assert_eq!(places(&tokens), vec![(0, 2)]);
    let tokens = Lexer::scan("5 -3").unwrap();
    assert_eq!(literals(&tokens), vec!["5", "-", "3"]);
    let tokens = Lexer::scan("(5) -3").unwrap();
    assert_eq!(literals(&tokens), vec!["(", "5", ")", "-", "3"]);
    let tokens = Lexer::scan("[5] -3").unwrap();
    assert_eq!(literals(&tokens), vec!["[", "5", "]", "-", "3"]);
    let tokens = Lexer::scan("3! -3").unwrap();
    assert_eq!(literals(&tokens), vec!["3", "!", "-", "3"]);
    let tokens = Lexer::scan("x -3").unwrap();
    assert_eq!(literals(&tokens), vec!["x", "-", "3"]);
    let tokens = Lexer::scan("x = -3").unwrap();
    assert_eq!(literals(&tokens), vec!["x", "=", "-3"]);
    let tokens = Lexer::scan("2 * -3").unwrap();
    assert_eq!(literals(&tokens), vec!["2", "*", "-3"]);
    let tokens = Lexer::scan("(-3)").unwrap();
    assert_eq!(literals(&tokens), vec!["(", "-3", ")"]);
    let tokens = Lexer::scan("-.5").unwrap();
    assert_eq!(literals(&tokens), vec!["-", ".5"]);
    let tokens = Lexer::scan("- x").unwrap();
    assert_eq!(literals(&tokens), vec!["-", "x"]);
    let tokens = Lexer::scan("5\t-3").unwrap();
    assert_eq!(literals(&tokens), vec!["5", "-3"]);
}

#[test]
fn scan_numbers() {
    let tokens = Lexer::scan("4 2").unwrap();
    assert_eq!(literals(&tokens), vec!["42"]);
    assert_eq!(places(&tokens), vec![(0, 2)]);
    let tokens = Lexer::scan("42  * 5").unwrap();
    assert_eq!(literals(&tokens), vec!["42", "*", "5"]);
    assert_eq!(places(&tokens), vec![(0, 2), (4, 4), (6, 6)]);
    let tokens = Lexer::scan("5 + 5   ").unwrap();
    assert_eq!(places(&tokens), vec![(0, 0), (2, 2), (4, 6)]);
    let tokens = Lexer::scan("3.14").unwrap();
    assert_eq!(literals(&tokens), vec!["3.14"]);
    assert_eq!(kinds(&tokens), vec![TokenType::NUMBER]);
    let tokens = Lexer::scan("1,5").unwrap();
    assert_eq!(literals(&tokens), vec!["1,5"]);
    assert_eq!(kinds(&tokens), vec![TokenType::NUMBER]);
    let tokens = Lexer::scan("1.2.3").unwrap();
    assert_eq!(literals(&tokens), vec!["1.2", ".3"]);
    assert_eq!(places(&tokens), vec![(0, 2), (3, 4)]);
    let tokens = Lexer::scan(".").unwrap();
    assert_eq!(kinds(&tokens), vec![TokenType::ILLEGAL]);
    assert_eq!(literals(&tokens), vec!["."]);
    let tokens = Lexer::scan("7\n8").unwrap();
    assert_eq!(literals(&tokens), vec!["7", "8"]);
}

#[test]
fn scan_words() {
    let tokens = Lexer::scan("sqrt(x)").unwrap();
    assert_eq!(
        kinds(&tokens),
        vec![TokenType::SQRT, TokenType::LPAREN, TokenType::IDENTIFIER, TokenType::RPAREN]
    );
    assert_eq!(places(&tokens), vec![(0, 3), (4, 4), (5, 5), (6, 6)]);
    let tokens = Lexer::scan("my_var").unwrap();
    assert_eq!(
        kinds(&tokens),
        vec![TokenType::IDENTIFIER, TokenType::ILLEGAL, TokenType::IDENTIFIER]
    );
    assert_eq!(literals(&tokens), vec!["my", "_", "var"]);
    let tokens = Lexer::scan("x1").unwrap();
    assert_eq!(kinds(&tokens), vec![TokenType::IDENTIFIER, TokenType::NUMBER]);
    let tokens = Lexer::scan("Floor CEIL é").unwrap();
    assert_eq!(
        kinds(&tokens),
        vec![TokenType::FLOOR, TokenType::CEIL, TokenType::IDENTIFIER]
    );
    assert_eq!(places(&tokens), vec![(0, 4), (6, 9), (11, 11)]);
    let tokens = Lexer::scan("2 # 3").unwrap();
    assert_eq!(
        kinds(&tokens),
        vec![TokenType::NUMBER, TokenType::ILLEGAL, TokenType::NUMBER]
    );
    assert_eq!(literals(&tokens)[1], "#");
    assert_eq!(places(&tokens)[1], (2, 2));
}

#[test]
fn cursor_moves() {
    let mut lexer = Lexer::new("a b").unwrap();
    assert_eq!(lexer.peek_char(1), Some(' '));
    assert_eq!(lexer.peek_char(2), Some('b'));
    assert_eq!(lexer.peek_char(3), None);
    assert_eq!(lexer.peek_char_back(1), None);
    assert_eq!(lexer.read_char(), Some(' '));
    assert_eq!(lexer.position(), 1);
    assert_eq!(lexer.peek_char_back(1), Some('a'));
    lexer.skip_whitespace();
    assert_eq!(lexer.position(), 2);
    assert_eq!(lexer.examination_char(), 'b');
    assert_eq!(lexer.read_char(), None);
    assert_eq!(lexer.position(), 3);
    assert_eq!(lexer.read_char(), None);
    assert_eq!(lexer.position(), 3);
    assert_eq!(lexer.examination_char(), 'b');
    assert_eq!(lexer.generate_token(), None);

    let mut lexer = Lexer::new("  12 + ab").unwrap();
    assert_eq!(lexer.generate_token(), Some(Token::from(String::from("12"), (2, 3))));
    assert_eq!(lexer.position(), 5);
    assert!(!lexer.is_free_from_number(1));
    assert!(!lexer.next_is_number(1));
    assert_eq!(lexer.generate_token(), Some(Token::from(String::from("+"), (5, 5))));
    lexer.skip_whitespace();
    assert_eq!(lexer.read_identifier(), (String::from("ab"), (7, 8)));
    assert_eq!(lexer.generate_token(), None);

    let mut lexer = Lexer::new("- 7 ").unwrap();
    assert!(lexer.is_free_from_number(1));
    assert!(lexer.next_is_number(1));
    assert_eq!(lexer.read_number(), (String::from("- 7 "), (0, 2)));
    assert_eq!(lexer.position(), 4);
}

fn flat(input: &str) -> Vec<Token> {
    Lexer::scan(input).unwrap()
}

#[test]
fn closing_brackets() {
    let tokens = flat("(1 + [2 - (3)]) * (4)");
    assert_eq!(Lexer::find_closing(&tokens, 0), Some(10));
    assert_eq!(Lexer::find_closing(&tokens, 3), Some(9));
    assert_eq!(Lexer::find_closing(&tokens, 6), Some(8));
    assert_eq!(Lexer::find_closing(&tokens, 12), Some(14));
    assert_eq!(Lexer::find_closing(&tokens, 1), None);
    assert_eq!(Lexer::find_closing(&tokens, 99), None);
    assert_eq!(Lexer::find_closing(&flat("(1 + [2)]"), 0), None);
    assert_eq!(Lexer::find_closing(&flat("((1)"), 0), None);
    assert_eq!(Lexer::find_closing(&flat("((1)"), 1), Some(3));
    assert_eq!(Lexer::find_fault(&tokens), None);
    assert_eq!(Lexer::find_fault(&flat("(1) + 2) + (3")), Some(5));
    assert_eq!(Lexer::find_fault(&flat("(1) + (2")), Some(4));
    assert_eq!(Lexer::find_fault(&flat("1 + 2")), None);
}

#[test]
fn take_till_end_collects_the_group() {
    let tokens = flat("5 + (2 * [4 - 1]) - 3");
    let (inner, end, nested) = Lexer::take_till_end(&tokens, 2).unwrap();
    assert_eq!(end, 10);
    assert!(nested);
    assert_eq!(literals(&inner), vec!["2", "*", "[", "4", "-", "1", "]"]);
    let (inner, end, nested) = Lexer::take_till_end(&tokens, 5).unwrap();
    assert_eq!(end, 9);
    assert!(!nested);
    assert_eq!(literals(&inner), vec!["4", "-", "1"]);
    assert_eq!(Lexer::take_till_end(&tokens, 0), None);
    assert_eq!(Lexer::take_till_end(&tokens, 40), None);
    assert_eq!(Lexer::take_till_end(&flat("(5 + 3]"), 0), None);
    assert_eq!(Lexer::take_till_end(&flat("(5 + 3"), 0), None);
    let (inner, end, nested) = Lexer::take_till_end(&flat("()"), 0).unwrap();
    assert!(inner.is_empty() && end == 1 && !nested);
}

#[test]
fn nest_parentheses_levels() {
    let input = "5 + (2 + 4) : [4 + 5 * (3 + 5)]";
    let levels = Lexer::nest_parentheses(&flat(input), input).unwrap();
    assert_eq!(levels.len(), 3);
    assert_eq!(literals(&levels[0].0), vec!["5", "+", "1", ":", "2"]);
    assert_eq!(
        kinds(&levels[0].0),
        vec![
            TokenType::NUMBER,
            TokenType::PLUS,
            TokenType::POINTER,
            TokenType::DIVIDE,
            TokenType::POINTER
        ]
    );
    assert_eq!(levels[0].0[2], Token::new_pointer(1, SubMethod::PAREN));
    assert_eq!(levels[0].0[4], Token::new_pointer(2, SubMethod::ABS));
    assert!(!levels[0].1);
    assert_eq!(literals(&levels[1].0), vec!["2", "+", "4"]);
    assert!(!levels[1].1);
    assert_eq!(literals(&levels[2].0), vec!["4", "+", "5", "*", "(", "3", "+", "5", ")"]);
    assert!(levels[2].1);

    let levels = Lexer::nest_parentheses(&vec![], "").unwrap();
    assert_eq!(levels.len(), 1);
    assert!(levels[0].0.is_empty() && !levels[0].1);

    let input = "(1) + 2) + (3";
    assert_eq!(
        Lexer::nest_parentheses(&flat(input), input),
        Err(Error::mismatched_parentheses(input.to_string(), 8))
    );
    let input = "1 + (2";
    assert_eq!(
        Lexer::nest_parentheses(&flat(input), input),
        Err(Error::mismatched_parentheses(input.to_string(), 5))
    );
}

#[test]
fn break_nesting_expands_pointers() {
    let input = "5 + (2 + 4) : [4 + 5 * (3 + 5)]";
    let tokens = flat(input);
    let levels = Lexer::nest_parentheses(&tokens, input).unwrap();
    let broken = Lexer::break_nesting(0, &levels, input).unwrap();
    assert_eq!(broken, Lexer::resolve(&tokens, input).unwrap());
    assert_eq!(
        kinds(&broken),
        vec![
            TokenType::NUMBER,
            TokenType::PLUS,
            TokenType::SUBEXP,
            TokenType::DIVIDE,
            TokenType::SUBEXP
        ]
    );
    assert_eq!(broken[2].sub.method, SubMethod::PAREN);
    assert_eq!(literals(&broken[2].sub.tokens), vec!["2", "+", "4"]);
    assert_eq!(broken[4].sub.method, SubMethod::ABS);
    assert_eq!(broken[4].sub.tokens.len(), 3);
    assert_eq!(Lexer::break_nesting(7, &levels, input), Ok(vec![]));
    assert_eq!(
        literals(&Lexer::break_nesting(1, &levels, input).unwrap()),
        vec!["2", "+", "4"]
    );

    let stray = vec![(
        vec![
            Token::new_pointer(5, SubMethod::PAREN),
            Token::from(String::from("1"), (0, 0)),
            Token::new(TokenType::POINTER, String::from("x"), Sub::empty(), (-1, -1)),
        ],
        false,
    )];
    assert_eq!(literals(&Lexer::break_nesting(0, &stray, "1").unwrap()), vec!["1"]);

    let faulty = vec![
        (vec![Token::new_pointer(1, SubMethod::PAREN)], false),
        (flat("2 + 3)"), true),
    ];
    assert_eq!(
        Lexer::break_nesting(0, &faulty, "2 + 3)"),
        Err(Error::mismatched_parentheses(String::from("2 + 3)"), 6))
    );
}

fn number(literal: &str) -> Token {
    Token::from(literal.to_string(), (0, 0))
}

fn shape(tokens: &[Token]) -> String {
    let mut out = String::new();
    for (i, t) in tokens.iter().enumerate() {
        if i > 0 {
            out.push(' ');
        }
        if t.is_sub_exp() {
            out.push(if t.sub.method == SubMethod::ABS { '[' } else { '(' });
            out.push_str(&shape(&t.sub.tokens));
            out.push(if t.sub.method == SubMethod::ABS { ']' } else { ')' });
        } else {
            out.push_str(&t.literal);
        }
    }
    out
}

fn lexed_shape(input: &str) -> String {
    shape(&Lexer::lex(input).unwrap().tokens)
}

#[test]
fn combine_steps() {
    let tokens = flat("sqrt 4 sin x cos");
    assert_eq!(shape(&Lexer::combine_function_calls(&tokens)), "(sqrt 4) sin x cos");
    let input = "floor(3.9)! + 1";
    let tokens = Lexer::resolve(&flat(input), input).unwrap();
    assert_eq!(
        shape(&Lexer::combine_function_calls(&tokens)),
        "((floor (3.9)) !) + 1"
    );
    assert_eq!(Lexer::combine_function_calls(&tokens).len(), 3);
    let tokens = flat("3! sqrt 4! x!");
    assert_eq!(shape(&Lexer::combine_function_calls(&tokens)), "(3 !) ((sqrt 4) !) x !");
    let tokens = vec![number("3"), number("!"), number("x"), number("!"), number("!")];
    assert_eq!(shape(&Lexer::combine_factorials(&tokens)), "(3 !) x ! !");
    let tokens = vec![number("2"), number("3"), number("x"), number("4"), Token::new_sub(vec![], SubMethod::ABS)];
    assert_eq!(shape(&Lexer::combine_neighbours(&tokens)), "2 * 3 x 4 * []");
    assert_eq!(
        Lexer::combine_neighbours(&tokens)[1],
        Token::from(String::from("*"), Token::unknown_index())
    );
    let tokens = flat("1 ^ 2 ^ 3 ^ 4");
    assert_eq!(
        shape(&Lexer::combine_powers(&tokens, tokens.len() - 1)),
        "1 ^ (2 ^ (3 ^ 4))"
    );
    assert_eq!(shape(&Lexer::combine_powers(&tokens, 4)), "1 ^ (2 ^ 3)");
    assert_eq!(shape(&Lexer::combine_powers(&tokens, 2)), "1 ^ 2");
    assert_eq!(shape(&Lexer::combine_powers(&tokens, 0)), "1");
    assert_eq!(shape(&Lexer::combine_powers(&tokens, 70)), "1 ^ (2 ^ (3 ^ 4))");
    let chain = flat("5 ^ 3 ^ 2 ^ 5 ^ x");
    assert_eq!(
        shape(&Lexer::combine_powers(&chain, chain.len() - 1)),
        "5 ^ (3 ^ (2 ^ (5 ^ x)))"
    );
    let short = flat("5 ^ 3");
    assert_eq!(Lexer::combine_powers(&short, short.len() - 1), short);
    assert_eq!(Lexer::combine_powers(&vec![], 0), vec![]);
    let tokens = flat("1 + 2 ^ 3 ^ x * 5 ^ 6 ^");
    assert_eq!(shape(&Lexer::combine_chains(&tokens, true)), "1 + (2 ^ (3 ^ x)) * (5 ^ 6) ^");
    let tokens = flat("1 + 2 * 3 / x % 4 - 5 * * 6");
    assert_eq!(shape(&Lexer::combine_chains(&tokens, false)), "1 + (2 * 3 / x % 4) - 5 * * 6");
    assert_eq!(shape(&Lexer::combine_tokens(vec![]).tokens), "");
}

#[test]
fn precedence_shapes() {
    assert_eq!(lexed_shape("1 + 2 * 3"), "1 + (2 * 3)");
    assert_eq!(lexed_shape("2 * 3"), "2 * 3");
    assert_eq!(lexed_shape("2 ^ 3 ^ 2"), "2 ^ (3 ^ 2)");
    assert_eq!(lexed_shape("1 + 2 ^ 3 ^ 2"), "1 + (2 ^ (3 ^ 2))");
    assert_eq!(lexed_shape("2 ^ 3 * 4"), "(2 ^ 3) * 4");
    assert_eq!(lexed_shape("4 * 2 ^ 3 - 1"), "(4 * (2 ^ 3)) - 1");
    assert_eq!(lexed_shape("2(3 + 4)"), "2 * (3 + 4)");
    assert_eq!(lexed_shape("1 + 2(3)"), "1 + (2 * (3))");
    assert_eq!(lexed_shape("2 ^ (3)(4)"), "(2 ^ (3)) * (4)");
    assert_eq!(lexed_shape("3! + 2"), "(3 !) + 2");
    assert_eq!(lexed_shape("3!"), "(3 !)");
    assert_eq!(lexed_shape("sqrt(16) + 5"), "(sqrt (16)) + 5");
    assert_eq!(lexed_shape("floor(3.9)!"), "((floor (3.9)) !)");
    assert_eq!(lexed_shape("floor(3.9)! + 1"), "((floor (3.9)) !) + 1");
    assert_eq!(lexed_shape("2 sqrt(4)"), "2 * (sqrt (4))");
    assert_eq!(lexed_shape("x * y + 1"), "(x * y) + 1");
    assert_eq!(lexed_shape("1 + a ^ 2"), "1 + (a ^ 2)");
    assert_eq!(lexed_shape("x = 3 * 4"), "x = (3 * 4)");
    assert_eq!(lexed_shape("n!"), "n !");
    assert_eq!(lexed_shape("sqrt x"), "sqrt x");
    assert_eq!(lexed_shape("2 x"), "2 x");
    assert_eq!(lexed_shape("2 ^"), "2 ^");
    assert_eq!(lexed_shape("[2 - 12] - 10"), "[2 - 12] - 10");
    assert_eq!(lexed_shape("[[1 * 2]]"), "[[1 * 2]]");
    assert_eq!(lexed_shape("()"), "()");
    assert_eq!(lexed_shape("50 % 5 * 2 / 4"), "50 % 5 * 2 / 4");
}
