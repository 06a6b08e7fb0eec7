use mate_rs::token::{Sub, SubMethod, Token, TokenType};

fn leaf(typ: TokenType, literal: &str, index: (i32, i32)) -> Token {
    Token::new(typ, String::from(literal), Sub::empty(), index)
}

#[test]
fn token_new() {
    let test_data: Vec<Token> = vec![
        Token {
            typ: TokenType::PLUS,
            literal: String::from("+"),
            sub: Sub::empty(),
            index: (0, 0),
        },
        Token {
            typ: TokenType::MINUS,
            literal: String::from("-"),
            sub: Sub::empty(),
            index: (1, 1),
        },
        Token {
            typ: TokenType::DIVIDE,
            literal: String::from("/"),
            sub: Sub::empty(),
            index: (2, 2),
        },
        Token {
            typ: TokenType::SUBEXP,
            literal: String::from(""),
            sub: Sub::new(
                Vec::from([
                    Token::from(String::from("2"), (0, 0)),
                    Token::from(String::from("+"), (1, 1)),
                    Token::from(String::from("5"), (2, 2)),
                ]),
                SubMethod::PAREN,
            ),
            index: (0, 2),
        },
    ];

    for t in test_data {
        let res = Token::new(
            t.clone().typ,
            t.clone().literal,
            t.clone().sub,
            t.clone().index,
        );

        assert_eq!(res.typ, t.clone().typ);
        assert_eq!(res.literal, t.clone().literal);
        assert_eq!(res.sub, t.clone().sub);
        assert_eq!(res.index, t.clone().index);
    }
}

#[test]
fn new_sub() {
    let test_data: Vec<(Vec<String>, Token)> = Vec::from([
        (
            vec![String::from("4"), String::from("+"), String::from("2")],
            Token {
                typ: TokenType::SUBEXP,
                literal: String::new(),
                sub: Sub::new(
                    vec![
                        Token::from(String::from("4"), (0, 0)),
                        Token::from(String::from("+"), (0, 0)),
                        Token::from(String::from("2"), (0, 0)),
                    ],
                    SubMethod::PAREN,
                ),
                index: Token::unknown_index(),
            },
        ),
        (
            vec![String::from("2"), String::from("+"), String::from("+")],
            Token {
                typ: TokenType::SUBEXP,
                literal: String::new(),
                sub: Sub::new(
                    vec![
                        Token::from(String::from("2"), (0, 0)),
                        Token::from(String::from("+"), (0, 0)),
                        Token::from(String::from("+"), (0, 0)),
                    ],
                    SubMethod::PAREN,
                ),
                index: Token::unknown_index(),
            },
        ),
    ]);

    for (t, expected) in test_data {
        let tokens = t.into_iter().map(|tt| Token::from(tt, (0, 0))).collect();
        let res = Token::new_sub(tokens, SubMethod::PAREN);

        assert_eq!(res.typ, expected.clone().typ);
        assert_eq!(res.literal, expected.clone().literal);
        assert_eq!(res.sub, expected.clone().sub);
        assert_eq!(res.index, expected.clone().index);
    }
}

#[test]
fn new_sub_keeps_method() {
    let res = Token::new_sub(vec![Token::from(String::from("7"), (1, 1))], SubMethod::ABS);
    assert_eq!(res.sub.method, SubMethod::ABS);
    assert_eq!(res.sub.tokens.len(), 1);
    assert!(res.is_sub_exp());
}

#[test]
fn new_pointer() {
    let test_data: Vec<(usize, Token)> = Vec::from([
        (0, leaf(TokenType::POINTER, "0", (-1, -1))),
        (99, leaf(TokenType::POINTER, "99", (-1, -1))),
    ]);

    for (i, expected) in test_data {
        let token: Token = Token::new_pointer(i, SubMethod::PAREN);
        assert_eq!(token, expected);
    }
}

#[test]
fn new_pointer_writes_decimal() {
    assert_eq!(Token::new_pointer(7, SubMethod::PAREN).literal, "7");
    assert_eq!(Token::new_pointer(10, SubMethod::PAREN).literal, "10");
    assert_eq!(Token::new_pointer(1203, SubMethod::ABS).literal, "1203");
    assert_eq!(Token::new_pointer(1203, SubMethod::ABS).sub.method, SubMethod::ABS);
    assert_eq!(
        Token::new_pointer(usize::MAX, SubMethod::PAREN).literal,
        format!("{}", usize::MAX)
    );
}

#[test]
fn from() {
    let test_data: Vec<((String, (i32, i32)), Token)> = Vec::from([
        (
            (String::from("42"), (0, 1)),
            leaf(TokenType::NUMBER, "42", (0, 1)),
        ),
        (
            (String::from("}"), (0, 0)),
            leaf(TokenType::ILLEGAL, "}", (0, 0)),
        ),
        (
            (String::from("+"), (0, 0)),
            leaf(TokenType::PLUS, "+", (0, 0)),
        ),
        (
            (String::from("-"), (0, 0)),
            leaf(TokenType::MINUS, "-", (0, 0)),
        ),
        (
            (String::from("*"), (0, 0)),
            leaf(TokenType::PRODUCT, "*", (0, 0)),
        ),
        (
            (String::from("•"), (0, 0)),
            leaf(TokenType::PRODUCT, "•", (0, 0)),
        ),
        (
            (String::from("/"), (0, 0)),
            leaf(TokenType::DIVIDE, "/", (0, 0)),
        ),
        (
            (String::from(":"), (0, 0)),
            leaf(TokenType::DIVIDE, ":", (0, 0)),
        ),
        (
            (String::from("%"), (0, 0)),
            leaf(TokenType::PERCENTAGE, "%", (0, 0)),
        ),
    ]);

    for (v, expected) in test_data {
        let res = Token::from(v.0, v.1);
        assert_eq!(res, expected);
    }
}

#[test]
fn from_brackets_and_marks() {
    assert_eq!(Token::from(String::from("("), (3, 3)).typ, TokenType::LPAREN);
    assert_eq!(Token::from(String::from(")"), (3, 3)).typ, TokenType::RPAREN);
    assert_eq!(Token::from(String::from("["), (3, 3)).typ, TokenType::LABS);
    assert_eq!(Token::from(String::from("]"), (3, 3)).typ, TokenType::RABS);
    assert_eq!(Token::from(String::from("^"), (3, 3)).typ, TokenType::POWER);
    assert_eq!(Token::from(String::from("!"), (3, 3)).typ, TokenType::FACTORIAL);
    assert_eq!(Token::from(String::from("="), (3, 3)).typ, TokenType::ASSIGN);
    assert_eq!(Token::from(String::new(), (3, 3)).typ, TokenType::ILLEGAL);
    assert_eq!(Token::from(String::from("."), (3, 3)).typ, TokenType::ILLEGAL);
    assert_eq!(Token::from(String::from("++"), (3, 3)).typ, TokenType::ILLEGAL);
}

#[test]
fn from_strips_blanks() {
    let t = Token::from(String::from("- 2 5 "), (0, 4));
    assert_eq!(t.typ, TokenType::NUMBER);
    assert_eq!(t.literal, "-25");
    assert_eq!(t.index, (0, 4));
    let t = Token::from(String::from(" + "), (0, 2));
    assert_eq!(t.typ, TokenType::PLUS);
    assert_eq!(t.literal, "+");
    let t = Token::from(String::from("\t*\r\n"), (0, 2));
    assert_eq!(t.typ, TokenType::PRODUCT);
    assert_eq!(t.literal, "*");
}

#[test]
fn from_names() {
    let names = [
        ("sqrt", TokenType::SQRT),
        ("sin", TokenType::SIN),
        ("cos", TokenType::COS),
        ("tan", TokenType::TAN),
        ("log", TokenType::LOG),
        ("ln", TokenType::LN),
        ("exp", TokenType::EXP),
        ("floor", TokenType::FLOOR),
        ("ceil", TokenType::CEIL),
        ("round", TokenType::ROUND),
    ];
    for (name, typ) in names {
        assert_eq!(Token::from(String::from(name), (0, 0)).typ, typ);
        assert_eq!(Token::from(name.to_uppercase(), (0, 0)).typ, typ);
        assert!(Token::from(String::from(name), (0, 0)).is_function());
        assert_eq!(Token::from(name.to_uppercase(), (0, 0)).literal, name.to_uppercase());
    }
    assert_eq!(Token::from(String::from("Sqrt"), (0, 0)).typ, TokenType::SQRT);
    assert_eq!(Token::from(String::from("x"), (0, 0)).typ, TokenType::IDENTIFIER);
    assert_eq!(Token::from(String::from("radius"), (0, 0)).typ, TokenType::IDENTIFIER);
    assert_eq!(Token::from(String::from("sqrtt"), (0, 0)).typ, TokenType::IDENTIFIER);
    assert_eq!(Token::from(String::from("é"), (0, 0)).typ, TokenType::IDENTIFIER);
    assert_eq!(Token::from(String::from("a_b"), (0, 0)).typ, TokenType::ILLEGAL);
    assert_eq!(Token::from(String::from("x1"), (0, 0)).typ, TokenType::NUMBER);
    assert!(!Token::from(String::from("x"), (0, 0)).is_function());
}

#[test]
fn unknown_index() {
    assert_eq!(Token::unknown_index(), (-1, -1));
}

#[test]
fn take_pointer_index() {
    let test_data: Vec<(Option<usize>, Token)> = Vec::from([
        (None, Token::from(String::from("25"), (0, 1))),
        (None, Token::from(String::from("-"), (0, 0))),
        (Some(0), Token::new_pointer(0, SubMethod::PAREN)),
        (Some(9), Token::new_pointer(9, SubMethod::PAREN)),
    ]);

    for (expected, token) in test_data {
        assert_eq!(expected, token.take_pointer_index());
    }
}

#[test]
fn take_pointer_index_round_trip_and_limits() {
    for i in [0usize, 1, 10, 99, 100, 65535, usize::MAX] {
        assert_eq!(Token::new_pointer(i, SubMethod::ABS).take_pointer_index(), Some(i));
    }
    assert_eq!(leaf(TokenType::POINTER, "", (-1, -1)).take_pointer_index(), None);
    assert_eq!(leaf(TokenType::POINTER, "1a", (-1, -1)).take_pointer_index(), None);
    assert_eq!(leaf(TokenType::POINTER, "007", (-1, -1)).take_pointer_index(), Some(7));
    assert_eq!(leaf(TokenType::POINTER, "+7", (-1, -1)).take_pointer_index(), Some(7));
    assert_eq!(leaf(TokenType::POINTER, "+", (-1, -1)).take_pointer_index(), None);
    assert_eq!(leaf(TokenType::POINTER, "++7", (-1, -1)).take_pointer_index(), None);
    assert_eq!(leaf(TokenType::POINTER, "7+", (-1, -1)).take_pointer_index(), None);
    assert_eq!(leaf(TokenType::POINTER, "-7", (-1, -1)).take_pointer_index(), None);
    assert_eq!(leaf(TokenType::POINTER, " 7", (-1, -1)).take_pointer_index(), None);
    for text in ["0", "+0", "42", "+42", "", "+", "-1", "1x", "18446744073709551616"] {
        assert_eq!(
            leaf(TokenType::POINTER, text, (-1, -1)).take_pointer_index(),
            text.parse::<usize>().ok()
        );
    }
    assert_eq!(
        leaf(TokenType::POINTER, "99999999999999999999999999", (-1, -1)).take_pointer_index(),
        None
    );
    assert_eq!(leaf(TokenType::NUMBER, "12", (-1, -1)).take_pointer_index(), None);
}

#[test]
fn is_illegal() {
    let test_data: Vec<(bool, Token)> = Vec::from([
        (false, Token::from(String::from("-25"), (0, 1))),
        (false, Token::from(String::from("-"), (0, 0))),
        (true, Token::from(String::from("}"), (0, 0))),
        (false, Token::from(String::from("["), (0, 0))),
    ]);

    for (expected, token) in test_data {
        assert_eq!(expected, token.is_illegal());
    }
}

#[test]
fn is_lparen() {
    let test_data: Vec<(bool, Token)> = Vec::from([
        (false, Token::from(String::from("-25"), (0, 1))),
        (false, Token::from(String::from("-"), (0, 0))),
        (false, Token::from(String::from(")"), (0, 0))),
        (true, Token::from(String::from("("), (0, 0))),
    ]);

    for (expected, token) in test_data {
        assert_eq!(expected, token.is_lparen());
    }
}

#[test]
fn is_rparen() {
    let test_data: Vec<(bool, Token)> = Vec::from([
        (false, Token::from(String::from("-25"), (0, 1))),
        (false, Token::from(String::from("-"), (0, 0))),
        (false, Token::from(String::from("("), (0, 0))),
        (true, Token::from(String::from(")"), (0, 0))),
    ]);

    for (expected, token) in test_data {
        assert_eq!(expected, token.is_rparen());
    }
}

#[test]
fn is_pointer() {
    let test_data: Vec<(bool, Token)> = Vec::from([
        (false, Token::from(String::from("-25"), (0, 1))),
        (false, Token::from(String::from("-"), (0, 0))),
        (false, Token::from(String::from("("), (0, 0))),
        (true, Token::new_pointer(0, SubMethod::PAREN)),
    ]);

    for (expected, token) in test_data {
        assert_eq!(expected, token.is_pointer());
    }
}

#[test]
fn is_sub_exp() {
    let test_data: Vec<(bool, Token)> = Vec::from([
        (false, Token::from(String::from("-25"), (0, 1))),
        (false, Token::from(String::from("-"), (0, 0))),
        (false, Token::from(String::from("("), (0, 0))),
        (true, Token::new_sub(vec![], SubMethod::PAREN)),
    ]);

    for (expected, token) in test_data {
        assert_eq!(expected, token.is_sub_exp());
    }
}

#[test]
fn is_root() {
    let test_data: Vec<(bool, Token)> = Vec::from([
        (false, Token::from(String::from("-25"), (0, 1))),
        (false, Token::from(String::from("-"), (0, 0))),
        (false, Token::from(String::from("("), (0, 0))),
        (true, Token::from(String::from("^"), (0, 0))),
    ]);

    for (expected, token) in test_data {
        assert_eq!(expected, token.is_root());
    }
}

#[test]
fn bracket_families() {
    let lp = Token::from(String::from("("), (0, 0));
    let rp = Token::from(String::from(")"), (0, 0));
    let la = Token::from(String::from("["), (0, 0));
    let ra = Token::from(String::from("]"), (0, 0));
    assert!(lp.matchto(&rp));
    assert!(la.matchto(&ra));
    assert!(!lp.matchto(&ra));
    assert!(!la.matchto(&rp));
    assert!(!rp.matchto(&lp));
    assert!(la.is_labs() && ra.is_rabs());
    assert_eq!(lp.to_submethod(), SubMethod::PAREN);
    assert_eq!(la.to_submethod(), SubMethod::ABS);
    assert_eq!(ra.to_submethod(), SubMethod::ABS);
}

#[test]
fn clone_is_deep() {
    let inner = Token::new_sub(
        vec![Token::from(String::from("3"), (1, 1)), Token::from(String::from("!"), (2, 2))],
        SubMethod::PAREN,
    );
    let outer = Token::new_sub(vec![inner, Token::from(String::from("x"), (4, 4))], SubMethod::ABS);
    assert_eq!(outer.clone(), outer);
    assert_eq!(outer.sub.clone(), outer.sub);
    assert_eq!(Token::empty(), Token::from(String::new(), Token::unknown_index()));
    assert_eq!(Sub::empty().tokens.len(), 0);
    assert_eq!(Sub::empty().method, SubMethod::PAREN);
}
