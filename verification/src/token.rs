//! Tokens, sub-expressions and their mathematical views.

use crate::utils::{
    char_is_digit, char_is_letter, has_digit, is_digit, is_letter, matches_digit, same_text,
    strip, stripped,
};
use vstd::prelude::*;

verus! {

/// The kind of a token.
#[derive(Clone, Copy, Debug, PartialEq, Eq, Structural)]
pub enum TokenType {
    ILLEGAL,
    NUMBER,
    SUBEXP,
    POINTER,
    IDENTIFIER,
    LPAREN,
    RPAREN,
    LABS,
    RABS,
    PLUS,
    MINUS,
    PRODUCT,
    DIVIDE,
    PERCENTAGE,
    POWER,
    FACTORIAL,
    ASSIGN,
    SQRT,
    SIN,
    COS,
    TAN,
    LOG,
    LN,
    EXP,
    FLOOR,
    CEIL,
    ROUND,
}

/// What is done to the value of a sub-expression once it has been reduced.
#[derive(Clone, Copy, Debug, PartialEq, Eq, Structural)]
pub enum SubMethod {
    /// The value is passed through.
    PAREN,
    /// The magnitude of the value is taken.
    ABS,
}

/// An ordered group of tokens that is reduced to one value.
#[derive(Debug, PartialEq)]
pub struct Sub {
    pub tokens: Vec<Token>,
    pub method: SubMethod,
}

/// One unit of an expression.
///
/// `literal` is the text of an atomic token, `sub` the content of a
/// sub-expression, and `index` the range of source positions that the token
/// was read from, `(-1, -1)` for a token that was not read from the source.
#[derive(Debug, PartialEq)]
pub struct Token {
    pub typ: TokenType,
    pub literal: String,
    pub sub: Sub,
    pub index: (i32, i32),
}

/// The mathematical value of a [`Sub`].
pub struct SubView {
    pub tokens: Seq<TokenView>,
    pub method: SubMethod,
}

/// The mathematical value of a [`Token`]: a finite tree.
pub struct TokenView {
    pub typ: TokenType,
    pub literal: Seq<char>,
    pub sub: SubView,
    pub index: (i32, i32),
}

/// The mathematical value of a token: its fields, and the values of the
/// tokens inside of it.
pub open spec fn token_view(t: Token) -> TokenView
    decreases t,
{
    TokenView {
        typ: t.typ,
        literal: t.literal@,
        sub: SubView {
            tokens: Seq::new(
                t.sub.tokens@.len(),
                |i: int|
                    if 0 <= i < t.sub.tokens@.len() {
                        token_view(t.sub.tokens@[i])
                    } else {
                        arbitrary()
                    },
            ),
            method: t.sub.method,
        },
        index: t.index,
    }
}

/// The views of a sequence of tokens, in order.
pub open spec fn views(v: Seq<Token>) -> Seq<TokenView> {
    Seq::new(v.len(), |i: int| token_view(v[i]))
}

impl View for Token {
    type V = TokenView;

    open spec fn view(&self) -> TokenView {
        token_view(*self)
    }
}

impl View for Sub {
    type V = SubView;

    open spec fn view(&self) -> SubView {
        SubView { tokens: views(self.tokens@), method: self.method }
    }
}

/// A token's view holds the view of its sub-expression.
pub broadcast proof fn lemma_token_view(t: Token)
    ensures
        (#[trigger] token_view(t)).typ == t.typ,
        t@.literal == t.literal@,
        t@.sub == t.sub@,
        t@.index == t.index,
{
    assert(t@.sub.tokens =~= views(t.sub.tokens@));
}

/// The view of a sequence with one more token at its end.
pub proof fn lemma_views_push(v: Seq<Token>, t: Token)
    ensures
        views(v.push(t)) == views(v).push(t@),
{
    assert(views(v.push(t)) =~= views(v).push(t@));
}

/// The index of a token that was not read from the source.
pub open spec fn unknown() -> (i32, i32) {
    (-1i32, -1i32)
}

/// The view of a sub-expression without tokens.
pub open spec fn empty_sub(method: SubMethod) -> SubView {
    SubView { tokens: Seq::empty(), method }
}

/// The view of an atomic token.
pub open spec fn atom(typ: TokenType, literal: Seq<char>, index: (i32, i32)) -> TokenView {
    TokenView { typ, literal, sub: empty_sub(SubMethod::PAREN), index }
}

/// The view of a sub-expression token that holds `tokens`.
pub open spec fn sub_token(tokens: Seq<TokenView>, method: SubMethod) -> TokenView {
    TokenView {
        typ: TokenType::SUBEXP,
        literal: Seq::empty(),
        sub: SubView { tokens, method },
        index: unknown(),
    }
}

/// The decimal digit that stands for `d`.
pub open spec fn digit_char(d: int) -> char {
    (d + 48) as char
}

/// `n` written in decimal digits.
pub open spec fn decimal(n: nat) -> Seq<char>
    decreases n,
{
    if n < 10 {
        seq![digit_char(n as int)]
    } else {
        decimal(n / 10).push(digit_char((n % 10) as int))
    }
}

/// The number that the decimal digits of `s` stand for.
pub open spec fn decimal_value(s: Seq<char>) -> nat
    decreases s.len(),
{
    if s.len() == 0 {
        0
    } else {
        (decimal_value(s.drop_last()) * 10 + (s.last() as int - 48)) as nat
    }
}

/// A text without the plus sign at its start, if it starts with one.
pub open spec fn unsigned(s: Seq<char>) -> Seq<char> {
    if s.len() > 0 && s[0] == '+' {
        s.subrange(1, s.len() as int)
    } else {
        s
    }
}

/// The number that a text writes: decimal digits, at least one, after
/// no more than one plus sign. Any other text writes no number.
pub open spec fn written_number(s: Seq<char>) -> Option<nat> {
    if is_decimal(unsigned(s)) {
        Some(decimal_value(unsigned(s)))
    } else {
        None
    }
}

/// Whether `s` is made of decimal digits, at least one.
pub open spec fn is_decimal(s: Seq<char>) -> bool {
    s.len() > 0 && forall|i: int| 0 <= i < s.len() ==> is_digit(#[trigger] s[i])
}

/// A number that is written in digits is read back from them.
pub proof fn lemma_written_round_trip(n: nat)
    ensures
        written_number(decimal(n)) == Some(n),
{
    lemma_decimal_round_trip(n);
    assert(is_digit(decimal(n)[0]));
}

/// The digits of a number stand for the number.
pub proof fn lemma_decimal_round_trip(n: nat)
    ensures
        is_decimal(decimal(n)),
        decimal_value(decimal(n)) == n,
    decreases n,
{
    if n < 10 {
        let s = decimal(n);
        assert(s.drop_last() =~= Seq::<char>::empty());
        assert(decimal_value(s.drop_last()) == 0);
        assert(s.last() == digit_char(n as int));
    } else {
        lemma_decimal_round_trip(n / 10);
        let head = decimal(n / 10);
        let s = decimal(n);
        assert(s.drop_last() =~= head);
        assert(s.last() == digit_char((n % 10) as int));
        assert forall|i: int| 0 <= i < s.len() implies is_digit(#[trigger] s[i]) by {
            if i < head.len() {
                assert(s[i] == head[i]);
            }
        }
    }
}

/// The view of a pointer token to nesting level `i`.
pub open spec fn pointer_token(i: nat, method: SubMethod) -> TokenView {
    TokenView {
        typ: TokenType::POINTER,
        literal: decimal(i),
        sub: empty_sub(method),
        index: unknown(),
    }
}

/// The kind that a single character stands for, `ILLEGAL` if it stands for
/// none.
pub open spec fn symbol_type(c: char) -> TokenType {
    if c == '+' {
        TokenType::PLUS
    } else if c == '-' {
        TokenType::MINUS
    } else if c == '*' || c == '•' {
        TokenType::PRODUCT
    } else if c == '/' || c == ':' {
        TokenType::DIVIDE
    } else if c == '(' {
        TokenType::LPAREN
    } else if c == ')' {
        TokenType::RPAREN
    } else if c == '[' {
        TokenType::LABS
    } else if c == ']' {
        TokenType::RABS
    } else if c == '%' {
        TokenType::PERCENTAGE
    } else if c == '^' {
        TokenType::POWER
    } else if c == '!' {
        TokenType::FACTORIAL
    } else if c == '=' {
        TokenType::ASSIGN
    } else {
        TokenType::ILLEGAL
    }
}

/// `c` with an ASCII capital letter turned into its small letter.
pub open spec fn lower_char(c: char) -> char {
    if 'A' <= c && c <= 'Z' {
        ((c as u32) + 32) as char
    } else {
        c
    }
}

/// `s` with its ASCII capital letters turned into small letters.
pub open spec fn lower_text(s: Seq<char>) -> Seq<char> {
    Seq::new(s.len(), |i: int| lower_char(s[i]))
}

/// The function that `s` names, whatever the case of its letters.
pub open spec fn function_named(s: Seq<char>) -> Option<TokenType> {
    let l = lower_text(s);
    if l == "sqrt"@ {
        Some(TokenType::SQRT)
    } else if l == "sin"@ {
        Some(TokenType::SIN)
    } else if l == "cos"@ {
        Some(TokenType::COS)
    } else if l == "tan"@ {
        Some(TokenType::TAN)
    } else if l == "log"@ {
        Some(TokenType::LOG)
    } else if l == "ln"@ {
        Some(TokenType::LN)
    } else if l == "exp"@ {
        Some(TokenType::EXP)
    } else if l == "floor"@ {
        Some(TokenType::FLOOR)
    } else if l == "ceil"@ {
        Some(TokenType::CEIL)
    } else if l == "round"@ {
        Some(TokenType::ROUND)
    } else {
        None
    }
}

/// Whether `s` is made of letters, at least one.
pub open spec fn is_word(s: Seq<char>) -> bool {
    s.len() > 0 && forall|i: int| 0 <= i < s.len() ==> is_letter(#[trigger] s[i])
}

/// No text stands for a pointer: pointers are made, not read.
pub proof fn lemma_classify_no_pointer(literal: Seq<char>)
    ensures
        classify(literal) != TokenType::POINTER,
{
}

/// The kind of the token that a piece of text stands for.
///
/// A text with a digit is a number. Otherwise its blank characters, which
/// are space, tab, line feed and carriage return, do not count: a single
/// symbol has the symbol's kind, the name of a function the function's
/// kind, any other word is an identifier and the rest is illegal.
pub open spec fn classify(literal: Seq<char>) -> TokenType {
    let s = strip(literal);
    if has_digit(literal) {
        TokenType::NUMBER
    } else if s.len() == 1 && symbol_type(s[0]) != TokenType::ILLEGAL {
        symbol_type(s[0])
    } else {
        match function_named(s) {
            Some(f) => f,
            None => if is_word(s) {
                TokenType::IDENTIFIER
            } else {
                TokenType::ILLEGAL
            },
        }
    }
}

/// Whether a kind is one of the named functions.
pub open spec fn is_function_type(typ: TokenType) -> bool {
    typ == TokenType::SQRT || typ == TokenType::SIN || typ == TokenType::COS || typ
        == TokenType::TAN || typ == TokenType::LOG || typ == TokenType::LN || typ
        == TokenType::EXP || typ == TokenType::FLOOR || typ == TokenType::CEIL || typ
        == TokenType::ROUND
}

/// Whether a kind is one of the six binary operators.
pub open spec fn is_operator_type(typ: TokenType) -> bool {
    typ == TokenType::PLUS || typ == TokenType::MINUS || typ == TokenType::PRODUCT || typ
        == TokenType::DIVIDE || typ == TokenType::PERCENTAGE || typ == TokenType::POWER
}

/// Whether a left bracket of kind `left` is closed by a right bracket of
/// kind `right`: round by round, absolute by absolute.
pub open spec fn brackets_match(left: TokenType, right: TokenType) -> bool {
    (left == TokenType::LPAREN && right == TokenType::RPAREN) || (left == TokenType::LABS && right
        == TokenType::RABS)
}

/// The method of the sub-expression that a bracket of kind `typ` opens.
pub open spec fn method_of(typ: TokenType) -> SubMethod {
    if typ == TokenType::LABS || typ == TokenType::RABS {
        SubMethod::ABS
    } else {
        SubMethod::PAREN
    }
}

impl Clone for Token {
    fn clone(&self) -> (r: Token)
        ensures
            r@ == self@,
    {
        copy_token(self)
    }
}

impl Clone for Sub {
    fn clone(&self) -> (r: Sub)
        ensures
            r@ == self@,
    {
        Sub { tokens: copy_tokens(&self.tokens), method: self.method }
    }
}

/// A copy of a token with all that it holds.
pub fn copy_token(t: &Token) -> (r: Token)
    ensures
        r@ == t@,
    decreases t,
{
    let mut tokens: Vec<Token> = Vec::new();
    let mut i: usize = 0;
    while i < t.sub.tokens.len()
        invariant
            i <= t.sub.tokens@.len(),
            tokens@.len() == i,
            forall|k: int| 0 <= k < i ==> tokens@[k]@ == t.sub.tokens@[k]@,
        decreases t.sub.tokens@.len() - i,
    {
        let c = copy_token(&t.sub.tokens[i]);
        tokens.push(c);
        i += 1;
    }
    let r = Token {
        typ: t.typ,
        literal: t.literal.clone(),
        sub: Sub { tokens, method: t.sub.method },
        index: t.index,
    };
    assert(r@.sub.tokens =~= t@.sub.tokens);
    r
}

/// A copy of a list of tokens.
pub fn copy_tokens(v: &Vec<Token>) -> (r: Vec<Token>)
    ensures
        views(r@) == views(v@),
{
    let mut tokens: Vec<Token> = Vec::new();
    let mut i: usize = 0;
    while i < v.len()
        invariant
            i <= v@.len(),
            tokens@.len() == i,
            forall|k: int| 0 <= k < i ==> tokens@[k]@ == v@[k]@,
        decreases v@.len() - i,
    {
        tokens.push(copy_token(&v[i]));
        i += 1;
    }
    assert(views(tokens@) =~= views(v@));
    tokens
}

/// A copy of the tokens with indices `from..to`.
pub fn copy_slice(v: &Vec<Token>, from: usize, to: usize) -> (r: Vec<Token>)
    requires
        from <= to <= v@.len(),
    ensures
        views(r@) == views(v@).subrange(from as int, to as int),
{
    let mut tokens: Vec<Token> = Vec::new();
    let mut i: usize = from;
    while i < to
        invariant
            from <= i <= to,
            to <= v@.len(),
            tokens@.len() == i - from,
            forall|k: int| 0 <= k < i - from ==> tokens@[k]@ == v@[from + k]@,
        decreases to - i,
    {
        tokens.push(copy_token(&v[i]));
        i += 1;
    }
    assert(views(tokens@) =~= views(v@).subrange(from as int, to as int));
    tokens
}

/// Appends the decimal digits of `n` to `s`.
fn push_decimal(s: &mut String, n: usize)
    ensures
        final(s)@ == old(s)@ + decimal(n as nat),
    decreases n,
{
    if n >= 10 {
        push_decimal(s, n / 10);
    }
    let d: u8 = (n % 10) as u8;
    s.push((d + 48) as char);
    assert(final(s)@ =~= old(s)@ + decimal(n as nat));
}

/// The value of a longer run of digits is no less than that of its start.
proof fn lemma_decimal_value_grows(s: Seq<char>, k: int)
    requires
        0 <= k <= s.len(),
        forall|i: int| 0 <= i < s.len() ==> is_digit(#[trigger] s[i]),
    ensures
        decimal_value(s.subrange(0, k)) <= decimal_value(s),
    decreases s.len() - k,
{
    if k == s.len() {
        assert(s.subrange(0, k) =~= s);
    } else {
        let t = s.subrange(0, k + 1);
        assert(t.drop_last() =~= s.subrange(0, k));
        assert(is_digit(s[k]));
        lemma_decimal_value_grows(s, k + 1);
    }
}

impl Sub {
    /// A sub-expression of the given tokens.
    pub fn new(tokens: Vec<Token>, method: SubMethod) -> (r: Sub)
        ensures
            r.tokens == tokens,
            r.method == method,
    {
        Sub { tokens, method }
    }

    /// A sub-expression without tokens, whose value is passed through.
    pub fn empty() -> (r: Sub)
        ensures
            r@ == empty_sub(SubMethod::PAREN),
    {
        let r = Sub { tokens: Vec::new(), method: SubMethod::PAREN };
        assert(r@.tokens =~= Seq::empty());
        r
    }
}

impl Token {
    /// A token of the given fields.
    pub fn new(typ: TokenType, literal: String, sub: Sub, index: (i32, i32)) -> (r: Token)
        ensures
            r.typ == typ,
            r.literal == literal,
            r.sub == sub,
            r.index == index,
    {
        Token { typ, literal, sub, index }
    }

    /// A sub-expression token that holds `tokens`.
    pub fn new_sub(tokens: Vec<Token>, method: SubMethod) -> (r: Token)
        ensures
            r@ == sub_token(views(tokens@), method),
            r.sub.tokens == tokens,
    {
        let r = Token {
            typ: TokenType::SUBEXP,
            literal: String::new(),
            sub: Sub { tokens, method },
            index: Token::unknown_index(),
        };
        proof {
            lemma_token_view(r);
        }
        r
    }

    /// A pointer token to nesting level `i`; `method` is that of the
    /// sub-expression that will take its place.
    pub fn new_pointer(i: usize, method: SubMethod) -> (r: Token)
        ensures
            r@ == pointer_token(i as nat, method),
    {
        let mut literal = String::new();
        push_decimal(&mut literal, i);
        let r = Token {
            typ: TokenType::POINTER,
            literal,
            sub: Sub { tokens: Vec::new(), method },
            index: Token::unknown_index(),
        };
        proof {
            lemma_token_view(r);
            assert(r@.sub.tokens =~= Seq::empty());
            assert(r.literal@ =~= decimal(i as nat));
        }
        r
    }

    /// The token that `literal` stands for, see [`classify`]; its literal is
    /// the text without blank characters. Blank are space, tab, line feed
    /// and carriage return only: any other white space of Unicode stays
    /// in the literal and makes the token illegal, unless a digit makes
    /// it a number.
    pub fn from(literal: String, index: (i32, i32)) -> (r: Token)
        ensures
            r@ == atom(classify(literal@), strip(literal@), index),
    {
        let s = stripped(literal.as_str());
        let typ = if matches_digit(literal.as_str()) {
            TokenType::NUMBER
        } else {
            Token::kind_of(s.as_str())
        };
        let r = Token {
            typ,
            literal: s,
            sub: Sub { tokens: Vec::new(), method: SubMethod::PAREN },
            index,
        };
        proof {
            lemma_token_view(r);
            assert(r@.sub.tokens =~= Seq::empty());
        }
        r
    }

    /// The kind of a text that holds no digit and no blank character.
    fn kind_of(s: &str) -> (r: TokenType)
        ensures
            r == if s@.len() == 1 && symbol_type(s@[0]) != TokenType::ILLEGAL {
                symbol_type(s@[0])
            } else {
                match function_named(s@) {
                    Some(f) => f,
                    None => if is_word(s@) {
                        TokenType::IDENTIFIER
                    } else {
                        TokenType::ILLEGAL
                    },
                }
            },
    {
        let n: usize = s.unicode_len();
        if n == 1 {
            let t = Token::kind_of_symbol(s.get_char(0));
            if t != TokenType::ILLEGAL {
                return t;
            }
        }
        let mut low = String::new();
        let mut word: bool = n > 0;
        let mut i: usize = 0;
        while i < n
            invariant
                n == s@.len(),
                i <= n,
                low@ == lower_text(s@.subrange(0, i as int)),
                word == (n > 0 && forall|k: int| 0 <= k < i ==> is_letter(#[trigger] s@[k])),
            decreases n - i,
        {
            let c = s.get_char(i);
            let l = if 'A' <= c && c <= 'Z' {
                ((c as u8) + 32) as char
            } else {
                c
            };
            low.push(l);
            if !char_is_letter(c) {
                word = false;
            }
            assert(low@ =~= lower_text(s@.subrange(0, i + 1)));
            i += 1;
        }
        assert(s@.subrange(0, n as int) =~= s@);
        let l = low.as_str();
        if same_text(l, "sqrt") {
            TokenType::SQRT
        } else if same_text(l, "sin") {
            TokenType::SIN
        } else if same_text(l, "cos") {
            TokenType::COS
        } else if same_text(l, "tan") {
            TokenType::TAN
        } else if same_text(l, "log") {
            TokenType::LOG
        } else if same_text(l, "ln") {
            TokenType::LN
        } else if same_text(l, "exp") {
            TokenType::EXP
        } else if same_text(l, "floor") {
            TokenType::FLOOR
        } else if same_text(l, "ceil") {
            TokenType::CEIL
        } else if same_text(l, "round") {
            TokenType::ROUND
        } else if word {
            TokenType::IDENTIFIER
        } else {
            TokenType::ILLEGAL
        }
    }

    /// The kind that a single character stands for.
    fn kind_of_symbol(c: char) -> (r: TokenType)
        ensures
            r == symbol_type(c),
    {
        if c == '+' {
            TokenType::PLUS
        } else if c == '-' {
            TokenType::MINUS
        } else if c == '*' || c == '•' {
            TokenType::PRODUCT
        } else if c == '/' || c == ':' {
            TokenType::DIVIDE
        } else if c == '(' {
            TokenType::LPAREN
        } else if c == ')' {
            TokenType::RPAREN
        } else if c == '[' {
            TokenType::LABS
        } else if c == ']' {
            TokenType::RABS
        } else if c == '%' {
            TokenType::PERCENTAGE
        } else if c == '^' {
            TokenType::POWER
        } else if c == '!' {
            TokenType::FACTORIAL
        } else if c == '=' {
            TokenType::ASSIGN
        } else {
            TokenType::ILLEGAL
        }
    }

    /// A token that stands for nothing: illegal, with an empty literal.
    pub fn empty() -> (r: Token)
        ensures
            r@ == atom(TokenType::ILLEGAL, Seq::empty(), unknown()),
    {
        let r = Token {
            typ: TokenType::ILLEGAL,
            literal: String::new(),
            sub: Sub { tokens: Vec::new(), method: SubMethod::PAREN },
            index: Token::unknown_index(),
        };
        proof {
            lemma_token_view(r);
            assert(r@.sub.tokens =~= Seq::empty());
        }
        r
    }

    /// The index of a token that was not read from the source.
    pub fn unknown_index() -> (r: (i32, i32))
        ensures
            r == unknown(),
    {
        (-1, -1)
    }

    /// The nesting level that a pointer token points to: the number that
    /// its literal writes, see [`written_number`], where it fits the
    /// machine.
    pub fn take_pointer_index(&self) -> (r: Option<usize>)
        ensures
            r.is_some() <==> (self.typ == TokenType::POINTER && written_number(
                self.literal@,
            ).is_some() && written_number(self.literal@).unwrap() <= usize::MAX),
            r.is_some() ==> r.unwrap() == written_number(self.literal@).unwrap(),
    {
        if self.typ != TokenType::POINTER {
            return None;
        }
        let s = self.literal.as_str();
        let n: usize = s.unicode_len();
        if n == 0 {
            return None;
        }
        let start: usize = if s.get_char(0) == '+' {
            1
        } else {
            0
        };
        let ghost digits = unsigned(s@);
        assert(digits =~= s@.subrange(start as int, n as int));
        if start == n {
            return None;
        }
        let mut value: usize = 0;
        let mut i: usize = start;
        assert(digits.subrange(0, 0) =~= Seq::<char>::empty());
        while i < n
            invariant
                n == s@.len(),
                start <= i <= n,
                start < n,
                s@ == self.literal@,
                digits == unsigned(s@),
                digits == s@.subrange(start as int, n as int),
                self.typ == TokenType::POINTER,
                forall|k: int| 0 <= k < i - start ==> is_digit(#[trigger] digits[k]),
                value == decimal_value(digits.subrange(0, i - start)),
            decreases n - i,
        {
            let c = s.get_char(i);
            assert(digits[i - start] == c);
            if !char_is_digit(c) {
                return None;
            }
            let d: usize = ((c as u8) - 48) as usize;
            assert(digits.subrange(0, i - start + 1).drop_last() =~= digits.subrange(
                0,
                i - start,
            ));
            if value > (usize::MAX - d) / 10 {
                proof {
                    let t = digits.subrange(0, i - start + 1);
                    assert(t.last() == c);
                    assert(decimal_value(t) == value * 10 + d);
                    if is_decimal(digits) {
                        lemma_decimal_value_grows(digits, i - start + 1);
                    }
                }
                return None;
            }
            value = value * 10 + d;
            i += 1;
        }
        assert(digits.subrange(0, digits.len() as int) =~= digits);
        Some(value)
    }

    /// The method of the sub-expression that this bracket opens or closes.
    pub fn to_submethod(&self) -> (r: SubMethod)
        ensures
            r == method_of(self.typ),
    {
        if self.typ == TokenType::LABS || self.typ == TokenType::RABS {
            SubMethod::ABS
        } else {
            SubMethod::PAREN
        }
    }

    /// Whether this is a left bracket that `other` closes.
    pub fn matchto(&self, other: &Token) -> (r: bool)
        ensures
            r == brackets_match(self.typ, other.typ),
    {
        (self.typ == TokenType::LPAREN && other.typ == TokenType::RPAREN) || (self.typ
            == TokenType::LABS && other.typ == TokenType::RABS)
    }

    /// Whether this stands for no token of the language.
    pub fn is_illegal(&self) -> (r: bool)
        ensures
            r == (self.typ == TokenType::ILLEGAL),
    {
        self.typ == TokenType::ILLEGAL
    }

    /// Whether this is the round left bracket `(`.
    pub fn is_lparen(&self) -> (r: bool)
        ensures
            r == (self.typ == TokenType::LPAREN),
    {
        self.typ == TokenType::LPAREN
    }

    /// Whether this is the round right bracket `)`.
    pub fn is_rparen(&self) -> (r: bool)
        ensures
            r == (self.typ == TokenType::RPAREN),
    {
        self.typ == TokenType::RPAREN
    }

    /// Whether this is the left bracket `[` of an absolute value.
    pub fn is_labs(&self) -> (r: bool)
        ensures
            r == (self.typ == TokenType::LABS),
    {
        self.typ == TokenType::LABS
    }

    /// Whether this is the right bracket `]` of an absolute value.
    pub fn is_rabs(&self) -> (r: bool)
        ensures
            r == (self.typ == TokenType::RABS),
    {
        self.typ == TokenType::RABS
    }

    /// Whether this points to a nesting level.
    pub fn is_pointer(&self) -> (r: bool)
        ensures
            r == (self.typ == TokenType::POINTER),
    {
        self.typ == TokenType::POINTER
    }

    /// Whether this is a sub-expression.
    pub fn is_sub_exp(&self) -> (r: bool)
        ensures
            r == (self.typ == TokenType::SUBEXP),
    {
        self.typ == TokenType::SUBEXP
    }

    /// Whether this is the power operator `^`.
    pub fn is_root(&self) -> (r: bool)
        ensures
            r == (self.typ == TokenType::POWER),
    {
        self.typ == TokenType::POWER
    }

    /// Whether this is the factorial mark `!`.
    pub fn is_factorial(&self) -> (r: bool)
        ensures
            r == (self.typ == TokenType::FACTORIAL),
    {
        self.typ == TokenType::FACTORIAL
    }

    /// Whether this is the assignment sign `=`.
    pub fn is_assign(&self) -> (r: bool)
        ensures
            r == (self.typ == TokenType::ASSIGN),
    {
        self.typ == TokenType::ASSIGN
    }

    /// Whether this names a variable.
    pub fn is_identifier(&self) -> (r: bool)
        ensures
            r == (self.typ == TokenType::IDENTIFIER),
    {
        self.typ == TokenType::IDENTIFIER
    }

    /// Whether this names one of the functions.
    pub fn is_function(&self) -> (r: bool)
        ensures
            r == is_function_type(self.typ),
    {
        match self.typ {
            TokenType::SQRT
            | TokenType::SIN
            | TokenType::COS
            | TokenType::TAN
            | TokenType::LOG
            | TokenType::LN
            | TokenType::EXP
            | TokenType::FLOOR
            | TokenType::CEIL
            | TokenType::ROUND => true,
            _ => false,
        }
    }

    /// Whether this is one of the six binary operators.
    pub fn is_operator(&self) -> (r: bool)
        ensures
            r == is_operator_type(self.typ),
    {
        match self.typ {
            TokenType::PLUS
            | TokenType::MINUS
            | TokenType::PRODUCT
            | TokenType::DIVIDE
            | TokenType::PERCENTAGE
            | TokenType::POWER => true,
            _ => false,
        }
    }
}

} // verus!
