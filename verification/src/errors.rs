//! Failures of scanning and evaluation, with the text that reports them.
//!
//! A failure that belongs to a place in the source is reported with the
//! source line and, beneath it, an explanation that starts under the place.

use crate::token::{Token, TokenType};
use crate::utils::{same_text, slice_chars, trim_end, trimmed_len};
use vstd::prelude::*;
use vstd::string::*;

verus! {

/// What went wrong.
#[derive(Clone, Copy, Debug, PartialEq, Eq, Structural)]
pub enum ErrorKind {
    /// There was no text to scan.
    EmptyInput,
    /// There were no tokens to evaluate.
    EmptyTokens,
    /// A bracket is not closed, closes nothing or closes a bracket of the
    /// other family.
    MismatchedParentheses,
    /// A character that stands for no token.
    IllegalToken,
    /// A number literal that is no number.
    CannotParseNumber,
    /// Operators and operands do not alternate.
    InvalidOrder,
    /// The tokens end where an operand or an operator is due.
    MissingTokens,
    /// The right side of a division is zero.
    DivisionByZero,
    /// A variable that has no value.
    UndefinedVariable,
    /// The operand of a factorial is negative, fractional or too large.
    FactorialDomain,
    /// The argument of a function is outside the function's domain.
    FunctionDomain,
    /// A failure with a message of the caller's own.
    Other,
}

/// A failure: its kind and the message that reports it. Two failures
/// are equal when their messages are.
#[derive(Debug)]
pub struct Error {
    kind: ErrorKind,
    msg: String,
}

/// The mathematical value of an [`Error`].
pub struct ErrorView {
    pub kind: ErrorKind,
    pub msg: Seq<char>,
}

impl View for Error {
    type V = ErrorView;

    closed spec fn view(&self) -> ErrorView {
        ErrorView { kind: self.kind, msg: self.msg@ }
    }
}

/// `n` spaces, none when `n` is not positive.
pub open spec fn spaces(n: int) -> Seq<char> {
    Seq::new(
        if n > 0 {
            n as nat
        } else {
            0
        },
        |i: int| ' ',
    )
}

/// The margin before the quoted source line.
pub open spec fn margin() -> Seq<char> {
    "     "@
}

/// The views of a list of lines.
pub open spec fn lines_of(v: Seq<&'static str>) -> Seq<Seq<char>> {
    Seq::new(v.len(), |i: int| v[i]@)
}

/// The lines of an explanation, each moved `pad` columns to the right of
/// the quoted line's start.
pub open spec fn explained(pad: int, lines: Seq<Seq<char>>) -> Seq<char>
    decreases lines.len(),
{
    if lines.len() == 0 {
        Seq::empty()
    } else {
        explained(pad, lines.drop_last()) + " "@ + margin() + spaces(pad) + lines.last() + "\n"@
    }
}

/// A report on place `point` of a source line: the title, the line in
/// quotes without the blank characters at its end, and the explanation
/// `point - 1` columns to the right.
pub open spec fn indexed_text(
    input: Seq<char>,
    point: int,
    title: Seq<char>,
    lines: Seq<Seq<char>>,
) -> Seq<char> {
    title + margin() + "\""@ + trim_end(input) + "\" \n"@ + explained(point - 1, lines)
}

/// `s` with `c` put in before the character at index `p`; an index outside
/// of `s` counts as its nearer end.
pub open spec fn inserted(s: Seq<char>, p: int, c: char) -> Seq<char> {
    let q = if p < 0 {
        0
    } else if p > s.len() {
        s.len() as int
    } else {
        p
    };
    s.insert(q, c)
}

/// The character at index `i` of `s`, `'0'` where there is none.
pub open spec fn char_or_zero(s: Seq<char>, i: int) -> char {
    if 0 <= i < s.len() {
        s[i]
    } else {
        '0'
    }
}

/// A source line with the mark `{X}` put in after index `point`, and a
/// space before the mark unless one stands on either side already.
pub open spec fn marked(input: Seq<char>, point: int) -> Seq<char> {
    let t = trim_end(input);
    let spaced = if char_or_zero(t, point) == ' ' || char_or_zero(t, point + 2) == ' ' {
        t
    } else {
        inserted(t, point + 1, ' ')
    };
    inserted(inserted(inserted(spaced, point + 2, '{'), point + 3, 'X'), point + 4, '}')
}

/// The failure for a source text without characters.
pub open spec fn empty_input_view() -> ErrorView {
    ErrorView { kind: ErrorKind::EmptyInput, msg: "error: cannot parse an empty input"@ }
}

/// The failure for a sub-expression without tokens.
pub open spec fn empty_tokens_view() -> ErrorView {
    ErrorView {
        kind: ErrorKind::EmptyTokens,
        msg: "error: cannot calculate result from an empty token list"@,
    }
}

/// The kind of the failure that a message reports, as far as the
/// message alone tells: the failures for an empty text, for no tokens
/// and for an invalid order have one fixed message each.
pub open spec fn kind_of_message(msg: Seq<char>) -> ErrorKind {
    if msg == empty_input_view().msg {
        ErrorKind::EmptyInput
    } else if msg == empty_tokens_view().msg {
        ErrorKind::EmptyTokens
    } else if msg == invalid_order_view().msg {
        ErrorKind::InvalidOrder
    } else {
        ErrorKind::Other
    }
}

/// The three fixed messages differ from one another.
pub proof fn lemma_fixed_messages_differ()
    ensures
        empty_input_view().msg != empty_tokens_view().msg,
        empty_input_view().msg != invalid_order_view().msg,
        empty_tokens_view().msg != invalid_order_view().msg,
        kind_of_message(empty_input_view().msg) == ErrorKind::EmptyInput,
        kind_of_message(empty_tokens_view().msg) == ErrorKind::EmptyTokens,
        kind_of_message(invalid_order_view().msg) == ErrorKind::InvalidOrder,
{
    reveal_strlit("error: cannot parse an empty input");
    reveal_strlit("error: cannot calculate result from an empty token list");
    reveal_strlit("error: invalid order of token characters\n");
    reveal_strlit("      A valid token/character order is:");
    reveal_strlit("      [Numerable], [Operation], [Numerable]");
    assert(empty_input_view().msg.len() == 34);
    assert(empty_tokens_view().msg.len() == 55);
    assert(invalid_order_view().msg.len() == 41 + 39 + 43);
}

/// The explanation of missing tokens.
pub open spec fn missing_lines() -> Seq<Seq<char>> {
    seq!["|"@, "| > Expected a token character."@, "| > hint: `42`, `+`, `-`, `/`, `*`, `%`, `^`."@]
}

/// The failure for tokens that end after source position `point`, where
/// an operand or an operator is due.
pub open spec fn missing_some_tokens_view(input: Seq<char>, point: int) -> ErrorView {
    ErrorView {
        kind: ErrorKind::MissingTokens,
        msg: indexed_text(
            marked(input, point),
            point + 4,
            "error: missing some tokens to calculate result\n\n"@,
            missing_lines(),
        ),
    }
}

/// The explanation of a literal that is no number.
pub open spec fn parse_lines() -> Seq<Seq<char>> {
    seq![
        "|"@,
        "| > Cannot convert the character (that represented"@,
        "| > as number) to the actual number representation."@,
    ]
}

/// The failure for a number literal that ends at source position `end`
/// and is no number.
pub open spec fn cannot_parse_to_number_view(
    input: Seq<char>,
    literal: Seq<char>,
    end: int,
) -> ErrorView {
    ErrorView {
        kind: ErrorKind::CannotParseNumber,
        msg: indexed_text(
            input,
            end + 1,
            "error: cannot parse token literal: `"@ + literal + "` to a number\n\n"@,
            parse_lines(),
        ),
    }
}

/// The failure for operators and operands that do not alternate.
pub open spec fn invalid_order_view() -> ErrorView {
    ErrorView {
        kind: ErrorKind::InvalidOrder,
        msg: "error: invalid order of token characters\n"@
            + "      A valid token/character order is:"@
            + "      [Numerable], [Operation], [Numerable]"@,
    }
}

/// The explanation of an illegal character.
pub open spec fn illegal_lines() -> Seq<Seq<char>> {
    seq![
        "|"@,
        "| > We do not know how to parse this character."@,
        "| > hint: `42`, `+`, `-`, `/`, `*`, `%`, `^`."@,
    ]
}

/// The failure for an illegal token that ends at source position `end`.
pub open spec fn illegal_token_view(input: Seq<char>, literal: Seq<char>, end: int) -> ErrorView {
    ErrorView {
        kind: ErrorKind::IllegalToken,
        msg: indexed_text(
            input,
            end + 1,
            "error: found an illegal character: `"@ + literal + "` \n\n"@,
            illegal_lines(),
        ),
    }
}

/// The explanation of a bracket at fault.
pub open spec fn mismatched_lines() -> Seq<Seq<char>> {
    seq![
        "|"@,
        "| > This bracket is not closed, closes nothing,"@,
        "| > or closes a bracket of the other kind."@,
    ]
}

/// The failure for a bracket at fault at place `point`.
pub open spec fn mismatched_parentheses_view(input: Seq<char>, point: int) -> ErrorView {
    ErrorView {
        kind: ErrorKind::MismatchedParentheses,
        msg: indexed_text(
            input,
            point,
            "error: mismatched parentheses or absolute-value brackets\n\n"@,
            mismatched_lines(),
        ),
    }
}

/// The explanation of a division by zero.
pub open spec fn division_lines() -> Seq<Seq<char>> {
    seq!["|"@, "| > The right side of this division is zero."@]
}

/// The failure for a division whose right side, which ends at source
/// position `point`, is zero.
pub open spec fn division_by_zero_view(input: Seq<char>, point: int) -> ErrorView {
    ErrorView {
        kind: ErrorKind::DivisionByZero,
        msg: indexed_text(input, point + 1, "error: division by zero\n\n"@, division_lines()),
    }
}

/// The failure for a variable without a value.
pub open spec fn undefined_variable_view(name: Seq<char>) -> ErrorView {
    ErrorView {
        kind: ErrorKind::UndefinedVariable,
        msg: "error: undefined variable '"@ + name + "'"@,
    }
}

/// The failure for the factorial of a negative number, printed as
/// `shown`.
pub open spec fn factorial_negative_view(shown: Seq<char>) -> ErrorView {
    ErrorView {
        kind: ErrorKind::FactorialDomain,
        msg: "error: factorial is not defined for negative numbers: "@ + shown,
    }
}

/// The failure for the factorial of a number that is not whole.
pub open spec fn factorial_fraction_view(shown: Seq<char>) -> ErrorView {
    ErrorView {
        kind: ErrorKind::FactorialDomain,
        msg: "error: factorial is only defined for integers: "@ + shown,
    }
}

/// The failure for the factorial of a number that is too large.
pub open spec fn factorial_too_large_view(shown: Seq<char>) -> ErrorView {
    ErrorView {
        kind: ErrorKind::FactorialDomain,
        msg: "error: factorial of "@ + shown + " is too large to compute"@,
    }
}

/// What is said of an argument outside the domain of `func`.
pub open spec fn domain_title(func: TokenType) -> Seq<char> {
    if func == TokenType::SQRT {
        "error: cannot take square root of negative number: "@
    } else if func == TokenType::LOG {
        "error: logarithm undefined for non-positive number: "@
    } else if func == TokenType::LN {
        "error: natural log undefined for non-positive number: "@
    } else {
        "error: argument outside the domain of the function: "@
    }
}

/// The failure for an argument, printed as `shown`, outside the domain
/// of `func`.
pub open spec fn function_domain_view(func: TokenType, shown: Seq<char>) -> ErrorView {
    ErrorView { kind: ErrorKind::FunctionDomain, msg: domain_title(func) + shown }
}

/// The characters of a text.
fn chars_of(s: &str) -> (r: Vec<char>)
    ensures
        r@ == s@,
{
    let n: usize = s.unicode_len();
    let mut out: Vec<char> = Vec::new();
    let mut i: usize = 0;
    while i < n
        invariant
            n == s@.len(),
            i <= n,
            out@ == s@.subrange(0, i as int),
        decreases n - i,
    {
        out.push(s.get_char(i));
        assert(out@ =~= s@.subrange(0, i + 1));
        i += 1;
    }
    assert(s@.subrange(0, n as int) =~= s@);
    out
}

/// Appends characters to a text.
fn push_chars(s: &mut String, v: &Vec<char>)
    ensures
        final(s)@ == old(s)@ + v@,
{
    let mut i: usize = 0;
    assert(s@ =~= old(s)@ + v@.subrange(0, 0));
    while i < v.len()
        invariant
            i <= v@.len(),
            s@ == old(s)@ + v@.subrange(0, i as int),
        decreases v@.len() - i,
    {
        s.push(v[i]);
        assert(s@ =~= old(s)@ + v@.subrange(0, i + 1));
        i += 1;
    }
    assert(v@.subrange(0, v@.len() as int) =~= v@);
}

/// Appends `n` spaces to a text.
fn push_spaces(s: &mut String, n: i64)
    ensures
        final(s)@ == old(s)@ + spaces(n as int),
{
    let mut i: i64 = 0;
    assert(s@ =~= old(s)@ + spaces(0));
    while i < n
        invariant
            0 <= i,
            i <= n || n < 0,
            n < 0 ==> i == 0,
            s@ == old(s)@ + spaces(i as int),
        decreases n - i,
    {
        s.push(' ');
        assert(s@ =~= old(s)@ + spaces(i + 1));
        i += 1;
    }
    assert(spaces(i as int) =~= spaces(n as int));
}

/// Puts `c` into `v` before index `p`, or at the nearer end.
fn insert_char(v: &mut Vec<char>, p: i64, c: char)
    ensures
        final(v)@ == inserted(old(v)@, p as int, c),
{
    let n: usize = v.len();
    if p < 0 {
        v.insert(0, c);
    } else if p as u64 > n as u64 {
        v.insert(n, c);
    } else {
        v.insert(p as usize, c);
    }
}

/// The character at index `i`, `'0'` where there is none.
fn char_at_or_zero(v: &Vec<char>, i: i64) -> (r: char)
    ensures
        r == char_or_zero(v@, i as int),
{
    if 0 <= i && (i as u64) < v.len() as u64 {
        v[i as usize]
    } else {
        '0'
    }
}

impl PartialEq for Error {
    fn eq(&self, other: &Error) -> (r: bool) {
        self.msg == other.msg
    }
}

impl vstd::std_specs::cmp::PartialEqSpecImpl for Error {
    open spec fn obeys_eq_spec() -> bool {
        true
    }

    /// Failures are equal when their messages are.
    open spec fn eq_spec(&self, other: &Error) -> bool {
        self@.msg == other@.msg
    }
}

impl Clone for Error {
    fn clone(&self) -> (r: Error)
        ensures
            r@ == self@,
    {
        Error { kind: self.kind, msg: self.msg.clone() }
    }
}

impl Error {
    /// A failure with the message `msg`. Its kind is that of the failure
    /// that the message reports, where the message is the whole of one of
    /// the fixed messages, see [`kind_of_message`]; a message of the
    /// caller's own makes a failure of the kind `Other`.
    pub fn new(msg: String) -> (r: Error)
        ensures
            r@ == (ErrorView { kind: kind_of_message(msg@), msg: msg@ }),
            msg@ == empty_input_view().msg ==> r@ == empty_input_view(),
            msg@ == empty_tokens_view().msg ==> r@ == empty_tokens_view(),
            msg@ == invalid_order_view().msg ==> r@ == invalid_order_view(),
    {
        proof {
            lemma_fixed_messages_differ();
        }
        let order = Error::invalid_order();
        let kind = if same_text(msg.as_str(), "error: cannot parse an empty input") {
            ErrorKind::EmptyInput
        } else if same_text(
            msg.as_str(),
            "error: cannot calculate result from an empty token list",
        ) {
            ErrorKind::EmptyTokens
        } else if same_text(msg.as_str(), order.msg.as_str()) {
            ErrorKind::InvalidOrder
        } else {
            ErrorKind::Other
        };
        Error { kind, msg }
    }

    /// A report on place `point` of a source line, see [`indexed_text`].
    fn indexed_error(
        kind: ErrorKind,
        input: &str,
        point: i64,
        title: String,
        lines: Vec<&'static str>,
    ) -> (r: Error)
        requires
            -0x1_0000_0000 <= point <= 0x1_0000_0000,
        ensures
            r@ == (ErrorView {
                kind,
                msg: indexed_text(input@, point as int, title@, lines_of(lines@)),
            }),
    {
        let mut msg = title;
        msg.append("     ");
        msg.append("\"");
        let kept: usize = trimmed_len(input);
        msg.append(slice_chars(input, 0, kept));
        msg.append("\" \n");
        assert(msg@ =~= title@ + margin() + "\""@ + trim_end(input@) + "\" \n"@) by {
            assert(input@.subrange(0, 0) =~= Seq::<char>::empty());
        }
        let ghost head = msg@;
        let ghost all = lines_of(lines@);
        let mut i: usize = 0;
        assert(explained(point - 1, all.subrange(0, 0)) =~= Seq::<char>::empty());
        assert(msg@ =~= head + explained(point - 1, all.subrange(0, 0)));
        while i < lines.len()
            invariant
                i <= lines@.len(),
                all == lines_of(lines@),
                -0x1_0000_0000 <= point <= 0x1_0000_0000,
                msg@ == head + explained(point - 1, all.subrange(0, i as int)),
            decreases lines@.len() - i,
        {
            msg.append(" ");
            msg.append("     ");
            push_spaces(&mut msg, point - 1);
            msg.append(lines[i]);
            msg.append("\n");
            proof {
                let now = all.subrange(0, i + 1);
                assert(now.drop_last() =~= all.subrange(0, i as int));
                assert(now.last() == lines@[i as int]@);
                assert(msg@ =~= head + explained(point - 1, now));
            }
            i += 1;
        }
        assert(all.subrange(0, lines@.len() as int) =~= all);
        Error { kind, msg }
    }

    /// There was no text to scan.
    pub fn empty_input() -> (r: Error)
        ensures
            r@ == empty_input_view(),
    {
        Error {
            kind: ErrorKind::EmptyInput,
            msg: String::from_str("error: cannot parse an empty input"),
        }
    }

    /// There were no tokens to evaluate.
    pub fn empty_tokens() -> (r: Error)
        ensures
            r@ == empty_tokens_view(),
    {
        Error {
            kind: ErrorKind::EmptyTokens,
            msg: String::from_str("error: cannot calculate result from an empty token list"),
        }
    }

    /// The tokens end after source position `point`, where an operand or an
    /// operator is due; the report marks the place with `{X}`.
    pub fn missing_some_tokens(input: String, point: i32) -> (r: Error)
        ensures
            r@ == missing_some_tokens_view(input@, point as int),
    {
        let s = input.as_str();
        let kept: usize = trimmed_len(s);
        let mut text: Vec<char> = chars_of(slice_chars(s, 0, kept));
        assert(text@ =~= trim_end(input@)) by {
            assert(input@.subrange(0, 0) =~= Seq::<char>::empty());
        }
        let p: i64 = point as i64;
        if !(char_at_or_zero(&text, p) == ' ' || char_at_or_zero(&text, p + 2) == ' ') {
            insert_char(&mut text, p + 1, ' ');
        }
        insert_char(&mut text, p + 2, '{');
        insert_char(&mut text, p + 3, 'X');
        insert_char(&mut text, p + 4, '}');
        let mut shown = String::new();
        push_chars(&mut shown, &text);
        assert(shown@ =~= marked(input@, point as int));
        let mut lines: Vec<&'static str> = Vec::new();
        lines.push("|");
        lines.push("| > Expected a token character.");
        lines.push("| > hint: `42`, `+`, `-`, `/`, `*`, `%`, `^`.");
        assert(lines_of(lines@) =~= missing_lines());
        Error::indexed_error(
            ErrorKind::MissingTokens,
            shown.as_str(),
            p + 4,
            String::from_str("error: missing some tokens to calculate result\n\n"),
            lines,
        )
    }

    /// The literal of `token` is no number.
    pub fn cannot_parse_to_number(input: String, token: Token) -> (r: Error)
        ensures
            r@ == cannot_parse_to_number_view(input@, token.literal@, token.index.1 as int),
    {
        let mut title = String::from_str("error: cannot parse token literal: `");
        title.append(token.literal.as_str());
        title.append("` to a number\n\n");
        let mut lines: Vec<&'static str> = Vec::new();
        lines.push("|");
        lines.push("| > Cannot convert the character (that represented");
        lines.push("| > as number) to the actual number representation.");
        assert(lines_of(lines@) =~= parse_lines());
        Error::indexed_error(
            ErrorKind::CannotParseNumber,
            input.as_str(),
            token.index.1 as i64 + 1,
            title,
            lines,
        )
    }

    /// Operators and operands do not alternate.
    pub fn invalid_order() -> (r: Error)
        ensures
            r@ == invalid_order_view(),
    {
        let mut msg = String::from_str("error: invalid order of token characters\n");
        msg.append("      A valid token/character order is:");
        msg.append("      [Numerable], [Operation], [Numerable]");
        Error { kind: ErrorKind::InvalidOrder, msg }
    }

    /// `token` stands for no token of the language.
    pub fn illeagal_token(input: String, token: Token) -> (r: Error)
        ensures
            r@ == illegal_token_view(input@, token.literal@, token.index.1 as int),
    {
        let mut title = String::from_str("error: found an illegal character: `");
        title.append(token.literal.as_str());
        title.append("` \n\n");
        let mut lines: Vec<&'static str> = Vec::new();
        lines.push("|");
        lines.push("| > We do not know how to parse this character.");
        lines.push("| > hint: `42`, `+`, `-`, `/`, `*`, `%`, `^`.");
        assert(lines_of(lines@) =~= illegal_lines());
        Error::indexed_error(
            ErrorKind::IllegalToken,
            input.as_str(),
            token.index.1 as i64 + 1,
            title,
            lines,
        )
    }

    /// The bracket at place `point` is not closed, closes nothing or closes
    /// a bracket of the other family.
    pub fn mismatched_parentheses(input: String, point: i32) -> (r: Error)
        ensures
            r@ == mismatched_parentheses_view(input@, point as int),
    {
        let mut lines: Vec<&'static str> = Vec::new();
        lines.push("|");
        lines.push("| > This bracket is not closed, closes nothing,");
        lines.push("| > or closes a bracket of the other kind.");
        assert(lines_of(lines@) =~= mismatched_lines());
        Error::indexed_error(
            ErrorKind::MismatchedParentheses,
            input.as_str(),
            point as i64,
            String::from_str("error: mismatched parentheses or absolute-value brackets\n\n"),
            lines,
        )
    }

    /// The right side of a division, which ends at source position
    /// `point`, is zero.
    pub fn division_by_zero(input: String, point: i32) -> (r: Error)
        ensures
            r@ == division_by_zero_view(input@, point as int),
    {
        let mut lines: Vec<&'static str> = Vec::new();
        lines.push("|");
        lines.push("| > The right side of this division is zero.");
        assert(lines_of(lines@) =~= division_lines());
        Error::indexed_error(
            ErrorKind::DivisionByZero,
            input.as_str(),
            point as i64 + 1,
            String::from_str("error: division by zero\n\n"),
            lines,
        )
    }

    /// The variable `name` has no value.
    pub fn undefined_variable(name: &str) -> (r: Error)
        ensures
            r@ == undefined_variable_view(name@),
    {
        let mut msg = String::from_str("error: undefined variable '");
        msg.append(name);
        msg.append("'");
        Error { kind: ErrorKind::UndefinedVariable, msg }
    }

    /// The operand of a factorial is negative; `shown` is the operand as
    /// it is to be printed.
    pub fn factorial_negative(shown: &str) -> (r: Error)
        ensures
            r@ == factorial_negative_view(shown@),
    {
        let mut msg = String::from_str("error: factorial is not defined for negative numbers: ");
        msg.append(shown);
        Error { kind: ErrorKind::FactorialDomain, msg }
    }

    /// The operand of a factorial is no whole number.
    pub fn factorial_fraction(shown: &str) -> (r: Error)
        ensures
            r@ == factorial_fraction_view(shown@),
    {
        let mut msg = String::from_str("error: factorial is only defined for integers: ");
        msg.append(shown);
        Error { kind: ErrorKind::FactorialDomain, msg }
    }

    /// The operand of a factorial is above the largest whose factorial
    /// can be computed.
    pub fn factorial_too_large(shown: &str) -> (r: Error)
        ensures
            r@ == factorial_too_large_view(shown@),
    {
        let mut msg = String::from_str("error: factorial of ");
        msg.append(shown);
        msg.append(" is too large to compute");
        Error { kind: ErrorKind::FactorialDomain, msg }
    }

    /// The argument of the function `func` is outside its domain.
    pub fn function_domain(func: TokenType, shown: &str) -> (r: Error)
        ensures
            r@ == function_domain_view(func, shown@),
    {
        let mut msg = if func == TokenType::SQRT {
            String::from_str("error: cannot take square root of negative number: ")
        } else if func == TokenType::LOG {
            String::from_str("error: logarithm undefined for non-positive number: ")
        } else if func == TokenType::LN {
            String::from_str("error: natural log undefined for non-positive number: ")
        } else {
            String::from_str("error: argument outside the domain of the function: ")
        };
        msg.append(shown);
        Error { kind: ErrorKind::FunctionDomain, msg }
    }

    /// What went wrong.
    pub fn kind(&self) -> (r: ErrorKind)
        ensures
            r == self@.kind,
    {
        self.kind
    }

    /// The message that reports the failure.
    pub fn to_string(&self) -> (r: String)
        ensures
            r@ == self@.msg,
    {
        self.msg.clone()
    }
}

} // verus!
