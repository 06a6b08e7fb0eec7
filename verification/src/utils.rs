//! Character and text classification shared by the scanner and the tokens.

use crate::token::{Token, TokenType};
use regex::Regex;
use substring::Substring;
use vstd::prelude::*;

verus! {

/// Whether `c` has the Unicode `Alphabetic` property, as the standard
/// library decides it.
pub uninterp spec fn unicode_alphabetic(c: char) -> bool;

/// `char::is_alphabetic` of the standard library: its answer is a fixed
/// property of the character, named [`unicode_alphabetic`].
pub assume_specification[ char::is_alphabetic ](c: char) -> (r: bool)
    ensures
        r == unicode_alphabetic(c),
;

/// `String::push` of the standard library appends one character.
pub assume_specification[ String::push ](s: &mut String, c: char)
    ensures
        final(s)@ == old(s)@.push(c),
;

/// Blank characters: space, tab, line feed and carriage return. These
/// four are the white space of the language; no other character counts
/// as blank, whatever Unicode makes of it.
pub open spec fn is_space(c: char) -> bool {
    c == ' ' || c == '\t' || c == '\n' || c == '\r'
}

/// A letter: one of the ASCII letters, or a character beyond ASCII that
/// is alphabetic.
pub open spec fn is_letter(c: char) -> bool {
    if c <= '\u{7f}' {
        ('a' <= c && c <= 'z') || ('A' <= c && c <= 'Z')
    } else {
        unicode_alphabetic(c)
    }
}

/// The ASCII digits `0` to `9`.
pub open spec fn is_digit(c: char) -> bool {
    '0' <= c && c <= '9'
}

/// The decimal separators: `.` and `,`.
pub open spec fn is_point_char(c: char) -> bool {
    c == '.' || c == ','
}

/// The signs `+` and `-`.
pub open spec fn is_plus_or_minus_char(c: char) -> bool {
    c == '+' || c == '-'
}

/// `*` and `/` with their synonyms `•` and `:`.
pub open spec fn is_div_or_prod_char(c: char) -> bool {
    c == '*' || c == '•' || c == '/' || c == ':'
}

/// The signs of sum, difference, product and quotient.
pub open spec fn is_operation_char(c: char) -> bool {
    is_plus_or_minus_char(c) || is_div_or_prod_char(c)
}

/// Some character of `s` is an ASCII digit.
pub open spec fn has_digit(s: Seq<char>) -> bool {
    exists|i: int| 0 <= i < s.len() && is_digit(#[trigger] s[i])
}

/// `s` without its blank characters, which are the four of [`is_space`]
/// and no others: a no-break space or a form feed stays in the text.
pub open spec fn strip(s: Seq<char>) -> Seq<char>
    decreases s.len(),
{
    if s.len() == 0 {
        s
    } else if is_space(s.last()) {
        strip(s.drop_last())
    } else {
        strip(s.drop_last()).push(s.last())
    }
}

/// `s` without the blank characters at its end.
pub open spec fn trim_end(s: Seq<char>) -> Seq<char>
    decreases s.len(),
{
    if s.len() > 0 && is_space(s.last()) {
        trim_end(s.drop_last())
    } else {
        s
    }
}

/// The characters of `s` from index `from` up to, not including, index
/// `to`, both cut down to the length of `s`; empty when `to <= from`.
pub open spec fn char_range(s: Seq<char>, from: int, to: int) -> Seq<char> {
    if to <= from {
        Seq::empty()
    } else {
        let a = if from < s.len() { from } else { s.len() as int };
        let b = if to < s.len() { to } else { s.len() as int };
        s.subrange(a, b)
    }
}

/// Calls `Regex::is_match` of the `regex` crate with the pattern
/// `[[:digit:]]`: the answer is `true` exactly when some character of the
/// text is one of the ASCII digits `0` to `9`.
#[verifier::external_body]
pub(crate) fn matches_digit(s: &str) -> (r: bool)
    ensures
        r == has_digit(s@),
{
    Regex::new("[[:digit:]]").unwrap().is_match(s)
}

/// Calls `Substring::substring` of the `substring` crate: the slice of the
/// characters with indices `from..to`, counted in characters and cut down
/// to the text's length, empty when `to <= from`.
#[verifier::external_body]
pub(crate) fn slice_chars<'a>(s: &'a str, from: usize, to: usize) -> (r: &'a str)
    ensures
        r@ == char_range(s@, from as int, to as int),
{
    s.substring(from, to)
}

/// Whether `c` is a blank character.
pub fn char_is_space(c: char) -> (r: bool)
    ensures
        r == is_space(c),
{
    c == ' ' || c == '\t' || c == '\n' || c == '\r'
}

/// Whether `c` is a letter.
pub fn char_is_letter(c: char) -> (r: bool)
    ensures
        r == is_letter(c),
{
    if c <= '\u{7f}' {
        ('a' <= c && c <= 'z') || ('A' <= c && c <= 'Z')
    } else {
        c.is_alphabetic()
    }
}

/// Whether `c` is an ASCII digit.
pub fn char_is_digit(c: char) -> (r: bool)
    ensures
        r == is_digit(c),
{
    '0' <= c && c <= '9'
}

/// Whether `c` is a decimal separator.
pub fn char_is_point(c: char) -> (r: bool)
    ensures
        r == is_point_char(c),
{
    c == '.' || c == ','
}

/// Whether `c` is a plus or a minus sign.
pub fn char_is_plus_or_minus(c: char) -> (r: bool)
    ensures
        r == is_plus_or_minus_char(c),
{
    c == '+' || c == '-'
}

/// Whether `c` is a sign of sum, difference, product or quotient.
pub fn char_is_operation_sign(c: char) -> (r: bool)
    ensures
        r == is_operation_char(c),
{
    c == '+' || c == '-' || c == '*' || c == '•' || c == '/' || c == ':'
}

/// Whether two texts hold the same characters.
pub fn same_text(a: &str, b: &str) -> (r: bool)
    ensures
        r == (a@ == b@),
{
    let n: usize = a.unicode_len();
    if n != b.unicode_len() {
        return false;
    }
    let mut i: usize = 0;
    while i < n
        invariant
            n == a@.len(),
            n == b@.len(),
            i <= n,
            forall|k: int| 0 <= k < i ==> a@[k] == b@[k],
        decreases n - i,
    {
        if a.get_char(i) != b.get_char(i) {
            return false;
        }
        i += 1;
    }
    assert(a@ =~= b@);
    true
}

/// Copies `s` without its blank characters.
pub fn stripped(s: &str) -> (r: String)
    ensures
        r@ == strip(s@),
{
    let n: usize = s.unicode_len();
    let mut out = String::new();
    let mut i: usize = 0;
    while i < n
        invariant
            n == s@.len(),
            i <= n,
            out@ == strip(s@.subrange(0, i as int)),
        decreases n - i,
    {
        let c = s.get_char(i);
        assert(s@.subrange(0, i + 1).drop_last() =~= s@.subrange(0, i as int));
        if !char_is_space(c) {
            out.push(c);
        }
        i += 1;
    }
    assert(s@.subrange(0, n as int) =~= s@);
    out
}

/// The number of characters that are left of `s` once the blank characters
/// at its end are cut off.
pub fn trimmed_len(s: &str) -> (r: usize)
    ensures
        r <= s@.len(),
        trim_end(s@) == s@.subrange(0, r as int),
{
    let mut k: usize = s.unicode_len();
    assert(s@.subrange(0, k as int) =~= s@);
    while k > 0 && char_is_space(s.get_char(k - 1))
        invariant
            k <= s@.len(),
            trim_end(s@) == trim_end(s@.subrange(0, k as int)),
        decreases k,
    {
        assert(s@.subrange(0, k as int).drop_last() =~= s@.subrange(0, k - 1));
        k -= 1;
    }
    k
}

/// Whether the only character of `s` that is not blank is `c`.
pub fn is_sole_char(s: &str, c: char) -> (r: bool)
    ensures
        r == (strip(s@) == seq![c]),
{
    let t = stripped(s);
    let n: usize = t.as_str().unicode_len();
    if n == 1 {
        let d = t.as_str().get_char(0);
        assert(t@ =~= seq![d]);
        assert(seq![c][0] == c);
        d == c
    } else {
        assert(seq![c].len() == 1);
        false
    }
}

/// Checks on a piece of text or on a token.
pub trait ChUtils {
    /// What [`ChUtils::is_number`] answers.
    spec fn number_spec(&self) -> bool;

    /// What [`ChUtils::is_point`] answers.
    spec fn point_spec(&self) -> bool;

    /// What [`ChUtils::is_plus_or_minus`] answers.
    spec fn plus_or_minus_spec(&self) -> bool;

    /// What [`ChUtils::is_div_or_prod`] answers.
    spec fn div_or_prod_spec(&self) -> bool;

    /// What [`ChUtils::is_parentheses`] answers.
    spec fn parentheses_spec(&self) -> bool;

    /// Whether this holds a number.
    fn is_number(&self) -> (r: bool)
        ensures
            r == self.number_spec(),
    ;

    /// Whether this is a decimal separator.
    fn is_point(&self) -> (r: bool)
        ensures
            r == self.point_spec(),
    ;

    /// Whether this is a plus or a minus sign.
    fn is_plus_or_minus(&self) -> (r: bool)
        ensures
            r == self.plus_or_minus_spec(),
    ;

    /// Whether this is a division or a multiplication sign.
    fn is_div_or_prod(&self) -> (r: bool)
        ensures
            r == self.div_or_prod_spec(),
    ;

    /// Whether this is one of the four signs above.
    fn is_operation_sign(&self) -> (r: bool)
        ensures
            r == (self.plus_or_minus_spec() || self.div_or_prod_spec()),
    ;

    /// Whether this is a round bracket, opening or closing.
    fn is_parentheses(&self) -> (r: bool)
        ensures
            r == self.parentheses_spec(),
    ;
}

/// A text is a sign when the sign is its only character that is not
/// blank, see [`is_space`] for the characters that are.
impl ChUtils for String {
    /// A text holds a number when one of its characters is a digit.
    open spec fn number_spec(&self) -> bool {
        has_digit(self@)
    }

    open spec fn point_spec(&self) -> bool {
        strip(self@) == seq!['.'] || strip(self@) == seq![',']
    }

    open spec fn plus_or_minus_spec(&self) -> bool {
        strip(self@) == seq!['+'] || strip(self@) == seq!['-']
    }

    open spec fn div_or_prod_spec(&self) -> bool {
        strip(self@) == seq!['*'] || strip(self@) == seq!['•'] || strip(self@) == seq!['/']
            || strip(self@) == seq![':']
    }

    open spec fn parentheses_spec(&self) -> bool {
        strip(self@) == seq!['('] || strip(self@) == seq![')']
    }

    fn is_number(&self) -> (r: bool) {
        matches_digit(self.as_str())
    }

    fn is_point(&self) -> (r: bool) {
        is_sole_char(self.as_str(), '.') || is_sole_char(self.as_str(), ',')
    }

    fn is_plus_or_minus(&self) -> (r: bool) {
        is_sole_char(self.as_str(), '+') || is_sole_char(self.as_str(), '-')
    }

    fn is_div_or_prod(&self) -> (r: bool) {
        is_sole_char(self.as_str(), '*') || is_sole_char(self.as_str(), '•') || is_sole_char(
            self.as_str(),
            '/',
        ) || is_sole_char(self.as_str(), ':')
    }

    fn is_operation_sign(&self) -> (r: bool) {
        self.is_plus_or_minus() || self.is_div_or_prod()
    }

    fn is_parentheses(&self) -> (r: bool) {
        is_sole_char(self.as_str(), '(') || is_sole_char(self.as_str(), ')')
    }
}

impl ChUtils for Token {
    open spec fn number_spec(&self) -> bool {
        self.typ == TokenType::NUMBER
    }

    /// No token stands for a decimal separator.
    open spec fn point_spec(&self) -> bool {
        false
    }

    open spec fn plus_or_minus_spec(&self) -> bool {
        self.typ == TokenType::PLUS || self.typ == TokenType::MINUS
    }

    open spec fn div_or_prod_spec(&self) -> bool {
        self.typ == TokenType::PRODUCT || self.typ == TokenType::DIVIDE
    }

    open spec fn parentheses_spec(&self) -> bool {
        self.typ == TokenType::LPAREN || self.typ == TokenType::RPAREN
    }

    fn is_number(&self) -> (r: bool) {
        self.typ == TokenType::NUMBER
    }

    fn is_point(&self) -> (r: bool) {
        false
    }

    fn is_plus_or_minus(&self) -> (r: bool) {
        self.typ == TokenType::PLUS || self.typ == TokenType::MINUS
    }

    fn is_div_or_prod(&self) -> (r: bool) {
        self.typ == TokenType::PRODUCT || self.typ == TokenType::DIVIDE
    }

    fn is_operation_sign(&self) -> (r: bool) {
        self.is_plus_or_minus() || self.is_div_or_prod()
    }

    fn is_parentheses(&self) -> (r: bool) {
        self.typ == TokenType::LPAREN || self.typ == TokenType::RPAREN
    }
}

} // verus!
