//! The scanner: from source text to a flat list of tokens, and the whole
//! way from text to a tree that is ready for evaluation.

use crate::combine::combined;
use crate::errors::{empty_input_view, Error, ErrorView};
use crate::nesting::{lemma_levels_resolve, no_pointers, resolved};
use crate::token::{
    atom, classify, lemma_classify_no_pointer, lemma_views_push, views, Sub, SubView, Token,
    TokenType, TokenView,
};
use crate::utils::{
    char_is_digit, char_is_letter, char_is_operation_sign, char_is_plus_or_minus, char_is_point,
    char_is_space, is_digit, is_letter, is_operation_char, is_plus_or_minus_char, is_point_char,
    is_space, slice_chars, strip,
};
use vstd::prelude::*;
use vstd::string::*;

verus! {

/// A cursor over the characters of a source text.
#[derive(Debug, PartialEq)]
pub struct Lexer<'a> {
    input: &'a str,
    length: usize,
    position: usize,
}

/// A source position as a token records it: positions above the largest
/// `i32` are recorded as the largest `i32`.
pub open spec fn clamped(i: int) -> i32 {
    if i > i32::MAX {
        i32::MAX
    } else if i < i32::MIN {
        i32::MIN
    } else {
        i as i32
    }
}

/// The first index from `i` on that holds no blank character, the length
/// of `s` if there is none.
pub open spec fn skip_blank(s: Seq<char>, i: int) -> int
    decreases s.len() - i,
{
    if 0 <= i < s.len() && is_space(s[i]) {
        skip_blank(s, i + 1)
    } else {
        i
    }
}

/// Whether no operand ends before index `p`: the nearest character before
/// `p` that is not a space, if there is one, is no digit, no letter, no
/// closing bracket and no factorial mark.
pub open spec fn free_from_number(s: Seq<char>, p: int) -> bool
    decreases p,
{
    if p <= 0 || p > s.len() {
        true
    } else if s[p - 1] == ' ' {
        free_from_number(s, p - 1)
    } else {
        !(s[p - 1] == ')' || s[p - 1] == ']' || s[p - 1] == '!' || is_digit(s[p - 1])
            || is_letter(s[p - 1]))
    }
}

/// Whether a number follows index `p`: the nearest character after `p`
/// that is not a space is a digit.
pub open spec fn next_is_number(s: Seq<char>, p: int) -> bool
    decreases s.len() - p,
{
    if p < 0 || p + 1 >= s.len() {
        false
    } else if s[p + 1] == ' ' {
        next_is_number(s, p + 1)
    } else {
        is_digit(s[p + 1])
    }
}

/// The index at which the run of a number that has reached index `q` ends.
/// The run takes digits and spaces, and one decimal separator; `pointed`
/// tells whether it has taken one.
pub open spec fn number_end(s: Seq<char>, q: int, pointed: bool) -> int
    decreases s.len() - q,
{
    if q < 0 || q >= s.len() {
        q
    } else if is_digit(s[q]) || s[q] == ' ' {
        number_end(s, q + 1, pointed)
    } else if is_point_char(s[q]) && !pointed {
        number_end(s, q + 1, true)
    } else {
        q
    }
}

/// The index at which the run of letters from `q` ends.
pub open spec fn word_end(s: Seq<char>, q: int) -> int
    decreases s.len() - q,
{
    if 0 <= q < s.len() && is_letter(s[q]) {
        word_end(s, q + 1)
    } else {
        q
    }
}

/// Whether the sign at index `p` belongs to the number after it.
pub open spec fn is_sign_of_number(s: Seq<char>, p: int) -> bool {
    is_plus_or_minus_char(s[p]) && free_from_number(s, p) && next_is_number(s, p)
}

/// Whether a number literal starts at index `p`.
pub open spec fn starts_number(s: Seq<char>, p: int) -> bool {
    is_sign_of_number(s, p) || (!is_operation_char(s[p]) && (is_digit(s[p]) || is_point_char(
        s[p],
    )))
}

/// Whether an identifier starts at index `p`.
pub open spec fn starts_word(s: Seq<char>, p: int) -> bool {
    !is_operation_char(s[p]) && !starts_number(s, p) && is_letter(s[p])
}

/// The index just after the token that starts at index `p`, where `p` is
/// inside of `s` and holds no blank character.
pub open spec fn token_end(s: Seq<char>, p: int) -> int {
    if is_sign_of_number(s, p) {
        number_end(s, p + 1, false)
    } else if starts_number(s, p) {
        number_end(s, p, false)
    } else if starts_word(s, p) {
        word_end(s, p)
    } else {
        p + 1
    }
}

/// The source position at which the token that starts at index `p` is
/// recorded to end: its last character, or the one before where a number
/// literal ends in a space.
pub open spec fn token_last(s: Seq<char>, p: int) -> int {
    let q = token_end(s, p);
    if starts_number(s, p) && s[q - 1] == ' ' {
        q - 2
    } else {
        q - 1
    }
}

/// The token that starts at index `p`.
pub open spec fn token_at(s: Seq<char>, p: int) -> TokenView {
    let literal = s.subrange(p, token_end(s, p));
    atom(classify(literal), strip(literal), (clamped(p), clamped(token_last(s, p))))
}

/// The tokens of `s` from index `i` on.
pub open spec fn scan_from(s: Seq<char>, i: int) -> Seq<TokenView>
    decreases s.len() - i,
{
    let p = skip_blank(s, i);
    if i < 0 || p >= s.len() {
        Seq::empty()
    } else {
        proof {
            lemma_skip_blank(s, i);
            lemma_token_end(s, p);
        }
        seq![token_at(s, p)] + scan_from(s, token_end(s, p))
    }
}

/// The tokens of a source text.
pub open spec fn scanned(s: Seq<char>) -> Seq<TokenView> {
    scan_from(s, 0)
}

/// What the source text `s` is lexed to: its tokens, with the bracketed
/// groups resolved and the tokens regrouped by precedence.
pub open spec fn lexed(s: Seq<char>) -> Result<SubView, ErrorView> {
    if s.len() == 0 {
        Err(empty_input_view())
    } else {
        match resolved(scanned(s), s) {
            Err(e) => Err(e),
            Ok(tokens) => Ok(combined(tokens)),
        }
    }
}

/// The scanner makes no pointer tokens.
pub proof fn lemma_scan_no_pointers(s: Seq<char>, i: int)
    ensures
        no_pointers(scan_from(s, i)),
    decreases s.len() - i,
{
    let p = skip_blank(s, i);
    if !(i < 0 || p >= s.len()) {
        lemma_skip_blank(s, i);
        lemma_token_end(s, p);
        lemma_scan_no_pointers(s, token_end(s, p));
        let rest = scan_from(s, token_end(s, p));
        let all = scan_from(s, i);
        lemma_classify_no_pointer(s.subrange(p, token_end(s, p)));
        assert forall|k: int| 0 <= k < all.len() implies (#[trigger] all[k]).typ
            != TokenType::POINTER by {
            if k > 0 {
                assert(all[k] == rest[k - 1]);
            }
        }
    }
}

/// Blank characters are skipped forwards, inside the text, up to the
/// first character that is not blank.
pub proof fn lemma_skip_blank(s: Seq<char>, i: int)
    requires
        0 <= i,
    ensures
        i <= skip_blank(s, i),
        i <= s.len() ==> skip_blank(s, i) <= s.len(),
        skip_blank(s, i) < s.len() ==> !is_space(s[skip_blank(s, i)]),
        forall|k: int| i <= k < skip_blank(s, i) ==> is_space(#[trigger] s[k]),
    decreases s.len() - i,
{
    if i < s.len() && is_space(s[i]) {
        lemma_skip_blank(s, i + 1);
    }
}

/// A number's run ends inside the text, at or after its start.
pub proof fn lemma_number_end(s: Seq<char>, q: int, pointed: bool)
    requires
        0 <= q <= s.len(),
    ensures
        q <= number_end(s, q, pointed) <= s.len(),
    decreases s.len() - q,
{
    if q < s.len() {
        if is_digit(s[q]) || s[q] == ' ' {
            lemma_number_end(s, q + 1, pointed);
        } else if is_point_char(s[q]) && !pointed {
            lemma_number_end(s, q + 1, true);
        }
    }
}

/// A word's run ends inside the text, at or after its start.
pub proof fn lemma_word_end(s: Seq<char>, q: int)
    requires
        0 <= q <= s.len(),
    ensures
        q <= word_end(s, q) <= s.len(),
    decreases s.len() - q,
{
    if q < s.len() && is_letter(s[q]) {
        lemma_word_end(s, q + 1);
    }
}

/// Every token holds at least one character and ends inside the text.
pub proof fn lemma_token_end(s: Seq<char>, p: int)
    requires
        0 <= p < s.len(),
    ensures
        p < token_end(s, p) <= s.len(),
{
    if is_sign_of_number(s, p) {
        lemma_number_end(s, p + 1, false);
    } else if starts_number(s, p) {
        lemma_number_end(s, p + 1, is_point_char(s[p]));
    } else if starts_word(s, p) {
        lemma_word_end(s, p + 1);
    }
}

/// The source position that is recorded for index `i`, see [`clamped`].
fn clamp_index(i: usize) -> (r: i32)
    ensures
        r == clamped(i as int),
{
    if i > 0x7fff_ffff {
        0x7fff_ffff
    } else {
        i as i32
    }
}

impl<'a> Lexer<'a> {
    /// The text that the cursor runs over.
    pub closed spec fn text(&self) -> Seq<char> {
        self.input@
    }

    /// The index of the character under the cursor; the length of the
    /// text once the cursor has left it.
    pub closed spec fn place(&self) -> int {
        self.position as int
    }

    /// The cursor is in or just after its text, which is not empty.
    pub closed spec fn wf(&self) -> bool {
        &&& self.length == self.input@.len()
        &&& self.length > 0
        &&& self.position <= self.length
    }

    /// A cursor at the start of `input`, which must not be empty.
    pub fn new(input: &'a str) -> (r: Result<Lexer<'a>, Error>)
        ensures
            input@.len() == 0 ==> r.is_err() && r.unwrap_err()@ == empty_input_view(),
            input@.len() > 0 ==> r.is_ok() && r.unwrap().wf() && r.unwrap().text() == input@
                && r.unwrap().place() == 0,
    {
        let length: usize = input.unicode_len();
        if length == 0 {
            return Err(Error::empty_input());
        }
        Ok(Lexer { input, length, position: 0 })
    }

    /// The index of the character under the cursor.
    pub fn position(&self) -> (r: usize)
        ensures
            r == self.place(),
    {
        self.position
    }

    /// The index of the character after the one under the cursor.
    pub fn read_position(&self) -> (r: usize)
        ensures
            r == if self.place() < usize::MAX {
                self.place() + 1
            } else {
                self.place()
            },
    {
        if self.position < usize::MAX {
            self.position + 1
        } else {
            self.position
        }
    }

    /// The character under the cursor; the last character of the text once
    /// the cursor has left it.
    pub fn examination_char(&self) -> (r: char)
        requires
            self.wf(),
        ensures
            r == if self.place() < self.text().len() {
                self.text()[self.place()]
            } else {
                self.text().last()
            },
    {
        if self.position < self.length {
            self.input.get_char(self.position)
        } else {
            self.input.get_char(self.length - 1)
        }
    }

    /// The tokens of a source text, see [`scanned`].
    pub fn scan(input: &'a str) -> (r: Result<Vec<Token>, Error>)
        ensures
            input@.len() == 0 ==> r.is_err() && r.unwrap_err()@ == empty_input_view(),
            input@.len() > 0 ==> r.is_ok() && views(r.unwrap()@) == scanned(input@),
    {
        let mut lexer = match Lexer::new(input) {
            Ok(l) => l,
            Err(e) => {
                return Err(e);
            },
        };
        let mut tokens: Vec<Token> = Vec::new();
        assert(views(tokens@) =~= Seq::<TokenView>::empty());
        loop
            invariant
                lexer.wf(),
                lexer.text() == input@,
                views(tokens@) + scan_from(input@, lexer.place()) == scanned(input@),
            ensures
                views(tokens@) == scanned(input@),
            decreases input@.len() - lexer.place(),
        {
            let ghost before = lexer.place();
            let ghost seen = views(tokens@);
            match lexer.generate_token() {
                None => {
                    assert(seen + Seq::<TokenView>::empty() =~= seen);
                    break ;
                },
                Some(t) => {
                    proof {
                        let p = skip_blank(input@, before);
                        lemma_skip_blank(input@, before);
                        lemma_token_end(input@, p);
                        lemma_views_push(tokens@, t);
                        assert(seen.push(t@) + scan_from(input@, token_end(input@, p)) =~= seen
                            + scan_from(input@, before));
                    }
                    tokens.push(t);
                },
            }
        }
        Ok(tokens)
    }

    /// Lexes a source text: scans it, splits its tokens by nesting level,
    /// puts the levels together as sub-expressions and regroups the tokens
    /// by precedence, see [`lexed`].
    pub fn lex(input: &'a str) -> (r: Result<Sub, Error>)
        ensures
            match r {
                Ok(sub) => lexed(input@) == Ok::<SubView, ErrorView>(sub@),
                Err(e) => lexed(input@) == Err::<SubView, ErrorView>(e@),
            },
    {
        let tokens = match Lexer::scan(input) {
            Ok(t) => t,
            Err(e) => {
                return Err(e);
            },
        };
        proof {
            lemma_scan_no_pointers(input@, 0);
            lemma_levels_resolve(views(tokens@), input@);
        }
        let levels = match Lexer::nest_parentheses(&tokens, input) {
            Ok(l) => l,
            Err(e) => {
                return Err(e);
            },
        };
        match Lexer::break_nesting(0, &levels, input) {
            Err(e) => Err(e),
            Ok(flat) => Ok(Lexer::combine_tokens(flat)),
        }
    }

    /// Reads the next token and moves the cursor behind it; `None` when
    /// only blank characters are left.
    pub fn generate_token(&mut self) -> (r: Option<Token>)
        requires
            old(self).wf(),
        ensures
            final(self).wf(),
            final(self).text() == old(self).text(),
            ({
                let s = old(self).text();
                let p = skip_blank(s, old(self).place());
                if p >= s.len() {
                    r.is_none() && final(self).place() == s.len()
                } else {
                    r.is_some() && r.unwrap()@ == token_at(s, p) && final(self).place()
                        == token_end(s, p)
                }
            }),
    {
        self.skip_whitespace();
        if self.position >= self.length {
            return None;
        }
        let c = self.input.get_char(self.position);
        let start: usize = self.position;
        if char_is_operation_sign(c) {
            if char_is_plus_or_minus(c) && self.is_free_from_number(1) && self.next_is_number(1) {
                let (literal, index) = self.read_number();
                return Some(Token::from(literal, index));
            }
            self.read_char();
            let literal = String::from_str(slice_chars(self.input, start, start + 1));
            return Some(Token::from(literal, (clamp_index(start), clamp_index(start))));
        }
        if char_is_digit(c) || char_is_point(c) {
            let (literal, index) = self.read_number();
            return Some(Token::from(literal, index));
        }
        if char_is_letter(c) {
            let (literal, index) = self.read_identifier();
            return Some(Token::from(literal, index));
        }
        self.read_char();
        let literal = String::from_str(slice_chars(self.input, start, start + 1));
        Some(Token::from(literal, (clamp_index(start), clamp_index(start))))
    }

    /// Moves the cursor one character on; gives the character that it has
    /// reached, `None` when it has left the text.
    pub fn read_char(&mut self) -> (r: Option<char>)
        requires
            old(self).wf(),
        ensures
            final(self).wf(),
            final(self).text() == old(self).text(),
            final(self).place() == if old(self).place() < old(self).text().len() {
                old(self).place() + 1
            } else {
                old(self).place()
            },
            r == if final(self).place() < final(self).text().len() {
                Some(final(self).text()[final(self).place()])
            } else {
                None
            },
    {
        if self.position < self.length {
            self.position = self.position + 1;
        }
        if self.position < self.length {
            Some(self.input.get_char(self.position))
        } else {
            None
        }
    }

    /// Reads the number literal that starts under the cursor, with its
    /// sign if it starts with one: the literal as it stands in the text,
    /// and the positions of its first and last character.
    pub fn read_number(&mut self) -> (r: (String, (i32, i32)))
        requires
            old(self).wf(),
            old(self).place() < old(self).text().len(),
            starts_number(old(self).text(), old(self).place()),
        ensures
            final(self).wf(),
            final(self).text() == old(self).text(),
            final(self).place() == token_end(old(self).text(), old(self).place()),
            r.0@ == old(self).text().subrange(old(self).place(), final(self).place()),
            r.1 == (
                clamped(old(self).place()),
                clamped(token_last(old(self).text(), old(self).place())),
            ),
    {
        let start: usize = self.position;
        let ghost s = self.input@;
        let first = self.input.get_char(start);
        let mut pointed: bool = false;
        if char_is_plus_or_minus(first) {
            self.position = self.position + 1;
        }
        proof {
            lemma_token_end(s, start as int);
        }
        while self.position < self.length
            invariant
                self.wf(),
                self.input@ == s,
                start <= self.position <= self.length,
                number_end(s, self.position as int, pointed) == token_end(s, start as int),
            ensures
                self.wf(),
                self.input@ == s,
                self.position == token_end(s, start as int),
            decreases self.length - self.position,
        {
            let c = self.input.get_char(self.position);
            if char_is_digit(c) || c == ' ' {
                self.position = self.position + 1;
            } else if char_is_point(c) && !pointed {
                pointed = true;
                self.position = self.position + 1;
            } else {
                break ;
            }
        }
        let end: usize = self.position;
        assert(s[start as int] != ' ');
        let literal = String::from_str(slice_chars(self.input, start, end));
        let last: usize = if self.input.get_char(end - 1) == ' ' {
            end - 2
        } else {
            end - 1
        };
        (literal, (clamp_index(start), clamp_index(last)))
    }

    /// Reads the identifier that starts under the cursor: its letters, and
    /// the positions of the first and the last of them.
    pub fn read_identifier(&mut self) -> (r: (String, (i32, i32)))
        requires
            old(self).wf(),
            old(self).place() < old(self).text().len(),
            starts_word(old(self).text(), old(self).place()),
        ensures
            final(self).wf(),
            final(self).text() == old(self).text(),
            final(self).place() == token_end(old(self).text(), old(self).place()),
            r.0@ == old(self).text().subrange(old(self).place(), final(self).place()),
            r.1 == (
                clamped(old(self).place()),
                clamped(token_last(old(self).text(), old(self).place())),
            ),
    {
        let start: usize = self.position;
        let ghost s = self.input@;
        proof {
            lemma_token_end(s, start as int);
        }
        while self.position < self.length && char_is_letter(self.input.get_char(self.position))
            invariant
                self.wf(),
                self.input@ == s,
                start <= self.position <= self.length,
                word_end(s, self.position as int) == token_end(s, start as int),
            decreases self.length - self.position,
        {
            self.position = self.position + 1;
        }
        let end: usize = self.position;
        let literal = String::from_str(slice_chars(self.input, start, end));
        (literal, (clamp_index(start), clamp_index(end - 1)))
    }

    /// Moves the cursor over blank characters.
    pub fn skip_whitespace(&mut self)
        requires
            old(self).wf(),
        ensures
            final(self).wf(),
            final(self).text() == old(self).text(),
            final(self).place() == skip_blank(old(self).text(), old(self).place()),
    {
        while self.position < self.length && char_is_space(self.input.get_char(self.position))
            invariant
                self.wf(),
                self.input == old(self).input,
                skip_blank(self.input@, self.position as int) == skip_blank(
                    old(self).input@,
                    old(self).position as int,
                ),
            decreases self.length - self.position,
        {
            self.position = self.position + 1;
        }
    }

    /// The character `step` places after the cursor, if the text has one.
    pub fn peek_char(&self, step: usize) -> (r: Option<char>)
        requires
            self.wf(),
        ensures
            r == if self.place() + step < self.text().len() {
                Some(self.text()[self.place() + step])
            } else {
                None
            },
    {
        if step < self.length && self.position < self.length - step {
            Some(self.input.get_char(self.position + step))
        } else {
            None
        }
    }

    /// The character `step` places before the cursor, if the text has one.
    pub fn peek_char_back(&self, step: usize) -> (r: Option<char>)
        requires
            self.wf(),
        ensures
            r == if self.place() - step >= 0 && self.place() - step < self.text().len() {
                Some(self.text()[self.place() - step])
            } else {
                None
            },
    {
        if step <= self.position && self.position - step < self.length {
            Some(self.input.get_char(self.position - step))
        } else {
            None
        }
    }

    /// Whether no operand ends before the place `step - 1` places before
    /// the cursor, see [`free_from_number`].
    pub fn is_free_from_number(&self, step: usize) -> (r: bool)
        requires
            self.wf(),
            step >= 1,
        ensures
            r == free_from_number(self.text(), self.place() - step + 1),
    {
        let mut k: usize = step;
        loop
            invariant
                self.wf(),
                k >= 1,
                free_from_number(self.input@, self.position - k + 1) == free_from_number(
                    self.input@,
                    self.position - step + 1,
                ),
            decreases self.position + 1 - k,
        {
            match self.peek_char_back(k) {
                None => {
                    return true;
                },
                Some(v) => {
                    if v != ' ' {
                        return !(v == ')' || v == ']' || v == '!' || char_is_digit(v)
                            || char_is_letter(v));
                    }
                    if k >= self.position {
                        assert(free_from_number(self.input@, self.position - k));
                        assert(free_from_number(self.input@, self.position - k + 1));
                        return true;
                    }
                    k = k + 1;
                },
            }
        }
    }

    /// Whether a number follows the place `step - 1` places after the
    /// cursor, see [`next_is_number`].
    pub fn next_is_number(&self, step: usize) -> (r: bool)
        requires
            self.wf(),
            step >= 1,
        ensures
            r == next_is_number(self.text(), self.place() + step - 1),
    {
        let mut k: usize = step;
        loop
            invariant
                self.wf(),
                k >= 1,
                next_is_number(self.input@, self.position + k - 1) == next_is_number(
                    self.input@,
                    self.position + step - 1,
                ),
            decreases self.length - k,
        {
            match self.peek_char(k) {
                None => {
                    return false;
                },
                Some(v) => {
                    if v != ' ' {
                        return char_is_digit(v);
                    }
                    k = k + 1;
                },
            }
        }
    }
}

} // verus!
