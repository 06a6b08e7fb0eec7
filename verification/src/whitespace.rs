//! Spaces between tokens do not count.
//!
//! A space that is put into a source text, anywhere but between two
//! letters of one word, changes no token: the scanner reads the same
//! kinds and the same literals, in the same order. Only the source
//! positions that the tokens record move. The same holds of a tab or a
//! line break between two tokens, with one exception: a sign that
//! follows it is read as the sign of the number after it, so a tab
//! between an operand and a binary sign with a number after it frees
//! the sign. Among the digits of a number a tab or a line break ends
//! the number. What holds of one blank character holds of many, put in
//! or taken out one after the other.

use crate::calculator::StepView;
use crate::errors::ErrorView;
use crate::lexer::{
    free_from_number, is_sign_of_number, lemma_number_end, lemma_skip_blank, lemma_token_end,
    lexed, next_is_number, number_end, scan_from, scanned, skip_blank, starts_number, starts_word,
    token_at, token_end, word_end,
};
use crate::mate::planned;
use crate::nesting::resolved;
use crate::machine::spin;
use crate::placement::{
    lemma_combined_unplaced, lemma_plan_unplaced, lemma_resolved_unplaced, lemma_spin_unplaced,
    same_halt, unplaced, unplaced_all, unplaced_steps, unplaced_sub,
};
use crate::token::{unknown, SubView, TokenView};
use crate::utils::{
    has_digit, is_digit, is_letter, is_plus_or_minus_char, is_point_char, is_space, strip,
};
use vstd::prelude::*;

verus! {

/// A text with the character `c` put in before the character at index
/// `p`.
pub open spec fn padded(s: Seq<char>, p: int, c: char) -> Seq<char> {
    s.insert(p, c)
}

/// Whether index `p` lies in the spaces that the number literal at index
/// `q` ends with, or just after the literal.
pub open spec fn trails(s: Seq<char>, q: int, p: int) -> bool {
    &&& starts_number(s, q)
    &&& q < p <= token_end(s, q)
    &&& forall|k: int| p <= k < token_end(s, q) ==> #[trigger] s[k] == ' '
}

/// Whether index `p` lies between two tokens, before the first or after
/// the last of the tokens that are read from index `i` on. The spaces
/// that a number literal ends with lie between the number and the token
/// after it.
pub open spec fn is_cut(s: Seq<char>, i: int, p: int) -> bool
    decreases s.len() - i,
{
    let q = skip_blank(s, i);
    0 <= i <= p && (p <= q || (q < s.len() && (trails(s, q, p) || (token_end(s, q) <= p && {
        proof {
            lemma_skip_blank(s, i);
            lemma_token_end(s, q);
        }
        is_cut(s, token_end(s, q), p)
    }))))
}

/// Whether index `p` lies between two tokens of the text, before the
/// first or after the last.
pub open spec fn between_tokens(s: Seq<char>, p: int) -> bool {
    is_cut(s, 0, p)
}

/// Whether a tab or a line break at index `p` would free the sign after
/// it: the next token is a plus or a minus between an operand and a
/// number, which a blank character other than a space would turn into
/// the sign of the number.
pub open spec fn frees_sign(s: Seq<char>, p: int) -> bool {
    let q = skip_blank(s, p);
    q < s.len() && is_plus_or_minus_char(s[q]) && next_is_number(s, q) && !free_from_number(s, q)
}

/// Whether the blank character `c` may be put in at index `p`: a space
/// anywhere; a tab or a line break between two tokens, before the first
/// or after the last, unless it would free a sign.
pub open spec fn fits(s: Seq<char>, p: int, c: char) -> bool {
    0 <= p <= s.len() && is_space(c) && (c == ' ' || (between_tokens(s, p) && !frees_sign(s, p)))
}

/// Whether a character that is no space stands at one of the indices
/// from `p` up to, not including, `q`.
pub open spec fn blocked(s: Seq<char>, p: int, q: int) -> bool {
    exists|k: int| p <= k < q && 0 <= k < s.len() && #[trigger] s[k] != ' '
}

/// Whether index `p` lies between two letters.
pub open spec fn splits_word(s: Seq<char>, p: int) -> bool {
    0 < p < s.len() && is_letter(s[p - 1]) && is_letter(s[p])
}

/// The characters of a text with a character put in.
proof fn lemma_padded(s: Seq<char>, p: int, c: char)
    requires
        0 <= p <= s.len(),
    ensures
        padded(s, p, c).len() == s.len() + 1,
        padded(s, p, c)[p] == c,
        forall|k: int| 0 <= k < p ==> #[trigger] padded(s, p, c)[k] == s[k],
        forall|k: int| p <= k < s.len() ==> #[trigger] padded(s, p, c)[k + 1] == s[k],
{
    s.insert_ensures(p, c);
    assert forall|k: int| p <= k < s.len() implies #[trigger] padded(s, p, c)[k + 1] == s[k] by {
        assert(padded(s, p, c)[k + 1] == s.subrange(p, s.len() as int)[k - p]);
    }
}

/// A blank character more does not change what is left of a text
/// without its blank characters.
proof fn lemma_strip_padded(s: Seq<char>, k: int, c: char)
    requires
        0 <= k <= s.len(),
        is_space(c),
    ensures
        strip(padded(s, k, c)) == strip(s),
    decreases s.len(),
{
    let t = padded(s, k, c);
    lemma_padded(s, k, c);
    if k == s.len() {
        assert(t.drop_last() =~= s);
    } else {
        assert(t.last() == s.last());
        assert(t.drop_last() =~= padded(s.drop_last(), k, c));
        lemma_strip_padded(s.drop_last(), k, c);
    }
}

/// A blank character more brings no digit and takes none.
proof fn lemma_has_digit_padded(s: Seq<char>, k: int, c: char)
    requires
        0 <= k <= s.len(),
        is_space(c),
    ensures
        has_digit(padded(s, k, c)) == has_digit(s),
{
    let t = padded(s, k, c);
    lemma_padded(s, k, c);
    if has_digit(s) {
        let i = choose|i: int| 0 <= i < s.len() && is_digit(#[trigger] s[i]);
        if i < k {
            assert(is_digit(t[i]));
        } else {
            assert(t[i + 1] == s[i]);
            assert(is_digit(t[i + 1]));
        }
    }
    if has_digit(t) {
        let i = choose|i: int| 0 <= i < t.len() && is_digit(#[trigger] t[i]);
        if i < k {
            assert(is_digit(s[i]));
        } else {
            assert(i != k);
            assert(t[(i - 1) + 1] == s[i - 1]);
            assert(is_digit(s[i - 1]));
        }
    }
}

/// Behind the new character, blank characters are skipped as before.
proof fn lemma_skip_blank_shift(s: Seq<char>, p: int, q: int, c: char)
    requires
        0 <= p <= q <= s.len(),
    ensures
        skip_blank(padded(s, p, c), q + 1) == skip_blank(s, q) + 1,
    decreases s.len() - q,
{
    lemma_padded(s, p, c);
    if q < s.len() && is_space(s[q]) {
        lemma_skip_blank_shift(s, p, q + 1, c);
    }
}

/// Behind the new character, the run of a number ends as before.
proof fn lemma_number_end_shift(s: Seq<char>, p: int, q: int, pointed: bool, c: char)
    requires
        0 <= p <= q <= s.len(),
    ensures
        number_end(padded(s, p, c), q + 1, pointed) == number_end(s, q, pointed) + 1,
    decreases s.len() - q,
{
    lemma_padded(s, p, c);
    if q < s.len() {
        if is_digit(s[q]) || s[q] == ' ' {
            lemma_number_end_shift(s, p, q + 1, pointed, c);
        } else if is_point_char(s[q]) && !pointed {
            lemma_number_end_shift(s, p, q + 1, true, c);
        }
    }
}

/// Behind the new character, the run of a word ends as before.
proof fn lemma_word_end_shift(s: Seq<char>, p: int, q: int, c: char)
    requires
        0 <= p <= q <= s.len(),
    ensures
        word_end(padded(s, p, c), q + 1) == word_end(s, q) + 1,
    decreases s.len() - q,
{
    lemma_padded(s, p, c);
    if q < s.len() && is_letter(s[q]) {
        lemma_word_end_shift(s, p, q + 1, c);
    }
}

/// From the new character on, the same character follows as before.
proof fn lemma_next_is_number_shift(s: Seq<char>, p: int, q: int, c: char)
    requires
        0 <= p <= s.len(),
        0 <= q,
        p - 1 <= q,
    ensures
        next_is_number(padded(s, p, c), q + 1) == next_is_number(s, q),
    decreases s.len() - q,
{
    lemma_padded(s, p, c);
    if q + 1 < s.len() {
        assert(padded(s, p, c)[(q + 1) + 1] == s[q + 1]);
        if s[q + 1] == ' ' {
            lemma_next_is_number_shift(s, p, q + 1, c);
        }
    }
}

/// Up to the new character, the same character stands before as it did.
proof fn lemma_free_prefix(s: Seq<char>, p: int, q: int, c: char)
    requires
        0 <= p <= s.len(),
        q <= p,
    ensures
        free_from_number(padded(s, p, c), q) == free_from_number(s, q),
    decreases q,
{
    lemma_padded(s, p, c);
    if q > 0 {
        if s[q - 1] == ' ' {
            lemma_free_prefix(s, p, q - 1, c);
        }
    }
}

/// Behind a new space, and behind any new character once a character
/// that is no space has come, the same character stands before as it did.
proof fn lemma_free_shift(s: Seq<char>, p: int, q: int, c: char)
    requires
        0 <= p <= q <= s.len(),
        c == ' ' || blocked(s, p, q),
    ensures
        free_from_number(padded(s, p, c), q + 1) == free_from_number(s, q),
    decreases q,
{
    lemma_padded(s, p, c);
    if q == p {
        lemma_free_prefix(s, p, p, c);
    } else {
        assert(padded(s, p, c)[(q - 1) + 1] == s[q - 1]);
        if s[q - 1] == ' ' {
            if c != ' ' {
                let k = choose|k: int| p <= k < q && 0 <= k < s.len() && #[trigger] s[k] != ' ';
                assert(p <= k < q - 1 && s[k] != ' ');
            }
            lemma_free_shift(s, p, q - 1, c);
        }
    }
}

/// Behind a new tab or line break and nothing but blank characters, no
/// operand stands before.
proof fn lemma_free_behind_blank(s: Seq<char>, p: int, q: int, c: char)
    requires
        0 <= p <= q <= s.len(),
        is_space(c),
        c != ' ',
        forall|k: int| p <= k < q ==> is_space(#[trigger] s[k]),
    ensures
        free_from_number(padded(s, p, c), q + 1),
    decreases q,
{
    lemma_padded(s, p, c);
    if q > p {
        assert(padded(s, p, c)[(q - 1) + 1] == s[q - 1]);
        assert(is_space(s[q - 1]));
        if s[q - 1] == ' ' {
            lemma_free_behind_blank(s, p, q - 1, c);
        }
    }
}

/// Before the first character that is not blank, no operand stands.
proof fn lemma_free_after_blanks(s: Seq<char>, q: int)
    requires
        0 <= q <= s.len(),
        forall|k: int| 0 <= k < q ==> is_space(#[trigger] s[k]),
    ensures
        free_from_number(s, q),
    decreases q,
{
    if q > 0 {
        assert(is_space(s[q - 1]));
        if s[q - 1] == ' ' {
            lemma_free_after_blanks(s, q - 1);
        }
    }
}

/// Before the new character, blank characters are skipped as before,
/// and over the new character too.
proof fn lemma_skip_blank_across(s: Seq<char>, p: int, q: int, c: char)
    requires
        0 <= q <= p <= s.len(),
        is_space(c),
    ensures
        skip_blank(padded(s, p, c), q) == if skip_blank(s, q) < p {
            skip_blank(s, q)
        } else {
            skip_blank(s, q) + 1
        },
    decreases p - q,
{
    lemma_padded(s, p, c);
    lemma_skip_blank(s, q);
    if q == p {
        lemma_skip_blank_shift(s, p, p, c);
    } else if is_space(s[q]) {
        lemma_skip_blank_across(s, p, q + 1, c);
    }
}

/// Before the new character, the run of a number ends as before; it
/// takes a new space that it reaches and ends at another blank
/// character.
proof fn lemma_number_end_across(s: Seq<char>, p: int, q: int, pointed: bool, c: char)
    requires
        0 <= q <= p <= s.len(),
        is_space(c),
    ensures
        number_end(padded(s, p, c), q, pointed) == if number_end(s, q, pointed) < p {
            number_end(s, q, pointed)
        } else if c == ' ' {
            number_end(s, q, pointed) + 1
        } else {
            p
        },
    decreases p - q,
{
    lemma_padded(s, p, c);
    lemma_number_end(s, q, pointed);
    if q == p {
        if c == ' ' {
            lemma_number_end_shift(s, p, p, pointed, c);
        }
    } else if is_digit(s[q]) || s[q] == ' ' {
        lemma_number_end_across(s, p, q + 1, pointed, c);
    } else if is_point_char(s[q]) && !pointed {
        lemma_number_end_across(s, p, q + 1, true, c);
    }
}

/// Before the new character, the run of a word ends as before, no later
/// than at the new character, unless that splits the word.
proof fn lemma_word_end_across(s: Seq<char>, p: int, q: int, c: char)
    requires
        0 <= q < p <= s.len(),
        is_space(c),
        !splits_word(s, p),
    ensures
        word_end(padded(s, p, c), q) == word_end(s, q),
        word_end(s, q) <= p,
    decreases p - q,
{
    lemma_padded(s, p, c);
    if is_letter(s[q]) {
        if q + 1 == p {
            assert(!is_letter(padded(s, p, c)[p]));
            if p < s.len() {
                assert(!is_letter(s[p]));
            }
            assert(word_end(s, p) == p);
            assert(word_end(padded(s, p, c), p) == p);
        } else {
            lemma_word_end_across(s, p, q + 1, c);
        }
    }
}

/// Before a new space, the same character follows as before.
proof fn lemma_next_is_number_across(s: Seq<char>, p: int, q: int)
    requires
        0 <= q < p <= s.len(),
    ensures
        next_is_number(padded(s, p, ' '), q) == next_is_number(s, q),
    decreases p - q,
{
    lemma_padded(s, p, ' ');
    if q + 1 == p {
        assert(padded(s, p, ' ')[q + 1] == ' ');
        lemma_next_is_number_shift(s, p, q, ' ');
    } else {
        if s[q + 1] == ' ' {
            lemma_next_is_number_across(s, p, q + 1);
        }
    }
}

/// A new tab or line break brings no number after a sign.
proof fn lemma_next_is_number_lost(s: Seq<char>, p: int, q: int, c: char)
    requires
        0 <= q < p <= s.len(),
        is_space(c),
        c != ' ',
        next_is_number(padded(s, p, c), q),
    ensures
        next_is_number(s, q),
    decreases p - q,
{
    lemma_padded(s, p, c);
    if q + 1 == p {
        assert(padded(s, p, c)[q + 1] == c);
    } else {
        assert(padded(s, p, c)[q + 1] == s[q + 1]);
        if s[q + 1] == ' ' {
            lemma_next_is_number_lost(s, p, q + 1, c);
        }
    }
}

/// A number that follows a sign and ends before the new character
/// follows the sign as before.
proof fn lemma_next_is_number_kept(s: Seq<char>, p: int, q: int, c: char)
    requires
        0 <= q < p <= s.len(),
        next_is_number(s, q),
        number_end(s, q + 1, false) <= p,
    ensures
        next_is_number(padded(s, p, c), q),
    decreases p - q,
{
    lemma_padded(s, p, c);
    assert(q + 1 < s.len());
    if q + 1 == p {
        lemma_number_end(s, q + 1, false);
        assert(is_digit(s[q + 1]) || s[q + 1] == ' ');
        lemma_number_end(s, q + 2, false);
        assert(number_end(s, q + 1, false) == number_end(s, q + 2, false));
    } else {
        assert(padded(s, p, c)[q + 1] == s[q + 1]);
        if s[q + 1] == ' ' {
            assert(number_end(s, q + 1, false) == number_end(s, q + 2, false));
            lemma_next_is_number_kept(s, p, q + 1, c);
        }
    }
}

/// A sign before the new character belongs to the number after it as
/// before, if the token that it starts ends before the new character.
proof fn lemma_sign_across(s: Seq<char>, p: int, q: int, c: char)
    requires
        0 <= q < p <= s.len(),
        is_space(c),
        c == ' ' || token_end(s, q) <= p,
    ensures
        is_sign_of_number(padded(s, p, c), q) == is_sign_of_number(s, q),
{
    let t = padded(s, p, c);
    lemma_padded(s, p, c);
    lemma_free_prefix(s, p, q, c);
    assert(t[q] == s[q]);
    if c == ' ' {
        lemma_next_is_number_across(s, p, q);
    } else {
        if is_sign_of_number(s, q) {
            lemma_next_is_number_kept(s, p, q, c);
        }
        if next_is_number(t, q) {
            lemma_next_is_number_lost(s, p, q, c);
        }
    }
}

/// A token behind the new character is read as before, one place
/// further on, if its sign, where it starts with one, still has before
/// it what it had.
proof fn lemma_token_shift(s: Seq<char>, p: int, q: int, c: char)
    requires
        0 <= p <= q < s.len(),
        is_plus_or_minus_char(s[q]) && next_is_number(s, q) ==> free_from_number(
            padded(s, p, c),
            q + 1,
        ) == free_from_number(s, q),
    ensures
        token_end(padded(s, p, c), q + 1) == token_end(s, q) + 1,
        unplaced(token_at(padded(s, p, c), q + 1)) == unplaced(token_at(s, q)),
{
    let t = padded(s, p, c);
    lemma_padded(s, p, c);
    lemma_next_is_number_shift(s, p, q, c);
    lemma_number_end_shift(s, p, q + 1, false, c);
    lemma_number_end_shift(s, p, q, false, c);
    lemma_word_end_shift(s, p, q, c);
    lemma_token_end(s, q);
    assert(t[q + 1] == s[q]);
    assert(is_sign_of_number(t, q + 1) == is_sign_of_number(s, q));
    assert(starts_number(t, q + 1) == starts_number(s, q));
    assert(starts_word(t, q + 1) == starts_word(s, q));
    let e = token_end(s, q);
    assert(token_end(t, q + 1) == e + 1);
    assert(t.subrange(q + 1, e + 1) =~= s.subrange(q, e)) by {
        let moved = t.subrange(q + 1, e + 1);
        let kept = s.subrange(q, e);
        assert forall|k: int| 0 <= k < e - q implies #[trigger] moved[k] == kept[k] by {
            assert(t[(q + k) + 1] == s[q + k]);
        }
    }
    lemma_unplaced_atom(token_at(t, q + 1));
    lemma_unplaced_atom(token_at(s, q));
}

/// A token before the new character is read as before; a number takes
/// a new space if its run reaches it.
proof fn lemma_token_across(s: Seq<char>, p: int, q: int, c: char)
    requires
        0 <= q < p <= s.len(),
        is_space(c),
        c == ' ' || token_end(s, q) <= p,
        !is_space(s[q]),
        !splits_word(s, p),
    ensures
        unplaced(token_at(padded(s, p, c), q)) == unplaced(token_at(s, q)),
        token_end(padded(s, p, c), q) == if token_end(s, q) < p || !starts_number(s, q) || c
            != ' ' {
            token_end(s, q)
        } else {
            token_end(s, q) + 1
        },
        token_end(padded(s, p, c), q) == token_end(s, q) ==> token_end(s, q) <= p,
{
    let t = padded(s, p, c);
    lemma_padded(s, p, c);
    lemma_free_prefix(s, p, q, c);
    lemma_sign_across(s, p, q, c);
    lemma_token_end(s, q);
    assert(t[q] == s[q]);
    assert(is_sign_of_number(t, q) == is_sign_of_number(s, q));
    assert(starts_number(t, q) == starts_number(s, q));
    assert(starts_word(t, q) == starts_word(s, q));
    let e = token_end(s, q);
    if is_sign_of_number(s, q) {
        lemma_number_end_across(s, p, q + 1, false, c);
    } else if starts_number(s, q) {
        lemma_number_end_across(s, p, q, false, c);
    } else if starts_word(s, q) {
        lemma_word_end_across(s, p, q, c);
    }
    let f = token_end(t, q);
    if f == e {
        assert(e <= p);
        assert(t.subrange(q, e) =~= s.subrange(q, e));
    } else {
        assert(f == e + 1 && e >= p && c == ' ');
        let lit = s.subrange(q, e);
        assert(t.subrange(q, e + 1) =~= padded(lit, p - q, c)) by {
            lemma_padded(lit, p - q, c);
            let long = t.subrange(q, e + 1);
            let wide = padded(lit, p - q, c);
            assert forall|k: int| 0 <= k < e + 1 - q implies #[trigger] long[k] == wide[k] by {
                if k < p - q {
                } else if k == p - q {
                } else {
                    assert(t[(q + k - 1) + 1] == s[q + k - 1]);
                    assert(wide[(k - 1) + 1] == lit[k - 1]);
                }
            }
        }
        lemma_strip_padded(lit, p - q, c);
        lemma_has_digit_padded(lit, p - q, c);
    }
    lemma_unplaced_atom(token_at(t, q));
    lemma_unplaced_atom(token_at(s, q));
}

/// An atomic token without its positions.
proof fn lemma_unplaced_atom(t: TokenView)
    requires
        t.sub.tokens.len() == 0,
    ensures
        unplaced(t) == (TokenView {
            typ: t.typ,
            literal: t.literal,
            sub: SubView { tokens: Seq::empty(), method: t.sub.method },
            index: unknown(),
        }),
{
    assert(unplaced(t).sub.tokens =~= Seq::<TokenView>::empty());
}

/// The tokens without positions of one token and those that follow it.
proof fn lemma_unplaced_cons(t: TokenView, rest: Seq<TokenView>)
    ensures
        unplaced_all(seq![t] + rest) == seq![unplaced(t)] + unplaced_all(rest),
{
    assert(unplaced_all(seq![t] + rest) =~= seq![unplaced(t)] + unplaced_all(rest));
}

/// Behind the new character, the same tokens are read as before, once
/// a character that is no space has come or if the new one is a space.
proof fn lemma_scan_shift(s: Seq<char>, p: int, i: int, c: char)
    requires
        0 <= p <= i <= s.len(),
        c == ' ' || blocked(s, p, i),
    ensures
        unplaced_all(scan_from(padded(s, p, c), i + 1)) == unplaced_all(scan_from(s, i)),
    decreases s.len() - i,
{
    let t = padded(s, p, c);
    lemma_padded(s, p, c);
    lemma_skip_blank(s, i);
    lemma_skip_blank_shift(s, p, i, c);
    let q = skip_blank(s, i);
    if q < s.len() {
        lemma_token_end(s, q);
        if c != ' ' {
            let k = choose|k: int| p <= k < i && 0 <= k < s.len() && #[trigger] s[k] != ' ';
            assert(p <= k < q && s[k] != ' ');
            assert(p <= k < token_end(s, q) && s[k] != ' ');
        }
        lemma_free_shift(s, p, q, c);
        lemma_token_shift(s, p, q, c);
        lemma_scan_shift(s, p, token_end(s, q), c);
        lemma_unplaced_cons(token_at(t, q + 1), scan_from(t, token_end(t, q + 1)));
        lemma_unplaced_cons(token_at(s, q), scan_from(s, token_end(s, q)));
    } else {
        assert(unplaced_all(scan_from(t, i + 1)) =~= unplaced_all(scan_from(s, i)));
    }
}

/// The tokens from the first one behind the new character on are read
/// as before.
proof fn lemma_scan_behind(s: Seq<char>, p: int, q: int, c: char)
    requires
        0 <= p <= q < s.len(),
        is_space(c),
        q == skip_blank(s, p),
        c == ' ' || !frees_sign(s, p),
    ensures
        token_end(padded(s, p, c), q + 1) == token_end(s, q) + 1,
        unplaced_all(scan_from(padded(s, p, c), q + 1)) == unplaced_all(scan_from(s, q)),
{
    let t = padded(s, p, c);
    lemma_padded(s, p, c);
    lemma_skip_blank(s, p);
    lemma_skip_blank(s, q);
    lemma_skip_blank_shift(s, p, q, c);
    lemma_token_end(s, q);
    assert(skip_blank(s, q) == q);
    if c == ' ' {
        lemma_free_shift(s, p, q, c);
    } else if is_plus_or_minus_char(s[q]) && next_is_number(s, q) {
        lemma_free_behind_blank(s, p, q, c);
    }
    lemma_token_shift(s, p, q, c);
    assert(s[q] != ' ');
    lemma_scan_shift(s, p, token_end(s, q), c);
    lemma_unplaced_cons(token_at(t, q + 1), scan_from(t, token_end(t, q + 1)));
    lemma_unplaced_cons(token_at(s, q), scan_from(s, token_end(s, q)));
}

/// Blank characters are skipped to the same place from anywhere among
/// them.
proof fn lemma_skip_blank_same(s: Seq<char>, i: int, p: int)
    requires
        0 <= i <= p <= skip_blank(s, i),
    ensures
        skip_blank(s, p) == skip_blank(s, i),
    decreases p - i,
{
    if i < p {
        lemma_skip_blank(s, i);
        assert(is_space(s[i]));
        lemma_skip_blank_same(s, i + 1, p);
    }
}

/// Spaces at the end of a text leave of the text, without its blank
/// characters, what its start leaves, and bring no digit.
proof fn lemma_strip_trailing(s: Seq<char>, k: int)
    requires
        0 <= k <= s.len(),
        forall|m: int| k <= m < s.len() ==> #[trigger] s[m] == ' ',
    ensures
        strip(s) == strip(s.subrange(0, k)),
        has_digit(s) == has_digit(s.subrange(0, k)),
    decreases s.len() - k,
{
    let head = s.subrange(0, k);
    if k == s.len() {
        assert(head =~= s);
    } else {
        assert(s.last() == ' ');
        let short = s.drop_last();
        assert(short.subrange(0, k) =~= head);
        assert forall|m: int| k <= m < short.len() implies #[trigger] short[m] == ' ' by {
            assert(short[m] == s[m]);
        }
        lemma_strip_trailing(short, k);
        if has_digit(s) {
            let d = choose|d: int| 0 <= d < s.len() && is_digit(#[trigger] s[d]);
            assert(d < s.len() - 1);
            assert(is_digit(short[d]));
        }
        if has_digit(short) {
            let d = choose|d: int| 0 <= d < short.len() && is_digit(#[trigger] short[d]);
            assert(is_digit(s[d]));
        }
    }
}

/// The number after a sign stands before the spaces that its literal
/// ends with.
proof fn lemma_next_is_number_near(s: Seq<char>, p: int, q: int, e: int, c: char)
    requires
        0 <= q < p <= e <= s.len(),
        next_is_number(s, q),
        number_end(s, q + 1, false) == e,
        forall|k: int| p <= k < e ==> #[trigger] s[k] == ' ',
    ensures
        next_is_number(padded(s, p, c), q),
    decreases p - q,
{
    lemma_padded(s, p, c);
    if q + 1 == p {
        lemma_next_is_number_spaces(s, p, e);
    } else {
        assert(padded(s, p, c)[q + 1] == s[q + 1]);
        if s[q + 1] == ' ' {
            lemma_next_is_number_near(s, p, q + 1, e, c);
        }
    }
}

/// No number follows a sign where only spaces follow it up to the end
/// of the run of a number.
proof fn lemma_next_is_number_spaces(s: Seq<char>, k: int, e: int)
    requires
        1 <= k <= e <= s.len(),
        forall|m: int| k <= m < e ==> #[trigger] s[m] == ' ',
        number_end(s, k, false) == e,
    ensures
        !next_is_number(s, k - 1),
    decreases e - k,
{
    if k < e {
        assert(s[k] == ' ');
        lemma_next_is_number_spaces(s, k + 1, e);
    } else if e < s.len() {
        lemma_number_end(s, e + 1, false);
        lemma_number_end(s, e + 1, true);
    }
}

/// A number literal that ends with spaces is read as before where a tab
/// or a line break is put among those spaces: the literal ends at the
/// new character.
proof fn lemma_token_trails(s: Seq<char>, p: int, q: int, c: char)
    requires
        0 <= q < p <= s.len(),
        is_space(c),
        c != ' ',
        !is_space(s[q]),
        trails(s, q, p),
    ensures
        unplaced(token_at(padded(s, p, c), q)) == unplaced(token_at(s, q)),
        token_end(padded(s, p, c), q) == p,
{
    let t = padded(s, p, c);
    let e = token_end(s, q);
    lemma_padded(s, p, c);
    lemma_free_prefix(s, p, q, c);
    lemma_token_end(s, q);
    assert(t[q] == s[q]);
    if is_sign_of_number(s, q) {
        lemma_next_is_number_near(s, p, q, e, c);
        lemma_number_end_across(s, p, q + 1, false, c);
    } else {
        if next_is_number(t, q) {
            lemma_next_is_number_lost(s, p, q, c);
        }
        lemma_number_end_across(s, p, q, false, c);
    }
    assert(is_sign_of_number(t, q) == is_sign_of_number(s, q));
    assert(starts_number(t, q));
    assert(token_end(t, q) == p);
    let lit = s.subrange(q, e);
    assert(t.subrange(q, p) =~= lit.subrange(0, p - q));
    assert forall|m: int| p - q <= m < lit.len() implies #[trigger] lit[m] == ' ' by {
        assert(lit[m] == s[q + m]);
    }
    lemma_strip_trailing(lit, p - q);
    lemma_unplaced_atom(token_at(t, q));
    lemma_unplaced_atom(token_at(s, q));
}

/// Blank characters are skipped over spaces.
proof fn lemma_skip_blank_spaces(s: Seq<char>, p: int, e: int)
    requires
        0 <= p <= e <= s.len(),
        forall|k: int| p <= k < e ==> #[trigger] s[k] == ' ',
    ensures
        skip_blank(s, p) == skip_blank(s, e),
    decreases e - p,
{
    if p < e {
        assert(s[p] == ' ');
        lemma_skip_blank_spaces(s, p + 1, e);
    }
}

/// The tokens from an index on are those from the first character on
/// that is not blank.
proof fn lemma_scan_skips(s: Seq<char>, i: int)
    requires
        0 <= i,
    ensures
        scan_from(s, i) == scan_from(s, skip_blank(s, i)),
{
    lemma_skip_blank(s, i);
    let q = skip_blank(s, i);
    if q < s.len() {
        assert(skip_blank(s, q) == q);
    } else {
        assert(skip_blank(s, q) == q);
    }
}

/// Before the new character, the same tokens are read as before.
proof fn lemma_scan_across(s: Seq<char>, p: int, i: int, c: char)
    requires
        0 <= i <= p <= s.len(),
        is_space(c),
        !splits_word(s, p),
        c == ' ' || (is_cut(s, i, p) && !frees_sign(s, p)),
    ensures
        unplaced_all(scan_from(padded(s, p, c), i)) == unplaced_all(scan_from(s, i)),
    decreases s.len() - i,
{
    let t = padded(s, p, c);
    lemma_padded(s, p, c);
    lemma_skip_blank(s, i);
    lemma_skip_blank_across(s, p, i, c);
    let q = skip_blank(s, i);
    if q >= p {
        if q < s.len() {
            lemma_skip_blank_same(s, i, p);
            lemma_scan_behind(s, p, q, c);
        } else {
            assert(unplaced_all(scan_from(t, i)) =~= unplaced_all(scan_from(s, i)));
        }
    } else if c != ' ' && token_end(s, q) > p {
        let e = token_end(s, q);
        lemma_token_end(s, q);
        lemma_token_trails(s, p, q, c);
        lemma_skip_blank_spaces(s, p, e);
        lemma_skip_blank(s, e);
        lemma_skip_blank(s, p);
        let next = skip_blank(s, e);
        lemma_skip_blank_shift(s, p, p, c);
        assert(skip_blank(t, p) == next + 1);
        lemma_scan_skips(t, p);
        lemma_scan_skips(s, e);
        if next < s.len() {
            lemma_scan_behind(s, p, next, c);
        } else {
            assert(unplaced_all(scan_from(t, next + 1)) =~= unplaced_all(scan_from(s, next)));
        }
        lemma_unplaced_cons(token_at(t, q), scan_from(t, token_end(t, q)));
        lemma_unplaced_cons(token_at(s, q), scan_from(s, token_end(s, q)));
    } else {
        lemma_token_end(s, q);
        lemma_token_across(s, p, q, c);
        let e = token_end(s, q);
        if token_end(t, q) == e {
            if e == p {
                lemma_skip_blank(s, e);
                assert(is_cut(s, e, p));
            }
            lemma_scan_across(s, p, e, c);
        } else {
            lemma_scan_shift(s, p, e, c);
        }
        lemma_unplaced_cons(token_at(t, q), scan_from(t, token_end(t, q)));
        lemma_unplaced_cons(token_at(s, q), scan_from(s, token_end(s, q)));
    }
}

/// The start and the end of a text lie between tokens, and a blank
/// character there frees no sign.
pub proof fn lemma_ends_fit(s: Seq<char>, c: char)
    requires
        is_space(c),
    ensures
        fits(s, 0, c),
        fits(s, s.len() as int, c),
{
    lemma_skip_blank(s, 0);
    lemma_skip_blank(s, s.len() as int);
    lemma_free_after_blanks(s, skip_blank(s, 0));
    lemma_end_is_cut(s, 0);
}

/// The end of a text lies after the last token.
proof fn lemma_end_is_cut(s: Seq<char>, i: int)
    requires
        0 <= i <= s.len(),
    ensures
        is_cut(s, i, s.len() as int),
    decreases s.len() - i,
{
    lemma_skip_blank(s, i);
    let q = skip_blank(s, i);
    if q < s.len() {
        lemma_token_end(s, q);
        lemma_end_is_cut(s, token_end(s, q));
    }
}

/// A space that is put into a source text anywhere but between two
/// letters changes no token, and neither does a tab or a line break
/// that is put between two tokens, before the first or after the last,
/// unless it frees a sign: the scanner reads tokens of the same kinds
/// with the same literals, in the same order.
pub proof fn lemma_blank_changes_no_token(s: Seq<char>, p: int, c: char)
    requires
        fits(s, p, c),
        !splits_word(s, p),
    ensures
        unplaced_all(scanned(padded(s, p, c))) == unplaced_all(scanned(s)),
{
    lemma_scan_across(s, p, 0, c);
}

/// Whether two results of lexing differ in nothing but source
/// positions: the same tree or a failure of the same kind.
pub open spec fn same_tree(a: Result<SubView, ErrorView>, b: Result<SubView, ErrorView>) -> bool {
    match (a, b) {
        (Ok(x), Ok(y)) => unplaced_sub(x) == unplaced_sub(y),
        (Err(e), Err(f)) => e.kind == f.kind,
        _ => false,
    }
}

/// Whether two plans differ in nothing but source positions and the
/// words of their failures.
pub open spec fn same_plan(
    a: Result<Seq<StepView>, ErrorView>,
    b: Result<Seq<StepView>, ErrorView>,
) -> bool {
    match (a, b) {
        (Ok(x), Ok(y)) => unplaced_steps(x) == unplaced_steps(y),
        (Err(e), Err(f)) => e.kind == f.kind,
        _ => false,
    }
}

/// A blank character that is put into a source text that is not empty,
/// where it fits and splits no word, changes nothing of what the text
/// is lexed to but source positions: the tree is the same, or the
/// failure is of the same kind.
pub proof fn lemma_blank_changes_no_tree(s: Seq<char>, p: int, c: char)
    requires
        fits(s, p, c),
        s.len() > 0,
        !splits_word(s, p),
    ensures
        same_tree(lexed(padded(s, p, c)), lexed(s)),
{
    let t = padded(s, p, c);
    lemma_padded(s, p, c);
    lemma_blank_changes_no_token(s, p, c);
    let here = scanned(t);
    let there = scanned(s);
    lemma_resolved_unplaced(here, s, t);
    lemma_resolved_unplaced(there, s, s);
    match (resolved(here, t), resolved(there, s)) {
        (Ok(x), Ok(y)) => {
            lemma_combined_unplaced(x);
            lemma_combined_unplaced(y);
        },
        _ => {},
    }
}

/// A blank character that is put into a source text that is not empty,
/// where it fits and splits no word, changes nothing of the plan of the
/// text but the source positions that the steps record and the words of
/// the failures: the same steps are taken on the same literals, names,
/// operators and functions.
pub proof fn lemma_blank_changes_no_plan(s: Seq<char>, p: int, c: char)
    requires
        fits(s, p, c),
        s.len() > 0,
        !splits_word(s, p),
    ensures
        same_plan(planned(padded(s, p, c)), planned(s)),
{
    let t = padded(s, p, c);
    lemma_blank_changes_no_tree(s, p, c);
    match (lexed(t), lexed(s)) {
        (Ok(x), Ok(y)) => {
            lemma_plan_unplaced(x.tokens, x.method, s, t);
            lemma_plan_unplaced(y.tokens, y.method, s, s);
        },
        _ => {},
    }
}

/// Whether `longer` is the text `shorter`, which is not empty, with one
/// blank character put in where it fits and splits no word.
pub open spec fn one_blank_more(shorter: Seq<char>, longer: Seq<char>) -> bool {
    exists|p: int, c: char|
        shorter.len() > 0 && fits(shorter, p, c) && !splits_word(shorter, p) && longer
            == #[trigger] padded(shorter, p, c)
}

/// Whether one of two texts is the other with one blank character put
/// in or, which is the same, taken out.
pub open spec fn one_blank_apart(a: Seq<char>, b: Seq<char>) -> bool {
    one_blank_more(a, b) || one_blank_more(b, a)
}

/// Whether each text of `path` is the one before it with one blank
/// character put in or taken out.
pub open spec fn blanks_apart(path: Seq<Seq<char>>) -> bool {
    path.len() > 0 && forall|i: int|
        0 <= i < path.len() - 1 ==> one_blank_apart(#[trigger] path[i], path[i + 1])
}

/// Two texts that are one blank character apart are scanned, lexed and
/// laid out alike.
proof fn lemma_one_blank_apart(a: Seq<char>, b: Seq<char>)
    requires
        one_blank_apart(a, b),
    ensures
        unplaced_all(scanned(a)) == unplaced_all(scanned(b)),
        same_tree(lexed(a), lexed(b)),
        same_plan(planned(a), planned(b)),
{
    if one_blank_more(a, b) {
        let (p, c) = choose|p: int, c: char|
            a.len() > 0 && fits(a, p, c) && !splits_word(a, p) && b == #[trigger] padded(a, p, c);
        lemma_blank_changes_no_token(a, p, c);
        lemma_blank_changes_no_tree(a, p, c);
        lemma_blank_changes_no_plan(a, p, c);
    } else {
        let (p, c) = choose|p: int, c: char|
            b.len() > 0 && fits(b, p, c) && !splits_word(b, p) && a == #[trigger] padded(b, p, c);
        lemma_blank_changes_no_token(b, p, c);
        lemma_blank_changes_no_tree(b, p, c);
        lemma_blank_changes_no_plan(b, p, c);
    }
}

/// Blank characters between tokens do not count, however many are put
/// in or taken out. Where a text is reached from another by putting in
/// and taking out blank characters one after the other, each where it
/// fits and splits no word, the two texts are scanned to tokens of the
/// same kinds with the same literals, lexed to the same tree and laid
/// out as the same plan; only source positions and the words of
/// failures differ.
pub proof fn lemma_blanks_change_nothing(path: Seq<Seq<char>>)
    requires
        blanks_apart(path),
    ensures
        unplaced_all(scanned(path.first())) == unplaced_all(scanned(path.last())),
        same_tree(lexed(path.first()), lexed(path.last())),
        same_plan(planned(path.first()), planned(path.last())),
    decreases path.len(),
{
    if path.len() > 1 {
        let head = path.drop_last();
        assert forall|i: int| 0 <= i < head.len() - 1 implies one_blank_apart(
            #[trigger] head[i],
            head[i + 1],
        ) by {
            assert(head[i] == path[i] && head[i + 1] == path[i + 1]);
        }
        lemma_blanks_change_nothing(head);
        let before = path[path.len() - 2];
        assert(head.last() == before);
        assert(head.first() == path.first());
        assert(one_blank_apart(path[path.len() - 2], path[path.len() - 2 + 1]));
        lemma_one_blank_apart(before, path.last());
    }
}

/// Blank characters between tokens do not change how the machine runs.
/// Of two texts that are reached from one another by putting in and
/// taking out blank characters, either both fail to be lexed, or their
/// plans are run alike: from the same stack and the same variables the
/// machine halts at the same step, in the same state, with the same
/// task, the same result or a failure of the same kind.
pub proof fn lemma_blanks_change_no_halt(
    path: Seq<Seq<char>>,
    at: int,
    stack: Seq<u64>,
    env: Map<Seq<char>, u64>,
)
    requires
        blanks_apart(path),
    ensures
        planned(path.first()).is_ok() == planned(path.last()).is_ok(),
        planned(path.first()).is_ok() ==> same_halt(
            spin(planned(path.first())->Ok_0, at, stack, env),
            spin(planned(path.last())->Ok_0, at, stack, env),
        ),
{
    lemma_blanks_change_nothing(path);
    match (planned(path.first()), planned(path.last())) {
        (Ok(x), Ok(y)) => {
            lemma_spin_unplaced(x, y, at, stack, env);
        },
        _ => {},
    }
}

} // verus!
