//! The nester: bracketed groups become sub-expressions.
//!
//! A list of tokens is first split by nesting level: level 0 keeps the
//! tokens outside of all brackets, with a pointer token in place of each
//! bracketed group, and every group is stored under a level of its own.
//! The pointers are then replaced by sub-expressions.

use crate::combine::combined;
use crate::errors::{mismatched_parentheses_view, Error, ErrorView};
use crate::lexer::Lexer;
use crate::token::{
    brackets_match, copy_token, lemma_views_push, method_of, pointer_token, sub_token, views,
    written_number, SubMethod, Token, TokenType, TokenView,
};
use vstd::prelude::*;
use vstd::string::*;

verus! {

broadcast use crate::token::lemma_token_view;

/// The tokens of one nesting level, and whether brackets are left in them.
pub type Level = (Vec<Token>, bool);

/// The mathematical value of a [`Level`].
pub type LevelView = (Seq<TokenView>, bool);

/// The views of a list of levels, in order.
pub open spec fn level_views(v: Seq<Level>) -> Seq<LevelView> {
    Seq::new(v.len(), |i: int| (views(v[i].0@), v[i].1))
}

/// The kinds of the left brackets.
pub open spec fn is_open_type(typ: TokenType) -> bool {
    typ == TokenType::LPAREN || typ == TokenType::LABS
}

/// The kinds of the right brackets.
pub open spec fn is_close_type(typ: TokenType) -> bool {
    typ == TokenType::RPAREN || typ == TokenType::RABS
}

/// Whether one of the tokens is a left bracket.
pub open spec fn has_open(tokens: Seq<TokenView>) -> bool {
    exists|i: int| 0 <= i < tokens.len() && is_open_type(#[trigger] tokens[i].typ)
}

/// The place that a failure at a token that ends at position `end` is
/// reported at: one further, as far as the number fits.
pub open spec fn next_point(end: i32) -> i32 {
    if end < i32::MAX {
        (end + 1) as i32
    } else {
        end
    }
}

/// Where the bracket at the bottom of `open` is closed, reading from index
/// `i` on with the kinds of the brackets that are open at `i` in `open`,
/// the innermost last. There is no such place when a right bracket closes
/// a left bracket of the other family, or when the tokens end first.
pub open spec fn closing_index(tokens: Seq<TokenView>, i: int, open: Seq<TokenType>) -> Option<int>
    decreases tokens.len() - i,
{
    if i < 0 || i >= tokens.len() || open.len() == 0 {
        None
    } else if is_open_type(tokens[i].typ) {
        closing_index(tokens, i + 1, open.push(tokens[i].typ))
    } else if is_close_type(tokens[i].typ) {
        if !brackets_match(open.last(), tokens[i].typ) {
            None
        } else if open.len() == 1 {
            Some(i)
        } else {
            closing_index(tokens, i + 1, open.drop_last())
        }
    } else {
        closing_index(tokens, i + 1, open)
    }
}

/// The index of the right bracket that closes the left bracket at index
/// `start`.
pub open spec fn matching_close(tokens: Seq<TokenView>, start: int) -> Option<int> {
    if 0 <= start < tokens.len() && is_open_type(tokens[start].typ) {
        closing_index(tokens, start + 1, seq![tokens[start].typ])
    } else {
        None
    }
}

/// A closing bracket stands inside the tokens, at or after the place that
/// the search for it started from.
pub proof fn lemma_closing_index(tokens: Seq<TokenView>, i: int, open: Seq<TokenType>)
    ensures
        closing_index(tokens, i, open).is_some() ==> i <= closing_index(tokens, i, open).unwrap()
            < tokens.len(),
    decreases tokens.len() - i,
{
    if i < 0 || i >= tokens.len() || open.len() == 0 {
    } else if is_open_type(tokens[i].typ) {
        lemma_closing_index(tokens, i + 1, open.push(tokens[i].typ));
    } else if is_close_type(tokens[i].typ) {
        if brackets_match(open.last(), tokens[i].typ) && open.len() != 1 {
            lemma_closing_index(tokens, i + 1, open.drop_last());
        }
    } else {
        lemma_closing_index(tokens, i + 1, open);
    }
}

/// The levels of `tokens` from index `i` on, outside of all brackets:
/// `row` holds level 0 and `groups` the levels above it as far as they
/// have been read. A failure gives the index of the bracket that is not
/// closed, closes nothing or closes a bracket of the other family.
pub open spec fn nest_from(
    tokens: Seq<TokenView>,
    i: int,
    row: Seq<TokenView>,
    groups: Seq<LevelView>,
) -> Result<Seq<LevelView>, int>
    decreases tokens.len() - i,
{
    if i < 0 || i >= tokens.len() {
        Ok(seq![(row, false)] + groups)
    } else if is_open_type(tokens[i].typ) {
        match matching_close(tokens, i) {
            None => Err(i),
            Some(j) => {
                proof {
                    lemma_closing_index(tokens, i + 1, seq![tokens[i].typ]);
                }
                let inner = tokens.subrange(i + 1, j);
                nest_from(
                    tokens,
                    j + 1,
                    row.push(pointer_token((groups.len() + 1) as nat, method_of(tokens[i].typ))),
                    groups.push((inner, has_open(inner))),
                )
            },
        }
    } else if is_close_type(tokens[i].typ) {
        Err(i)
    } else {
        nest_from(tokens, i + 1, row.push(tokens[i]), groups)
    }
}

/// The levels of a list of tokens.
pub open spec fn nested(tokens: Seq<TokenView>) -> Result<Seq<LevelView>, int> {
    nest_from(tokens, 0, Seq::empty(), Seq::empty())
}

/// The first bracket from index `i` on, outside of all groups, that is not
/// closed, closes nothing or closes a bracket of the other family.
pub open spec fn first_fault(tokens: Seq<TokenView>, i: int) -> Option<int>
    decreases tokens.len() - i,
{
    if i < 0 || i >= tokens.len() {
        None
    } else if is_open_type(tokens[i].typ) {
        match matching_close(tokens, i) {
            None => Some(i),
            Some(j) => {
                proof {
                    lemma_closing_index(tokens, i + 1, seq![tokens[i].typ]);
                }
                first_fault(tokens, j + 1)
            },
        }
    } else if is_close_type(tokens[i].typ) {
        Some(i)
    } else {
        first_fault(tokens, i + 1)
    }
}

/// `acc` before what `rest` holds, or the failure of `rest`.
pub open spec fn after(acc: Seq<TokenView>, rest: Result<Seq<TokenView>, ErrorView>) -> Result<
    Seq<TokenView>,
    ErrorView,
> {
    match rest {
        Err(e) => Err(e),
        Ok(tokens) => Ok(acc + tokens),
    }
}

/// The sub-expression that a bracketed group becomes: its content is
/// resolved in turn if brackets are left in it, then regrouped by
/// precedence.
pub open spec fn group_token(
    content: Seq<TokenView>,
    flagged: bool,
    method: SubMethod,
    input: Seq<char>,
) -> Result<Seq<TokenView>, ErrorView>
    decreases content.len(), 3nat, 0nat,
{
    let inner = if flagged {
        resolved(content, input)
    } else {
        Ok(content)
    };
    match inner {
        Err(e) => Err(e),
        Ok(c) => Ok(seq![sub_token(combined(c).tokens, method)]),
    }
}

/// The tokens from index `i` on with every bracketed group replaced by a
/// sub-expression, where no bracket outside of the groups is at fault.
pub open spec fn grouped(tokens: Seq<TokenView>, i: int, input: Seq<char>) -> Result<
    Seq<TokenView>,
    ErrorView,
>
    decreases tokens.len(), 1nat, tokens.len() - i,
{
    if i < 0 || i >= tokens.len() {
        Ok(Seq::empty())
    } else if is_open_type(tokens[i].typ) {
        match matching_close(tokens, i) {
            None => Ok(Seq::empty()),
            Some(j) => {
                proof {
                    lemma_closing_index(tokens, i + 1, seq![tokens[i].typ]);
                }
                let inner = tokens.subrange(i + 1, j);
                match group_token(inner, has_open(inner), method_of(tokens[i].typ), input) {
                    Err(e) => Err(e),
                    Ok(g) => after(g, grouped(tokens, j + 1, input)),
                }
            },
        }
    } else {
        after(seq![tokens[i]], grouped(tokens, i + 1, input))
    }
}

/// A list of tokens with its bracketed groups resolved into
/// sub-expressions. The first bracket, outside of the groups before it,
/// that is not closed, closes nothing or closes a bracket of the other
/// family makes it fail, at the place after that bracket.
pub open spec fn resolved(tokens: Seq<TokenView>, input: Seq<char>) -> Result<
    Seq<TokenView>,
    ErrorView,
>
    decreases tokens.len(), 2nat, 0nat,
{
    match first_fault(tokens, 0) {
        Some(k) => Err(mismatched_parentheses_view(input, next_point(tokens[k].index.1) as int)),
        None => grouped(tokens, 0, input),
    }
}

/// The level that a pointer token points to among `count` levels.
pub open spec fn pointed_level(t: TokenView, count: int) -> Option<int> {
    match written_number(t.literal) {
        Some(level) => if level < count {
            Some(level as int)
        } else {
            None
        },
        None => None,
    }
}

/// The tokens of `row` from index `i` on with every pointer replaced by
/// the sub-expression of the level that it points to; a pointer to no
/// level is dropped.
pub open spec fn expand_row(
    levels: Seq<LevelView>,
    row: Seq<TokenView>,
    i: int,
    input: Seq<char>,
) -> Result<Seq<TokenView>, ErrorView>
    decreases row.len() - i,
{
    if i < 0 || i >= row.len() {
        Ok(Seq::empty())
    } else if row[i].typ != TokenType::POINTER {
        after(seq![row[i]], expand_row(levels, row, i + 1, input))
    } else {
        match pointed_level(row[i], levels.len() as int) {
            None => expand_row(levels, row, i + 1, input),
            Some(l) => match group_token(levels[l].0, levels[l].1, row[i].sub.method, input) {
                Err(e) => Err(e),
                Ok(g) => after(g, expand_row(levels, row, i + 1, input)),
            },
        }
    }
}

/// Level `point` of `levels` with its pointers replaced; nothing when
/// there is no such level.
pub open spec fn expanded(levels: Seq<LevelView>, point: int, input: Seq<char>) -> Result<
    Seq<TokenView>,
    ErrorView,
> {
    if 0 <= point < levels.len() {
        expand_row(levels, levels[point].0, 0, input)
    } else {
        Ok(Seq::empty())
    }
}

/// Whether a token is a left bracket.
fn is_open(t: &Token) -> (r: bool)
    ensures
        r == is_open_type(t.typ),
{
    t.is_lparen() || t.is_labs()
}

/// Whether a token is a right bracket.
fn is_close(t: &Token) -> (r: bool)
    ensures
        r == is_close_type(t.typ),
{
    t.is_rparen() || t.is_rabs()
}

/// The place after source position `end`, see [`next_point`].
fn next_place(end: i32) -> (r: i32)
    ensures
        r == next_point(end),
{
    if end < i32::MAX {
        end + 1
    } else {
        end
    }
}

/// A copy of the tokens with indices `from..to`, and whether a left
/// bracket is among them.
fn copy_range(tokens: &Vec<Token>, from: usize, to: usize) -> (r: (Vec<Token>, bool))
    requires
        from <= to <= tokens@.len(),
    ensures
        views(r.0@) == views(tokens@).subrange(from as int, to as int),
        r.1 == has_open(views(tokens@).subrange(from as int, to as int)),
{
    let mut out: Vec<Token> = Vec::new();
    let mut open: bool = false;
    let mut i: usize = from;
    let ghost all = views(tokens@);
    assert(views(out@) =~= all.subrange(from as int, from as int));
    while i < to
        invariant
            from <= i <= to,
            to <= tokens@.len(),
            all == views(tokens@),
            views(out@) == all.subrange(from as int, i as int),
            open == has_open(all.subrange(from as int, i as int)),
        decreases to - i,
    {
        let t = copy_token(&tokens[i]);
        proof {
            lemma_views_push(out@, t);
            let before = all.subrange(from as int, i as int);
            let now = all.subrange(from as int, i + 1);
            assert(now =~= before.push(all[i as int]));
            if has_open(before) {
                let k = choose|k: int|
                    0 <= k < before.len() && is_open_type(#[trigger] before[k].typ);
                assert(is_open_type(now[k].typ));
            }
            if is_open_type(all[i as int].typ) {
                assert(is_open_type(now[i - from].typ));
            }
            if has_open(now) {
                let k = choose|k: int| 0 <= k < now.len() && is_open_type(#[trigger] now[k].typ);
                if k < before.len() {
                    assert(is_open_type(before[k].typ));
                }
            }
        }
        if is_open(&tokens[i]) {
            open = true;
        }
        out.push(t);
        i += 1;
    }
    (out, open)
}

impl<'a> Lexer<'a> {
    /// The index of the right bracket that closes the left bracket at
    /// index `start`, see [`matching_close`].
    pub fn find_closing(tokens: &Vec<Token>, start: usize) -> (r: Option<usize>)
        ensures
            r.is_some() == matching_close(views(tokens@), start as int).is_some(),
            r.is_some() ==> r.unwrap() == matching_close(views(tokens@), start as int).unwrap()
                && start < r.unwrap() < tokens@.len(),
    {
        if start >= tokens.len() || !is_open(&tokens[start]) {
            return None;
        }
        let ghost all = views(tokens@);
        let mut open: Vec<usize> = Vec::new();
        let ghost mut kinds: Seq<TokenType> = seq![all[start as int].typ];
        open.push(start);
        let mut i: usize = start + 1;
        proof {
            lemma_closing_index(all, start + 1, seq![all[start as int].typ]);
        }
        while i < tokens.len()
            invariant
                start < i <= tokens@.len(),
                all == views(tokens@),
                open@.len() == kinds.len(),
                open@.len() >= 1,
                forall|k: int|
                    0 <= k < open@.len() ==> open@[k] < tokens@.len() && all[open@[k] as int].typ
                        == #[trigger] kinds[k],
                closing_index(all, i as int, kinds) == matching_close(all, start as int),
            decreases tokens@.len() - i,
        {
            let t = &tokens[i];
            if is_open(t) {
                open.push(i);
                proof {
                    kinds = kinds.push(t.typ);
                }
            } else if is_close(t) {
                let last: usize = open[open.len() - 1];
                assert(all[last as int].typ == kinds.last());
                if !tokens[last].matchto(t) {
                    return None;
                }
                if open.len() == 1 {
                    return Some(i);
                }
                open.pop();
                proof {
                    kinds = kinds.drop_last();
                }
            }
            i += 1;
        }
        None
    }

    /// The tokens inside the brackets that open at index `start`, the
    /// index of the closing bracket, and whether brackets are left among
    /// the tokens; `None` where the bracket is not closed as it should be,
    /// see [`matching_close`].
    pub fn take_till_end(tokens: &Vec<Token>, start: usize) -> (r: Option<
        (Vec<Token>, usize, bool),
    >)
        ensures
            match matching_close(views(tokens@), start as int) {
                None => r.is_none(),
                Some(j) => r.is_some() && r.unwrap().1 == j && start < j < tokens@.len() && views(
                    r.unwrap().0@,
                ) == views(tokens@).subrange(start + 1, j) && r.unwrap().2 == has_open(
                    views(tokens@).subrange(start + 1, j),
                ),
            },
    {
        match Lexer::find_closing(tokens, start) {
            None => None,
            Some(j) => {
                let (inner, open) = copy_range(tokens, start + 1, j);
                Some((inner, j, open))
            },
        }
    }

    /// Splits a list of tokens by nesting level, see [`nested`]. It fails
    /// at the first bracket, outside of the groups before it, that is not
    /// closed, closes nothing or closes a bracket of the other family.
    pub fn nest_parentheses(tokens: &Vec<Token>, input: &str) -> (r: Result<Vec<Level>, Error>)
        ensures
            match nested(views(tokens@)) {
                Ok(levels) => r.is_ok() && level_views(r.unwrap()@) == levels,
                Err(k) => r.is_err() && r.unwrap_err()@ == mismatched_parentheses_view(
                    input@,
                    next_point(tokens@[k].index.1) as int,
                ) && 0 <= k < tokens@.len(),
            },
    {
        let ghost all = views(tokens@);
        let mut row: Vec<Token> = Vec::new();
        let mut groups: Vec<Level> = Vec::new();
        let mut i: usize = 0;
        assert(views(row@) =~= Seq::<TokenView>::empty());
        assert(level_views(groups@) =~= Seq::<LevelView>::empty());
        while i < tokens.len()
            invariant
                i <= tokens@.len(),
                all == views(tokens@),
                groups@.len() <= i,
                nest_from(all, i as int, views(row@), level_views(groups@)) == nested(all),
            decreases tokens@.len() - i,
        {
            let t = &tokens[i];
            if is_open(t) {
                match Lexer::take_till_end(tokens, i) {
                    None => {
                        return Err(
                            Error::mismatched_parentheses(
                                String::from_str(input),
                                next_place(t.index.1),
                            ),
                        );
                    },
                    Some((inner, j, open)) => {
                        let pointer = Token::new_pointer(groups.len() + 1, t.to_submethod());
                        proof {
                            lemma_views_push(row@, pointer);
                            assert(level_views(groups@.push((inner, open))) =~= level_views(
                                groups@,
                            ).push((views(inner@), open)));
                        }
                        row.push(pointer);
                        groups.push((inner, open));
                        i = j + 1;
                    },
                }
            } else if is_close(t) {
                return Err(
                    Error::mismatched_parentheses(String::from_str(input), next_place(t.index.1)),
                );
            } else {
                let c = copy_token(t);
                proof {
                    lemma_views_push(row@, c);
                }
                row.push(c);
                i += 1;
            }
        }
        let ghost above = level_views(groups@);
        groups.insert(0, (row, false));
        assert(level_views(groups@) =~= seq![(views(row@), false)] + above);
        Ok(groups)
    }

    /// The index of the first bracket, outside of the groups before it,
    /// that is at fault, see [`first_fault`].
    pub fn find_fault(tokens: &Vec<Token>) -> (r: Option<usize>)
        ensures
            r.is_some() == first_fault(views(tokens@), 0).is_some(),
            r.is_some() ==> r.unwrap() == first_fault(views(tokens@), 0).unwrap() && r.unwrap()
                < tokens@.len(),
    {
        let ghost all = views(tokens@);
        let mut i: usize = 0;
        while i < tokens.len()
            invariant
                i <= tokens@.len(),
                all == views(tokens@),
                first_fault(all, i as int) == first_fault(all, 0),
            decreases tokens@.len() - i,
        {
            let t = &tokens[i];
            if is_open(t) {
                match Lexer::find_closing(tokens, i) {
                    None => {
                        return Some(i);
                    },
                    Some(j) => {
                        i = j + 1;
                    },
                }
            } else if is_close(t) {
                return Some(i);
            } else {
                i += 1;
            }
        }
        None
    }

    /// The sub-expression token of a bracketed group, see [`group_token`].
    fn group(content: &Vec<Token>, flagged: bool, method: SubMethod, input: &str) -> (r: Result<
        Token,
        Error,
    >)
        ensures
            match r {
                Ok(t) => group_token(views(content@), flagged, method, input@) == Ok::<
                    Seq<TokenView>,
                    ErrorView,
                >(seq![t@]),
                Err(e) => group_token(views(content@), flagged, method, input@) == Err::<
                    Seq<TokenView>,
                    ErrorView,
                >(e@),
            },
        decreases content@.len(), 2nat,
    {
        let inner = if flagged {
            match Lexer::resolve(content, input) {
                Err(e) => {
                    return Err(e);
                },
                Ok(v) => v,
            }
        } else {
            crate::token::copy_tokens(content)
        };
        let sub = Lexer::combine_tokens(inner);
        Ok(Token::new_sub(sub.tokens, method))
    }

    /// Replaces every bracketed group of a list of tokens by a
    /// sub-expression, see [`resolved`].
    pub fn resolve(tokens: &Vec<Token>, input: &str) -> (r: Result<Vec<Token>, Error>)
        ensures
            match r {
                Ok(v) => resolved(views(tokens@), input@) == Ok::<Seq<TokenView>, ErrorView>(
                    views(v@),
                ),
                Err(e) => resolved(views(tokens@), input@) == Err::<Seq<TokenView>, ErrorView>(e@),
            },
        decreases tokens@.len(), 1nat,
    {
        let ghost all = views(tokens@);
        match Lexer::find_fault(tokens) {
            Some(k) => {
                return Err(
                    Error::mismatched_parentheses(
                        String::from_str(input),
                        next_place(tokens[k].index.1),
                    ),
                );
            },
            None => {},
        }
        let mut out: Vec<Token> = Vec::new();
        let mut i: usize = 0;
        assert(views(out@) =~= Seq::<TokenView>::empty());
        assert(after(views(out@), grouped(all, 0, input@)) =~= grouped(all, 0, input@)) by {
            match grouped(all, 0, input@) {
                Ok(g) => {
                    assert(Seq::<TokenView>::empty() + g =~= g);
                },
                Err(e) => {},
            }
        }
        while i < tokens.len()
            invariant
                i <= tokens@.len(),
                all == views(tokens@),
                first_fault(all, 0).is_none(),
                after(views(out@), grouped(all, i as int, input@)) == grouped(all, 0, input@),
            decreases tokens@.len() - i,
        {
            let t = &tokens[i];
            let ghost seen = views(out@);
            if is_open(t) {
                match Lexer::take_till_end(tokens, i) {
                    None => {
                        assert(seen + Seq::<TokenView>::empty() =~= seen);
                        assert(grouped(all, i as int, input@) == Ok::<Seq<TokenView>, ErrorView>(
                            Seq::empty(),
                        ));
                        return Ok(out);
                    },
                    Some((inner, j, open)) => {
                        assert(views(inner@).len() == inner@.len());
                        assert(grouped(all, i as int, input@) == match group_token(
                            views(inner@),
                            open,
                            method_of(all[i as int].typ),
                            input@,
                        ) {
                            Err(e) => Err(e),
                            Ok(g) => after(g, grouped(all, j + 1, input@)),
                        });
                        match Lexer::group(&inner, open, t.to_submethod(), input) {
                            Err(e) => {
                                return Err(e);
                            },
                            Ok(g) => {
                                proof {
                                    lemma_views_push(out@, g);
                                    lemma_after_push(seen, g@, grouped(all, j + 1, input@));
                                }
                                out.push(g);
                                i = j + 1;
                            },
                        }
                    },
                }
            } else {
                let c = copy_token(t);
                proof {
                    lemma_views_push(out@, c);
                    lemma_after_push(seen, c@, grouped(all, i + 1, input@));
                    assert(grouped(all, i as int, input@) == after(
                        seq![all[i as int]],
                        grouped(all, i + 1, input@),
                    ));
                }
                out.push(c);
                i += 1;
            }
        }
        assert(views(out@) + Seq::<TokenView>::empty() =~= views(out@));
        Ok(out)
    }

    /// Replaces the pointers of level `point` by the sub-expressions of
    /// the levels that they point to, see [`expanded`].
    pub fn break_nesting(point: usize, nested: &Vec<Level>, input: &str) -> (r: Result<
        Vec<Token>,
        Error,
    >)
        ensures
            match r {
                Ok(v) => expanded(level_views(nested@), point as int, input@) == Ok::<
                    Seq<TokenView>,
                    ErrorView,
                >(views(v@)),
                Err(e) => expanded(level_views(nested@), point as int, input@) == Err::<
                    Seq<TokenView>,
                    ErrorView,
                >(e@),
            },
    {
        let mut out: Vec<Token> = Vec::new();
        assert(views(out@) =~= Seq::<TokenView>::empty());
        if point >= nested.len() {
            return Ok(out);
        }
        let ghost levels = level_views(nested@);
        let row = &nested[point].0;
        let ghost line = views(row@);
        let mut i: usize = 0;
        assert(after(views(out@), expand_row(levels, line, 0, input@)) =~= expand_row(
            levels,
            line,
            0,
            input@,
        )) by {
            match expand_row(levels, line, 0, input@) {
                Ok(g) => {
                    assert(Seq::<TokenView>::empty() + g =~= g);
                },
                Err(e) => {},
            }
        }
        while i < row.len()
            invariant
                i <= row@.len(),
                point < nested@.len(),
                levels == level_views(nested@),
                line == views(row@),
                line == levels[point as int].0,
                after(views(out@), expand_row(levels, line, i as int, input@)) == expand_row(
                    levels,
                    line,
                    0,
                    input@,
                ),
            decreases row@.len() - i,
        {
            let t = &row[i];
            let ghost seen = views(out@);
            if !t.is_pointer() {
                let c = copy_token(t);
                proof {
                    lemma_views_push(out@, c);
                    lemma_after_push(seen, c@, expand_row(levels, line, i + 1, input@));
                    assert(expand_row(levels, line, i as int, input@) == after(
                        seq![line[i as int]],
                        expand_row(levels, line, i + 1, input@),
                    ));
                }
                out.push(c);
            } else {
                let found = t.take_pointer_index();
                let count: usize = nested.len();
                assert(line[i as int].literal == t.literal@);
                assert(line[i as int].sub.method == t.sub.method);
                assert(levels.len() == nested@.len());
                assert((found.is_some() && found.unwrap() < nested@.len()) == pointed_level(
                    line[i as int],
                    levels.len() as int,
                ).is_some()) by {
                    assert(count == levels.len());
                }
                match found {
                    None => {},
                    Some(l) => {
                        if l < count {
                            assert(pointed_level(line[i as int], levels.len() as int) == Some(
                                l as int,
                            ));
                            assert(levels[l as int] == (
                                views(nested@[l as int].0@),
                                nested@[l as int].1,
                            ));
                            match Lexer::group(&nested[l].0, nested[l].1, t.sub.method, input) {
                                Err(e) => {
                                    return Err(e);
                                },
                                Ok(g) => {
                                    proof {
                                        lemma_views_push(out@, g);
                                        lemma_after_push(
                                            seen,
                                            g@,
                                            expand_row(levels, line, i + 1, input@),
                                        );
                                    }
                                    out.push(g);
                                },
                            }
                        }
                    },
                }
            }
            i += 1;
        }
        assert(views(out@) + Seq::<TokenView>::empty() =~= views(out@));
        Ok(out)
    }
}

/// None of the tokens is a pointer.
pub open spec fn no_pointers(tokens: Seq<TokenView>) -> bool {
    forall|i: int| 0 <= i < tokens.len() ==> (#[trigger] tokens[i]).typ != TokenType::POINTER
}

/// Splitting by levels and replacing the pointers gives, from index `i`
/// on, what resolving the groups one by one gives.
proof fn lemma_nest_from(
    tokens: Seq<TokenView>,
    i: int,
    row: Seq<TokenView>,
    groups: Seq<LevelView>,
    input: Seq<char>,
)
    requires
        0 <= i <= tokens.len(),
        no_pointers(tokens),
    ensures
        match first_fault(tokens, i) {
            Some(k) => nest_from(tokens, i, row, groups) == Err::<Seq<LevelView>, int>(k),
            None => nest_from(tokens, i, row, groups).is_ok() && ({
                let levels = nest_from(tokens, i, row, groups)->Ok_0;
                &&& levels.len() >= 1 + groups.len()
                &&& levels[0].0.len() >= row.len()
                &&& levels[0].0.subrange(0, row.len() as int) == row
                &&& forall|j: int| 0 <= j < groups.len() ==> #[trigger] levels[1 + j] == groups[j]
                &&& expand_row(levels, levels[0].0, row.len() as int, input) == grouped(
                    tokens,
                    i,
                    input,
                )
            }),
        },
    decreases tokens.len() - i,
{
    if i >= tokens.len() {
        let levels = seq![(row, false)] + groups;
        assert(levels[0].0 == row);
        assert(row.subrange(0, row.len() as int) =~= row);
        assert forall|j: int| 0 <= j < groups.len() implies #[trigger] levels[1 + j]
            == groups[j] by {}
    } else if is_open_type(tokens[i].typ) {
        match matching_close(tokens, i) {
            None => {},
            Some(j) => {
                lemma_closing_index(tokens, i + 1, seq![tokens[i].typ]);
                let inner = tokens.subrange(i + 1, j);
                let level = (groups.len() + 1) as nat;
                let pointer = pointer_token(level, method_of(tokens[i].typ));
                let group = (inner, has_open(inner));
                let row2 = row.push(pointer);
                let groups2 = groups.push(group);
                lemma_nest_from(tokens, j + 1, row2, groups2, input);
                if first_fault(tokens, j + 1).is_none() {
                    let levels = nest_from(tokens, j + 1, row2, groups2)->Ok_0;
                    let line = levels[0].0;
                    assert(line.subrange(0, row2.len() as int)[row.len() as int] == pointer);
                    assert(line[row.len() as int] == pointer);
                    assert(line.subrange(0, row.len() as int) =~= row) by {
                        assert(line.subrange(0, row2.len() as int).subrange(0, row.len() as int)
                            =~= line.subrange(0, row.len() as int));
                        assert(row2.subrange(0, row.len() as int) =~= row);
                    }
                    assert(levels[1 + groups.len() as int] == groups2[groups.len() as int]);
                    assert forall|k: int| 0 <= k < groups.len() implies #[trigger] levels[1 + k]
                        == groups[k] by {
                        assert(levels[1 + k] == groups2[k]);
                    }
                    crate::token::lemma_written_round_trip(level);
                    assert(pointed_level(pointer, levels.len() as int) == Some(level as int));
                    assert(levels[level as int] == group);
                }
            },
        }
    } else if is_close_type(tokens[i].typ) {
    } else {
        let row2 = row.push(tokens[i]);
        lemma_nest_from(tokens, i + 1, row2, groups, input);
        if first_fault(tokens, i + 1).is_none() {
            let levels = nest_from(tokens, i + 1, row2, groups)->Ok_0;
            let line = levels[0].0;
            assert(line.subrange(0, row2.len() as int)[row.len() as int] == tokens[i]);
            assert(line[row.len() as int] == tokens[i]);
            assert(line.subrange(0, row.len() as int) =~= row) by {
                assert(line.subrange(0, row2.len() as int).subrange(0, row.len() as int)
                    =~= line.subrange(0, row.len() as int));
                assert(row2.subrange(0, row.len() as int) =~= row);
            }
        }
    }
}

/// Splitting a list of tokens by nesting level and then replacing the
/// pointers of level 0 resolves the bracketed groups of the list: both
/// ways fail at the same bracket, and where they do not fail they give
/// the same tokens. The list must hold no pointers of its own.
pub proof fn lemma_levels_resolve(tokens: Seq<TokenView>, input: Seq<char>)
    requires
        no_pointers(tokens),
    ensures
        match nested(tokens) {
            Err(k) => 0 <= k < tokens.len() && resolved(tokens, input) == Err::<
                Seq<TokenView>,
                ErrorView,
            >(mismatched_parentheses_view(input, next_point(tokens[k].index.1) as int)),
            Ok(levels) => expanded(levels, 0, input) == resolved(tokens, input),
        },
{
    lemma_nest_from(tokens, 0, Seq::empty(), Seq::empty(), input);
    lemma_first_fault(tokens, 0);
}

/// A bracket at fault stands inside the tokens.
pub proof fn lemma_first_fault(tokens: Seq<TokenView>, i: int)
    requires
        0 <= i,
    ensures
        first_fault(tokens, i).is_some() ==> i <= first_fault(tokens, i).unwrap() < tokens.len(),
    decreases tokens.len() - i,
{
    if i < tokens.len() {
        if is_open_type(tokens[i].typ) {
            match matching_close(tokens, i) {
                None => {},
                Some(j) => {
                    lemma_closing_index(tokens, i + 1, seq![tokens[i].typ]);
                    lemma_first_fault(tokens, j + 1);
                },
            }
        } else if !is_close_type(tokens[i].typ) {
            lemma_first_fault(tokens, i + 1);
        }
    }
}

/// One more token at the end of what has been gathered stands before the
/// rest.
pub proof fn lemma_after_push(
    acc: Seq<TokenView>,
    t: TokenView,
    rest: Result<Seq<TokenView>, ErrorView>,
)
    ensures
        after(acc.push(t), rest) == after(acc, after(seq![t], rest)),
{
    match rest {
        Ok(r) => {
            assert(acc.push(t) + r =~= acc + (seq![t] + r));
        },
        Err(e) => {},
    }
}

} // verus!
