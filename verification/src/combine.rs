//! The combiner: tokens are regrouped by operator precedence.
//!
//! The tokens of one nesting level, with their bracketed groups resolved,
//! pass through five steps. A function is bound to its argument and a
//! factorial mark to its operand; a product sign is put between operands
//! that stand side by side; chains of powers are grouped and folded from
//! the right; chains of products, quotients and percentages are grouped.
//! Sums and differences stay at the top, so they bind weakest.

use crate::lexer::Lexer;
use crate::token::{
    atom, copy_slice, copy_token, is_function_type, lemma_token_view, lemma_views_push, sub_token,
    unknown, views, Sub, SubMethod, SubView, Token, TokenType, TokenView,
};
use vstd::prelude::*;
use vstd::string::*;

verus! {

broadcast use lemma_token_view;

/// A number or a sub-expression.
pub open spec fn is_solid(t: TokenView) -> bool {
    t.typ == TokenType::NUMBER || t.typ == TokenType::SUBEXP
}

/// A token that stands for a value: a number, a sub-expression or a
/// variable.
pub open spec fn is_operand(t: TokenView) -> bool {
    is_solid(t) || t.typ == TokenType::IDENTIFIER
}

/// Whether an operator of kind `typ` joins the operands of a chain: of a
/// chain of powers the power sign, of a chain of products the signs of
/// product, quotient and percentage.
pub open spec fn joins(typ: TokenType, power: bool) -> bool {
    if power {
        typ == TokenType::POWER
    } else {
        typ == TokenType::PRODUCT || typ == TokenType::DIVIDE || typ == TokenType::PERCENTAGE
    }
}

/// The token that binds `first` and `second` into one operand.
pub open spec fn bound(first: TokenView, second: TokenView) -> TokenView {
    sub_token(seq![first, second], SubMethod::PAREN)
}

/// The product sign that is put between two operands.
pub open spec fn product_token() -> TokenView {
    atom(TokenType::PRODUCT, seq!['*'], unknown())
}

/// The tokens from index `i` on with every function bound to the number
/// or sub-expression that follows it.
pub open spec fn bind_functions(tokens: Seq<TokenView>, i: int) -> Seq<TokenView>
    decreases tokens.len() - i,
{
    if i < 0 || i >= tokens.len() {
        Seq::empty()
    } else if is_function_type(tokens[i].typ) && i + 1 < tokens.len() && is_solid(tokens[i + 1]) {
        seq![bound(tokens[i], tokens[i + 1])] + bind_functions(tokens, i + 2)
    } else {
        seq![tokens[i]] + bind_functions(tokens, i + 1)
    }
}

/// The tokens from index `i` on with every factorial mark bound to the
/// number or sub-expression before it.
pub open spec fn bind_factorials(tokens: Seq<TokenView>, i: int) -> Seq<TokenView>
    decreases tokens.len() - i,
{
    if i < 0 || i >= tokens.len() {
        Seq::empty()
    } else if is_solid(tokens[i]) && i + 1 < tokens.len() && tokens[i + 1].typ
        == TokenType::FACTORIAL {
        seq![bound(tokens[i], tokens[i + 1])] + bind_factorials(tokens, i + 2)
    } else {
        seq![tokens[i]] + bind_factorials(tokens, i + 1)
    }
}

/// The tokens from index `i` on with a product sign between every two
/// neighbours that are numbers or sub-expressions.
pub open spec fn insert_products(tokens: Seq<TokenView>, i: int) -> Seq<TokenView>
    decreases tokens.len() - i,
{
    if i < 0 || i >= tokens.len() {
        Seq::empty()
    } else if i + 1 < tokens.len() && is_solid(tokens[i]) && is_solid(tokens[i + 1]) {
        seq![tokens[i], product_token()] + insert_products(tokens, i + 1)
    } else {
        seq![tokens[i]] + insert_products(tokens, i + 1)
    }
}

/// The index just after the longest chain `operand (sign operand)*` that
/// starts with the operand at index `i`.
pub open spec fn chain_end(tokens: Seq<TokenView>, i: int, power: bool) -> int
    decreases tokens.len() - i,
{
    if 0 <= i && i + 2 < tokens.len() && joins(tokens[i + 1].typ, power) && is_operand(
        tokens[i + 2],
    ) {
        chain_end(tokens, i + 2, power)
    } else {
        i + 1
    }
}

/// A chain of powers folded from the right: `a ^ b ^ c ^ d` becomes
/// `a ^ (b ^ (c ^ d))`.
pub open spec fn fold_powers(chain: Seq<TokenView>) -> Seq<TokenView>
    decreases chain.len(),
{
    if chain.len() <= 3 {
        chain
    } else {
        seq![
            chain[0],
            chain[1],
            sub_token(fold_powers(chain.subrange(2, chain.len() as int)), SubMethod::PAREN),
        ]
    }
}

/// The chain that ends at index `start`: the tokens up to that index,
/// all of them where there is no such index.
pub open spec fn chain_up_to(tokens: Seq<TokenView>, start: int) -> Seq<TokenView> {
    if 0 <= start < tokens.len() {
        tokens.subrange(0, start + 1)
    } else {
        tokens
    }
}

/// What a chain is grouped into: a chain of powers is folded, a chain of
/// products is kept as it stands, to be reduced from left to right.
pub open spec fn chain_tokens(chain: Seq<TokenView>, power: bool) -> Seq<TokenView> {
    if power {
        fold_powers(chain)
    } else {
        chain
    }
}

/// The tokens from index `i` on with every chain of two operands or more
/// replaced by one sub-expression.
pub open spec fn group_chains(tokens: Seq<TokenView>, i: int, power: bool) -> Seq<TokenView>
    decreases tokens.len() - i,
{
    if i < 0 || i >= tokens.len() {
        Seq::empty()
    } else if is_operand(tokens[i]) && chain_end(tokens, i, power) > i + 1 {
        let end = chain_end(tokens, i, power);
        proof {
            lemma_chain_end(tokens, i, power);
        }
        seq![sub_token(chain_tokens(tokens.subrange(i, end), power), SubMethod::PAREN)]
            + group_chains(tokens, end, power)
    } else {
        seq![tokens[i]] + group_chains(tokens, i + 1, power)
    }
}

/// The tokens after the binding of functions and factorials and the
/// insertion of product signs.
pub open spec fn bound_tokens(tokens: Seq<TokenView>) -> Seq<TokenView> {
    insert_products(bind_factorials(bind_functions(tokens, 0), 0), 0)
}

/// The tokens regrouped by precedence. Where the whole of them is one
/// chain, the chain is not wrapped into a sub-expression of its own.
pub open spec fn combined(tokens: Seq<TokenView>) -> SubView {
    let flat = bound_tokens(tokens);
    let grouped = group_chains(group_chains(flat, 0, true), 0, false);
    SubView {
        tokens: if grouped.len() == 1 && flat.len() > 1 {
            grouped[0].sub.tokens
        } else {
            grouped
        },
        method: SubMethod::PAREN,
    }
}

/// A chain ends inside the tokens, after its first operand.
pub proof fn lemma_chain_end(tokens: Seq<TokenView>, i: int, power: bool)
    requires
        0 <= i < tokens.len(),
    ensures
        i < chain_end(tokens, i, power) <= tokens.len(),
    decreases tokens.len() - i,
{
    if i + 2 < tokens.len() && joins(tokens[i + 1].typ, power) && is_operand(tokens[i + 2]) {
        lemma_chain_end(tokens, i + 2, power);
    }
}

/// Whether a token is a number or a sub-expression.
fn solid(t: &Token) -> (r: bool)
    ensures
        r == is_solid(t@),
{
    t.typ == TokenType::NUMBER || t.typ == TokenType::SUBEXP
}

/// Whether a token stands for a value.
fn operand(t: &Token) -> (r: bool)
    ensures
        r == is_operand(t@),
{
    t.typ == TokenType::NUMBER || t.typ == TokenType::SUBEXP || t.typ == TokenType::IDENTIFIER
}

/// Whether a token joins the operands of a chain, see [`joins`].
fn joining(t: &Token, power: bool) -> (r: bool)
    ensures
        r == joins(t@.typ, power),
{
    if power {
        t.is_root()
    } else {
        t.typ == TokenType::PRODUCT || t.typ == TokenType::DIVIDE || t.typ
            == TokenType::PERCENTAGE
    }
}

/// The sub-expression that binds two tokens into one operand.
fn bind(first: &Token, second: &Token) -> (r: Token)
    ensures
        r@ == bound(first@, second@),
{
    let mut pair: Vec<Token> = Vec::new();
    pair.push(copy_token(first));
    pair.push(copy_token(second));
    assert(views(pair@) =~= seq![first@, second@]);
    Token::new_sub(pair, SubMethod::PAREN)
}

impl<'a> Lexer<'a> {
    /// Binds every function to the number or sub-expression that follows
    /// it, and then every factorial mark to the number or sub-expression
    /// before it, a bound function among them, see [`bind_functions`] and
    /// [`bind_factorials`]. What is bound is one operand from then on.
    pub fn combine_function_calls(tokens: &Vec<Token>) -> (r: Vec<Token>)
        ensures
            views(r@) == bind_factorials(bind_functions(views(tokens@), 0), 0),
    {
        let called = Lexer::bind_calls(tokens);
        Lexer::combine_factorials(&called)
    }

    /// Binds every function to the number or sub-expression that follows
    /// it, see [`bind_functions`].
    fn bind_calls(tokens: &Vec<Token>) -> (r: Vec<Token>)
        ensures
            views(r@) == bind_functions(views(tokens@), 0),
    {
        let ghost all = views(tokens@);
        let mut out: Vec<Token> = Vec::new();
        let mut i: usize = 0;
        assert(views(out@) + bind_functions(all, 0) =~= bind_functions(all, 0));
        while i < tokens.len()
            invariant
                i <= tokens@.len(),
                all == views(tokens@),
                views(out@) + bind_functions(all, i as int) == bind_functions(all, 0),
            decreases tokens@.len() - i,
        {
            let ghost seen = views(out@);
            if tokens[i].is_function() && i + 1 < tokens.len() && solid(&tokens[i + 1]) {
                let t = bind(&tokens[i], &tokens[i + 1]);
                proof {
                    lemma_views_push(out@, t);
                    assert(seen.push(t@) + bind_functions(all, i + 2) =~= seen + bind_functions(
                        all,
                        i as int,
                    ));
                }
                out.push(t);
                i += 2;
            } else {
                let t = copy_token(&tokens[i]);
                proof {
                    lemma_views_push(out@, t);
                    assert(seen.push(t@) + bind_functions(all, i + 1) =~= seen + bind_functions(
                        all,
                        i as int,
                    ));
                }
                out.push(t);
                i += 1;
            }
        }
        assert(views(out@) + Seq::<TokenView>::empty() =~= views(out@));
        out
    }

    /// Binds every factorial mark to the number or sub-expression before
    /// it, see [`bind_factorials`].
    pub fn combine_factorials(tokens: &Vec<Token>) -> (r: Vec<Token>)
        ensures
            views(r@) == bind_factorials(views(tokens@), 0),
    {
        let ghost all = views(tokens@);
        let mut out: Vec<Token> = Vec::new();
        let mut i: usize = 0;
        assert(views(out@) + bind_factorials(all, 0) =~= bind_factorials(all, 0));
        while i < tokens.len()
            invariant
                i <= tokens@.len(),
                all == views(tokens@),
                views(out@) + bind_factorials(all, i as int) == bind_factorials(all, 0),
            decreases tokens@.len() - i,
        {
            let ghost seen = views(out@);
            if solid(&tokens[i]) && i + 1 < tokens.len() && tokens[i + 1].is_factorial() {
                let t = bind(&tokens[i], &tokens[i + 1]);
                proof {
                    lemma_views_push(out@, t);
                    assert(seen.push(t@) + bind_factorials(all, i + 2) =~= seen + bind_factorials(
                        all,
                        i as int,
                    ));
                }
                out.push(t);
                i += 2;
            } else {
                let t = copy_token(&tokens[i]);
                proof {
                    lemma_views_push(out@, t);
                    assert(seen.push(t@) + bind_factorials(all, i + 1) =~= seen + bind_factorials(
                        all,
                        i as int,
                    ));
                }
                out.push(t);
                i += 1;
            }
        }
        assert(views(out@) + Seq::<TokenView>::empty() =~= views(out@));
        out
    }

    /// Puts a product sign between every two neighbours that are numbers
    /// or sub-expressions, see [`insert_products`].
    pub fn combine_neighbours(tokens: &Vec<Token>) -> (r: Vec<Token>)
        ensures
            views(r@) == insert_products(views(tokens@), 0),
    {
        let ghost all = views(tokens@);
        let mut out: Vec<Token> = Vec::new();
        let mut i: usize = 0;
        assert(views(out@) + insert_products(all, 0) =~= insert_products(all, 0));
        while i < tokens.len()
            invariant
                i <= tokens@.len(),
                all == views(tokens@),
                views(out@) + insert_products(all, i as int) == insert_products(all, 0),
            decreases tokens@.len() - i,
        {
            let ghost seen = views(out@);
            let t = copy_token(&tokens[i]);
            proof {
                lemma_views_push(out@, t);
            }
            out.push(t);
            if i + 1 < tokens.len() && solid(&tokens[i]) && solid(&tokens[i + 1]) {
                let sign = Token::new(
                    TokenType::PRODUCT,
                    String::from_str("*"),
                    Sub::empty(),
                    Token::unknown_index(),
                );
                proof {
                    reveal_strlit("*");
                    assert(sign.literal@ =~= seq!['*']);
                    assert(sign@ == product_token());
                    lemma_views_push(out@, sign);
                    assert(seen.push(t@).push(sign@) + insert_products(all, i + 1) =~= seen
                        + insert_products(all, i as int));
                }
                out.push(sign);
            } else {
                assert(seen.push(t@) + insert_products(all, i + 1) =~= seen + insert_products(
                    all,
                    i as int,
                ));
            }
            i += 1;
        }
        assert(views(out@) + Seq::<TokenView>::empty() =~= views(out@));
        out
    }

    /// Folds a chain of powers from the right, see [`fold_powers`]. The
    /// chain is made up of the tokens up to index `start`, its right end;
    /// for the whole of the tokens `start` is the last index.
    pub fn combine_powers(tokens: &Vec<Token>, start: usize) -> (r: Vec<Token>)
        ensures
            views(r@) == fold_powers(chain_up_to(views(tokens@), start as int)),
    {
        let n: usize = tokens.len();
        let end: usize = if start < n {
            start + 1
        } else {
            n
        };
        assert(views(tokens@).subrange(0, end as int) =~= chain_up_to(
            views(tokens@),
            start as int,
        ));
        Lexer::fold_chain(tokens, 0, end)
    }

    /// Folds the chain of powers that the tokens with the indices
    /// `from..end` make up, from the right.
    fn fold_chain(tokens: &Vec<Token>, from: usize, end: usize) -> (r: Vec<Token>)
        requires
            from <= end <= tokens@.len(),
        ensures
            views(r@) == fold_powers(views(tokens@).subrange(from as int, end as int)),
        decreases end - from,
    {
        let ghost chain = views(tokens@).subrange(from as int, end as int);
        if end - from <= 3 {
            return copy_slice(tokens, from, end);
        }
        let mut out: Vec<Token> = Vec::new();
        out.push(copy_token(&tokens[from]));
        out.push(copy_token(&tokens[from + 1]));
        let rest = Lexer::fold_chain(tokens, from + 2, end);
        assert(chain.subrange(2, chain.len() as int) =~= views(tokens@).subrange(
            from + 2,
            end as int,
        ));
        let inner = Token::new_sub(rest, SubMethod::PAREN);
        out.push(inner);
        assert(views(out@) =~= fold_powers(chain));
        out
    }

    /// The index just after the chain that starts with the operand at
    /// index `i`, see [`chain_end`].
    fn find_chain_end(tokens: &Vec<Token>, i: usize, power: bool) -> (r: usize)
        requires
            i < tokens@.len(),
        ensures
            r == chain_end(views(tokens@), i as int, power),
            i < r <= tokens@.len(),
    {
        let ghost all = views(tokens@);
        let n: usize = tokens.len();
        let mut k: usize = i;
        proof {
            lemma_chain_end(all, i as int, power);
        }
        while n - k > 2 && joining(&tokens[k + 1], power) && operand(&tokens[k + 2])
            invariant
                i <= k < n,
                n == tokens@.len(),
                all == views(tokens@),
                chain_end(all, k as int, power) == chain_end(all, i as int, power),
            decreases n - k,
        {
            k += 2;
        }
        k + 1
    }

    /// Replaces every chain of two operands or more by one
    /// sub-expression, see [`group_chains`].
    pub fn combine_chains(tokens: &Vec<Token>, power: bool) -> (r: Vec<Token>)
        ensures
            views(r@) == group_chains(views(tokens@), 0, power),
    {
        let ghost all = views(tokens@);
        let mut out: Vec<Token> = Vec::new();
        let mut i: usize = 0;
        assert(views(out@) + group_chains(all, 0, power) =~= group_chains(all, 0, power));
        while i < tokens.len()
            invariant
                i <= tokens@.len(),
                all == views(tokens@),
                views(out@) + group_chains(all, i as int, power) == group_chains(all, 0, power),
            decreases tokens@.len() - i,
        {
            let ghost seen = views(out@);
            let end: usize = if operand(&tokens[i]) {
                Lexer::find_chain_end(tokens, i, power)
            } else {
                i + 1
            };
            if end > i + 1 {
                let chain = copy_slice(tokens, i, end);
                let inner = if power {
                    assert(views(chain@).len() == chain@.len());
                    assert(views(chain@).subrange(0, chain@.len() as int) =~= views(chain@));
                    Lexer::combine_powers(&chain, chain.len() - 1)
                } else {
                    chain
                };
                let t = Token::new_sub(inner, SubMethod::PAREN);
                proof {
                    lemma_views_push(out@, t);
                    assert(seen.push(t@) + group_chains(all, end as int, power) =~= seen
                        + group_chains(all, i as int, power));
                }
                out.push(t);
                i = end;
            } else {
                let t = copy_token(&tokens[i]);
                proof {
                    lemma_views_push(out@, t);
                    assert(seen.push(t@) + group_chains(all, i + 1, power) =~= seen + group_chains(
                        all,
                        i as int,
                        power,
                    ));
                }
                out.push(t);
                i += 1;
            }
        }
        assert(views(out@) + Seq::<TokenView>::empty() =~= views(out@));
        out
    }

    /// Regroups the tokens of one nesting level by precedence, see
    /// [`combined`].
    pub fn combine_tokens(tokens: Vec<Token>) -> (r: Sub)
        ensures
            r@ == combined(views(tokens@)),
    {
        let marked = Lexer::combine_function_calls(&tokens);
        let flat = Lexer::combine_neighbours(&marked);
        let powers = Lexer::combine_chains(&flat, true);
        let mut grouped = Lexer::combine_chains(&powers, false);
        assert(views(flat@).len() == flat@.len());
        assert(views(grouped@).len() == grouped@.len());
        if grouped.len() == 1 && flat.len() > 1 {
            let ghost whole = grouped@[0];
            assert(views(grouped@)[0] == whole@);
            match grouped.pop() {
                Some(t) => Sub::new(t.sub.tokens, SubMethod::PAREN),
                None => Sub::empty(),
            }
        } else {
            Sub::new(grouped, SubMethod::PAREN)
        }
    }
}

} // verus!
