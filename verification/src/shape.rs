//! What the lexer leaves in a tree.
//!
//! Brackets and pointers are means of the nester. Once a source text is
//! lexed, none is left: every bracket has become a sub-expression, and
//! no pointer stands in the tree, at any depth.

use crate::combine::{
    bind_factorials, bind_functions, bound_tokens, chain_end, chain_tokens, combined, fold_powers,
    group_chains, insert_products, is_operand, is_solid, lemma_chain_end, product_token,
};
use crate::lexer::{lemma_scan_no_pointers, lexed, scanned};
use crate::nesting::{
    closing_index, first_fault, group_token, grouped, has_open, is_close_type, is_open_type,
    lemma_closing_index, matching_close, no_pointers, resolved,
};
use crate::token::{is_function_type, sub_token, SubMethod, TokenType, TokenView};
use vstd::prelude::*;

verus! {

/// Whether a token is no bracket and no pointer, and holds none at any
/// depth.
pub open spec fn settled(t: TokenView) -> bool
    decreases t,
{
    &&& !is_open_type(t.typ)
    &&& !is_close_type(t.typ)
    &&& t.typ != TokenType::POINTER
    &&& forall|i: int| 0 <= i < t.sub.tokens.len() ==> settled(#[trigger] t.sub.tokens[i])
}

/// Whether all of the tokens are settled.
pub open spec fn all_settled(tokens: Seq<TokenView>) -> bool {
    forall|i: int| 0 <= i < tokens.len() ==> settled(#[trigger] tokens[i])
}

/// Settled tokens side by side are settled.
proof fn lemma_settled_add(a: Seq<TokenView>, b: Seq<TokenView>)
    requires
        all_settled(a),
        all_settled(b),
    ensures
        all_settled(a + b),
{
    assert forall|i: int| 0 <= i < (a + b).len() implies settled(#[trigger] (a + b)[i]) by {
        if i < a.len() {
            assert((a + b)[i] == a[i]);
        } else {
            assert((a + b)[i] == b[i - a.len()]);
        }
    }
}

/// A part of settled tokens is settled.
proof fn lemma_settled_subrange(tokens: Seq<TokenView>, a: int, b: int)
    requires
        all_settled(tokens),
        0 <= a <= b <= tokens.len(),
    ensures
        all_settled(tokens.subrange(a, b)),
{
    assert forall|i: int| 0 <= i < b - a implies settled(#[trigger] tokens.subrange(a, b)[i]) by {
        assert(tokens.subrange(a, b)[i] == tokens[a + i]);
    }
}

/// A sub-expression of settled tokens is settled.
proof fn lemma_settled_sub(tokens: Seq<TokenView>, method: SubMethod)
    requires
        all_settled(tokens),
    ensures
        all_settled(seq![sub_token(tokens, method)]),
{
    let t = sub_token(tokens, method);
    assert(settled(t));
    assert forall|i: int| 0 <= i < 1 implies settled(#[trigger] seq![t][i]) by {}
}

/// A single settled token is a settled list.
proof fn lemma_settled_one(t: TokenView)
    requires
        settled(t),
    ensures
        all_settled(seq![t]),
{
    assert forall|i: int| 0 <= i < 1 implies settled(#[trigger] seq![t][i]) by {}
}

/// Binding functions brings no bracket and no pointer.
proof fn lemma_bind_functions_settled(tokens: Seq<TokenView>, i: int)
    requires
        all_settled(tokens),
        0 <= i,
    ensures
        all_settled(bind_functions(tokens, i)),
    decreases tokens.len() - i,
{
    if i < tokens.len() {
        if is_function_type(tokens[i].typ) && i + 1 < tokens.len() && is_solid(tokens[i + 1]) {
            lemma_bind_functions_settled(tokens, i + 2);
            lemma_settled_subrange(tokens, i, i + 2);
            assert(tokens.subrange(i, i + 2) =~= seq![tokens[i], tokens[i + 1]]);
            lemma_settled_sub(seq![tokens[i], tokens[i + 1]], SubMethod::PAREN);
            lemma_settled_add(
                seq![sub_token(seq![tokens[i], tokens[i + 1]], SubMethod::PAREN)],
                bind_functions(tokens, i + 2),
            );
        } else {
            lemma_bind_functions_settled(tokens, i + 1);
            lemma_settled_one(tokens[i]);
            lemma_settled_add(seq![tokens[i]], bind_functions(tokens, i + 1));
        }
    }
}

/// Binding factorial marks brings no bracket and no pointer.
proof fn lemma_bind_factorials_settled(tokens: Seq<TokenView>, i: int)
    requires
        all_settled(tokens),
        0 <= i,
    ensures
        all_settled(bind_factorials(tokens, i)),
    decreases tokens.len() - i,
{
    if i < tokens.len() {
        if is_solid(tokens[i]) && i + 1 < tokens.len() && tokens[i + 1].typ
            == TokenType::FACTORIAL {
            lemma_bind_factorials_settled(tokens, i + 2);
            lemma_settled_subrange(tokens, i, i + 2);
            assert(tokens.subrange(i, i + 2) =~= seq![tokens[i], tokens[i + 1]]);
            lemma_settled_sub(seq![tokens[i], tokens[i + 1]], SubMethod::PAREN);
            lemma_settled_add(
                seq![sub_token(seq![tokens[i], tokens[i + 1]], SubMethod::PAREN)],
                bind_factorials(tokens, i + 2),
            );
        } else {
            lemma_bind_factorials_settled(tokens, i + 1);
            lemma_settled_one(tokens[i]);
            lemma_settled_add(seq![tokens[i]], bind_factorials(tokens, i + 1));
        }
    }
}

/// A product sign is no bracket and no pointer.
proof fn lemma_insert_products_settled(tokens: Seq<TokenView>, i: int)
    requires
        all_settled(tokens),
        0 <= i,
    ensures
        all_settled(insert_products(tokens, i)),
    decreases tokens.len() - i,
{
    if i < tokens.len() {
        lemma_insert_products_settled(tokens, i + 1);
        lemma_settled_one(tokens[i]);
        if i + 1 < tokens.len() && is_solid(tokens[i]) && is_solid(tokens[i + 1]) {
            assert(settled(product_token()));
            lemma_settled_one(product_token());
            lemma_settled_add(seq![tokens[i]], seq![product_token()]);
            assert(seq![tokens[i]] + seq![product_token()] =~= seq![tokens[i], product_token()]);
            lemma_settled_add(seq![tokens[i], product_token()], insert_products(tokens, i + 1));
        } else {
            lemma_settled_add(seq![tokens[i]], insert_products(tokens, i + 1));
        }
    }
}

/// Folding powers brings no bracket and no pointer.
proof fn lemma_fold_powers_settled(chain: Seq<TokenView>)
    requires
        all_settled(chain),
    ensures
        all_settled(fold_powers(chain)),
    decreases chain.len(),
{
    if chain.len() > 3 {
        let rest = chain.subrange(2, chain.len() as int);
        lemma_settled_subrange(chain, 2, chain.len() as int);
        lemma_fold_powers_settled(rest);
        lemma_settled_sub(fold_powers(rest), SubMethod::PAREN);
        lemma_settled_subrange(chain, 0, 2);
        assert(chain.subrange(0, 2) =~= seq![chain[0], chain[1]]);
        lemma_settled_add(
            seq![chain[0], chain[1]],
            seq![sub_token(fold_powers(rest), SubMethod::PAREN)],
        );
        assert(seq![chain[0], chain[1]] + seq![sub_token(fold_powers(rest), SubMethod::PAREN)]
            =~= fold_powers(chain));
    }
}

/// Grouping chains brings no bracket and no pointer.
proof fn lemma_group_chains_settled(tokens: Seq<TokenView>, i: int, power: bool)
    requires
        all_settled(tokens),
        0 <= i,
    ensures
        all_settled(group_chains(tokens, i, power)),
    decreases tokens.len() - i,
{
    if i < tokens.len() {
        lemma_chain_end(tokens, i, power);
        let end = chain_end(tokens, i, power);
        if is_operand(tokens[i]) && end > i + 1 {
            let chain = tokens.subrange(i, end);
            lemma_settled_subrange(tokens, i, end);
            if power {
                lemma_fold_powers_settled(chain);
            }
            lemma_settled_sub(chain_tokens(chain, power), SubMethod::PAREN);
            lemma_group_chains_settled(tokens, end, power);
            lemma_settled_add(
                seq![sub_token(chain_tokens(chain, power), SubMethod::PAREN)],
                group_chains(tokens, end, power),
            );
        } else {
            lemma_group_chains_settled(tokens, i + 1, power);
            lemma_settled_one(tokens[i]);
            lemma_settled_add(seq![tokens[i]], group_chains(tokens, i + 1, power));
        }
    }
}

/// Regrouping by precedence brings no bracket and no pointer.
pub proof fn lemma_combined_settled(tokens: Seq<TokenView>)
    requires
        all_settled(tokens),
    ensures
        all_settled(combined(tokens).tokens),
{
    lemma_bind_functions_settled(tokens, 0);
    let called = bind_functions(tokens, 0);
    lemma_bind_factorials_settled(called, 0);
    let marked = bind_factorials(called, 0);
    lemma_insert_products_settled(marked, 0);
    let flat = insert_products(marked, 0);
    assert(flat == bound_tokens(tokens));
    lemma_group_chains_settled(flat, 0, true);
    let powers = group_chains(flat, 0, true);
    lemma_group_chains_settled(powers, 0, false);
    let grouped = group_chains(powers, 0, false);
    if grouped.len() == 1 && flat.len() > 1 {
        assert(settled(grouped[0]));
    }
}

/// Tokens that are atoms, none of them a pointer.
pub open spec fn plain(tokens: Seq<TokenView>) -> bool {
    no_pointers(tokens) && forall|i: int|
        0 <= i < tokens.len() ==> (#[trigger] tokens[i]).sub.tokens.len() == 0
}

/// Between a left bracket and the bracket that closes it, right brackets
/// stand only after left brackets of their own.
proof fn lemma_no_close_without_open(
    tokens: Seq<TokenView>,
    i: int,
    open: Seq<TokenType>,
    k: int,
)
    requires
        0 <= i <= k,
        open.len() == 1,
        closing_index(tokens, i, open).is_some(),
        k < closing_index(tokens, i, open).unwrap(),
        forall|m: int| i <= m <= k ==> !is_open_type(#[trigger] tokens[m].typ),
    ensures
        !is_close_type(tokens[k].typ),
    decreases k - i,
{
    lemma_closing_index(tokens, i, open);
    if i < k {
        assert(!is_open_type(tokens[i].typ));
        lemma_no_close_without_open(tokens, i + 1, open, k);
    } else {
        assert(!is_open_type(tokens[i].typ));
    }
}

/// What is inside a pair of brackets, if no left bracket is in it, holds
/// no bracket at all.
proof fn lemma_inner_settled(tokens: Seq<TokenView>, start: int)
    requires
        plain(tokens),
        matching_close(tokens, start).is_some(),
        !has_open(tokens.subrange(start + 1, matching_close(tokens, start).unwrap())),
    ensures
        all_settled(tokens.subrange(start + 1, matching_close(tokens, start).unwrap())),
{
    let j = matching_close(tokens, start).unwrap();
    lemma_closing_index(tokens, start + 1, seq![tokens[start].typ]);
    let inner = tokens.subrange(start + 1, j);
    assert forall|m: int| start + 1 <= m < j implies !is_open_type(#[trigger] tokens[m].typ) by {
        assert(inner[m - start - 1] == tokens[m]);
    }
    assert forall|k: int| 0 <= k < inner.len() implies settled(#[trigger] inner[k]) by {
        lemma_no_close_without_open(tokens, start + 1, seq![tokens[start].typ], start + 1 + k);
        assert(inner[k] == tokens[start + 1 + k]);
    }
}

/// Parts of plain tokens are plain.
proof fn lemma_plain_subrange(tokens: Seq<TokenView>, a: int, b: int)
    requires
        plain(tokens),
        0 <= a <= b <= tokens.len(),
    ensures
        plain(tokens.subrange(a, b)),
{
    let part = tokens.subrange(a, b);
    assert forall|i: int| 0 <= i < part.len() implies (#[trigger] part[i]).typ
        != TokenType::POINTER && part[i].sub.tokens.len() == 0 by {
        assert(part[i] == tokens[a + i]);
    }
}

/// The sub-expression of a group of plain tokens is settled.
proof fn lemma_group_token_settled(
    tokens: Seq<TokenView>,
    start: int,
    method: SubMethod,
    input: Seq<char>,
)
    requires
        plain(tokens),
        matching_close(tokens, start).is_some(),
    ensures
        ({
            let inner = tokens.subrange(start + 1, matching_close(tokens, start).unwrap());
            group_token(inner, has_open(inner), method, input).is_ok() ==> all_settled(
                group_token(inner, has_open(inner), method, input)->Ok_0,
            )
        }),
    decreases tokens.len(), 0nat, 0nat,
{
    let j = matching_close(tokens, start).unwrap();
    lemma_closing_index(tokens, start + 1, seq![tokens[start].typ]);
    let inner = tokens.subrange(start + 1, j);
    lemma_plain_subrange(tokens, start + 1, j);
    if has_open(inner) {
        lemma_resolved_settled(inner, input);
    } else {
        lemma_inner_settled(tokens, start);
    }
    let content = if has_open(inner) {
        resolved(inner, input)
    } else {
        Ok(inner)
    };
    if content.is_ok() {
        lemma_combined_settled(content->Ok_0);
        lemma_settled_sub(combined(content->Ok_0).tokens, method);
    }
}

/// Plain tokens without a fault outside of their groups, with the
/// groups replaced, are settled.
proof fn lemma_grouped_settled(tokens: Seq<TokenView>, i: int, input: Seq<char>)
    requires
        plain(tokens),
        0 <= i,
        first_fault(tokens, i).is_none(),
    ensures
        grouped(tokens, i, input).is_ok() ==> all_settled(grouped(tokens, i, input)->Ok_0),
    decreases tokens.len(), 1nat, tokens.len() - i,
{
    if i < tokens.len() {
        if is_open_type(tokens[i].typ) {
            match matching_close(tokens, i) {
                None => {},
                Some(j) => {
                    lemma_closing_index(tokens, i + 1, seq![tokens[i].typ]);
                    let inner = tokens.subrange(i + 1, j);
                    let method = crate::token::method_of(tokens[i].typ);
                    lemma_group_token_settled(tokens, i, method, input);
                    lemma_grouped_settled(tokens, j + 1, input);
                    match (
                        group_token(inner, has_open(inner), method, input),
                        grouped(tokens, j + 1, input),
                    ) {
                        (Ok(g), Ok(rest)) => {
                            lemma_settled_add(g, rest);
                        },
                        _ => {},
                    }
                },
            }
        } else {
            lemma_grouped_settled(tokens, i + 1, input);
            assert(settled(tokens[i]));
            lemma_settled_one(tokens[i]);
            match grouped(tokens, i + 1, input) {
                Ok(rest) => {
                    lemma_settled_add(seq![tokens[i]], rest);
                },
                _ => {},
            }
        }
    }
}

/// Plain tokens, once their groups are resolved, hold no bracket and
/// no pointer at any depth.
pub proof fn lemma_resolved_settled(tokens: Seq<TokenView>, input: Seq<char>)
    requires
        plain(tokens),
    ensures
        resolved(tokens, input).is_ok() ==> all_settled(resolved(tokens, input)->Ok_0),
    decreases tokens.len(), 2nat, 0nat,
{
    if first_fault(tokens, 0).is_none() {
        lemma_grouped_settled(tokens, 0, input);
    }
}

/// The scanner makes atoms, none of them a pointer.
proof fn lemma_scan_plain(s: Seq<char>, i: int)
    ensures
        plain(crate::lexer::scan_from(s, i)),
    decreases s.len() - i,
{
    let p = crate::lexer::skip_blank(s, i);
    lemma_scan_no_pointers(s, i);
    if !(i < 0 || p >= s.len()) {
        crate::lexer::lemma_skip_blank(s, i);
        crate::lexer::lemma_token_end(s, p);
        let next = crate::lexer::token_end(s, p);
        lemma_scan_plain(s, next);
        let rest = crate::lexer::scan_from(s, next);
        let all = crate::lexer::scan_from(s, i);
        assert forall|k: int| 0 <= k < all.len() implies (#[trigger] all[k]).sub.tokens.len()
            == 0 by {
            if k > 0 {
                assert(all[k] == rest[k - 1]);
            }
        }
    }
}

/// What a source text is lexed to holds no bracket and no pointer, at
/// any depth: every bracket has become a sub-expression, and every
/// pointer has been replaced.
pub proof fn lemma_lexed_settled(s: Seq<char>)
    ensures
        lexed(s).is_ok() ==> all_settled(lexed(s)->Ok_0.tokens),
{
    if s.len() > 0 {
        lemma_scan_plain(s, 0);
        lemma_resolved_settled(scanned(s), s);
        if resolved(scanned(s), s).is_ok() {
            lemma_combined_settled(resolved(scanned(s), s)->Ok_0);
        }
    }
}

} // verus!
