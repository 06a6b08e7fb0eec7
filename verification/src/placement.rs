//! Source positions do not decide what an expression means.
//!
//! The positions that tokens record serve the reports of failures. The
//! nester and the combiner read kinds only, so they treat tokens without
//! positions as they treat the tokens themselves.

use crate::combine::{
    bind_factorials, bind_functions, bound, bound_tokens, chain_end, chain_tokens, combined,
    fold_powers, group_chains, insert_products, is_operand, is_solid, joins, lemma_chain_end,
    product_token,
};
use crate::calculator::{
    fail, failed, finish, operand_steps, operation_at, plan_tokens, reduce_tokens, round_steps,
    run_from, term_steps, term_width, then, StepView,
};
use crate::errors::{missing_some_tokens_view, ErrorView};
use crate::machine::{answered, is_task, spin, Halt, NextView};
use crate::nesting::{
    after, closing_index, first_fault, group_token, grouped, has_open, is_open_type,
    lemma_closing_index, matching_close, resolved,
};
use crate::token::{sub_token, unknown, SubMethod, SubView, TokenType, TokenView};
use vstd::prelude::*;

verus! {

/// A token without the source positions that it and the tokens inside
/// of it record.
pub open spec fn unplaced(t: TokenView) -> TokenView
    decreases t,
{
    TokenView {
        typ: t.typ,
        literal: t.literal,
        sub: SubView {
            tokens: Seq::new(
                t.sub.tokens.len(),
                |i: int|
                    if 0 <= i < t.sub.tokens.len() {
                        unplaced(t.sub.tokens[i])
                    } else {
                        arbitrary()
                    },
            ),
            method: t.sub.method,
        },
        index: unknown(),
    }
}

/// Tokens without their source positions.
pub open spec fn unplaced_all(tokens: Seq<TokenView>) -> Seq<TokenView> {
    Seq::new(tokens.len(), |i: int| unplaced(tokens[i]))
}

/// A sub-expression without the source positions of its tokens.
pub open spec fn unplaced_sub(sub: SubView) -> SubView {
    SubView { tokens: unplaced_all(sub.tokens), method: sub.method }
}

/// Whether `bare` is what is left of `full` without source positions:
/// the tokens without theirs, or a failure of the same kind.
pub open spec fn bare_of(
    bare: Result<Seq<TokenView>, ErrorView>,
    full: Result<Seq<TokenView>, ErrorView>,
) -> bool {
    match (bare, full) {
        (Ok(b), Ok(f)) => b == unplaced_all(f),
        (Err(b), Err(f)) => b.kind == f.kind,
        _ => false,
    }
}

/// What a token keeps without its positions.
pub broadcast proof fn lemma_unplaced(t: TokenView)
    ensures
        (#[trigger] unplaced(t)).typ == t.typ,
        unplaced(t).literal == t.literal,
        unplaced(t).index == unknown(),
        unplaced(t).sub == unplaced_sub(t.sub),
{
    assert(unplaced(t).sub.tokens =~= unplaced_all(t.sub.tokens));
}

/// Tokens side by side lose their positions each for itself.
proof fn lemma_unplaced_add(a: Seq<TokenView>, b: Seq<TokenView>)
    ensures
        unplaced_all(a + b) == unplaced_all(a) + unplaced_all(b),
{
    assert(unplaced_all(a + b) =~= unplaced_all(a) + unplaced_all(b));
}

/// A part of the tokens loses its positions as the whole does.
proof fn lemma_unplaced_subrange(tokens: Seq<TokenView>, a: int, b: int)
    requires
        0 <= a <= b <= tokens.len(),
    ensures
        unplaced_all(tokens.subrange(a, b)) == unplaced_all(tokens).subrange(a, b),
{
    assert(unplaced_all(tokens.subrange(a, b)) =~= unplaced_all(tokens).subrange(a, b));
}

/// A sub-expression token loses the positions of the tokens inside.
proof fn lemma_unplaced_sub_token(tokens: Seq<TokenView>, method: SubMethod)
    ensures
        unplaced(sub_token(tokens, method)) == sub_token(unplaced_all(tokens), method),
{
    broadcast use lemma_unplaced;

}

/// Functions are bound without a look at positions.
proof fn lemma_bind_functions_unplaced(tokens: Seq<TokenView>, i: int)
    requires
        0 <= i,
    ensures
        bind_functions(unplaced_all(tokens), i) == unplaced_all(bind_functions(tokens, i)),
    decreases tokens.len() - i,
{
    broadcast use lemma_unplaced;

    let bare = unplaced_all(tokens);
    if i < tokens.len() {
        if crate::token::is_function_type(tokens[i].typ) && i + 1 < tokens.len() && is_solid(
            tokens[i + 1],
        ) {
            lemma_bind_functions_unplaced(tokens, i + 2);
            lemma_unplaced_sub_token(seq![tokens[i], tokens[i + 1]], SubMethod::PAREN);
            assert(unplaced_all(seq![tokens[i], tokens[i + 1]]) =~= seq![bare[i], bare[i + 1]]);
            lemma_unplaced_add(
                seq![bound(tokens[i], tokens[i + 1])],
                bind_functions(tokens, i + 2),
            );
            assert(unplaced_all(seq![bound(tokens[i], tokens[i + 1])]) =~= seq![
                bound(bare[i], bare[i + 1]),
            ]);
        } else {
            lemma_bind_functions_unplaced(tokens, i + 1);
            lemma_unplaced_add(seq![tokens[i]], bind_functions(tokens, i + 1));
            assert(unplaced_all(seq![tokens[i]]) =~= seq![bare[i]]);
        }
    } else {
        assert(unplaced_all(Seq::<TokenView>::empty()) =~= Seq::<TokenView>::empty());
    }
}

/// Factorial marks are bound without a look at positions.
proof fn lemma_bind_factorials_unplaced(tokens: Seq<TokenView>, i: int)
    requires
        0 <= i,
    ensures
        bind_factorials(unplaced_all(tokens), i) == unplaced_all(bind_factorials(tokens, i)),
    decreases tokens.len() - i,
{
    broadcast use lemma_unplaced;

    let bare = unplaced_all(tokens);
    if i < tokens.len() {
        if is_solid(tokens[i]) && i + 1 < tokens.len() && tokens[i + 1].typ
            == TokenType::FACTORIAL {
            lemma_bind_factorials_unplaced(tokens, i + 2);
            lemma_unplaced_sub_token(seq![tokens[i], tokens[i + 1]], SubMethod::PAREN);
            assert(unplaced_all(seq![tokens[i], tokens[i + 1]]) =~= seq![bare[i], bare[i + 1]]);
            lemma_unplaced_add(
                seq![bound(tokens[i], tokens[i + 1])],
                bind_factorials(tokens, i + 2),
            );
            assert(unplaced_all(seq![bound(tokens[i], tokens[i + 1])]) =~= seq![
                bound(bare[i], bare[i + 1]),
            ]);
        } else {
            lemma_bind_factorials_unplaced(tokens, i + 1);
            lemma_unplaced_add(seq![tokens[i]], bind_factorials(tokens, i + 1));
            assert(unplaced_all(seq![tokens[i]]) =~= seq![bare[i]]);
        }
    } else {
        assert(unplaced_all(Seq::<TokenView>::empty()) =~= Seq::<TokenView>::empty());
    }
}

/// Product signs are put in without a look at positions.
proof fn lemma_insert_products_unplaced(tokens: Seq<TokenView>, i: int)
    requires
        0 <= i,
    ensures
        insert_products(unplaced_all(tokens), i) == unplaced_all(insert_products(tokens, i)),
    decreases tokens.len() - i,
{
    broadcast use lemma_unplaced;

    let bare = unplaced_all(tokens);
    if i < tokens.len() {
        lemma_insert_products_unplaced(tokens, i + 1);
        if i + 1 < tokens.len() && is_solid(tokens[i]) && is_solid(tokens[i + 1]) {
            lemma_unplaced_add(seq![tokens[i], product_token()], insert_products(tokens, i + 1));
            assert(unplaced(product_token()).sub.tokens =~= product_token().sub.tokens);
            assert(unplaced(product_token()) == product_token());
            assert(unplaced_all(seq![tokens[i], product_token()]) =~= seq![
                bare[i],
                product_token(),
            ]);
        } else {
            lemma_unplaced_add(seq![tokens[i]], insert_products(tokens, i + 1));
            assert(unplaced_all(seq![tokens[i]]) =~= seq![bare[i]]);
        }
    } else {
        assert(unplaced_all(Seq::<TokenView>::empty()) =~= Seq::<TokenView>::empty());
    }
}

/// A chain ends where it ends, with positions or without.
proof fn lemma_chain_end_unplaced(tokens: Seq<TokenView>, i: int, power: bool)
    ensures
        chain_end(unplaced_all(tokens), i, power) == chain_end(tokens, i, power),
    decreases tokens.len() - i,
{
    broadcast use lemma_unplaced;

    if 0 <= i && i + 2 < tokens.len() && joins(tokens[i + 1].typ, power) && is_operand(
        tokens[i + 2],
    ) {
        lemma_chain_end_unplaced(tokens, i + 2, power);
    }
}

/// Powers are folded without a look at positions.
proof fn lemma_fold_powers_unplaced(chain: Seq<TokenView>)
    ensures
        fold_powers(unplaced_all(chain)) == unplaced_all(fold_powers(chain)),
    decreases chain.len(),
{
    broadcast use lemma_unplaced;

    if chain.len() > 3 {
        let rest = chain.subrange(2, chain.len() as int);
        lemma_fold_powers_unplaced(rest);
        lemma_unplaced_subrange(chain, 2, chain.len() as int);
        lemma_unplaced_sub_token(fold_powers(rest), SubMethod::PAREN);
        assert(unplaced_all(fold_powers(chain)) =~= fold_powers(unplaced_all(chain)));
    }
}

/// Chains are grouped without a look at positions.
proof fn lemma_group_chains_unplaced(tokens: Seq<TokenView>, i: int, power: bool)
    requires
        0 <= i,
    ensures
        group_chains(unplaced_all(tokens), i, power) == unplaced_all(
            group_chains(tokens, i, power),
        ),
    decreases tokens.len() - i,
{
    broadcast use lemma_unplaced;

    let bare = unplaced_all(tokens);
    if i < tokens.len() {
        lemma_chain_end_unplaced(tokens, i, power);
        lemma_chain_end(tokens, i, power);
        let end = chain_end(tokens, i, power);
        if is_operand(tokens[i]) && end > i + 1 {
            let chain = tokens.subrange(i, end);
            lemma_group_chains_unplaced(tokens, end, power);
            lemma_unplaced_subrange(tokens, i, end);
            if power {
                lemma_fold_powers_unplaced(chain);
            }
            lemma_unplaced_sub_token(chain_tokens(chain, power), SubMethod::PAREN);
            let head = sub_token(chain_tokens(chain, power), SubMethod::PAREN);
            lemma_unplaced_add(seq![head], group_chains(tokens, end, power));
            assert(unplaced_all(seq![head]) =~= seq![unplaced(head)]);
        } else {
            lemma_group_chains_unplaced(tokens, i + 1, power);
            lemma_unplaced_add(seq![tokens[i]], group_chains(tokens, i + 1, power));
            assert(unplaced_all(seq![tokens[i]]) =~= seq![bare[i]]);
        }
    } else {
        assert(unplaced_all(Seq::<TokenView>::empty()) =~= Seq::<TokenView>::empty());
    }
}

/// Tokens are regrouped by precedence without a look at positions.
pub proof fn lemma_combined_unplaced(tokens: Seq<TokenView>)
    ensures
        combined(unplaced_all(tokens)) == unplaced_sub(combined(tokens)),
{
    broadcast use lemma_unplaced;

    lemma_bind_functions_unplaced(tokens, 0);
    let called = bind_functions(tokens, 0);
    lemma_bind_factorials_unplaced(called, 0);
    let marked = bind_factorials(called, 0);
    lemma_insert_products_unplaced(marked, 0);
    let flat = insert_products(marked, 0);
    assert(flat == bound_tokens(tokens));
    assert(unplaced_all(flat) == bound_tokens(unplaced_all(tokens)));
    lemma_group_chains_unplaced(flat, 0, true);
    let powers = group_chains(flat, 0, true);
    lemma_group_chains_unplaced(powers, 0, false);
    let grouped = group_chains(powers, 0, false);
    if grouped.len() == 1 && flat.len() > 1 {
        assert(unplaced_all(grouped)[0] == unplaced(grouped[0]));
    }
}

/// Brackets are matched without a look at positions.
proof fn lemma_closing_index_unplaced(tokens: Seq<TokenView>, i: int, open: Seq<TokenType>)
    ensures
        closing_index(unplaced_all(tokens), i, open) == closing_index(tokens, i, open),
    decreases tokens.len() - i,
{
    broadcast use lemma_unplaced;

    if !(i < 0 || i >= tokens.len() || open.len() == 0) {
        if is_open_type(tokens[i].typ) {
            lemma_closing_index_unplaced(tokens, i + 1, open.push(tokens[i].typ));
        } else if crate::nesting::is_close_type(tokens[i].typ) {
            if crate::token::brackets_match(open.last(), tokens[i].typ) && open.len() != 1 {
                lemma_closing_index_unplaced(tokens, i + 1, open.drop_last());
            }
        } else {
            lemma_closing_index_unplaced(tokens, i + 1, open);
        }
    }
}

/// Faults are found without a look at positions.
proof fn lemma_first_fault_unplaced(tokens: Seq<TokenView>, i: int)
    ensures
        first_fault(unplaced_all(tokens), i) == first_fault(tokens, i),
    decreases tokens.len() - i,
{
    broadcast use lemma_unplaced;

    if !(i < 0 || i >= tokens.len()) {
        if is_open_type(tokens[i].typ) {
            lemma_closing_index_unplaced(tokens, i + 1, seq![tokens[i].typ]);
            match matching_close(tokens, i) {
                None => {},
                Some(j) => {
                    lemma_closing_index(tokens, i + 1, seq![tokens[i].typ]);
                    lemma_first_fault_unplaced(tokens, j + 1);
                },
            }
        } else if !crate::nesting::is_close_type(tokens[i].typ) {
            lemma_first_fault_unplaced(tokens, i + 1);
        }
    }
}

/// Left brackets are found without a look at positions.
proof fn lemma_has_open_unplaced(tokens: Seq<TokenView>)
    ensures
        has_open(unplaced_all(tokens)) == has_open(tokens),
{
    broadcast use lemma_unplaced;

    let bare = unplaced_all(tokens);
    if has_open(tokens) {
        let k = choose|k: int| 0 <= k < tokens.len() && is_open_type(#[trigger] tokens[k].typ);
        assert(is_open_type(bare[k].typ));
    }
    if has_open(bare) {
        let k = choose|k: int| 0 <= k < bare.len() && is_open_type(#[trigger] bare[k].typ);
        assert(is_open_type(tokens[k].typ));
    }
}

/// What stands before the rest loses its positions with the rest.
proof fn lemma_after_bare(
    head: Seq<TokenView>,
    bare: Result<Seq<TokenView>, ErrorView>,
    full: Result<Seq<TokenView>, ErrorView>,
)
    requires
        bare_of(bare, full),
    ensures
        bare_of(after(unplaced_all(head), bare), after(head, full)),
{
    match (bare, full) {
        (Ok(b), Ok(f)) => {
            lemma_unplaced_add(head, f);
        },
        _ => {},
    }
}

/// A group becomes the same sub-expression, with positions or without.
proof fn lemma_group_token_unplaced(
    content: Seq<TokenView>,
    flagged: bool,
    method: SubMethod,
    here: Seq<char>,
    there: Seq<char>,
)
    ensures
        bare_of(
            group_token(unplaced_all(content), flagged, method, here),
            group_token(content, flagged, method, there),
        ),
    decreases content.len(), 3nat, 0nat,
{
    if flagged {
        lemma_resolved_unplaced(content, here, there);
    }
    let bare = if flagged {
        resolved(unplaced_all(content), here)
    } else {
        Ok(unplaced_all(content))
    };
    let full = if flagged {
        resolved(content, there)
    } else {
        Ok(content)
    };
    match (bare, full) {
        (Ok(b), Ok(f)) => {
            lemma_combined_unplaced(f);
            lemma_unplaced_sub_token(combined(f).tokens, method);
            let t = sub_token(combined(f).tokens, method);
            assert(unplaced_all(seq![t]) =~= seq![unplaced(t)]);
        },
        _ => {},
    }
}

/// Groups are replaced in the same way, with positions or without.
proof fn lemma_grouped_unplaced(tokens: Seq<TokenView>, i: int, here: Seq<char>, there: Seq<char>)
    requires
        0 <= i,
    ensures
        bare_of(grouped(unplaced_all(tokens), i, here), grouped(tokens, i, there)),
    decreases tokens.len(), 1nat, tokens.len() - i,
{
    broadcast use lemma_unplaced;

    let bare = unplaced_all(tokens);
    if i >= tokens.len() {
        assert(unplaced_all(Seq::<TokenView>::empty()) =~= Seq::<TokenView>::empty());
    } else if is_open_type(tokens[i].typ) {
        lemma_closing_index_unplaced(tokens, i + 1, seq![tokens[i].typ]);
        match matching_close(tokens, i) {
            None => {
                assert(unplaced_all(Seq::<TokenView>::empty()) =~= Seq::<TokenView>::empty());
            },
            Some(j) => {
                lemma_closing_index(tokens, i + 1, seq![tokens[i].typ]);
                let inner = tokens.subrange(i + 1, j);
                let method = crate::token::method_of(tokens[i].typ);
                lemma_unplaced_subrange(tokens, i + 1, j);
                lemma_has_open_unplaced(inner);
                lemma_group_token_unplaced(inner, has_open(inner), method, here, there);
                lemma_grouped_unplaced(tokens, j + 1, here, there);
                match group_token(inner, has_open(inner), method, there) {
                    Err(e) => {},
                    Ok(g) => {
                        lemma_after_bare(
                            g,
                            grouped(bare, j + 1, here),
                            grouped(tokens, j + 1, there),
                        );
                    },
                }
            },
        }
    } else {
        lemma_grouped_unplaced(tokens, i + 1, here, there);
        lemma_after_bare(
            seq![tokens[i]],
            grouped(bare, i + 1, here),
            grouped(tokens, i + 1, there),
        );
        assert(unplaced_all(seq![tokens[i]]) =~= seq![bare[i]]);
    }
}

/// Bracketed groups are resolved without a look at positions: tokens
/// without positions, in whatever source text, resolve to the tokens
/// without positions of what the tokens themselves resolve to, or fail
/// as they do.
pub proof fn lemma_resolved_unplaced(tokens: Seq<TokenView>, here: Seq<char>, there: Seq<char>)
    ensures
        bare_of(resolved(unplaced_all(tokens), here), resolved(tokens, there)),
    decreases tokens.len(), 2nat, 0nat,
{
    lemma_first_fault_unplaced(tokens, 0);
    match first_fault(tokens, 0) {
        Some(k) => {},
        None => {
            lemma_grouped_unplaced(tokens, 0, here, there);
        },
    }
}

/// A step without the source positions that it records; of a failure
/// its kind is left.
pub open spec fn unplaced_step(step: StepView) -> StepView {
    match step {
        StepView::Number { literal, end } => StepView::Number { literal, end: -1i32 },
        StepView::Apply { op, point } => StepView::Apply { op, point: -1i32 },
        StepView::Call { func, point } => StepView::Call { func, point: -1i32 },
        StepView::Fail { error } => StepView::Fail {
            error: ErrorView { kind: error.kind, msg: Seq::empty() },
        },
        _ => step,
    }
}

/// Steps without their source positions.
pub open spec fn unplaced_steps(p: Seq<StepView>) -> Seq<StepView> {
    Seq::new(p.len(), |i: int| unplaced_step(p[i]))
}

/// Steps that follow steps lose their positions each for itself.
proof fn lemma_unplaced_then(p: Seq<StepView>, q: Seq<StepView>)
    ensures
        unplaced_steps(then(p, q)) == then(unplaced_steps(p), unplaced_steps(q)),
        failed(unplaced_steps(p)) == failed(p),
{
    if p.len() > 0 {
        assert(unplaced_steps(p).last() == unplaced_step(p.last()));
    }
    if !failed(p) {
        assert(unplaced_steps(p + q) =~= unplaced_steps(p) + unplaced_steps(q));
    }
}

/// A single step without its positions.
proof fn lemma_unplaced_one(step: StepView)
    ensures
        unplaced_steps(seq![step]) == seq![unplaced_step(step)],
{
    assert(unplaced_steps(seq![step]) =~= seq![unplaced_step(step)]);
}

/// The steps of an operand are the same, with positions or without.
proof fn lemma_operand_unplaced(t: TokenView, here: Seq<char>, there: Seq<char>)
    ensures
        operand_steps(unplaced(t), here).is_some() == operand_steps(t, there).is_some(),
        operand_steps(t, there).is_some() ==> unplaced_steps(
            operand_steps(unplaced(t), here).unwrap(),
        ) == unplaced_steps(operand_steps(t, there).unwrap()),
    decreases t, 0nat, 0nat,
{
    broadcast use lemma_unplaced;

    if t.typ == TokenType::NUMBER {
        lemma_unplaced_one(StepView::Number { literal: t.literal, end: t.index.1 });
        lemma_unplaced_one(StepView::Number { literal: t.literal, end: unknown().1 });
    } else if t.typ == TokenType::IDENTIFIER {
    } else if t.typ == TokenType::SUBEXP {
        lemma_plan_unplaced(t.sub.tokens, t.sub.method, here, there);
    }
}

/// The steps of a term are the same, with positions or without.
proof fn lemma_term_unplaced(tokens: Seq<TokenView>, i: int, here: Seq<char>, there: Seq<char>)
    requires
        0 <= i < tokens.len(),
    ensures
        unplaced_steps(term_steps(unplaced_all(tokens), i, here)) == unplaced_steps(
            term_steps(tokens, i, there),
        ),
    decreases tokens, 0nat, 1nat,
{
    broadcast use lemma_unplaced;

    let bare = unplaced_all(tokens);
    if crate::token::is_function_type(tokens[i].typ) {
        if i + 1 >= tokens.len() {
            lemma_unplaced_one(term_steps(bare, i, here)[0]);
            lemma_unplaced_one(term_steps(tokens, i, there)[0]);
        } else {
            lemma_operand_unplaced(tokens[i + 1], here, there);
            match operand_steps(tokens[i + 1], there) {
                Some(p) => {
                    let q = operand_steps(bare[i + 1], here).unwrap();
                    let call = StepView::Call { func: tokens[i].typ, point: tokens[i].index.1 };
                    let bare_call = StepView::Call { func: bare[i].typ, point: bare[i].index.1 };
                    lemma_unplaced_then(p, seq![call]);
                    lemma_unplaced_then(q, seq![bare_call]);
                    lemma_unplaced_one(call);
                    lemma_unplaced_one(bare_call);
                },
                None => {
                    lemma_unplaced_one(term_steps(bare, i, here)[0]);
                    lemma_unplaced_one(term_steps(tokens, i, there)[0]);
                },
            }
        }
    } else {
        lemma_operand_unplaced(tokens[i], here, there);
    }
}

/// The steps of a round are the same, with positions or without.
proof fn lemma_round_unplaced(tokens: Seq<TokenView>, i: int, here: Seq<char>, there: Seq<char>)
    requires
        0 <= i < tokens.len(),
    ensures
        unplaced_steps(round_steps(unplaced_all(tokens), i, here)) == unplaced_steps(
            round_steps(tokens, i, there),
        ),
    decreases tokens, 0nat, 2nat,
{
    broadcast use lemma_unplaced;

    let bare = unplaced_all(tokens);
    if tokens[i].typ == TokenType::ILLEGAL {
        lemma_unplaced_one(round_steps(bare, i, here)[0]);
        lemma_unplaced_one(round_steps(tokens, i, there)[0]);
    } else {
        if i > 0 {
            assert(bare[i - 1].typ == tokens[i - 1].typ);
        }
        match operation_at(tokens, i, there) {
            Err(e) => {
                lemma_unplaced_one(round_steps(bare, i, here)[0]);
                lemma_unplaced_one(round_steps(tokens, i, there)[0]);
            },
            Ok(op) => {
                lemma_term_unplaced(tokens, i, here, there);
                let apply = StepView::Apply { op, point: tokens[i].index.1 };
                let bare_apply = StepView::Apply { op, point: bare[i].index.1 };
                lemma_unplaced_then(term_steps(tokens, i, there), seq![apply]);
                lemma_unplaced_then(term_steps(bare, i, here), seq![bare_apply]);
                lemma_unplaced_one(apply);
                lemma_unplaced_one(bare_apply);
            },
        }
    }
}

/// The steps of a run are the same, with positions or without.
proof fn lemma_run_unplaced(tokens: Seq<TokenView>, i: int, here: Seq<char>, there: Seq<char>)
    requires
        0 <= i,
    ensures
        unplaced_steps(run_from(unplaced_all(tokens), i, here)) == unplaced_steps(
            run_from(tokens, i, there),
        ),
    decreases tokens, 1nat, tokens.len() + 2 - i,
{
    broadcast use lemma_unplaced;

    let bare = unplaced_all(tokens);
    if i > tokens.len() {
    } else if i == tokens.len() {
        lemma_unplaced_one(run_from(bare, i, here)[0]);
        lemma_unplaced_one(run_from(tokens, i, there)[0]);
    } else {
        let next = i + term_width(tokens, i) + 1;
        lemma_round_unplaced(tokens, i, here, there);
        lemma_run_unplaced(tokens, next, here, there);
        lemma_unplaced_then(round_steps(tokens, i, there), run_from(tokens, next, there));
        lemma_unplaced_then(round_steps(bare, i, here), run_from(bare, next, here));
    }
}

/// Tokens are reduced alike, with positions or without.
proof fn lemma_reduce_unplaced(tokens: Seq<TokenView>, here: Seq<char>, there: Seq<char>)
    ensures
        unplaced_steps(reduce_tokens(unplaced_all(tokens), here)) == unplaced_steps(
            reduce_tokens(tokens, there),
        ),
    decreases tokens, 2nat, 0nat,
{
    broadcast use lemma_unplaced;

    let bare = unplaced_all(tokens);
    if tokens.len() == 0 {
        lemma_unplaced_one(reduce_tokens(bare, here)[0]);
        lemma_unplaced_one(reduce_tokens(tokens, there)[0]);
    } else if tokens.len() >= 3 && tokens[0].typ == TokenType::IDENTIFIER && tokens[1].typ
        == TokenType::ASSIGN {
        let rest = tokens.subrange(2, tokens.len() as int);
        lemma_unplaced_subrange(tokens, 2, tokens.len() as int);
        lemma_plan_unplaced(rest, SubMethod::PAREN, here, there);
        let store = StepView::Store { name: tokens[0].literal };
        lemma_unplaced_then(plan_tokens(rest, SubMethod::PAREN, there), seq![store]);
        lemma_unplaced_then(plan_tokens(unplaced_all(rest), SubMethod::PAREN, here), seq![store]);
    } else if tokens.len() == 1 && tokens[0].typ == TokenType::IDENTIFIER {
    } else if tokens.len() == 1 && tokens[0].typ == TokenType::SUBEXP {
        lemma_plan_unplaced(tokens[0].sub.tokens, tokens[0].sub.method, here, there);
    } else if tokens.len() == 2 && tokens[1].typ == TokenType::FACTORIAL {
        lemma_operand_unplaced(tokens[0], here, there);
        let full = match operand_steps(tokens[0], there) {
            Some(p) => p,
            None => fail(missing_some_tokens_view(there, tokens[0].index.1 as int)),
        };
        let thin = match operand_steps(bare[0], here) {
            Some(p) => p,
            None => fail(missing_some_tokens_view(here, bare[0].index.1 as int)),
        };
        if operand_steps(tokens[0], there).is_none() {
            lemma_unplaced_one(full[0]);
            lemma_unplaced_one(thin[0]);
        }
        lemma_unplaced_then(full, seq![StepView::Factorial]);
        lemma_unplaced_then(thin, seq![StepView::Factorial]);
    } else {
        assert(tokens.len() >= 2 ==> bare[1].typ == tokens[1].typ);
        lemma_run_unplaced(tokens, 0, here, there);
        let zero = seq![StepView::Zero];
        lemma_unplaced_then(zero, run_from(tokens, 0, there));
        lemma_unplaced_then(zero, run_from(bare, 0, here));
    }
}

/// Tokens without positions, in whatever source text, are laid out as
/// the tokens themselves are: the plans differ in the positions that
/// their steps record and in the words of their failures, in nothing
/// else.
pub proof fn lemma_plan_unplaced(
    tokens: Seq<TokenView>,
    method: SubMethod,
    here: Seq<char>,
    there: Seq<char>,
)
    ensures
        unplaced_steps(plan_tokens(unplaced_all(tokens), method, here)) == unplaced_steps(
            plan_tokens(tokens, method, there),
        ),
    decreases tokens, 3nat, 0nat,
{
    lemma_reduce_unplaced(tokens, here, there);
    lemma_unplaced_then(reduce_tokens(tokens, there), finish(method));
    lemma_unplaced_then(reduce_tokens(unplaced_all(tokens), here), finish(method));
}

/// Whether two halts differ in nothing but the words of a failure.
pub open spec fn same_halt(a: Halt, b: Halt) -> bool {
    &&& a.at == b.at
    &&& a.stack == b.stack
    &&& a.env == b.env
    &&& match (a.next, b.next) {
        (NextView::Task(s), NextView::Task(t)) => s == t,
        (NextView::Done(v), NextView::Done(w)) => v == w,
        (NextView::Failed(e), NextView::Failed(f)) => e.kind == f.kind,
        _ => false,
    }
}

/// Plans that differ in nothing but source positions and the words of
/// their failures are run alike: from the same state the machine halts
/// at the same step, in the same state, with the same task, the same
/// result or a failure of the same kind.
pub proof fn lemma_spin_unplaced(
    first: Seq<StepView>,
    second: Seq<StepView>,
    at: int,
    stack: Seq<u64>,
    env: Map<Seq<char>, u64>,
)
    requires
        unplaced_steps(first) == unplaced_steps(second),
    ensures
        same_halt(spin(first, at, stack, env), spin(second, at, stack, env)),
    decreases first.len() - at,
{
    assert(first.len() == unplaced_steps(first).len());
    assert(second.len() == unplaced_steps(second).len());
    if 0 <= at < first.len() {
        assert(unplaced_steps(first)[at] == unplaced_step(first[at]));
        assert(unplaced_steps(second)[at] == unplaced_step(second[at]));
        match first[at] {
            StepView::Load { name } => {
                if env.contains_key(name) {
                    lemma_spin_unplaced(first, second, at + 1, stack.push(env[name]), env);
                }
            },
            StepView::Store { name } => {
                if stack.len() > 0 {
                    lemma_spin_unplaced(
                        first,
                        second,
                        at + 1,
                        stack,
                        env.insert(name, stack.last()),
                    );
                }
            },
            _ => {},
        }
    }
}

/// An answer is taken alike by steps that differ in nothing but source
/// positions.
pub proof fn lemma_answered_unplaced(first: StepView, second: StepView, stack: Seq<u64>, value: u64)
    requires
        unplaced_step(first) == unplaced_step(second),
    ensures
        is_task(first) == is_task(second),
        answered(first, stack, value) == answered(second, stack, value),
{
}

} // verus!
