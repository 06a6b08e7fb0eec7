//! What a plan does to the stack of numbers that it works on, and to the
//! variables.
//!
//! Every plan that the evaluator lays out can be run from an empty stack:
//! no step takes a number that is not there, a failure is the last step,
//! and a plan without failure leaves exactly one number, the result. A
//! plan of tokens without an assignment sign gives no variable a value.

use crate::calculator::{
    fail, failed, finish, operand_steps, operation_at, plan_of, plan_tokens, reduce_tokens,
    round_steps, run_from, term_steps, term_width, then, StepView,
};
use crate::token::{is_function_type, SubMethod, SubView, TokenType, TokenView};
use vstd::prelude::*;

verus! {

/// How many numbers a step needs on the stack.
pub open spec fn needs(step: StepView) -> int {
    match step {
        StepView::Zero => 0,
        StepView::Number { .. } => 0,
        StepView::Load { .. } => 0,
        StepView::Store { .. } => 1,
        StepView::Apply { .. } => 2,
        StepView::Call { .. } => 1,
        StepView::Factorial => 1,
        StepView::Abs => 1,
        StepView::Fail { .. } => 0,
    }
}

/// By how many numbers a step makes the stack grow.
pub open spec fn gives(step: StepView) -> int {
    match step {
        StepView::Zero => 1,
        StepView::Number { .. } => 1,
        StepView::Load { .. } => 1,
        StepView::Store { .. } => 0,
        StepView::Apply { .. } => -1,
        StepView::Call { .. } => 0,
        StepView::Factorial => 0,
        StepView::Abs => 0,
        StepView::Fail { .. } => 0,
    }
}

/// Whether the steps can be run on a stack of `depth` numbers: every step
/// up to the first failure finds the numbers that it needs.
pub open spec fn runs(p: Seq<StepView>, depth: int) -> bool
    decreases p.len(),
{
    if p.len() == 0 || p[0] is Fail {
        true
    } else {
        depth >= needs(p[0]) && runs(p.subrange(1, p.len() as int), depth + gives(p[0]))
    }
}

/// The depth of the stack after the steps have run on a stack of `depth`
/// numbers.
pub open spec fn depth_after(p: Seq<StepView>, depth: int) -> int
    decreases p.len(),
{
    if p.len() == 0 {
        depth
    } else {
        depth_after(p.subrange(1, p.len() as int), depth + gives(p[0]))
    }
}

/// No step but the last is a failure.
pub open spec fn fails_last(p: Seq<StepView>) -> bool {
    forall|i: int| 0 <= i < p.len() - 1 ==> !(#[trigger] p[i] is Fail)
}

/// The steps can be run on any stack of `need` numbers or more, fail at
/// their end if at all, and make the stack grow by `grow` numbers unless
/// they fail.
pub open spec fn sound(p: Seq<StepView>, need: int, grow: int) -> bool {
    &&& fails_last(p)
    &&& forall|d: int| d >= need ==> #[trigger] runs(p, d)
    &&& !failed(p) ==> forall|d: int| d >= need ==> #[trigger] depth_after(p, d) == d + grow
}

/// Steps without failure run if their first part runs and their second
/// part runs on what the first leaves.
proof fn lemma_runs_add(a: Seq<StepView>, b: Seq<StepView>, d: int)
    requires
        forall|i: int| 0 <= i < a.len() ==> !(#[trigger] a[i] is Fail),
    ensures
        runs(a + b, d) == (runs(a, d) && runs(b, depth_after(a, d))),
        depth_after(a + b, d) == depth_after(b, depth_after(a, d)),
    decreases a.len(),
{
    if a.len() == 0 {
        assert(a + b =~= b);
    } else {
        let rest = a.subrange(1, a.len() as int);
        assert((a + b).subrange(1, (a + b).len() as int) =~= rest + b);
        assert((a + b)[0] == a[0]);
        assert forall|i: int| 0 <= i < rest.len() implies !(#[trigger] rest[i] is Fail) by {
            assert(rest[i] == a[i + 1]);
        }
        lemma_runs_add(rest, b, d + gives(a[0]));
    }
}

/// Sound steps after sound steps are sound.
proof fn lemma_then_sound(
    a: Seq<StepView>,
    b: Seq<StepView>,
    need: int,
    grow: int,
    more: int,
)
    requires
        sound(a, need, grow),
        sound(b, need + grow, more),
    ensures
        sound(then(a, b), need, grow + more),
{
    if !failed(a) {
        assert forall|i: int| 0 <= i < a.len() implies !(#[trigger] a[i] is Fail) by {
            if i == a.len() - 1 {
                assert(a[i] == a.last());
            }
        }
        let p = a + b;
        assert forall|i: int| 0 <= i < p.len() - 1 implies !(#[trigger] p[i] is Fail) by {
            if i >= a.len() {
                assert(p[i] == b[i - a.len()]);
            } else {
                assert(p[i] == a[i]);
            }
        }
        assert forall|d: int| d >= need implies #[trigger] runs(p, d) by {
            lemma_runs_add(a, b, d);
            assert(runs(a, d));
            assert(depth_after(a, d) == d + grow);
            assert(runs(b, d + grow));
        }
        if !failed(p) {
            if b.len() > 0 {
                assert(p.last() == b.last());
            }
            assert forall|d: int| d >= need implies #[trigger] depth_after(p, d) == d + grow
                + more by {
                lemma_runs_add(a, b, d);
                assert(depth_after(a, d) == d + grow);
                if b.len() == 0 {
                    assert(depth_after(b, d + grow) == d + grow);
                    assert(!failed(b));
                }
                assert(depth_after(b, d + grow) == d + grow + more);
            }
        }
    }
}

/// A single step that is no failure is sound for what it needs and gives.
proof fn lemma_step_sound(step: StepView)
    requires
        !(step is Fail),
    ensures
        sound(seq![step], needs(step), gives(step)),
{
    let p = seq![step];
    assert(p.subrange(1, 1) =~= Seq::<StepView>::empty());
    assert forall|d: int| d >= needs(step) implies #[trigger] runs(p, d) by {
        assert(runs(p.subrange(1, 1), d + gives(step)));
    }
    assert forall|d: int| d >= needs(step) implies #[trigger] depth_after(p, d) == d + gives(
        step,
    ) by {
        assert(depth_after(p.subrange(1, 1), d + gives(step)) == d + gives(step));
    }
}

/// A single failure is sound whatever is asked of the stack.
proof fn lemma_fail_sound(step: StepView, need: int, grow: int)
    requires
        step is Fail,
    ensures
        sound(seq![step], need, grow),
{
    let p = seq![step];
    assert(p.last() == step);
    assert forall|d: int| d >= need implies #[trigger] runs(p, d) by {}
}

/// No steps are sound where nothing is to grow.
proof fn lemma_empty_sound(need: int)
    ensures
        sound(Seq::<StepView>::empty(), need, 0),
{
}

/// The steps of an operand put one number on any stack.
proof fn lemma_operand_sound(t: TokenView, input: Seq<char>)
    ensures
        operand_steps(t, input).is_some() ==> sound(operand_steps(t, input).unwrap(), 0, 1),
    decreases t, 0nat, 0nat,
{
    if t.typ == TokenType::NUMBER {
        lemma_step_sound(StepView::Number { literal: t.literal, end: t.index.1 });
    } else if t.typ == TokenType::IDENTIFIER {
        lemma_step_sound(StepView::Load { name: t.literal });
    } else if t.typ == TokenType::SUBEXP {
        lemma_plan_sound(t.sub.tokens, t.sub.method, input);
    }
}

/// The steps of a term put one number on any stack.
proof fn lemma_term_sound(tokens: Seq<TokenView>, i: int, input: Seq<char>)
    requires
        0 <= i < tokens.len(),
    ensures
        sound(term_steps(tokens, i, input), 0, 1),
    decreases tokens, 0nat, 1nat,
{
    if is_function_type(tokens[i].typ) {
        if i + 1 >= tokens.len() {
            lemma_fail_sound(term_steps(tokens, i, input)[0], 0, 1);
        } else {
            match operand_steps(tokens[i + 1], input) {
                Some(p) => {
                    lemma_operand_sound(tokens[i + 1], input);
                    let call = StepView::Call { func: tokens[i].typ, point: tokens[i].index.1 };
                    lemma_step_sound(call);
                    lemma_then_sound(p, seq![call], 0, 1, 0);
                },
                None => {
                    lemma_fail_sound(term_steps(tokens, i, input)[0], 0, 1);
                },
            }
        }
    } else {
        match operand_steps(tokens[i], input) {
            Some(p) => {
                lemma_operand_sound(tokens[i], input);
            },
            None => {
                lemma_step_sound(StepView::Zero);
            },
        }
    }
}

/// The steps of a round keep a stack of one number or more as deep as it
/// is.
proof fn lemma_round_sound(tokens: Seq<TokenView>, i: int, input: Seq<char>)
    requires
        0 <= i < tokens.len(),
    ensures
        sound(round_steps(tokens, i, input), 1, 0),
    decreases tokens, 0nat, 2nat,
{
    if tokens[i].typ == TokenType::ILLEGAL {
        lemma_fail_sound(round_steps(tokens, i, input)[0], 1, 0);
    } else {
        match operation_at(tokens, i, input) {
            Err(e) => {
                lemma_fail_sound(round_steps(tokens, i, input)[0], 1, 0);
            },
            Ok(op) => {
                let apply = StepView::Apply { op, point: tokens[i].index.1 };
                lemma_term_sound(tokens, i, input);
                lemma_step_sound(apply);
                assert(sound(term_steps(tokens, i, input), 1, 1));
                lemma_then_sound(term_steps(tokens, i, input), seq![apply], 1, 1, -1);
            },
        }
    }
}

/// The steps of a run keep a stack of one number or more as deep as it is.
proof fn lemma_run_sound(tokens: Seq<TokenView>, i: int, input: Seq<char>)
    requires
        0 <= i,
    ensures
        sound(run_from(tokens, i, input), 1, 0),
    decreases tokens, 1nat, tokens.len() + 2 - i,
{
    if i > tokens.len() {
        lemma_empty_sound(1);
    } else if i == tokens.len() {
        lemma_fail_sound(run_from(tokens, i, input)[0], 1, 0);
    } else {
        lemma_round_sound(tokens, i, input);
        lemma_run_sound(tokens, i + term_width(tokens, i) + 1, input);
        lemma_then_sound(
            round_steps(tokens, i, input),
            run_from(tokens, i + term_width(tokens, i) + 1, input),
            1,
            0,
            0,
        );
    }
}

/// The steps that reduce a list of tokens put one number on any stack.
proof fn lemma_reduce_sound(tokens: Seq<TokenView>, input: Seq<char>)
    ensures
        sound(reduce_tokens(tokens, input), 0, 1),
    decreases tokens, 2nat, 0nat,
{
    if tokens.len() == 0 {
        lemma_fail_sound(reduce_tokens(tokens, input)[0], 0, 1);
    } else if tokens.len() >= 3 && tokens[0].typ == TokenType::IDENTIFIER && tokens[1].typ
        == TokenType::ASSIGN {
        let rest = tokens.subrange(2, tokens.len() as int);
        let store = StepView::Store { name: tokens[0].literal };
        lemma_plan_sound(rest, SubMethod::PAREN, input);
        lemma_step_sound(store);
        lemma_then_sound(plan_tokens(rest, SubMethod::PAREN, input), seq![store], 0, 1, 0);
    } else if tokens.len() == 1 && tokens[0].typ == TokenType::IDENTIFIER {
        lemma_step_sound(StepView::Load { name: tokens[0].literal });
    } else if tokens.len() == 1 && tokens[0].typ == TokenType::SUBEXP {
        lemma_plan_sound(tokens[0].sub.tokens, tokens[0].sub.method, input);
    } else if tokens.len() == 2 && tokens[1].typ == TokenType::FACTORIAL {
        lemma_step_sound(StepView::Factorial);
        match operand_steps(tokens[0], input) {
            Some(p) => {
                lemma_operand_sound(tokens[0], input);
                lemma_then_sound(p, seq![StepView::Factorial], 0, 1, 0);
            },
            None => {
                let f = fail(missing_view(tokens, input));
                lemma_fail_sound(f[0], 0, 1);
                lemma_then_sound(f, seq![StepView::Factorial], 0, 1, 0);
            },
        }
    } else {
        lemma_step_sound(StepView::Zero);
        lemma_run_sound(tokens, 0, input);
        lemma_then_sound(seq![StepView::Zero], run_from(tokens, 0, input), 0, 1, 0);
    }
}

/// The plan of a list of tokens puts one number on any stack.
proof fn lemma_plan_sound(tokens: Seq<TokenView>, method: SubMethod, input: Seq<char>)
    ensures
        sound(plan_tokens(tokens, method, input), 0, 1),
    decreases tokens, 3nat, 0nat,
{
    lemma_reduce_sound(tokens, input);
    let body = reduce_tokens(tokens, input);
    if method == SubMethod::ABS {
        lemma_step_sound(StepView::Abs);
        lemma_then_sound(body, seq![StepView::Abs], 0, 1, 0);
    } else {
        lemma_empty_sound(1);
        lemma_then_sound(body, Seq::<StepView>::empty(), 0, 1, 0);
    }
}

/// The failure of an operand that is none, before a factorial mark.
spec fn missing_view(tokens: Seq<TokenView>, input: Seq<char>) -> crate::errors::ErrorView {
    crate::errors::missing_some_tokens_view(input, tokens[0].index.1 as int)
}

/// Every plan can be run from an empty stack: no step takes a number that
/// is not there, no step but the last is a failure, and a plan that does
/// not end with a failure leaves exactly one number.
pub proof fn lemma_plan_runs(sub: SubView, input: Seq<char>)
    ensures
        runs(plan_of(sub, input), 0),
        fails_last(plan_of(sub, input)),
        !failed(plan_of(sub, input)) ==> depth_after(plan_of(sub, input), 0) == 1,
{
    lemma_plan_sound(sub.tokens, sub.method, input);
    let p = plan_of(sub, input);
    assert(runs(p, 0));
    if !failed(p) {
        assert(depth_after(p, 0) == 0 + 1);
    }
}

/// Whether a token is no assignment sign and holds none at any depth.
pub open spec fn quiet(t: TokenView) -> bool
    decreases t,
{
    &&& t.typ != TokenType::ASSIGN
    &&& forall|i: int| 0 <= i < t.sub.tokens.len() ==> quiet(#[trigger] t.sub.tokens[i])
}

/// Whether none of the tokens is an assignment sign or holds one.
pub open spec fn all_quiet(tokens: Seq<TokenView>) -> bool {
    forall|i: int| 0 <= i < tokens.len() ==> quiet(#[trigger] tokens[i])
}

/// Whether none of the steps gives a variable a value.
pub open spec fn stores_nothing(p: Seq<StepView>) -> bool {
    forall|i: int| 0 <= i < p.len() ==> !(#[trigger] p[i] is Store)
}

/// Steps that store nothing, one after the other, store nothing.
proof fn lemma_then_stores_nothing(a: Seq<StepView>, b: Seq<StepView>)
    requires
        stores_nothing(a),
        stores_nothing(b),
    ensures
        stores_nothing(then(a, b)),
{
    if !failed(a) {
        assert forall|i: int| 0 <= i < (a + b).len() implies !(#[trigger] (a + b)[i] is Store) by {
            if i < a.len() {
                assert((a + b)[i] == a[i]);
            } else {
                assert((a + b)[i] == b[i - a.len()]);
            }
        }
    }
}

/// An operand without an assignment sign is put on the stack by steps
/// that store nothing.
proof fn lemma_operand_stores_nothing(t: TokenView, input: Seq<char>)
    requires
        quiet(t),
    ensures
        operand_steps(t, input).is_some() ==> stores_nothing(operand_steps(t, input).unwrap()),
    decreases t, 0nat, 0nat,
{
    if t.typ == TokenType::SUBEXP {
        lemma_plan_stores_nothing(t.sub.tokens, t.sub.method, input);
    }
}

/// A term without an assignment sign is put on the stack by steps that
/// store nothing.
proof fn lemma_term_stores_nothing(tokens: Seq<TokenView>, i: int, input: Seq<char>)
    requires
        all_quiet(tokens),
        0 <= i < tokens.len(),
    ensures
        stores_nothing(term_steps(tokens, i, input)),
    decreases tokens, 0nat, 1nat,
{
    if is_function_type(tokens[i].typ) {
        if i + 1 < tokens.len() {
            lemma_operand_stores_nothing(tokens[i + 1], input);
            match operand_steps(tokens[i + 1], input) {
                Some(p) => {
                    lemma_then_stores_nothing(
                        p,
                        seq![StepView::Call { func: tokens[i].typ, point: tokens[i].index.1 }],
                    );
                },
                None => {},
            }
        }
    } else {
        lemma_operand_stores_nothing(tokens[i], input);
    }
}

/// The rounds of tokens without an assignment sign store nothing.
proof fn lemma_run_stores_nothing(tokens: Seq<TokenView>, i: int, input: Seq<char>)
    requires
        all_quiet(tokens),
        0 <= i,
    ensures
        stores_nothing(run_from(tokens, i, input)),
    decreases tokens, 1nat, tokens.len() + 2 - i,
{
    if i < tokens.len() {
        lemma_run_stores_nothing(tokens, i + term_width(tokens, i) + 1, input);
        if tokens[i].typ != TokenType::ILLEGAL {
            match operation_at(tokens, i, input) {
                Err(e) => {},
                Ok(op) => {
                    lemma_term_stores_nothing(tokens, i, input);
                    lemma_then_stores_nothing(
                        term_steps(tokens, i, input),
                        seq![StepView::Apply { op, point: tokens[i].index.1 }],
                    );
                },
            }
        }
        lemma_then_stores_nothing(
            round_steps(tokens, i, input),
            run_from(tokens, i + term_width(tokens, i) + 1, input),
        );
    }
}

/// The plan of tokens that hold no assignment sign, at any depth, gives
/// no variable a value.
pub proof fn lemma_plan_stores_nothing(
    tokens: Seq<TokenView>,
    method: SubMethod,
    input: Seq<char>,
)
    requires
        all_quiet(tokens),
    ensures
        stores_nothing(plan_tokens(tokens, method, input)),
    decreases tokens, 3nat, 0nat,
{
    let body = reduce_tokens(tokens, input);
    assert(stores_nothing(body)) by {
        if tokens.len() == 0 {
        } else if tokens.len() >= 3 && tokens[0].typ == TokenType::IDENTIFIER && tokens[1].typ
            == TokenType::ASSIGN {
            assert(quiet(tokens[1]));
        } else if tokens.len() == 1 && tokens[0].typ == TokenType::IDENTIFIER {
        } else if tokens.len() == 1 && tokens[0].typ == TokenType::SUBEXP {
            assert(quiet(tokens[0]));
            lemma_plan_stores_nothing(tokens[0].sub.tokens, tokens[0].sub.method, input);
        } else if tokens.len() == 2 && tokens[1].typ == TokenType::FACTORIAL {
            assert(quiet(tokens[0]));
            lemma_operand_stores_nothing(tokens[0], input);
            let operand = match operand_steps(tokens[0], input) {
                Some(p) => p,
                None => fail(missing_view(tokens, input)),
            };
            lemma_then_stores_nothing(operand, seq![StepView::Factorial]);
        } else {
            lemma_run_stores_nothing(tokens, 0, input);
            lemma_then_stores_nothing(seq![StepView::Zero], run_from(tokens, 0, input));
        }
    }
    lemma_then_stores_nothing(body, finish(method));
}

} // verus!
