//! The evaluator's plan: a tree of tokens laid out as the steps that
//! reduce it to one number.
//!
//! The steps work on a stack of numbers. The plan decides which steps
//! are taken, in which order and with which failure; the machine that
//! runs it asks for the arithmetic on the numbers. A plan ends at its
//! first failure: where a step fails on the numbers that it meets, the
//! steps after it are not run either.

use crate::errors::{
    empty_tokens_view, illegal_token_view, invalid_order_view, missing_some_tokens_view, Error,
    ErrorView,
};
use crate::token::{
    copy_slice, copy_token, is_function_type, is_operator_type, lemma_token_view, views, Sub,
    SubMethod, SubView, Token, TokenType, TokenView,
};
use vstd::prelude::*;
use vstd::string::*;

verus! {

broadcast use lemma_token_view;

/// The evaluator.
pub struct Calculator {}

/// One step of a plan.
#[derive(Debug, PartialEq)]
pub enum Step {
    /// Puts the number zero on the stack.
    Zero,
    /// Puts the number that `literal` writes on the stack; `end` is the
    /// source position at which the literal ends.
    Number { literal: String, end: i32 },
    /// Puts the value of the variable `name` on the stack.
    Load { name: String },
    /// Gives the variable `name` the value on top of the stack, which
    /// stays there.
    Store { name: String },
    /// Takes the right operand, then the left operand from the stack and
    /// puts back what the operator `op` makes of them; `point` is the
    /// source position at which the right operand ends.
    Apply { op: TokenType, point: i32 },
    /// Replaces the value on top of the stack by what the function `func`
    /// makes of it.
    Call { func: TokenType, point: i32 },
    /// Replaces the value on top of the stack by its factorial.
    Factorial,
    /// Replaces the value on top of the stack by its magnitude.
    Abs,
    /// Ends the evaluation with a failure.
    Fail { error: Error },
}

/// The mathematical value of a [`Step`].
pub enum StepView {
    Zero,
    Number { literal: Seq<char>, end: i32 },
    Load { name: Seq<char> },
    Store { name: Seq<char> },
    Apply { op: TokenType, point: i32 },
    Call { func: TokenType, point: i32 },
    Factorial,
    Abs,
    Fail { error: ErrorView },
}

impl View for Step {
    type V = StepView;

    open spec fn view(&self) -> StepView {
        match *self {
            Step::Zero => StepView::Zero,
            Step::Number { literal, end } => StepView::Number { literal: literal@, end },
            Step::Load { name } => StepView::Load { name: name@ },
            Step::Store { name } => StepView::Store { name: name@ },
            Step::Apply { op, point } => StepView::Apply { op, point },
            Step::Call { func, point } => StepView::Call { func, point },
            Step::Factorial => StepView::Factorial,
            Step::Abs => StepView::Abs,
            Step::Fail { error } => StepView::Fail { error: error@ },
        }
    }
}

/// The views of a list of steps, in order.
pub open spec fn step_views(v: Seq<Step>) -> Seq<StepView> {
    Seq::new(v.len(), |i: int| v[i]@)
}

/// Whether a plan ends with a failure.
pub open spec fn failed(p: Seq<StepView>) -> bool {
    p.len() > 0 && p.last() is Fail
}

/// The steps of `p`, and those of `q` after them unless `p` fails.
pub open spec fn then(p: Seq<StepView>, q: Seq<StepView>) -> Seq<StepView> {
    if failed(p) {
        p
    } else {
        p + q
    }
}

/// The plan of a single failure.
pub open spec fn fail(error: ErrorView) -> Seq<StepView> {
    seq![StepView::Fail { error }]
}

/// The steps that put the value of an operand on the stack: of a number,
/// of a variable or of a sub-expression. Other tokens are no operands.
pub open spec fn operand_steps(t: TokenView, input: Seq<char>) -> Option<Seq<StepView>>
    decreases t, 0nat, 0nat,
{
    if t.typ == TokenType::NUMBER {
        Some(seq![StepView::Number { literal: t.literal, end: t.index.1 }])
    } else if t.typ == TokenType::IDENTIFIER {
        Some(seq![StepView::Load { name: t.literal }])
    } else if t.typ == TokenType::SUBEXP {
        Some(plan_tokens(t.sub.tokens, t.sub.method, input))
    } else {
        None
    }
}

/// The operator that is applied to the operand at index `i`: a plus for
/// the first operand, else the operator before the operand. An illegal
/// token or a token that is no operator in that place is a failure.
pub open spec fn operation_at(tokens: Seq<TokenView>, i: int, input: Seq<char>) -> Result<
    TokenType,
    ErrorView,
> {
    if i <= 0 {
        Ok(TokenType::PLUS)
    } else if i > tokens.len() {
        Err(
            missing_some_tokens_view(
                input,
                if tokens.len() > 0 {
                    tokens.last().index.1 as int
                } else {
                    0
                },
            ),
        )
    } else if tokens[i - 1].typ == TokenType::ILLEGAL {
        Err(illegal_token_view(input, tokens[i - 1].literal, tokens[i - 1].index.1 as int))
    } else if is_operator_type(tokens[i - 1].typ) {
        Ok(tokens[i - 1].typ)
    } else {
        Err(invalid_order_view())
    }
}

/// How many tokens the term at index `i` takes: a function takes the
/// token after it as its argument.
pub open spec fn term_width(tokens: Seq<TokenView>, i: int) -> int {
    if is_function_type(tokens[i].typ) {
        2
    } else {
        1
    }
}

/// The steps that put the value of the term at index `i` on the stack.
/// The term is an operand, or a function with the operand after it; any
/// other token counts as zero.
pub open spec fn term_steps(tokens: Seq<TokenView>, i: int, input: Seq<char>) -> Seq<StepView>
    decreases tokens, 0nat, 1nat,
{
    if i < 0 || i >= tokens.len() {
        Seq::empty()
    } else if is_function_type(tokens[i].typ) {
        if i + 1 >= tokens.len() {
            fail(missing_some_tokens_view(input, tokens[i].index.1 as int))
        } else {
            match operand_steps(tokens[i + 1], input) {
                Some(p) => then(
                    p,
                    seq![StepView::Call { func: tokens[i].typ, point: tokens[i].index.1 }],
                ),
                None => fail(missing_some_tokens_view(input, tokens[i + 1].index.1 as int)),
            }
        }
    } else {
        match operand_steps(tokens[i], input) {
            Some(p) => p,
            None => seq![StepView::Zero],
        }
    }
}

/// The steps of the term at index `i`: the term is put on the stack and
/// joined to the value below it by the operator before it. An illegal
/// token, in the term's place or in the operator's, is a failure, and so
/// is a token before the term that is no operator.
pub open spec fn round_steps(tokens: Seq<TokenView>, i: int, input: Seq<char>) -> Seq<StepView>
    decreases tokens, 0nat, 2nat,
{
    if i < 0 || i >= tokens.len() {
        Seq::empty()
    } else if tokens[i].typ == TokenType::ILLEGAL {
        fail(illegal_token_view(input, tokens[i].literal, tokens[i].index.1 as int))
    } else {
        match operation_at(tokens, i, input) {
            Err(e) => fail(e),
            Ok(op) => then(
                term_steps(tokens, i, input),
                seq![StepView::Apply { op, point: tokens[i].index.1 }],
            ),
        }
    }
}

/// The steps of the terms from index `i` on, each with the operator
/// before it. The tokens must end with a term: where they end with an
/// operator, the plan fails for missing tokens.
pub open spec fn run_from(tokens: Seq<TokenView>, i: int, input: Seq<char>) -> Seq<StepView>
    decreases tokens, 1nat, tokens.len() + 2 - i,
{
    if i < 0 || i > tokens.len() {
        Seq::empty()
    } else if i == tokens.len() {
        fail(
            missing_some_tokens_view(
                input,
                if tokens.len() > 0 {
                    tokens.last().index.1 as int
                } else {
                    0
                },
            ),
        )
    } else {
        then(
            round_steps(tokens, i, input),
            run_from(tokens, i + term_width(tokens, i) + 1, input),
        )
    }
}

/// The step that finishes the value of a sub-expression: the magnitude
/// for an absolute value, nothing for a value that is passed through.
pub open spec fn finish(method: SubMethod) -> Seq<StepView> {
    if method == SubMethod::ABS {
        seq![StepView::Abs]
    } else {
        Seq::empty()
    }
}

/// The steps that reduce a list of tokens to one number, before its
/// method finishes the value.
///
/// No tokens are a failure. An identifier, an assignment sign and more
/// tokens are an assignment: the plan of the tokens after the sign, then
/// the store. A lone identifier is read, a lone sub-expression is reduced
/// by itself, and an operand with a factorial mark gives the factorial.
/// All else is a run of terms that starts from zero.
pub open spec fn reduce_tokens(tokens: Seq<TokenView>, input: Seq<char>) -> Seq<StepView>
    decreases tokens, 2nat, 0nat,
{
    if tokens.len() == 0 {
        fail(empty_tokens_view())
    } else if tokens.len() >= 3 && tokens[0].typ == TokenType::IDENTIFIER && tokens[1].typ
        == TokenType::ASSIGN {
        then(
            plan_tokens(tokens.subrange(2, tokens.len() as int), SubMethod::PAREN, input),
            seq![StepView::Store { name: tokens[0].literal }],
        )
    } else if tokens.len() == 1 && tokens[0].typ == TokenType::IDENTIFIER {
        seq![StepView::Load { name: tokens[0].literal }]
    } else if tokens.len() == 1 && tokens[0].typ == TokenType::SUBEXP {
        plan_tokens(tokens[0].sub.tokens, tokens[0].sub.method, input)
    } else if tokens.len() == 2 && tokens[1].typ == TokenType::FACTORIAL {
        then(
            match operand_steps(tokens[0], input) {
                Some(p) => p,
                None => fail(missing_some_tokens_view(input, tokens[0].index.1 as int)),
            },
            seq![StepView::Factorial],
        )
    } else {
        then(seq![StepView::Zero], run_from(tokens, 0, input))
    }
}

/// The plan of a list of tokens whose value is finished by `method`:
/// the tokens are reduced to one number, see [`reduce_tokens`], and
/// whatever their form, within the brackets of an absolute value the
/// magnitude of that number is taken.
pub open spec fn plan_tokens(tokens: Seq<TokenView>, method: SubMethod, input: Seq<char>) -> Seq<
    StepView,
>
    decreases tokens, 3nat, 0nat,
{
    then(reduce_tokens(tokens, input), finish(method))
}

/// The plan of a sub-expression.
pub open spec fn plan_of(sub: SubView, input: Seq<char>) -> Seq<StepView> {
    plan_tokens(sub.tokens, sub.method, input)
}

/// The view of a list with one more step at its end.
pub proof fn lemma_steps_push(v: Seq<Step>, s: Step)
    ensures
        step_views(v.push(s)) == step_views(v).push(s@),
{
    assert(step_views(v.push(s)) =~= step_views(v).push(s@));
}

/// The view of two lists of steps, one after the other.
pub proof fn lemma_steps_add(v: Seq<Step>, w: Seq<Step>)
    ensures
        step_views(v + w) == step_views(v) + step_views(w),
{
    assert(step_views(v + w) =~= step_views(v) + step_views(w));
}

/// Whether the steps end with a failure.
fn has_failed(steps: &Vec<Step>) -> (r: bool)
    ensures
        r == failed(step_views(steps@)),
{
    let n: usize = steps.len();
    if n == 0 {
        return false;
    }
    match &steps[n - 1] {
        Step::Fail { error } => true,
        _ => false,
    }
}

/// Puts the steps of `more` after those of `steps`, unless `steps` fails.
fn join(steps: &mut Vec<Step>, more: Vec<Step>)
    ensures
        step_views(final(steps)@) == then(step_views(old(steps)@), step_views(more@)),
{
    if !has_failed(steps) {
        let mut more = more;
        proof {
            lemma_steps_add(steps@, more@);
        }
        steps.append(&mut more);
    }
}

/// Puts `step` after the steps of `steps`, unless `steps` fails.
fn join_one(steps: &mut Vec<Step>, step: Step)
    ensures
        step_views(final(steps)@) == then(step_views(old(steps)@), seq![step@]),
{
    if !has_failed(steps) {
        proof {
            lemma_steps_push(steps@, step);
            assert(step_views(steps@).push(step@) =~= step_views(steps@) + seq![step@]);
        }
        steps.push(step);
    }
}

/// A plan of one step.
fn one(step: Step) -> (r: Vec<Step>)
    ensures
        step_views(r@) == seq![step@],
{
    let mut v: Vec<Step> = Vec::new();
    v.push(step);
    assert(step_views(v@) =~= seq![step@]);
    v
}

/// The source position that the failure for missing tokens names: the
/// end of the last token, zero where there is none.
fn last_end(tokens: &Vec<Token>) -> (r: i32)
    ensures
        r == if tokens@.len() > 0 {
            views(tokens@).last().index.1
        } else {
            0i32
        },
{
    let n: usize = tokens.len();
    if n > 0 {
        tokens[n - 1].index.1
    } else {
        0
    }
}

impl Calculator {
    /// The operator that is applied to the operand at index `i`, see
    /// [`operation_at`].
    pub fn take_operation(i: usize, tokens: &Vec<Token>, input: &str) -> (r: Result<
        TokenType,
        Error,
    >)
        ensures
            match r {
                Ok(op) => operation_at(views(tokens@), i as int, input@) == Ok::<
                    TokenType,
                    ErrorView,
                >(op),
                Err(e) => operation_at(views(tokens@), i as int, input@) == Err::<
                    TokenType,
                    ErrorView,
                >(e@),
            },
    {
        if i == 0 {
            return Ok(TokenType::PLUS);
        }
        if i > tokens.len() {
            return Err(Error::missing_some_tokens(String::from_str(input), last_end(tokens)));
        }
        let prev = &tokens[i - 1];
        if prev.is_illegal() {
            return Err(Error::illeagal_token(String::from_str(input), copy_token(prev)));
        }
        if prev.is_operator() {
            return Ok(prev.typ);
        }
        Err(Error::invalid_order())
    }

    /// The steps that put the value of an operand on the stack, see
    /// [`operand_steps`].
    fn operand(t: &Token, input: &str) -> (r: Option<Vec<Step>>)
        ensures
            match r {
                Some(p) => operand_steps(t@, input@) == Some(step_views(p@)),
                None => operand_steps(t@, input@).is_none(),
            },
        decreases t@, 0nat, 0nat,
    {
        if t.typ == TokenType::NUMBER {
            Some(one(Step::Number { literal: t.literal.clone(), end: t.index.1 }))
        } else if t.typ == TokenType::IDENTIFIER {
            Some(one(Step::Load { name: t.literal.clone() }))
        } else if t.typ == TokenType::SUBEXP {
            Some(Calculator::plan_list(&t.sub.tokens, t.sub.method, input))
        } else {
            None
        }
    }

    /// The steps that put the value of the term at index `i` on the
    /// stack, see [`term_steps`].
    fn term(tokens: &Vec<Token>, i: usize, input: &str) -> (r: Vec<Step>)
        requires
            i < tokens@.len(),
        ensures
            step_views(r@) == term_steps(views(tokens@), i as int, input@),
        decreases views(tokens@), 0nat, 1nat,
    {
        let t = &tokens[i];
        assert(views(tokens@)[i as int] == t@);
        if t.is_function() {
            if tokens.len() - i <= 1 {
                return one(
                    Step::Fail {
                        error: Error::missing_some_tokens(String::from_str(input), t.index.1),
                    },
                );
            }
            let arg = &tokens[i + 1];
            match Calculator::operand(arg, input) {
                Some(p) => {
                    let mut p = p;
                    join_one(&mut p, Step::Call { func: t.typ, point: t.index.1 });
                    p
                },
                None => one(
                    Step::Fail {
                        error: Error::missing_some_tokens(String::from_str(input), arg.index.1),
                    },
                ),
            }
        } else {
            match Calculator::operand(t, input) {
                Some(p) => p,
                None => one(Step::Zero),
            }
        }
    }

    /// The steps that reduce a list of tokens, see [`reduce_tokens`].
    fn reduce(tokens: &Vec<Token>, input: &str) -> (r: Vec<Step>)
        ensures
            step_views(r@) == reduce_tokens(views(tokens@), input@),
        decreases views(tokens@), 2nat, 0nat,
    {
        let n: usize = tokens.len();
        if n == 0 {
            return one(Step::Fail { error: Error::empty_tokens() });
        }
        let first = &tokens[0];
        if n >= 3 && first.is_identifier() && tokens[1].is_assign() {
            let rest = copy_slice(tokens, 2, n);
            let mut p = Calculator::plan_list(&rest, SubMethod::PAREN, input);
            join_one(&mut p, Step::Store { name: first.literal.clone() });
            return p;
        }
        if n == 1 && first.is_identifier() {
            return one(Step::Load { name: first.literal.clone() });
        }
        if n == 1 && first.is_sub_exp() {
            return Calculator::plan_list(&first.sub.tokens, first.sub.method, input);
        }
        if n == 2 && tokens[1].is_factorial() {
            let mut p = match Calculator::operand(first, input) {
                Some(p) => p,
                None => one(
                    Step::Fail {
                        error: Error::missing_some_tokens(String::from_str(input), first.index.1),
                    },
                ),
            };
            join_one(&mut p, Step::Factorial);
            return p;
        }
        let mut p = one(Step::Zero);
        let run = Calculator::run(tokens, input);
        join(&mut p, run);
        p
    }

    /// The plan of a list of tokens, see [`plan_tokens`].
    fn plan_list(tokens: &Vec<Token>, method: SubMethod, input: &str) -> (r: Vec<Step>)
        ensures
            step_views(r@) == plan_tokens(views(tokens@), method, input@),
        decreases views(tokens@), 3nat, 0nat,
    {
        let mut p = Calculator::reduce(tokens, input);
        if method == SubMethod::ABS {
            join_one(&mut p, Step::Abs);
        } else {
            assert(step_views(p@) + Seq::<StepView>::empty() =~= step_views(p@));
        }
        p
    }

    /// The steps of the term at index `i`, see [`round_steps`].
    fn round(tokens: &Vec<Token>, i: usize, input: &str) -> (r: Vec<Step>)
        requires
            i < tokens@.len(),
        ensures
            step_views(r@) == round_steps(views(tokens@), i as int, input@),
        decreases views(tokens@), 0nat, 2nat,
    {
        let t = &tokens[i];
        if t.is_illegal() {
            return one(
                Step::Fail { error: Error::illeagal_token(String::from_str(input), copy_token(t)) },
            );
        }
        match Calculator::take_operation(i, tokens, input) {
            Err(error) => one(Step::Fail { error }),
            Ok(op) => {
                let mut steps = Calculator::term(tokens, i, input);
                join_one(&mut steps, Step::Apply { op, point: t.index.1 });
                steps
            },
        }
    }

    /// The steps of the terms of a list of tokens, see [`run_from`].
    fn run(tokens: &Vec<Token>, input: &str) -> (r: Vec<Step>)
        ensures
            step_views(r@) == run_from(views(tokens@), 0, input@),
        decreases views(tokens@), 1nat, 0nat,
    {
        let n: usize = tokens.len();
        let ghost ts = views(tokens@);
        let mut out: Vec<Step> = Vec::new();
        let mut i: usize = 0;
        assert(step_views(out@) =~= Seq::<StepView>::empty());
        assert(then(step_views(out@), run_from(ts, 0, input@)) =~= run_from(ts, 0, input@));
        loop
            invariant_except_break
                !failed(step_views(out@)),
                then(step_views(out@), run_from(ts, i as int, input@)) == run_from(ts, 0, input@),
            invariant
                i <= n,
                n == tokens@.len(),
                ts == views(tokens@),
            ensures
                step_views(out@) == run_from(ts, 0, input@),
            decreases n - i,
        {
            let ghost seen = step_views(out@);
            if i == n {
                join_one(
                    &mut out,
                    Step::Fail {
                        error: Error::missing_some_tokens(
                            String::from_str(input),
                            last_end(tokens),
                        ),
                    },
                );
                break ;
            }
            let steps = Calculator::round(tokens, i, input);
            let width: usize = if tokens[i].is_function() {
                2
            } else {
                1
            };
            let ghost rest = run_from(ts, i + width + 1, input@);
            proof {
                lemma_then_assoc(seen, step_views(steps@), rest);
            }
            join(&mut out, steps);
            if has_failed(&out) {
                break ;
            }
            if n - i <= width {
                assert(rest =~= Seq::<StepView>::empty());
                assert(step_views(out@) + Seq::<StepView>::empty() =~= step_views(out@));
                break ;
            }
            i = i + width + 1;
        }
        out
    }

    /// Lays a sub-expression out as the steps that reduce it to one
    /// number, see [`plan_tokens`].
    pub fn plan(sub: &Sub, input: &str) -> (r: Vec<Step>)
        ensures
            step_views(r@) == plan_of(sub@, input@),
    {
        Calculator::plan_list(&sub.tokens, sub.method, input)
    }
}

/// Steps may be gathered from the left or from the right.
pub proof fn lemma_then_assoc(a: Seq<StepView>, b: Seq<StepView>, c: Seq<StepView>)
    requires
        !failed(a),
    ensures
        then(then(a, b), c) == then(a, then(b, c)),
{
    if failed(b) {
        assert(failed(a + b)) by {
            assert((a + b).last() == b.last());
        }
    } else {
        if b.len() > 0 {
            assert((a + b).last() == b.last());
        } else {
            assert(a + b =~= a);
        }
        assert(!failed(a + b));
        if failed(c) {
        }
        assert((a + b) + c =~= a + (b + c));
    }
}

} // verus!
