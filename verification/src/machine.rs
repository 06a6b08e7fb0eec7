//! The machine that runs a plan.
//!
//! The machine takes the steps of a plan one after the other. It keeps
//! the stack of numbers, reads and assigns the variables and picks the
//! failures. What it cannot do is arithmetic: where a step works on
//! numbers, the machine halts with a task, and goes on once it is
//! supplied with the answer. A number is handed over as the 64 bits that
//! write it, which the machine neither reads nor makes.

use crate::calculator::{failed, plan_of, step_views, Calculator, Step, StepView};
use crate::environment::Environment;
use crate::errors::{
    cannot_parse_to_number_view, division_by_zero_view, empty_tokens_view,
    factorial_fraction_view, factorial_negative_view, factorial_too_large_view,
    function_domain_view, undefined_variable_view, Error, ErrorView,
};
use crate::stack::{
    all_quiet, depth_after, fails_last, gives, lemma_plan_runs, lemma_plan_stores_nothing, needs,
    runs, stores_nothing,
};
use crate::token::{Sub, SubView, Token, TokenType};
use vstd::prelude::*;
use vstd::string::*;

verus! {

/// Work on numbers that the machine asks for.
#[derive(Debug, PartialEq)]
pub enum Task {
    /// The number zero.
    Zero,
    /// The number that `literal` writes.
    Parse { literal: String },
    /// What the operator `op` makes of `left` and `right`.
    Apply { op: TokenType, left: u64, right: u64 },
    /// What the function `func` makes of `value`.
    Call { func: TokenType, value: u64 },
    /// The factorial of `value`.
    Factorial { value: u64 },
    /// The magnitude of `value`.
    Abs { value: u64 },
}

/// The mathematical value of a [`Task`].
pub enum TaskView {
    Zero,
    Parse { literal: Seq<char> },
    Apply { op: TokenType, left: u64, right: u64 },
    Call { func: TokenType, value: u64 },
    Factorial { value: u64 },
    Abs { value: u64 },
}

impl View for Task {
    type V = TaskView;

    open spec fn view(&self) -> TaskView {
        match *self {
            Task::Zero => TaskView::Zero,
            Task::Parse { literal } => TaskView::Parse { literal: literal@ },
            Task::Apply { op, left, right } => TaskView::Apply { op, left, right },
            Task::Call { func, value } => TaskView::Call { func, value },
            Task::Factorial { value } => TaskView::Factorial { value },
            Task::Abs { value } => TaskView::Abs { value },
        }
    }
}

/// Why a task has no answer; `shown` is the number at fault as it is to
/// be printed.
#[derive(Debug, PartialEq)]
pub enum Fault {
    /// The literal writes no number.
    NotANumber,
    /// The right side of a division is zero.
    DivisionByZero,
    /// The operand of a factorial is negative.
    Negative { shown: String },
    /// The operand of a factorial is no whole number.
    Fraction { shown: String },
    /// The operand of a factorial is too large.
    TooLarge { shown: String },
    /// The argument of a function is outside the function's domain.
    OutsideDomain { shown: String },
}

/// The mathematical value of a [`Fault`].
pub enum FaultView {
    NotANumber,
    DivisionByZero,
    Negative { shown: Seq<char> },
    Fraction { shown: Seq<char> },
    TooLarge { shown: Seq<char> },
    OutsideDomain { shown: Seq<char> },
}

impl View for Fault {
    type V = FaultView;

    open spec fn view(&self) -> FaultView {
        match *self {
            Fault::NotANumber => FaultView::NotANumber,
            Fault::DivisionByZero => FaultView::DivisionByZero,
            Fault::Negative { shown } => FaultView::Negative { shown: shown@ },
            Fault::Fraction { shown } => FaultView::Fraction { shown: shown@ },
            Fault::TooLarge { shown } => FaultView::TooLarge { shown: shown@ },
            Fault::OutsideDomain { shown } => FaultView::OutsideDomain { shown: shown@ },
        }
    }
}

/// Where the machine has halted.
#[derive(Debug, PartialEq)]
pub enum Next {
    /// A task is to be answered.
    Task(Task),
    /// The plan is run; this is the result.
    Done(u64),
    /// The evaluation has failed.
    Failed(Error),
}

/// The mathematical value of a [`Next`].
pub enum NextView {
    Task(TaskView),
    Done(u64),
    Failed(ErrorView),
}

impl View for Next {
    type V = NextView;

    open spec fn view(&self) -> NextView {
        match *self {
            Next::Task(t) => NextView::Task(t@),
            Next::Done(v) => NextView::Done(v),
            Next::Failed(e) => NextView::Failed(e@),
        }
    }
}

/// A plan at work: the steps, the step that is next and the stack.
#[derive(Debug)]
pub struct Machine {
    plan: Vec<Step>,
    input: String,
    at: usize,
    stack: Vec<u64>,
}

/// Whether a step works on numbers, and so is a task.
pub open spec fn is_task(step: StepView) -> bool {
    step is Zero || step is Number || step is Apply || step is Call || step is Factorial
        || step is Abs
}

/// The task of a step that works on numbers, on a stack that holds the
/// numbers that the step needs.
pub open spec fn task_of(step: StepView, stack: Seq<u64>) -> TaskView {
    match step {
        StepView::Zero => TaskView::Zero,
        StepView::Number { literal, end } => TaskView::Parse { literal },
        StepView::Apply { op, point } => TaskView::Apply {
            op,
            left: stack[stack.len() - 2],
            right: stack[stack.len() - 1],
        },
        StepView::Call { func, point } => TaskView::Call { func, value: stack.last() },
        StepView::Factorial => TaskView::Factorial { value: stack.last() },
        _ => TaskView::Abs { value: stack.last() },
    }
}

/// The stack after a task has been answered: the numbers that the step
/// needed are taken, the answer is put.
pub open spec fn answered(step: StepView, stack: Seq<u64>, value: u64) -> Seq<u64> {
    stack.subrange(0, stack.len() - needs(step)).push(value)
}

/// The failure of a task that has no answer. The place of the failure
/// is that of the step; the number at fault is printed as the fault
/// shows it.
pub open spec fn fault_view(step: StepView, input: Seq<char>, fault: FaultView) -> ErrorView {
    match fault {
        FaultView::NotANumber => match step {
            StepView::Number { literal, end } => cannot_parse_to_number_view(
                input,
                literal,
                end as int,
            ),
            _ => cannot_parse_to_number_view(input, Seq::empty(), -1),
        },
        FaultView::DivisionByZero => match step {
            StepView::Apply { op, point } => division_by_zero_view(input, point as int),
            _ => division_by_zero_view(input, -1),
        },
        FaultView::Negative { shown } => factorial_negative_view(shown),
        FaultView::Fraction { shown } => factorial_fraction_view(shown),
        FaultView::TooLarge { shown } => factorial_too_large_view(shown),
        FaultView::OutsideDomain { shown } => match step {
            StepView::Call { func, point } => function_domain_view(func, shown),
            _ => function_domain_view(TokenType::ILLEGAL, shown),
        },
    }
}

/// Where a machine halts, and in what state.
pub struct Halt {
    pub at: int,
    pub stack: Seq<u64>,
    pub env: Map<Seq<char>, u64>,
    pub next: NextView,
}

/// The run of the machine from step `at` on, up to its next halt. A
/// variable is read, which fails if it has no value; a variable is
/// given the number on top of the stack; a failure of the plan ends the
/// run, and so does the end of the plan, with the number on top of the
/// stack as the result. A step that works on numbers halts the machine
/// with its task.
pub open spec fn spin(
    plan: Seq<StepView>,
    at: int,
    stack: Seq<u64>,
    env: Map<Seq<char>, u64>,
) -> Halt
    decreases plan.len() - at,
{
    if at < 0 || at >= plan.len() {
        Halt {
            at,
            stack,
            env,
            next: if stack.len() > 0 {
                NextView::Done(stack.last())
            } else {
                NextView::Failed(empty_tokens_view())
            },
        }
    } else {
        match plan[at] {
            StepView::Load { name } => if env.contains_key(name) {
                spin(plan, at + 1, stack.push(env[name]), env)
            } else {
                Halt { at, stack, env, next: NextView::Failed(undefined_variable_view(name)) }
            },
            StepView::Store { name } => if stack.len() > 0 {
                spin(plan, at + 1, stack, env.insert(name, stack.last()))
            } else {
                Halt { at, stack, env, next: NextView::Failed(empty_tokens_view()) }
            },
            StepView::Fail { error } => Halt { at, stack, env, next: NextView::Failed(error) },
            step => Halt { at, stack, env, next: NextView::Task(task_of(step, stack)) },
        }
    }
}

/// The steps from `at` on run on a stack that is one step further.
proof fn lemma_runs_next(plan: Seq<StepView>, at: int, depth: int)
    requires
        0 <= at < plan.len(),
        !(plan[at] is Fail),
        runs(plan.subrange(at, plan.len() as int), depth),
    ensures
        depth >= needs(plan[at]),
        runs(plan.subrange(at + 1, plan.len() as int), depth + gives(plan[at])),
        depth_after(plan.subrange(at, plan.len() as int), depth) == depth_after(
            plan.subrange(at + 1, plan.len() as int),
            depth + gives(plan[at]),
        ),
{
    let rest = plan.subrange(at, plan.len() as int);
    assert(rest[0] == plan[at]);
    assert(rest.subrange(1, rest.len() as int) =~= plan.subrange(at + 1, plan.len() as int));
}

impl Machine {
    /// The steps of the plan.
    pub closed spec fn steps(&self) -> Seq<StepView> {
        step_views(self.plan@)
    }

    /// The source text of the plan.
    pub closed spec fn text(&self) -> Seq<char> {
        self.input@
    }

    /// The index of the step that is next.
    pub closed spec fn place(&self) -> int {
        self.at as int
    }

    /// The stack, its top last.
    pub closed spec fn stack(&self) -> Seq<u64> {
        self.stack@
    }

    /// The steps that are left can be run on the stack as it is: none
    /// takes a number that is not there, a failure is the last step, and
    /// without a failure one number is left at the end.
    pub closed spec fn wf(&self) -> bool {
        let plan = step_views(self.plan@);
        let rest = plan.subrange(self.at as int, plan.len() as int);
        &&& self.at <= self.plan@.len()
        &&& fails_last(plan)
        &&& failed(plan) ==> self.at < plan.len()
        &&& runs(rest, self.stack@.len() as int)
        &&& !failed(plan) ==> depth_after(rest, self.stack@.len() as int) == 1
    }

    /// Whether the machine has halted with a task.
    pub open spec fn pending(&self) -> bool {
        0 <= self.place() < self.steps().len() && is_task(self.steps()[self.place()])
    }

    /// A machine at the start of the plan of a sub-expression, with an
    /// empty stack.
    pub fn new(sub: &Sub, input: &str) -> (r: Machine)
        ensures
            r.wf(),
            r.steps() == plan_of(sub@, input@),
            r.text() == input@,
            r.place() == 0,
            r.stack() == Seq::<u64>::empty(),
    {
        let plan = Calculator::plan(sub, input);
        proof {
            lemma_plan_runs(sub@, input@);
            let p = step_views(plan@);
            assert(p.subrange(0, p.len() as int) =~= p);
            if failed(p) {
                assert(p.len() > 0);
            }
        }
        Machine { plan, input: String::from_str(input), at: 0, stack: Vec::new() }
    }

    /// Runs the machine up to its next halt, see [`spin`]. A machine that
    /// has halted with a task halts with the same task again until it
    /// is supplied with the answer.
    pub fn advance(&mut self, env: &mut Environment) -> (r: Next)
        requires
            old(self).wf(),
            old(env).wf(),
        ensures
            final(self).wf(),
            final(env).wf(),
            final(self).steps() == old(self).steps(),
            final(self).text() == old(self).text(),
            ({
                let halt = spin(
                    old(self).steps(),
                    old(self).place(),
                    old(self).stack(),
                    old(env)@,
                );
                &&& final(self).place() == halt.at
                &&& final(self).stack() == halt.stack
                &&& final(env)@ == halt.env
                &&& r@ == halt.next
            }),
    {
        let ghost plan = step_views(self.plan@);
        let n: usize = self.plan.len();
        assert(plan.len() == n);
        loop
            invariant
                self.wf(),
                env.wf(),
                self.plan == old(self).plan,
                self.input == old(self).input,
                plan == step_views(self.plan@),
                n == self.plan@.len(),
                spin(plan, self.at as int, self.stack@, env@) == spin(
                    plan,
                    old(self).at as int,
                    old(self).stack@,
                    old(env)@,
                ),
            decreases n - self.at,
        {
            if self.at >= n {
                let depth: usize = self.stack.len();
                assert(plan.subrange(n as int, n as int) =~= Seq::<StepView>::empty());
                assert(depth == 1);
                return Next::Done(self.stack[depth - 1]);
            }
            assert(plan[self.at as int] == self.plan@[self.at as int]@);
            let ghost depth = self.stack@.len() as int;
            match &self.plan[self.at] {
                Step::Zero => {
                    return Next::Task(Task::Zero);
                },
                Step::Load { name } => {
                    match env.get(name.as_str()) {
                        Some(value) => {
                            proof {
                                lemma_runs_next(plan, self.at as int, depth);
                            }
                            self.stack.push(value);
                            self.at = self.at + 1;
                        },
                        None => {
                            return Next::Failed(Error::undefined_variable(name.as_str()));
                        },
                    }
                },
                Step::Store { name } => {
                    proof {
                        lemma_runs_next(plan, self.at as int, depth);
                    }
                    let top: u64 = self.stack[self.stack.len() - 1];
                    env.set(name.as_str(), top);
                    self.at = self.at + 1;
                },
                Step::Fail { error } => {
                    return Next::Failed(error.clone());
                },
                Step::Number { literal, end } => {
                    return Next::Task(Task::Parse { literal: literal.clone() });
                },
                Step::Apply { op, point } => {
                    proof {
                        lemma_runs_next(plan, self.at as int, depth);
                    }
                    let depth: usize = self.stack.len();
                    return Next::Task(
                        Task::Apply {
                            op: *op,
                            left: self.stack[depth - 2],
                            right: self.stack[depth - 1],
                        },
                    );
                },
                Step::Call { func, point } => {
                    proof {
                        lemma_runs_next(plan, self.at as int, depth);
                    }
                    let depth: usize = self.stack.len();
                    return Next::Task(Task::Call { func: *func, value: self.stack[depth - 1] });
                },
                Step::Factorial => {
                    proof {
                        lemma_runs_next(plan, self.at as int, depth);
                    }
                    let depth: usize = self.stack.len();
                    return Next::Task(Task::Factorial { value: self.stack[depth - 1] });
                },
                Step::Abs => {
                    proof {
                        lemma_runs_next(plan, self.at as int, depth);
                    }
                    let depth: usize = self.stack.len();
                    return Next::Task(Task::Abs { value: self.stack[depth - 1] });
                },
            }
        }
    }

    /// Supplies the machine with the answer to the task that it has
    /// halted with. A number takes the place of the numbers that the
    /// task was made of, and the machine is ready to go on; a fault
    /// gives the failure of the evaluation, see [`fault_view`]. A
    /// machine that has not halted with a task takes no answer.
    pub fn supply(&mut self, answer: Result<u64, Fault>) -> (r: Option<Error>)
        requires
            old(self).wf(),
        ensures
            final(self).wf(),
            final(self).steps() == old(self).steps(),
            final(self).text() == old(self).text(),
            match answer {
                Ok(value) => r.is_none() && if old(self).pending() {
                    &&& final(self).place() == old(self).place() + 1
                    &&& final(self).stack() == answered(
                        old(self).steps()[old(self).place()],
                        old(self).stack(),
                        value,
                    )
                } else {
                    final(self).place() == old(self).place() && final(self).stack() == old(
                        self,
                    ).stack()
                },
                Err(fault) => final(self).place() == old(self).place() && final(self).stack()
                    == old(self).stack() && if old(self).pending() {
                    r.is_some() && r.unwrap()@ == fault_view(
                        old(self).steps()[old(self).place()],
                        old(self).text(),
                        fault@,
                    )
                } else {
                    r.is_none()
                },
            },
    {
        let ghost plan = step_views(self.plan@);
        if self.at >= self.plan.len() {
            return None;
        }
        assert(plan[self.at as int] == self.plan@[self.at as int]@);
        let ghost depth = self.stack@.len() as int;
        let taken: usize = match &self.plan[self.at] {
            Step::Zero => 0,
            Step::Number { literal, end } => 0,
            Step::Apply { op, point } => 2,
            Step::Call { func, point } => 1,
            Step::Factorial => 1,
            Step::Abs => 1,
            _ => {
                return None;
            },
        };
        match answer {
            Ok(value) => {
                proof {
                    lemma_runs_next(plan, self.at as int, depth);
                }
                let ghost before = self.stack@;
                let mut k: usize = 0;
                while k < taken
                    invariant
                        k <= taken <= before.len(),
                        self.stack@ == before.subrange(0, before.len() - k),
                        self.plan == old(self).plan,
                        self.input == old(self).input,
                        self.at == old(self).at,
                    decreases taken - k,
                {
                    self.stack.pop();
                    assert(self.stack@ =~= before.subrange(0, before.len() - (k + 1)));
                    k += 1;
                }
                self.stack.push(value);
                self.at = self.at + 1;
                None
            },
            Err(fault) => Some(
                Machine::fault_error(&self.plan[self.at], self.input.as_str(), fault),
            ),
        }
    }

    /// The failure of a task that has no answer, see [`fault_view`].
    fn fault_error(step: &Step, input: &str, fault: Fault) -> (r: Error)
        ensures
            r@ == fault_view(step@, input@, fault@),
    {
        match fault {
            Fault::NotANumber => {
                let token = match step {
                    Step::Number { literal, end } => Token::new(
                        TokenType::NUMBER,
                        literal.clone(),
                        Sub::empty(),
                        (*end, *end),
                    ),
                    _ => Token::new(TokenType::NUMBER, String::new(), Sub::empty(), (-1, -1)),
                };
                Error::cannot_parse_to_number(String::from_str(input), token)
            },
            Fault::DivisionByZero => {
                let point: i32 = match step {
                    Step::Apply { op, point } => *point,
                    _ => -1,
                };
                Error::division_by_zero(String::from_str(input), point)
            },
            Fault::Negative { shown } => Error::factorial_negative(shown.as_str()),
            Fault::Fraction { shown } => Error::factorial_fraction(shown.as_str()),
            Fault::TooLarge { shown } => Error::factorial_too_large(shown.as_str()),
            Fault::OutsideDomain { shown } => {
                let func = match step {
                    Step::Call { func, point } => *func,
                    _ => TokenType::ILLEGAL,
                };
                Error::function_domain(func, shown.as_str())
            },
        }
    }
}

/// A run of steps that store nothing leaves the variables as they were.
pub proof fn lemma_spin_keeps_variables(
    plan: Seq<StepView>,
    at: int,
    stack: Seq<u64>,
    env: Map<Seq<char>, u64>,
)
    requires
        stores_nothing(plan),
    ensures
        spin(plan, at, stack, env).env == env,
    decreases plan.len() - at,
{
    if 0 <= at < plan.len() {
        match plan[at] {
            StepView::Load { name } => {
                if env.contains_key(name) {
                    lemma_spin_keeps_variables(plan, at + 1, stack.push(env[name]), env);
                }
            },
            StepView::Store { name } => {
                assert(!(plan[at] is Store));
            },
            _ => {},
        }
    }
}

/// An evaluation without an assignment can be repeated. A tree that
/// holds no assignment sign, at any depth, has a plan that gives no
/// variable a value, so every run of the machine leaves the variables
/// as they were, whatever answers it is supplied with. Plan and halt
/// are made from the tree, the text, the stack and the variables alone:
/// run again on the variables that the run before has left, the machine
/// halts where it halted and with what it halted.
pub proof fn lemma_evaluation_repeats(
    sub: SubView,
    input: Seq<char>,
    at: int,
    stack: Seq<u64>,
    env: Map<Seq<char>, u64>,
)
    requires
        all_quiet(sub.tokens),
    ensures
        stores_nothing(plan_of(sub, input)),
        spin(plan_of(sub, input), at, stack, env).env == env,
        spin(plan_of(sub, input), at, stack, spin(plan_of(sub, input), at, stack, env).env)
            == spin(plan_of(sub, input), at, stack, env),
{
    lemma_plan_stores_nothing(sub.tokens, sub.method, input);
    lemma_spin_keeps_variables(plan_of(sub, input), at, stack, env);
}

} // verus!
