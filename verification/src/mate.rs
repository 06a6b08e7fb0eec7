//! The whole way from a source text to the plan of its evaluation.

use crate::calculator::{plan_of, step_views, Calculator, Step, StepView};
use crate::errors::{Error, ErrorView};
use crate::lexer::{lexed, Lexer};
use vstd::prelude::*;

verus! {

/// Lexer and evaluator in one.
pub struct Mate {}

/// The plan of a source text: that of what the text is lexed to.
pub open spec fn planned(input: Seq<char>) -> Result<Seq<StepView>, ErrorView> {
    match lexed(input) {
        Err(e) => Err(e),
        Ok(sub) => Ok(plan_of(sub, input)),
    }
}

impl Mate {
    /// Lexes a source text and lays it out as the steps of its
    /// evaluation; fails where the lexer fails.
    pub fn plan(input: &str) -> (r: Result<Vec<Step>, Error>)
        ensures
            match r {
                Ok(steps) => planned(input@) == Ok::<Seq<StepView>, ErrorView>(
                    step_views(steps@),
                ),
                Err(e) => planned(input@) == Err::<Seq<StepView>, ErrorView>(e@),
            },
    {
        match Lexer::lex(input) {
            Err(e) => Err(e),
            Ok(sub) => Ok(Calculator::plan(&sub, input)),
        }
    }
}

} // verus!
