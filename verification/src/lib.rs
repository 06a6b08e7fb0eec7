//! An arithmetic expression engine.
//!
//! A source text is scanned into tokens, its bracketed groups are
//! resolved into nested sub-expressions and its tokens are regrouped by
//! operator precedence. The tree that comes of it is laid out as a plan,
//! a linear sequence of steps, and a machine runs the plan: it keeps the
//! stack and the variables and picks the failures, and asks whoever
//! drives it for the arithmetic on the numbers.

pub mod calculator;
pub mod combine;
pub mod environment;
pub mod errors;
pub mod lexer;
pub mod machine;
pub mod mate;
pub mod monitor;
pub mod nesting;
pub mod placement;
pub mod shape;
pub mod stack;
pub mod token;
pub mod utils;
pub mod whitespace;
