//! Interpreters for integer arithmetic, each a step further than the one
//! before:
//!
//! - [`calculator`]: flat arithmetic, read by a finite state machine;
//! - [`calculator::parser`] and [`calculator::interpreter`]: expressions
//!   with precedence and parentheses, parsed into a tree, which is evaluated
//!   or written down in postfix or prefix notation;
//! - [`language`]: variables, assignments and brace-delimited blocks on top
//!   of the expressions, with a lexer, a recursive-descent parser and a
//!   tree-walking evaluator.
//!
//! Every function comes with a contract over a mathematical model of its
//! arguments, and no function panics: what cannot be read or computed is an
//! error value.

pub mod arithmetic;
pub mod calculator;
pub mod language;
pub mod text;
