//! The statement language: source text is cut into tokens, tokens are parsed
//! into a syntax tree, and the tree is evaluated over 64-bit integers.
//!
//! [`evaluate`] does all three for an expression, [`run`] for a program.

pub mod interpreter;
pub mod laws;
pub mod lexer;
pub mod parser;
pub mod syn;
pub mod writing;

use interpreter::{eval, visit, EvalError, SpecEvalError};
use lexer::{token_at, Lexer};
use parser::{ended, expr_at, parse_at, ParseError, Parser};
use vstd::prelude::*;

verus! {

/// Why a source text has no value.
#[derive(Debug, PartialEq, Eq)]
pub enum Error {
    /// The text could not be parsed.
    Parse(ParseError),
    /// The tree could not be evaluated.
    Eval(EvalError),
}

/// What an [`Error`] stands for in contracts.
pub enum SpecError {
    Parse(ParseError),
    Eval(SpecEvalError),
}

impl View for Error {
    type V = SpecError;

    open spec fn view(&self) -> SpecError {
        match self {
            Error::Parse(error) => SpecError::Parse(*error),
            Error::Eval(error) => SpecError::Eval(error@),
        }
    }
}

/// What a source text comes to: its value, if it has one, or the error that
/// ended the work.
pub type Value = Result<Option<i64>, SpecError>;

/// The value of the tree that a production has yielded, in an environment
/// in which no variable is bound.
pub open spec fn value_of(parsed: parser::Parsed) -> Value {
    match parsed {
        Err(error) => Err(SpecError::Parse(error)),
        Ok((tree, _)) => match eval(tree, Map::empty()).value {
            Ok(value) => Ok(value),
            Err(error) => Err(SpecError::Eval(error)),
        },
    }
}

/// The value of the expression that `source` is: an expression with nothing
/// but the end of the text behind it. The first token is cut from the text
/// before anything else.
pub open spec fn evaluation(source: Seq<char>) -> Value {
    match token_at(source, 0) {
        Err(error) => Err(SpecError::Parse(ParseError::LexError(error))),
        Ok(_) => value_of(ended(source, expr_at(source, 0))),
    }
}

/// The value of the program that `source` is.
pub open spec fn execution(source: Seq<char>) -> Value {
    match token_at(source, 0) {
        Err(error) => Err(SpecError::Parse(ParseError::LexError(error))),
        Ok(_) => value_of(parse_at(source, 0)),
    }
}

/// What the result of [`evaluate`] or [`run`] stands for.
pub open spec fn value_view(result: Result<Option<i64>, Error>) -> Value {
    match result {
        Ok(value) => Ok(value),
        Err(error) => Err(error@),
    }
}

/// Parses `source` as an expression and evaluates it in a fresh
/// environment. Tokens that are left behind the expression are a syntax
/// error.
pub fn evaluate(source: &str) -> (result: Result<Option<i64>, Error>)
    ensures
        value_view(result) == evaluation(source@),
{
    let mut parser = match Parser::new(Lexer::new(source)) {
        Ok(parser) => parser,
        Err(error) => {
            return Err(Error::Parse(error));
        },
    };
    let tree = match parser.expr() {
        Ok(tree) => tree,
        Err(error) => {
            return Err(Error::Parse(error));
        },
    };
    match parser.end() {
        Ok(_) => {},
        Err(error) => {
            return Err(Error::Parse(error));
        },
    }
    match visit(&tree) {
        Ok(value) => Ok(value),
        Err(error) => Err(Error::Eval(error)),
    }
}

/// Parses `source` as a whole program and evaluates it in a fresh
/// environment.
pub fn run(source: &str) -> (result: Result<Option<i64>, Error>)
    ensures
        value_view(result) == execution(source@),
{
    let mut parser = match Parser::new(Lexer::new(source)) {
        Ok(parser) => parser,
        Err(error) => {
            return Err(Error::Parse(error));
        },
    };
    let tree = match parser.parse() {
        Ok(tree) => tree,
        Err(error) => {
            return Err(Error::Parse(error));
        },
    };
    match visit(&tree) {
        Ok(value) => Ok(value),
        Err(error) => Err(Error::Eval(error)),
    }
}

} // verus!
