//! What holds of the lexer, the parser and the evaluator together.

use super::interpreter::{eval, eval_sequence, evaluated, EvalError, Outcome, SpecEvalError};
use super::lexer::{token_at, token_end, LexError};
use super::parser::{advance, expr_at, factor_at, term_at, term_tail, ParseError};
use super::syn::{ASTNode, SpecNode, SpecToken};
use super::{evaluation, SpecError};
use crate::arithmetic::{truncated_quotient, Fault};
use crate::text::{decimal_value, lemma_run_end_unique, run_end, CharClass};
use vstd::prelude::*;

verus! {

/// A text that is one integer literal, of a value that fits in 64 bits with
/// a sign, is an expression that takes up the whole text, and its value is
/// the number that the literal denotes, in whatever environment: that is
/// what [`evaluate`](super::evaluate) returns for it.
pub proof fn lemma_literal_evaluates_to_itself(s: Seq<char>, env: Map<Seq<char>, i64>)
    requires
        s.len() > 0,
        forall|i: int| 0 <= i < s.len() ==> CharClass::Digit.contains(#[trigger] s[i]),
        decimal_value(s) <= i64::MAX,
    ensures
        token_at(s, 0) == Ok::<SpecToken, LexError>(SpecToken::Integer(decimal_value(s) as u64)),
        token_at(s, s.len() as int) == Ok::<SpecToken, LexError>(SpecToken::EOF),
        expr_at(s, 0) == Ok::<(SpecNode, int), ParseError>(
            (SpecNode::Num(decimal_value(s) as i64), s.len() as int),
        ),
        eval(SpecNode::Num(decimal_value(s) as i64), env).value == Ok::<
            Option<i64>,
            SpecEvalError,
        >(Some(decimal_value(s) as i64)),
        evaluation(s) == Ok::<Option<i64>, SpecError>(Some(decimal_value(s) as i64)),
{
    let end = s.len() as int;
    assert(CharClass::Digit.contains(s[0]));
    lemma_run_end_unique(s, 0, end, CharClass::Digit);
    assert(s.subrange(0, end) =~= s);
    assert(run_end(s, 0, CharClass::Space) == 0);
    assert(run_end(s, end, CharClass::Space) == end);
    assert(token_end(s, 0) == end);
    assert(advance(s, 0) == Ok::<int, ParseError>(end));
    let number = SpecNode::Num(decimal_value(s) as i64);
    assert(factor_at(s, 0) == Ok::<(SpecNode, int), ParseError>((number, end)));
    assert(term_tail(s, number, end) == Ok::<(SpecNode, int), ParseError>((number, end)));
    assert(term_at(s, 0) == Ok::<(SpecNode, int), ParseError>((number, end)));
}

/// Whether some division in the tree has a divisor that comes to zero in the
/// environment `env`.
pub open spec fn divides_by_zero(node: SpecNode, env: Map<Seq<char>, i64>) -> bool
    decreases node,
{
    match node {
        SpecNode::BinOp { left, op, right } => {
            ||| divides_by_zero(*left, env)
            ||| divides_by_zero(*right, env)
            ||| (op is Div && eval(*right, env).value == Ok::<Option<i64>, SpecEvalError>(Some(0)))
        },
        SpecNode::UnaryOp { op, expr } => divides_by_zero(*expr, env),
        _ => false,
    }
}

/// An arithmetic expression leaves the environment as it was, and comes to a
/// value or to an `ArithmeticError`, never to another error.
pub proof fn lemma_arithmetic_outcome(node: SpecNode, env: Map<Seq<char>, i64>)
    requires
        node.is_arithmetic(),
    ensures
        eval(node, env).env == env,
        match eval(node, env).value {
            Ok(value) => value is Some,
            Err(error) => error is ArithmeticError,
        },
    decreases node,
{
    match node {
        SpecNode::BinOp { left, op, right } => {
            lemma_arithmetic_outcome(*left, env);
            lemma_arithmetic_outcome(*right, env);
        },
        SpecNode::UnaryOp { op, expr } => {
            lemma_arithmetic_outcome(*expr, env);
        },
        _ => {},
    }
}

/// A division by zero anywhere in an arithmetic expression ends its
/// evaluation with an `ArithmeticError`: no value is returned.
pub proof fn lemma_division_by_zero_fails(node: SpecNode, env: Map<Seq<char>, i64>)
    requires
        node.is_arithmetic(),
        divides_by_zero(node, env),
    ensures
        eval(node, env).value matches Err(error) && error is ArithmeticError,
    decreases node,
{
    match node {
        SpecNode::BinOp { left, op, right } => {
            lemma_arithmetic_outcome(*left, env);
            lemma_arithmetic_outcome(*right, env);
            if divides_by_zero(*left, env) {
                lemma_division_by_zero_fails(*left, env);
            } else if divides_by_zero(*right, env) {
                lemma_division_by_zero_fails(*right, env);
            }
        },
        SpecNode::UnaryOp { op, expr } => {
            lemma_arithmetic_outcome(*expr, env);
            lemma_division_by_zero_fails(*expr, env);
        },
        _ => {},
    }
}

/// A division by zero anywhere in an expression with variables leaves the
/// expression without a value: its evaluation ends with an error, be it
/// that division or what failed before it.
pub proof fn lemma_division_by_zero_has_no_value(node: SpecNode, env: Map<Seq<char>, i64>)
    requires
        node.is_expression(),
        divides_by_zero(node, env),
    ensures
        eval(node, env).value is Err,
    decreases node,
{
    match node {
        SpecNode::BinOp { left, op, right } => {
            lemma_expression_outcome(*left, env);
            lemma_expression_outcome(*right, env);
            if divides_by_zero(*left, env) {
                lemma_division_by_zero_has_no_value(*left, env);
            } else if divides_by_zero(*right, env) {
                lemma_division_by_zero_has_no_value(*right, env);
            }
        },
        SpecNode::UnaryOp { op, expr } => {
            lemma_expression_outcome(*expr, env);
            lemma_division_by_zero_has_no_value(*expr, env);
        },
        _ => {},
    }
}

/// A quotient whose divisor comes to zero is an `ArithmeticError`, whatever
/// the dividend comes to, unless the dividend fails first.
pub proof fn lemma_zero_divisor(left: SpecNode, right: SpecNode, env: Map<Seq<char>, i64>)
    requires
        eval(left, env).value matches Ok(Some(_)),
        eval(right, eval(left, env).env).value == Ok::<Option<i64>, SpecEvalError>(Some(0)),
    ensures
        eval(
            SpecNode::BinOp { left: Box::new(left), op: SpecToken::Div, right: Box::new(right) },
            env,
        ).value == Err::<Option<i64>, SpecEvalError>(
            SpecEvalError::ArithmeticError(Fault::DivisionByZero),
        ),
{
}

/// The number that an arithmetic expression denotes in ordinary arithmetic
/// over the integers, where `/` rounds towards zero.
pub open spec fn exact_value(node: SpecNode) -> int
    decreases node,
{
    match node {
        SpecNode::Num(value) => value as int,
        SpecNode::UnaryOp { op, expr } => if op is Sub {
            -exact_value(*expr)
        } else {
            exact_value(*expr)
        },
        SpecNode::BinOp { left, op, right } => match op {
            SpecToken::Add => exact_value(*left) + exact_value(*right),
            SpecToken::Sub => exact_value(*left) - exact_value(*right),
            SpecToken::Mul => exact_value(*left) * exact_value(*right),
            _ => truncated_quotient(exact_value(*left), exact_value(*right)),
        },
        _ => 0,
    }
}

/// Where an arithmetic expression has a value, it is the number that the
/// expression denotes in ordinary arithmetic.
pub proof fn lemma_arithmetic_value(node: SpecNode, env: Map<Seq<char>, i64>)
    requires
        node.is_arithmetic(),
    ensures
        eval(node, env).value matches Ok(Some(value)) ==> value == exact_value(node),
    decreases node,
{
    match node {
        SpecNode::BinOp { left, op, right } => {
            lemma_arithmetic_outcome(*left, env);
            lemma_arithmetic_value(*left, env);
            lemma_arithmetic_value(*right, env);
        },
        SpecNode::UnaryOp { op, expr } => {
            lemma_arithmetic_value(*expr, env);
        },
        _ => {},
    }
}

/// An expression as the parser builds it leaves the environment as it was,
/// and comes to a value, to an `ArithmeticError` or to an
/// `UnboundVariableError`: the evaluator supports every such tree.
pub proof fn lemma_expression_outcome(node: SpecNode, env: Map<Seq<char>, i64>)
    requires
        node.is_expression(),
    ensures
        eval(node, env).env == env,
        match eval(node, env).value {
            Ok(value) => value is Some,
            Err(error) => error is ArithmeticError || error is UnboundVariableError,
        },
    decreases node,
{
    match node {
        SpecNode::BinOp { left, op, right } => {
            lemma_expression_outcome(*left, env);
            lemma_expression_outcome(*right, env);
        },
        SpecNode::UnaryOp { op, expr } => {
            lemma_expression_outcome(*expr, env);
        },
        _ => {},
    }
}

/// A statement as the parser builds it never comes to an
/// `UnsupportedNodeError`: the evaluator supports every program.
pub proof fn lemma_statement_outcome(node: SpecNode, env: Map<Seq<char>, i64>)
    requires
        node.is_statement(),
    ensures
        !(eval(node, env).value matches Err(error) && error is UnsupportedNodeError),
    decreases node, 0int,
{
    match node {
        SpecNode::Compound { children } => {
            lemma_statements_outcome(children, 0, env);
        },
        SpecNode::Assign { left, right } => {
            lemma_expression_outcome(*right, env);
        },
        _ => {},
    }
}

/// [`lemma_statement_outcome`], of a sequence of statements.
pub proof fn lemma_statements_outcome(
    statements: Seq<SpecNode>,
    from: int,
    env: Map<Seq<char>, i64>,
)
    requires
        forall|i: int| 0 <= i < statements.len() ==> (#[trigger] statements[i]).is_statement(),
    ensures
        !(eval_sequence(statements, from, env).value matches Err(error) && error
            is UnsupportedNodeError),
    decreases statements, statements.len() - from,
{
    if 0 <= from < statements.len() {
        lemma_statement_outcome(statements[from], env);
        lemma_statements_outcome(statements, from + 1, eval(statements[from], env).env);
    }
}

/// Whether the tree reads or assigns the variable `name` somewhere.
pub open spec fn mentions(node: SpecNode, name: Seq<char>) -> bool
    decreases node,
{
    match node {
        SpecNode::BinOp { left, op, right } => mentions(*left, name) || mentions(*right, name),
        SpecNode::UnaryOp { op, expr } => mentions(*expr, name),
        SpecNode::Compound { children } => exists|i: int|
            0 <= i < children.len() && mentions(#[trigger] children[i], name),
        SpecNode::Assign { left, right } => mentions(*left, name) || mentions(*right, name),
        SpecNode::Var { token } => token == SpecToken::Id(name),
        SpecNode::Num(_) => false,
        SpecNode::NoOp => false,
    }
}

/// Evaluation only ever adds bindings: what was bound before stays bound.
pub proof fn lemma_bindings_stay(node: SpecNode, env: Map<Seq<char>, i64>, name: Seq<char>)
    requires
        env.contains_key(name),
    ensures
        eval(node, env).env.contains_key(name),
    decreases node, 0int,
{
    match node {
        SpecNode::BinOp { left, op, right } => {
            lemma_bindings_stay(*left, env, name);
            lemma_bindings_stay(*right, eval(*left, env).env, name);
        },
        SpecNode::UnaryOp { op, expr } => {
            lemma_bindings_stay(*expr, env, name);
        },
        SpecNode::Compound { children } => {
            lemma_bindings_stay_in_sequence(children, 0, env, name);
        },
        SpecNode::Assign { left, right } => {
            lemma_bindings_stay(*right, env, name);
        },
        _ => {},
    }
}

/// [`lemma_bindings_stay`], of a sequence of statements.
pub proof fn lemma_bindings_stay_in_sequence(
    statements: Seq<SpecNode>,
    from: int,
    env: Map<Seq<char>, i64>,
    name: Seq<char>,
)
    requires
        env.contains_key(name),
    ensures
        eval_sequence(statements, from, env).env.contains_key(name),
    decreases statements, statements.len() - from,
{
    if 0 <= from < statements.len() {
        lemma_bindings_stay(statements[from], env, name);
        lemma_bindings_stay_in_sequence(
            statements,
            from + 1,
            eval(statements[from], env).env,
            name,
        );
    }
}

/// A variable that is bound has its value; one that is not is an
/// `UnboundVariableError` that names it.
pub proof fn lemma_variable_read(name: Seq<char>, env: Map<Seq<char>, i64>)
    ensures
        eval(SpecNode::Var { token: SpecToken::Id(name) }, env) == if env.contains_key(name) {
            Outcome { value: Ok(Some(env[name])), env }
        } else {
            Outcome { value: Err(SpecEvalError::UnboundVariableError(name)), env }
        },
{
}

/// An `UnboundVariableError` is never raised without cause: the variable it
/// names occurs in the tree, and nothing was bound to it when the evaluation
/// began.
pub proof fn lemma_unbound_variable_is_read(
    node: SpecNode,
    env: Map<Seq<char>, i64>,
    name: Seq<char>,
)
    requires
        eval(node, env).value == Err::<Option<i64>, SpecEvalError>(
            SpecEvalError::UnboundVariableError(name),
        ),
    ensures
        mentions(node, name),
        !env.contains_key(name),
    decreases node, 0int,
{
    match node {
        SpecNode::BinOp { left, op, right } => {
            let first = eval(*left, env);
            if first.value is Err {
                lemma_unbound_variable_is_read(*left, env, name);
            } else {
                lemma_unbound_variable_is_read(*right, first.env, name);
                if env.contains_key(name) {
                    lemma_bindings_stay(*left, env, name);
                }
            }
        },
        SpecNode::UnaryOp { op, expr } => {
            lemma_unbound_variable_is_read(*expr, env, name);
        },
        SpecNode::Compound { children } => {
            lemma_unbound_variable_is_read_in_sequence(children, 0, env, name);
        },
        SpecNode::Assign { left, right } => {
            lemma_unbound_variable_is_read(*right, env, name);
        },
        _ => {},
    }
}

/// [`lemma_unbound_variable_is_read`], of a sequence of statements.
pub proof fn lemma_unbound_variable_is_read_in_sequence(
    statements: Seq<SpecNode>,
    from: int,
    env: Map<Seq<char>, i64>,
    name: Seq<char>,
)
    requires
        eval_sequence(statements, from, env).value == Err::<Option<i64>, SpecEvalError>(
            SpecEvalError::UnboundVariableError(name),
        ),
    ensures
        exists|i: int| 0 <= i < statements.len() && mentions(#[trigger] statements[i], name),
        !env.contains_key(name),
    decreases statements, statements.len() - from,
{
    if 0 <= from < statements.len() {
        let first = eval(statements[from], env);
        if first.value is Err || from + 1 == statements.len() {
            lemma_unbound_variable_is_read(statements[from], env, name);
        } else {
            lemma_unbound_variable_is_read_in_sequence(statements, from + 1, first.env, name);
            if env.contains_key(name) {
                lemma_bindings_stay(statements[from], env, name);
            }
        }
    }
}

/// A tree that mentions no variable never comes to an
/// `UnboundVariableError`.
pub proof fn lemma_no_variable_no_unbound_error(node: SpecNode, env: Map<Seq<char>, i64>)
    requires
        forall|name: Seq<char>| !mentions(node, name),
    ensures
        !(eval(node, env).value matches Err(error) && error is UnboundVariableError),
{
    if let Err(SpecEvalError::UnboundVariableError(name)) = eval(node, env).value {
        lemma_unbound_variable_is_read(node, env, name);
    }
}

/// Evaluating a tree is repeatable: whatever two calls of
/// [`visit`](super::interpreter::visit) on the same tree return, they return
/// the same.
pub proof fn lemma_visit_repeatable(
    node: ASTNode,
    first: Result<Option<i64>, EvalError>,
    second: Result<Option<i64>, EvalError>,
)
    requires
        evaluated(first) == eval(node@, Map::empty()).value,
        evaluated(second) == eval(node@, Map::empty()).value,
    ensures
        evaluated(first) == evaluated(second),
{
}

/// Evaluating a tree from the same environment is repeatable as well: the
/// value and the environment behind it are functions of the tree and of the
/// environment before.
pub proof fn lemma_evaluation_repeatable(
    node: SpecNode,
    env: Map<Seq<char>, i64>,
    first: Outcome,
    second: Outcome,
)
    requires
        first == eval(node, env),
        second == eval(node, env),
    ensures
        first == second,
{
}

} // verus!
