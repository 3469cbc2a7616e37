//! Walks over the syntax tree of the calculator for expressions: one that
//! computes its value, and two that write it down, in postfix and in prefix
//! notation.

use super::syn::{ASTNode, Token};
use crate::arithmetic::{checked, truncated_quotient, Fault};
use crate::text::{decimal, push_char, push_decimal};
use vstd::prelude::*;
use vstd::string::StringExecFns;

verus! {

/// Why a walk over a tree comes to nothing.
#[derive(Debug, PartialEq, Eq, Clone, Copy)]
pub enum EvalError {
    /// An operation on integers failed.
    ArithmeticError(Fault),
    /// A node that the walk does not handle: for the value, an operator
    /// other than `+ - * /` in a binary node or than `+ -` in a unary node;
    /// for the notations, a unary node, or a binary node that carries no
    /// operator.
    UnsupportedNodeError,
}

/// The result of an operation, or the error that it is to a walk.
pub open spec fn computed(result: Result<i64, Fault>) -> Result<i64, EvalError> {
    match result {
        Ok(value) => Ok(value),
        Err(fault) => Err(EvalError::ArithmeticError(fault)),
    }
}

/// What the operator `op`, one of `+ - * /`, makes of `a` and `b`: the sum,
/// difference or product, or the quotient rounded towards zero.
pub open spec fn apply(op: char, a: i64, b: i64) -> Result<i64, Fault> {
    if op == '+' {
        checked(a + b)
    } else if op == '-' {
        checked(a - b)
    } else if op == '*' {
        checked(a * b)
    } else if b == 0 {
        Err(Fault::DivisionByZero)
    } else {
        checked(truncated_quotient(a as int, b as int))
    }
}

/// The value of a tree. The operands of a binary node are evaluated from
/// left to right, and the first error ends the walk.
pub open spec fn eval(node: ASTNode) -> Result<i64, EvalError>
    decreases node,
{
    match node {
        ASTNode::BinOp { left, op, right } => match op {
            Token::Operator(c) if c == '+' || c == '-' || c == '*' || c == '/' => match eval(
                *left,
            ) {
                Err(error) => Err(error),
                Ok(a) => match eval(*right) {
                    Err(error) => Err(error),
                    Ok(b) => computed(apply(c, a, b)),
                },
            },
            _ => Err(EvalError::UnsupportedNodeError),
        },
        ASTNode::UnaryOp { op, expr } => if op.is_operator('+') {
            eval(*expr)
        } else if op.is_operator('-') {
            match eval(*expr) {
                Err(error) => Err(error),
                Ok(a) => computed(checked(-a)),
            }
        } else {
            Err(EvalError::UnsupportedNodeError)
        },
        ASTNode::Num(i) => Ok(i),
    }
}

/// A tree in postfix notation: the operands of a binary node, then its
/// operator, with a blank between each two; a number in base ten.
pub open spec fn postfix(node: ASTNode) -> Result<Seq<char>, EvalError>
    decreases node,
{
    match node {
        ASTNode::BinOp { left, op, right } => match op {
            Token::Operator(c) => match postfix(*left) {
                Err(error) => Err(error),
                Ok(first) => match postfix(*right) {
                    Err(error) => Err(error),
                    Ok(second) => Ok(first + seq![' '] + second + seq![' ', c]),
                },
            },
            _ => Err(EvalError::UnsupportedNodeError),
        },
        ASTNode::Num(i) => Ok(decimal(i as int)),
        _ => Err(EvalError::UnsupportedNodeError),
    }
}

/// A tree in prefix notation, as Lisp writes it: a binary node is its
/// operator and its operands, with a blank between each two, in
/// parentheses; a number in base ten.
pub open spec fn lisp(node: ASTNode) -> Result<Seq<char>, EvalError>
    decreases node,
{
    match node {
        ASTNode::BinOp { left, op, right } => match op {
            Token::Operator(c) => match lisp(*left) {
                Err(error) => Err(error),
                Ok(first) => match lisp(*right) {
                    Err(error) => Err(error),
                    Ok(second) => Ok(seq!['(', c, ' '] + first + seq![' '] + second + seq![')']),
                },
            },
            _ => Err(EvalError::UnsupportedNodeError),
        },
        ASTNode::Num(i) => Ok(decimal(i as int)),
        _ => Err(EvalError::UnsupportedNodeError),
    }
}

/// The trees that the notations handle: binary nodes that carry an
/// operator, whatever its character, over numbers.
pub open spec fn notable(node: ASTNode) -> bool
    decreases node,
{
    match node {
        ASTNode::BinOp { left, op, right } => {
            &&& op is Operator
            &&& notable(*left)
            &&& notable(*right)
        },
        ASTNode::Num(_) => true,
        _ => false,
    }
}

/// The trees that have a value or an arithmetic error: binary nodes that
/// carry one of `+ - * /` and unary nodes that carry `+` or `-`, over
/// numbers.
pub open spec fn computable(node: ASTNode) -> bool
    decreases node,
{
    match node {
        ASTNode::BinOp { left, op, right } => {
            &&& op.is_operator('+') || op.is_operator('-') || op.is_operator('*')
                || op.is_operator('/')
            &&& computable(*left)
            &&& computable(*right)
        },
        ASTNode::UnaryOp { op, expr } => {
            &&& op.is_operator('+') || op.is_operator('-')
            &&& computable(*expr)
        },
        ASTNode::Num(_) => true,
    }
}

/// Both notations write down exactly the trees that are [`notable`]; of any
/// other they say `UnsupportedNodeError`, and nothing else.
pub proof fn lemma_notations_support(node: ASTNode)
    ensures
        postfix(node) is Ok <==> notable(node),
        lisp(node) is Ok <==> notable(node),
        postfix(node) matches Err(error) ==> error is UnsupportedNodeError,
        lisp(node) matches Err(error) ==> error is UnsupportedNodeError,
    decreases node,
{
    match node {
        ASTNode::BinOp { left, op, right } => {
            lemma_notations_support(*left);
            lemma_notations_support(*right);
        },
        _ => {},
    }
}

/// A tree that is [`computable`] has a value or comes to an
/// `ArithmeticError`; a tree that is not comes to an `UnsupportedNodeError`
/// or fails on the way to the node that is out of place.
pub proof fn lemma_visit_supports(node: ASTNode)
    requires
        computable(node),
    ensures
        !(eval(node) matches Err(error) && error is UnsupportedNodeError),
    decreases node,
{
    match node {
        ASTNode::BinOp { left, op, right } => {
            lemma_visit_supports(*left);
            lemma_visit_supports(*right);
        },
        ASTNode::UnaryOp { op, expr } => {
            lemma_visit_supports(*expr);
        },
        _ => {},
    }
}

/// What the result of a notation stands for.
pub open spec fn text_of(result: Result<String, EvalError>) -> Result<Seq<char>, EvalError> {
    match result {
        Ok(text) => Ok(text@),
        Err(error) => Err(error),
    }
}

/// The value of `node`.
pub fn visit(node: &ASTNode) -> (result: Result<i64, EvalError>)
    ensures
        result == eval(*node),
    decreases node,
{
    match node {
        ASTNode::BinOp { left, op, right } => {
            let c = match op {
                Token::Operator(c) => *c,
                _ => {
                    return Err(EvalError::UnsupportedNodeError);
                },
            };
            if c != '+' && c != '-' && c != '*' && c != '/' {
                return Err(EvalError::UnsupportedNodeError);
            }
            let a = match visit(left) {
                Ok(a) => a,
                Err(error) => {
                    return Err(error);
                },
            };
            let b = match visit(right) {
                Ok(b) => b,
                Err(error) => {
                    return Err(error);
                },
            };
            let value = match c {
                '+' => a.checked_add(b),
                '-' => a.checked_sub(b),
                '*' => a.checked_mul(b),
                _ => {
                    if b == 0 {
                        return Err(EvalError::ArithmeticError(Fault::DivisionByZero));
                    }
                    a.checked_div(b)
                },
            };
            match value {
                Some(value) => Ok(value),
                None => Err(EvalError::ArithmeticError(Fault::Overflow)),
            }
        },
        ASTNode::UnaryOp { op, expr } => {
            match op {
                Token::Operator('+') => visit(expr),
                Token::Operator('-') => match visit(expr) {
                    Ok(a) => match 0i64.checked_sub(a) {
                        Some(value) => Ok(value),
                        None => Err(EvalError::ArithmeticError(Fault::Overflow)),
                    },
                    Err(error) => Err(error),
                },
                _ => Err(EvalError::UnsupportedNodeError),
            }
        },
        ASTNode::Num(i) => Ok(*i),
    }
}

/// `node` in postfix notation.
pub fn postfix_notation(node: &ASTNode) -> (result: Result<String, EvalError>)
    ensures
        text_of(result) == postfix(*node),
    decreases node,
{
    match node {
        ASTNode::BinOp { left, op, right } => {
            match op {
                Token::Operator(op) => {
                    let mut text = match postfix_notation(left) {
                        Ok(first) => first,
                        Err(error) => {
                            return Err(error);
                        },
                    };
                    let second = match postfix_notation(right) {
                        Ok(second) => second,
                        Err(error) => {
                            return Err(error);
                        },
                    };
                    let ghost first = text@;
                    push_char(&mut text, ' ');
                    text.append(second.as_str());
                    push_char(&mut text, ' ');
                    push_char(&mut text, *op);
                    assert(text@ =~= first + seq![' '] + second@ + seq![' ', *op]);
                    Ok(text)
                },
                _ => Err(EvalError::UnsupportedNodeError),
            }
        },
        ASTNode::Num(i) => {
            let mut text = String::new();
            push_decimal(&mut text, *i);
            assert(text@ =~= decimal(*i as int));
            Ok(text)
        },
        _ => Err(EvalError::UnsupportedNodeError),
    }
}

/// `node` in prefix notation, as Lisp writes it.
pub fn lisp_notation(node: &ASTNode) -> (result: Result<String, EvalError>)
    ensures
        text_of(result) == lisp(*node),
    decreases node,
{
    match node {
        ASTNode::BinOp { left, op, right } => {
            match op {
                Token::Operator(op) => {
                    let first = match lisp_notation(left) {
                        Ok(first) => first,
                        Err(error) => {
                            return Err(error);
                        },
                    };
                    let second = match lisp_notation(right) {
                        Ok(second) => second,
                        Err(error) => {
                            return Err(error);
                        },
                    };
                    let mut text = String::new();
                    push_char(&mut text, '(');
                    push_char(&mut text, *op);
                    push_char(&mut text, ' ');
                    text.append(first.as_str());
                    push_char(&mut text, ' ');
                    text.append(second.as_str());
                    push_char(&mut text, ')');
                    assert(text@ =~= seq!['(', *op, ' '] + first@ + seq![' '] + second@ + seq![
                        ')',
                    ]);
                    Ok(text)
                },
                _ => Err(EvalError::UnsupportedNodeError),
            }
        },
        ASTNode::Num(i) => {
            let mut text = String::new();
            push_decimal(&mut text, *i);
            assert(text@ =~= decimal(*i as int));
            Ok(text)
        },
        _ => Err(EvalError::UnsupportedNodeError),
    }
}

} // verus!
