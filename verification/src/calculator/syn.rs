//! Tokens and syntax tree nodes of the calculator for expressions.

use vstd::prelude::*;

verus! {

/// A lexical unit: a number, an operator or bracket given by its character,
/// or the end of the input.
#[derive(Debug, PartialEq, Eq, Clone, Copy, Structural)]
pub enum Token {
    Integer(u64),
    Operator(char),
    End,
}

impl Token {
    /// Whether two tokens are of one kind: two numbers, whatever their
    /// values; the same operator twice; or the end of the input twice.
    pub open spec fn same_kind(self, other: Token) -> bool {
        match (self, other) {
            (Token::Integer(_), Token::Integer(_)) => true,
            (Token::Operator(a), Token::Operator(b)) => a == b,
            (Token::End, Token::End) => true,
            _ => false,
        }
    }

    /// Whether this token is the operator `c`.
    pub open spec fn is_operator(self, c: char) -> bool {
        self == Token::Operator(c)
    }
}

/// A node of the syntax tree. Every subtree is owned by its parent.
#[derive(Debug, PartialEq)]
pub enum ASTNode {
    BinOp { left: Box<ASTNode>, op: Token, right: Box<ASTNode> },
    UnaryOp { op: Token, expr: Box<ASTNode> },
    Num(i64),
}

impl ASTNode {
    /// A copy of the whole tree.
    pub fn deep_copy(&self) -> (copy: ASTNode)
        ensures
            copy == *self,
        decreases self,
    {
        match self {
            ASTNode::BinOp { left, op, right } => ASTNode::BinOp {
                left: Box::new(left.deep_copy()),
                op: *op,
                right: Box::new(right.deep_copy()),
            },
            ASTNode::UnaryOp { op, expr } => ASTNode::UnaryOp {
                op: *op,
                expr: Box::new(expr.deep_copy()),
            },
            ASTNode::Num(value) => ASTNode::Num(*value),
        }
    }
}

impl Clone for ASTNode {
    fn clone(&self) -> (copy: ASTNode)
        ensures
            copy == *self,
    {
        self.deep_copy()
    }
}

} // verus!
