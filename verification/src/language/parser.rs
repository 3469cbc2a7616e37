//! The parser: recursive descent over the tokens of a [`Lexer`], with one
//! token of lookahead.
//!
//! ```text
//! program            := compound_statement
//! compound_statement := '{' statement_list '}'
//! statement_list     := statement (';' statement)*
//! statement          := compound_statement | assignment | empty
//! assignment         := identifier ':=' expr
//! expr               := term (('+' | '-') term)*
//! term               := factor (('*' | '/') factor)*
//! factor             := ('+' | '-') factor | integer | '(' expr ')' | identifier
//! ```
//!
//! What each production yields is given by a function of the text and of the
//! position where the lookahead token starts: [`factor_at`], [`term_at`],
//! [`expr_at`], [`statement_at`], [`statement_list_at`], [`compound_at`],
//! [`assignment_at`] and [`parse_at`].
//!
//! Where one of these functions goes on behind an operand, it first asks that
//! the operand ended at or behind its start and inside the text. That always
//! holds (`lemma_factor_advances` and the lemmas beside it), so the question
//! decides nothing: it is there for the definitions to terminate.

use super::lexer::{lemma_scan_advances, token_at, token_end, LexError, Lexer};
use super::syn::{node_views, ASTNode, SpecNode, SpecToken, Token, TokenKind};
use crate::arithmetic::{signed, to_signed};
use vstd::prelude::*;

verus! {

/// Why the text is no program.
#[derive(Debug, PartialEq, Eq, Clone, Copy)]
pub enum ParseError {
    /// The lexer found no token where the parser asked for the next one.
    LexError(LexError),
    /// The lookahead token is of kind `found` where the grammar asks for
    /// `expected`. Where a factor must start, `expected` is `Integer`.
    SyntaxError { expected: TokenKind, found: TokenKind },
}

/// What a production yields: the tree, and the position where the next
/// lookahead token starts.
pub type Parsed = Result<(SpecNode, int), ParseError>;

/// Where the next lookahead token starts once the one at `p` is consumed.
/// The next token is cut from the text at once: where that fails, so does
/// the step.
pub open spec fn advance(s: Seq<char>, p: int) -> Result<int, ParseError> {
    let q = token_end(s, p);
    match token_at(s, q) {
        Ok(_) => Ok(q),
        Err(error) => Err(ParseError::LexError(error)),
    }
}

/// Consuming the lookahead token at `p`, which must be of kind `expect`:
/// the token, and where the next one starts.
pub open spec fn consume(s: Seq<char>, p: int, expect: TokenKind) -> Result<
    (SpecToken, int),
    ParseError,
> {
    match token_at(s, p) {
        Err(error) => Err(ParseError::LexError(error)),
        Ok(token) => if token.kind() == expect {
            match advance(s, p) {
                Ok(q) => Ok((token, q)),
                Err(error) => Err(error),
            }
        } else {
            Err(ParseError::SyntaxError { expected: expect, found: token.kind() })
        },
    }
}

/// `factor := ('+' | '-') factor | integer | '(' expr ')' | identifier`
pub open spec fn factor_at(s: Seq<char>, p: int) -> Parsed
    decreases s.len() - p, 0int,
{
    match token_at(s, p) {
        Err(error) => Err(ParseError::LexError(error)),
        Ok(token) => match token {
            SpecToken::Add | SpecToken::Sub => match advance(s, p) {
                Err(error) => Err(error),
                Ok(q) => {
                    proof {
                        lemma_scan_advances(s, p);
                    }
                    match factor_at(s, q) {
                        Err(error) => Err(error),
                        Ok((operand, r)) => Ok(
                            (SpecNode::UnaryOp { op: token, expr: Box::new(operand) }, r),
                        ),
                    }
                },
            },
            SpecToken::LParen => match advance(s, p) {
                Err(error) => Err(error),
                Ok(q) => {
                    proof {
                        lemma_scan_advances(s, p);
                    }
                    match expr_at(s, q) {
                        Err(error) => Err(error),
                        Ok((inner, r)) => match consume(s, r, TokenKind::RParen) {
                            Err(error) => Err(error),
                            Ok((_, after)) => Ok((inner, after)),
                        },
                    }
                },
            },
            SpecToken::Integer(value) => match advance(s, p) {
                Err(error) => Err(error),
                Ok(q) => Ok((SpecNode::Num(to_signed(value)), q)),
            },
            SpecToken::Id(_) => match advance(s, p) {
                Err(error) => Err(error),
                Ok(q) => Ok((SpecNode::Var { token }, q)),
            },
            _ => Err(
                ParseError::SyntaxError { expected: TokenKind::Integer, found: token.kind() },
            ),
        },
    }
}

/// `(('*' | '/') factor)*` behind the operand `left`: the operators
/// associate to the left.
pub open spec fn term_tail(s: Seq<char>, left: SpecNode, p: int) -> Parsed
    decreases s.len() - p, 1int,
{
    match token_at(s, p) {
        Ok(op) if op is Mul || op is Div => match advance(s, p) {
            Err(error) => Err(error),
            Ok(q) => {
                proof {
                    lemma_scan_advances(s, p);
                }
                match factor_at(s, q) {
                    Ok((right, r)) if q <= r <= s.len() => term_tail(
                        s,
                        SpecNode::BinOp { left: Box::new(left), op, right: Box::new(right) },
                        r,
                    ),
                    other => other,
                }
            },
        },
        _ => Ok((left, p)),
    }
}

/// `term := factor (('*' | '/') factor)*`
pub open spec fn term_at(s: Seq<char>, p: int) -> Parsed
    decreases s.len() - p, 2int,
{
    match factor_at(s, p) {
        Ok((left, q)) if p <= q <= s.len() => term_tail(s, left, q),
        other => other,
    }
}

/// `(('+' | '-') term)*` behind the operand `left`: the operators associate
/// to the left.
pub open spec fn expr_tail(s: Seq<char>, left: SpecNode, p: int) -> Parsed
    decreases s.len() - p, 3int,
{
    match token_at(s, p) {
        Ok(op) if op is Add || op is Sub => match advance(s, p) {
            Err(error) => Err(error),
            Ok(q) => {
                proof {
                    lemma_scan_advances(s, p);
                }
                match term_at(s, q) {
                    Ok((right, r)) if q <= r <= s.len() => expr_tail(
                        s,
                        SpecNode::BinOp { left: Box::new(left), op, right: Box::new(right) },
                        r,
                    ),
                    other => other,
                }
            },
        },
        _ => Ok((left, p)),
    }
}

/// `expr := term (('+' | '-') term)*`
pub open spec fn expr_at(s: Seq<char>, p: int) -> Parsed
    decreases s.len() - p, 4int,
{
    match term_at(s, p) {
        Ok((left, q)) if p <= q <= s.len() => expr_tail(s, left, q),
        other => other,
    }
}

/// What a list of statements yields: the trees in order, and the position
/// where the next lookahead token starts.
pub type ParsedList = Result<(Seq<SpecNode>, int), ParseError>;

/// `assignment := identifier ':=' expr`
pub open spec fn assignment_at(s: Seq<char>, p: int) -> Parsed {
    match consume(s, p, TokenKind::Id) {
        Err(error) => Err(error),
        Ok((name, q)) => match consume(s, q, TokenKind::Assign) {
            Err(error) => Err(error),
            Ok((_, r)) => match expr_at(s, r) {
                Err(error) => Err(error),
                Ok((value, after)) => Ok(
                    (
                        SpecNode::Assign {
                            left: Box::new(SpecNode::Var { token: name }),
                            right: Box::new(value),
                        },
                        after,
                    ),
                ),
            },
        },
    }
}

/// `compound_statement := '{' statement_list '}'`
pub open spec fn compound_at(s: Seq<char>, p: int) -> Parsed
    decreases s.len() - p, 0int,
{
    match consume(s, p, TokenKind::LCBrac) {
        Err(error) => Err(error),
        Ok((_, q)) => {
            proof {
                lemma_scan_advances(s, p);
            }
            match statement_list_at(s, q) {
                Err(error) => Err(error),
                Ok((children, r)) => match consume(s, r, TokenKind::RCBrac) {
                    Err(error) => Err(error),
                    Ok((_, after)) => Ok((SpecNode::Compound { children }, after)),
                },
            }
        },
    }
}

/// `statement := compound_statement | assignment | empty`, chosen by the
/// lookahead token: `{` opens a block, an identifier an assignment, and
/// before anything else stands the empty statement.
pub open spec fn statement_at(s: Seq<char>, p: int) -> Parsed
    decreases s.len() - p, 1int,
{
    match token_at(s, p) {
        Ok(SpecToken::LCBrac) => compound_at(s, p),
        Ok(SpecToken::Id(_)) => assignment_at(s, p),
        _ => Ok((SpecNode::NoOp, p)),
    }
}

/// `(';' statement)*` behind the statements `done`.
pub open spec fn statement_list_tail(s: Seq<char>, done: Seq<SpecNode>, p: int) -> ParsedList
    decreases s.len() - p, 2int,
{
    match token_at(s, p) {
        Ok(SpecToken::Semi) => match advance(s, p) {
            Err(error) => Err(error),
            Ok(q) => {
                proof {
                    lemma_scan_advances(s, p);
                }
                match statement_at(s, q) {
                    Ok((statement, r)) if q <= r <= s.len() => statement_list_tail(
                        s,
                        done.push(statement),
                        r,
                    ),
                    Ok(_) => Ok((done, p)),
                    Err(error) => Err(error),
                }
            },
        },
        _ => Ok((done, p)),
    }
}

/// `statement_list := statement (';' statement)*`
pub open spec fn statement_list_at(s: Seq<char>, p: int) -> ParsedList
    decreases s.len() - p, 3int,
{
    match statement_at(s, p) {
        Ok((first, q)) if p <= q <= s.len() => statement_list_tail(s, seq![first], q),
        Ok(_) => Ok((Seq::empty(), p)),
        Err(error) => Err(error),
    }
}

/// `program := compound_statement`
pub open spec fn program_at(s: Seq<char>, p: int) -> Parsed {
    compound_at(s, p)
}

/// Whether the text is at its end at `p`: the lookahead token there must be
/// `EOF`.
pub open spec fn end_at(s: Seq<char>, p: int) -> Result<(), ParseError> {
    match token_at(s, p) {
        Err(error) => Err(ParseError::LexError(error)),
        Ok(token) => if token is EOF {
            Ok(())
        } else {
            Err(ParseError::SyntaxError { expected: TokenKind::EOF, found: token.kind() })
        },
    }
}

/// What a production has yielded, if nothing but the end of the text stands
/// behind it: tokens that are left over are a syntax error.
pub open spec fn ended(s: Seq<char>, parsed: Parsed) -> Parsed {
    match parsed {
        Err(error) => Err(error),
        Ok((root, q)) => match end_at(s, q) {
            Err(error) => Err(error),
            Ok(_) => parsed,
        },
    }
}

/// A whole program: `program`, with nothing but the end of the text behind
/// it.
pub open spec fn parse_at(s: Seq<char>, p: int) -> Parsed {
    ended(s, program_at(s, p))
}

/// A successful step lands on a position of the text where a token starts,
/// and behind the token it consumed.
pub proof fn lemma_advance_moves(s: Seq<char>, p: int)
    requires
        0 <= p <= s.len(),
    ensures
        advance(s, p) matches Ok(q) ==> p <= q <= s.len() && token_at(s, q) is Ok,
        advance(s, p) matches Ok(q) ==> (token_at(s, p) matches Ok(token) ==> token is EOF || p
            < q),
{
    lemma_scan_advances(s, p);
}

/// A factor ends behind where it starts, inside the text, and a token starts
/// where it ends.
pub proof fn lemma_factor_advances(s: Seq<char>, p: int)
    requires
        0 <= p <= s.len(),
    ensures
        factor_at(s, p) matches Ok((_, q)) ==> p < q <= s.len() && token_at(s, q) is Ok,
    decreases s.len() - p, 0int,
{
    lemma_scan_advances(s, p);
    match token_at(s, p) {
        Ok(SpecToken::Add) | Ok(SpecToken::Sub) => {
            if let Ok(q) = advance(s, p) {
                lemma_factor_advances(s, q);
            }
        },
        Ok(SpecToken::LParen) => {
            if let Ok(q) = advance(s, p) {
                lemma_expr_advances(s, q);
                if let Ok((_, r)) = expr_at(s, q) {
                    lemma_advance_moves(s, r);
                }
            }
        },
        _ => {},
    }
}

/// The tail of a term ends at or behind where it starts, inside the text,
/// and a token starts where it ends.
pub proof fn lemma_term_tail_advances(s: Seq<char>, left: SpecNode, p: int)
    requires
        0 <= p <= s.len(),
        token_at(s, p) is Ok,
    ensures
        term_tail(s, left, p) matches Ok((_, q)) ==> p <= q <= s.len() && token_at(s, q) is Ok,
    decreases s.len() - p, 1int,
{
    lemma_scan_advances(s, p);
    if let Ok(op) = token_at(s, p) {
        if op is Mul || op is Div {
            if let Ok(q) = advance(s, p) {
                lemma_factor_advances(s, q);
                if let Ok((right, r)) = factor_at(s, q) {
                    lemma_term_tail_advances(
                        s,
                        SpecNode::BinOp { left: Box::new(left), op, right: Box::new(right) },
                        r,
                    );
                }
            }
        }
    }
}

/// A term ends behind where it starts, inside the text, and a token starts
/// where it ends.
pub proof fn lemma_term_advances(s: Seq<char>, p: int)
    requires
        0 <= p <= s.len(),
    ensures
        term_at(s, p) matches Ok((_, q)) ==> p < q <= s.len() && token_at(s, q) is Ok,
    decreases s.len() - p, 2int,
{
    lemma_factor_advances(s, p);
    if let Ok((left, q)) = factor_at(s, p) {
        lemma_term_tail_advances(s, left, q);
    }
}

/// The tail of an expression ends at or behind where it starts, inside the
/// text, and a token starts where it ends.
pub proof fn lemma_expr_tail_advances(s: Seq<char>, left: SpecNode, p: int)
    requires
        0 <= p <= s.len(),
        token_at(s, p) is Ok,
    ensures
        expr_tail(s, left, p) matches Ok((_, q)) ==> p <= q <= s.len() && token_at(s, q) is Ok,
    decreases s.len() - p, 3int,
{
    lemma_scan_advances(s, p);
    if let Ok(op) = token_at(s, p) {
        if op is Add || op is Sub {
            if let Ok(q) = advance(s, p) {
                lemma_term_advances(s, q);
                if let Ok((right, r)) = term_at(s, q) {
                    lemma_expr_tail_advances(
                        s,
                        SpecNode::BinOp { left: Box::new(left), op, right: Box::new(right) },
                        r,
                    );
                }
            }
        }
    }
}

/// An expression ends behind where it starts, inside the text, and a token
/// starts where it ends.
pub proof fn lemma_expr_advances(s: Seq<char>, p: int)
    requires
        0 <= p <= s.len(),
    ensures
        expr_at(s, p) matches Ok((_, q)) ==> p < q <= s.len() && token_at(s, q) is Ok,
    decreases s.len() - p, 4int,
{
    lemma_term_advances(s, p);
    if let Ok((left, q)) = term_at(s, p) {
        lemma_expr_tail_advances(s, left, q);
    }
}

/// An assignment ends behind where it starts, inside the text, and a token
/// starts where it ends.
pub proof fn lemma_assignment_advances(s: Seq<char>, p: int)
    requires
        0 <= p <= s.len(),
    ensures
        assignment_at(s, p) matches Ok((_, q)) ==> p < q <= s.len() && token_at(s, q) is Ok,
{
    lemma_advance_moves(s, p);
    if let Ok((_, q)) = consume(s, p, TokenKind::Id) {
        lemma_advance_moves(s, q);
        if let Ok((_, r)) = consume(s, q, TokenKind::Assign) {
            lemma_expr_advances(s, r);
        }
    }
}

/// A block ends behind where it starts, inside the text, and a token starts
/// where it ends.
pub proof fn lemma_compound_advances(s: Seq<char>, p: int)
    requires
        0 <= p <= s.len(),
    ensures
        compound_at(s, p) matches Ok((_, q)) ==> p < q <= s.len() && token_at(s, q) is Ok,
    decreases s.len() - p, 0int,
{
    lemma_advance_moves(s, p);
    if let Ok((_, q)) = consume(s, p, TokenKind::LCBrac) {
        lemma_statement_list_advances(s, q);
        if let Ok((_, r)) = statement_list_at(s, q) {
            lemma_advance_moves(s, r);
        }
    }
}

/// A statement ends at or behind where it starts, inside the text, and a
/// token starts where it ends.
pub proof fn lemma_statement_advances(s: Seq<char>, p: int)
    requires
        0 <= p <= s.len(),
        token_at(s, p) is Ok,
    ensures
        statement_at(s, p) matches Ok((_, q)) ==> p <= q <= s.len() && token_at(s, q) is Ok,
    decreases s.len() - p, 1int,
{
    match token_at(s, p) {
        Ok(SpecToken::LCBrac) => {
            lemma_compound_advances(s, p);
        },
        Ok(SpecToken::Id(_)) => {
            lemma_assignment_advances(s, p);
        },
        _ => {},
    }
}

/// The tail of a statement list ends at or behind where it starts, inside
/// the text, and a token starts where it ends; it yields the statements it
/// was given and at least as many again as it found semicolons.
pub proof fn lemma_statement_list_tail_advances(s: Seq<char>, done: Seq<SpecNode>, p: int)
    requires
        0 <= p <= s.len(),
        token_at(s, p) is Ok,
    ensures
        statement_list_tail(s, done, p) matches Ok((_, q)) ==> p <= q <= s.len() && token_at(s, q)
            is Ok,
    decreases s.len() - p, 2int,
{
    lemma_scan_advances(s, p);
    if token_at(s, p) == Ok::<SpecToken, LexError>(SpecToken::Semi) {
        if let Ok(q) = advance(s, p) {
            lemma_statement_advances(s, q);
            if let Ok((statement, r)) = statement_at(s, q) {
                lemma_statement_list_tail_advances(s, done.push(statement), r);
            }
        }
    }
}

/// A statement list ends at or behind where it starts, inside the text, and
/// a token starts where it ends.
pub proof fn lemma_statement_list_advances(s: Seq<char>, p: int)
    requires
        0 <= p <= s.len(),
        token_at(s, p) is Ok,
    ensures
        statement_list_at(s, p) matches Ok((_, q)) ==> p <= q <= s.len() && token_at(s, q) is Ok,
    decreases s.len() - p, 3int,
{
    lemma_statement_advances(s, p);
    if let Ok((first, q)) = statement_at(s, p) {
        lemma_statement_list_tail_advances(s, seq![first], q);
    }
}

/// Every tree that a factor yields is an expression.
pub proof fn lemma_factor_is_expression(s: Seq<char>, p: int)
    requires
        0 <= p <= s.len(),
    ensures
        factor_at(s, p) matches Ok((node, _)) ==> node.is_expression(),
    decreases s.len() - p, 0int,
{
    lemma_scan_advances(s, p);
    match token_at(s, p) {
        Ok(SpecToken::Add) | Ok(SpecToken::Sub) => {
            if let Ok(q) = advance(s, p) {
                lemma_factor_is_expression(s, q);
            }
        },
        Ok(SpecToken::LParen) => {
            if let Ok(q) = advance(s, p) {
                lemma_expr_is_expression(s, q);
            }
        },
        _ => {},
    }
}

/// The tail of a term makes an expression of an expression.
pub proof fn lemma_term_tail_is_expression(s: Seq<char>, left: SpecNode, p: int)
    requires
        0 <= p <= s.len(),
        left.is_expression(),
    ensures
        term_tail(s, left, p) matches Ok((node, _)) ==> node.is_expression(),
    decreases s.len() - p, 1int,
{
    lemma_scan_advances(s, p);
    if let Ok(op) = token_at(s, p) {
        if op is Mul || op is Div {
            if let Ok(q) = advance(s, p) {
                lemma_factor_advances(s, q);
                lemma_factor_is_expression(s, q);
                if let Ok((right, r)) = factor_at(s, q) {
                    lemma_term_tail_is_expression(
                        s,
                        SpecNode::BinOp { left: Box::new(left), op, right: Box::new(right) },
                        r,
                    );
                }
            }
        }
    }
}

/// Every tree that a term yields is an expression.
pub proof fn lemma_term_is_expression(s: Seq<char>, p: int)
    requires
        0 <= p <= s.len(),
    ensures
        term_at(s, p) matches Ok((node, _)) ==> node.is_expression(),
    decreases s.len() - p, 2int,
{
    lemma_factor_advances(s, p);
    lemma_factor_is_expression(s, p);
    if let Ok((left, q)) = factor_at(s, p) {
        lemma_term_tail_is_expression(s, left, q);
    }
}

/// The tail of an expression makes an expression of an expression.
pub proof fn lemma_expr_tail_is_expression(s: Seq<char>, left: SpecNode, p: int)
    requires
        0 <= p <= s.len(),
        left.is_expression(),
    ensures
        expr_tail(s, left, p) matches Ok((node, _)) ==> node.is_expression(),
    decreases s.len() - p, 3int,
{
    lemma_scan_advances(s, p);
    if let Ok(op) = token_at(s, p) {
        if op is Add || op is Sub {
            if let Ok(q) = advance(s, p) {
                lemma_term_advances(s, q);
                lemma_term_is_expression(s, q);
                if let Ok((right, r)) = term_at(s, q) {
                    lemma_expr_tail_is_expression(
                        s,
                        SpecNode::BinOp { left: Box::new(left), op, right: Box::new(right) },
                        r,
                    );
                }
            }
        }
    }
}

/// Every tree that an expression yields is an expression in shape: numbers
/// and variables under signs and arithmetic operators.
pub proof fn lemma_expr_is_expression(s: Seq<char>, p: int)
    requires
        0 <= p <= s.len(),
    ensures
        expr_at(s, p) matches Ok((node, _)) ==> node.is_expression(),
    decreases s.len() - p, 4int,
{
    lemma_term_advances(s, p);
    lemma_term_is_expression(s, p);
    if let Ok((left, q)) = term_at(s, p) {
        lemma_expr_tail_is_expression(s, left, q);
    }
}

/// Every tree that an assignment yields is a statement: its target is a
/// variable, and what it assigns an expression.
pub proof fn lemma_assignment_is_statement(s: Seq<char>, p: int)
    requires
        0 <= p <= s.len(),
    ensures
        assignment_at(s, p) matches Ok((node, _)) ==> node.is_statement(),
{
    reveal_with_fuel(SpecNode::is_statement, 2);
    lemma_advance_moves(s, p);
    if let Ok((_, q)) = consume(s, p, TokenKind::Id) {
        lemma_advance_moves(s, q);
        if let Ok((_, r)) = consume(s, q, TokenKind::Assign) {
            lemma_expr_is_expression(s, r);
        }
    }
}

/// Every tree that a block yields is a statement.
pub proof fn lemma_compound_is_statement(s: Seq<char>, p: int)
    requires
        0 <= p <= s.len(),
    ensures
        compound_at(s, p) matches Ok((node, _)) ==> node.is_statement(),
    decreases s.len() - p, 0int,
{
    lemma_advance_moves(s, p);
    if let Ok((_, q)) = consume(s, p, TokenKind::LCBrac) {
        lemma_statement_list_is_statement(s, q);
    }
}

/// Every tree that a statement yields is a statement in shape.
pub proof fn lemma_statement_is_statement(s: Seq<char>, p: int)
    requires
        0 <= p <= s.len(),
        token_at(s, p) is Ok,
    ensures
        statement_at(s, p) matches Ok((node, _)) ==> node.is_statement(),
    decreases s.len() - p, 1int,
{
    match token_at(s, p) {
        Ok(SpecToken::LCBrac) => {
            lemma_compound_is_statement(s, p);
        },
        Ok(SpecToken::Id(_)) => {
            lemma_assignment_is_statement(s, p);
        },
        _ => {},
    }
}

/// The tail of a statement list adds only statements.
pub proof fn lemma_statement_list_tail_is_statement(s: Seq<char>, done: Seq<SpecNode>, p: int)
    requires
        0 <= p <= s.len(),
        token_at(s, p) is Ok,
        forall|i: int| 0 <= i < done.len() ==> (#[trigger] done[i]).is_statement(),
    ensures
        statement_list_tail(s, done, p) matches Ok((nodes, _)) ==> forall|i: int|
            0 <= i < nodes.len() ==> (#[trigger] nodes[i]).is_statement(),
    decreases s.len() - p, 2int,
{
    lemma_scan_advances(s, p);
    if token_at(s, p) == Ok::<SpecToken, LexError>(SpecToken::Semi) {
        if let Ok(q) = advance(s, p) {
            lemma_statement_advances(s, q);
            lemma_statement_is_statement(s, q);
            if let Ok((statement, r)) = statement_at(s, q) {
                lemma_statement_list_tail_is_statement(s, done.push(statement), r);
            }
        }
    }
}

/// Every tree that a statement list yields is a statement.
pub proof fn lemma_statement_list_is_statement(s: Seq<char>, p: int)
    requires
        0 <= p <= s.len(),
        token_at(s, p) is Ok,
    ensures
        statement_list_at(s, p) matches Ok((nodes, _)) ==> forall|i: int|
            0 <= i < nodes.len() ==> (#[trigger] nodes[i]).is_statement(),
    decreases s.len() - p, 3int,
{
    lemma_statement_advances(s, p);
    lemma_statement_is_statement(s, p);
    if let Ok((first, q)) = statement_at(s, p) {
        lemma_statement_list_tail_is_statement(s, seq![first], q);
    }
}

/// Every tree that the parser yields for a whole program is a statement,
/// and so well formed: a binary node carries an arithmetic operator, a unary
/// node a sign, and the target of an assignment is a variable.
pub proof fn lemma_parse_well_formed(s: Seq<char>, p: int)
    requires
        0 <= p <= s.len(),
    ensures
        parse_at(s, p) matches Ok((node, _)) ==> node.is_statement() && node.well_formed(),
{
    lemma_compound_is_statement(s, p);
    if let Ok((node, _)) = parse_at(s, p) {
        node.lemma_statement_well_formed();
    }
}

/// Every tree that the parser yields for an expression is an expression in
/// shape, and so well formed.
pub proof fn lemma_expr_well_formed(s: Seq<char>, p: int)
    requires
        0 <= p <= s.len(),
    ensures
        expr_at(s, p) matches Ok((node, _)) ==> node.is_expression() && node.well_formed(),
{
    lemma_expr_is_expression(s, p);
    if let Ok((node, _)) = expr_at(s, p) {
        node.lemma_expression_well_formed();
    }
}

/// What the result of a production stands for, given where the parser stands
/// behind it.
pub open spec fn parsed(result: Result<ASTNode, ParseError>, position: int) -> Parsed {
    match result {
        Ok(node) => Ok((node@, position)),
        Err(error) => Err(error),
    }
}

/// What the result of a statement list stands for, given where the parser
/// stands behind it.
pub open spec fn parsed_list(result: Result<Vec<ASTNode>, ParseError>, position: int)
    -> ParsedList {
    match result {
        Ok(nodes) => Ok((node_views(nodes@), position)),
        Err(error) => Err(error),
    }
}

/// A recursive-descent parser that pulls its tokens from a [`Lexer`], one at a
/// time, and keeps one token of lookahead.
pub struct Parser {
    lexer: Lexer,
    cur: Token,
    start: Ghost<int>,
}

impl Parser {
    /// The text that is parsed.
    pub closed spec fn input(self) -> Seq<char> {
        self.lexer.input()
    }

    /// Where in the text the lookahead token starts, the blanks before it
    /// included.
    pub closed spec fn position(self) -> int {
        self.start@
    }

    /// The lookahead token.
    pub closed spec fn current(self) -> SpecToken {
        self.cur@
    }

    /// The lookahead token is the one that the text holds at
    /// [`Parser::position`], and the lexer stands behind it.
    pub closed spec fn wf(self) -> bool {
        &&& 0 <= self.start@ <= self.lexer.input().len()
        &&& token_at(self.lexer.input(), self.start@) == Ok::<SpecToken, LexError>(self.cur@)
        &&& token_end(self.lexer.input(), self.start@) == self.lexer.position()
    }

    /// What [`Parser::wf`] says of the lookahead token.
    pub proof fn lemma_wf(self)
        requires
            self.wf(),
        ensures
            0 <= self.position() <= self.input().len(),
            token_at(self.input(), self.position()) == Ok::<SpecToken, LexError>(self.current()),
    {
    }

    /// A parser over the rest of the text of `lexer`. Its first token is cut
    /// from the text at once: where that fails, there is no parser.
    pub fn new(lexer: Lexer) -> (result: Result<Parser, ParseError>)
        ensures
            match token_at(lexer.input(), lexer.position()) {
                Ok(_) => {
                    &&& result matches Ok(parser)
                    &&& parser.wf()
                    &&& parser.input() == lexer.input()
                    &&& parser.position() == lexer.position()
                },
                Err(error) => result matches Err(e) && e == ParseError::LexError(error),
            },
    {
        let ghost start = lexer.position();
        proof {
            use_type_invariant(&lexer);
        }
        let mut lexer = lexer;
        match lexer.next() {
            Ok(tok) => Ok(Parser { lexer: lexer, cur: tok, start: Ghost(start) }),
            Err(error) => Err(ParseError::LexError(error)),
        }
    }

    /// A whole program, with nothing but the end of the text behind it.
    pub fn parse(&mut self) -> (result: Result<ASTNode, ParseError>)
        requires
            old(self).wf(),
        ensures
            final(self).wf(),
            final(self).input() == old(self).input(),
            parsed(result, final(self).position()) == parse_at(
                old(self).input(),
                old(self).position(),
            ),
            result matches Ok(root) ==> root@.is_statement() && root@.well_formed(),
    {
        proof {
            lemma_parse_well_formed(self.input(), self.position());
        }
        let node = match self.program() {
            Ok(node) => node,
            Err(error) => {
                return Err(error);
            },
        };
        match self.end() {
            Ok(_) => Ok(node),
            Err(error) => Err(error),
        }
    }

    /// Checks that nothing is left of the text: the lookahead token must be
    /// `EOF`.
    pub fn end(&self) -> (result: Result<(), ParseError>)
        requires
            self.wf(),
        ensures
            result == end_at(self.input(), self.position()),
    {
        if let Token::EOF = self.cur {
            return Ok(());
        }
        Err(ParseError::SyntaxError { expected: TokenKind::EOF, found: self.cur.kind() })
    }

    fn program(&mut self) -> (result: Result<ASTNode, ParseError>)
        requires
            old(self).wf(),
        ensures
            final(self).wf(),
            final(self).input() == old(self).input(),
            parsed(result, final(self).position()) == program_at(
                old(self).input(),
                old(self).position(),
            ),
    {
        self.compound_statement()
    }

    fn compound_statement(&mut self) -> (result: Result<ASTNode, ParseError>)
        requires
            old(self).wf(),
        ensures
            final(self).wf(),
            final(self).input() == old(self).input(),
            parsed(result, final(self).position()) == compound_at(
                old(self).input(),
                old(self).position(),
            ),
        decreases old(self).input().len() - old(self).position(), 0int,
    {
        proof {
            lemma_advance_moves(self.input(), self.position());
        }
        match self.consume_lexer(TokenKind::LCBrac) {
            Ok(_) => {},
            Err(error) => {
                return Err(error);
            },
        }
        let children = match self.statement_list() {
            Ok(children) => children,
            Err(error) => {
                return Err(error);
            },
        };
        match self.consume_lexer(TokenKind::RCBrac) {
            Ok(_) => {},
            Err(error) => {
                return Err(error);
            },
        }
        proof {
            ASTNode::lemma_compound_view(children);
        }
        Ok(ASTNode::Compound { children: children })
    }

    fn statement_list(&mut self) -> (result: Result<Vec<ASTNode>, ParseError>)
        requires
            old(self).wf(),
        ensures
            final(self).wf(),
            final(self).input() == old(self).input(),
            parsed_list(result, final(self).position()) == statement_list_at(
                old(self).input(),
                old(self).position(),
            ),
        decreases old(self).input().len() - old(self).position(), 3int,
    {
        let ghost s = self.input();
        let ghost p = self.position();
        proof {
            lemma_statement_advances(s, p);
        }
        let first = match self.statement() {
            Ok(first) => first,
            Err(error) => {
                return Err(error);
            },
        };
        let mut results: Vec<ASTNode> = Vec::new();
        results.push(first);
        assert(node_views(results@) =~= seq![first@]);
        loop
            invariant
                self.wf(),
                self.input() == s,
                s == old(self).input(),
                p == old(self).position(),
                p <= self.position(),
                statement_list_at(s, p) == statement_list_tail(
                    s,
                    node_views(results@),
                    self.position(),
                ),
            ensures
                self.wf(),
                self.input() == s,
                statement_list_at(s, p) == Ok::<(Seq<SpecNode>, int), ParseError>(
                    (node_views(results@), self.position()),
                ),
            decreases s.len() - self.position(),
        {
            let ghost here = self.position();
            let ghost done = node_views(results@);
            proof {
                lemma_advance_moves(s, here);
            }
            if let Token::Semi = self.cur {
            } else {
                break;
            }
            match self.consume_lexer(TokenKind::Semi) {
                Ok(_) => {},
                Err(error) => {
                    return Err(error);
                },
            }
            proof {
                lemma_statement_advances(s, self.position());
            }
            let statement = match self.statement() {
                Ok(statement) => statement,
                Err(error) => {
                    return Err(error);
                },
            };
            results.push(statement);
            assert(node_views(results@) =~= done.push(statement@));
        }
        Ok(results)
    }

    fn statement(&mut self) -> (result: Result<ASTNode, ParseError>)
        requires
            old(self).wf(),
        ensures
            final(self).wf(),
            final(self).input() == old(self).input(),
            parsed(result, final(self).position()) == statement_at(
                old(self).input(),
                old(self).position(),
            ),
        decreases old(self).input().len() - old(self).position(), 1int,
    {
        match self.cur {
            Token::LCBrac => self.compound_statement(),
            Token::Id(_) => self.assign_statement(),
            _ => Ok(self.empty()),
        }
    }

    fn assign_statement(&mut self) -> (result: Result<ASTNode, ParseError>)
        requires
            old(self).wf(),
        ensures
            final(self).wf(),
            final(self).input() == old(self).input(),
            parsed(result, final(self).position()) == assignment_at(
                old(self).input(),
                old(self).position(),
            ),
    {
        let left = match self.variable() {
            Ok(left) => left,
            Err(error) => {
                return Err(error);
            },
        };
        match self.consume_lexer(TokenKind::Assign) {
            Ok(_) => {},
            Err(error) => {
                return Err(error);
            },
        }
        let right = match self.expr() {
            Ok(right) => right,
            Err(error) => {
                return Err(error);
            },
        };
        Ok(ASTNode::Assign { left: Box::new(left), right: Box::new(right) })
    }

    /// `variable := identifier`
    fn variable(&mut self) -> (result: Result<ASTNode, ParseError>)
        requires
            old(self).wf(),
        ensures
            final(self).wf(),
            final(self).input() == old(self).input(),
            match consume(old(self).input(), old(self).position(), TokenKind::Id) {
                Ok((name, q)) => {
                    &&& result matches Ok(node)
                    &&& node@ == (SpecNode::Var { token: name })
                    &&& final(self).position() == q
                },
                Err(error) => result matches Err(e) && e == error,
            },
    {
        match self.consume_lexer(TokenKind::Id) {
            Ok(token) => Ok(ASTNode::Var { token: token }),
            Err(error) => Err(error),
        }
    }

    fn empty(&mut self) -> (node: ASTNode)
        ensures
            *final(self) == *old(self),
            node@ == SpecNode::NoOp,
    {
        ASTNode::NoOp
    }

    /// `expr := term (('+' | '-') term)*`
    pub fn expr(&mut self) -> (result: Result<ASTNode, ParseError>)
        requires
            old(self).wf(),
        ensures
            final(self).wf(),
            final(self).input() == old(self).input(),
            parsed(result, final(self).position()) == expr_at(
                old(self).input(),
                old(self).position(),
            ),
            result matches Ok(root) ==> root@.is_expression() && root@.well_formed(),
        decreases old(self).input().len() - old(self).position(), 4int,
    {
        let ghost s = self.input();
        let ghost p = self.position();
        proof {
            lemma_expr_well_formed(s, p);
            lemma_term_advances(s, p);
        }
        let mut left = match self.term() {
            Ok(left) => left,
            Err(error) => {
                return Err(error);
            },
        };
        loop
            invariant
                self.wf(),
                self.input() == s,
                s == old(self).input(),
                p == old(self).position(),
                p <= self.position(),
                expr_at(s, p) == expr_tail(s, left@, self.position()),
            ensures
                self.wf(),
                self.input() == s,
                expr_at(s, p) == Ok::<(SpecNode, int), ParseError>((left@, self.position())),
            decreases s.len() - self.position(),
        {
            let ghost here = self.position();
            proof {
                lemma_advance_moves(s, here);
            }
            let kind = self.cur.kind();
            if kind != TokenKind::Add && kind != TokenKind::Sub {
                break;
            }
            let op = match self.consume_lexer(kind) {
                Ok(op) => op,
                Err(error) => {
                    return Err(error);
                },
            };
            proof {
                lemma_term_advances(s, self.position());
            }
            let right = match self.term() {
                Ok(right) => right,
                Err(error) => {
                    return Err(error);
                },
            };
            left = ASTNode::BinOp { left: Box::new(left), op: op, right: Box::new(right) };
        }
        Ok(left)
    }

    /// `term := factor (('*' | '/') factor)*`
    pub fn term(&mut self) -> (result: Result<ASTNode, ParseError>)
        requires
            old(self).wf(),
        ensures
            final(self).wf(),
            final(self).input() == old(self).input(),
            parsed(result, final(self).position()) == term_at(
                old(self).input(),
                old(self).position(),
            ),
            result matches Ok(root) ==> root@.is_expression(),
        decreases old(self).input().len() - old(self).position(), 2int,
    {
        let ghost s = self.input();
        let ghost p = self.position();
        proof {
            lemma_term_is_expression(s, p);
            lemma_factor_advances(s, p);
        }
        let mut left = match self.factor() {
            Ok(left) => left,
            Err(error) => {
                return Err(error);
            },
        };
        loop
            invariant
                self.wf(),
                self.input() == s,
                s == old(self).input(),
                p == old(self).position(),
                p <= self.position(),
                term_at(s, p) == term_tail(s, left@, self.position()),
            ensures
                self.wf(),
                self.input() == s,
                term_at(s, p) == Ok::<(SpecNode, int), ParseError>((left@, self.position())),
            decreases s.len() - self.position(),
        {
            let ghost here = self.position();
            proof {
                lemma_advance_moves(s, here);
            }
            let kind = self.cur.kind();
            if kind != TokenKind::Mul && kind != TokenKind::Div {
                break;
            }
            let op = match self.consume_lexer(kind) {
                Ok(op) => op,
                Err(error) => {
                    return Err(error);
                },
            };
            proof {
                lemma_factor_advances(s, self.position());
            }
            let right = match self.factor() {
                Ok(right) => right,
                Err(error) => {
                    return Err(error);
                },
            };
            left = ASTNode::BinOp { left: Box::new(left), op: op, right: Box::new(right) };
        }
        Ok(left)
    }

    /// `factor := ('+' | '-') factor | integer | '(' expr ')' | identifier`
    pub fn factor(&mut self) -> (result: Result<ASTNode, ParseError>)
        requires
            old(self).wf(),
        ensures
            final(self).wf(),
            final(self).input() == old(self).input(),
            parsed(result, final(self).position()) == factor_at(
                old(self).input(),
                old(self).position(),
            ),
            result matches Ok(root) ==> root@.is_expression(),
        decreases old(self).input().len() - old(self).position(), 0int,
    {
        let ghost s = self.input();
        let ghost p = self.position();
        proof {
            lemma_factor_is_expression(s, p);
            lemma_advance_moves(s, p);
        }
        match &self.cur {
            // Handle unary operators
            Token::Add | Token::Sub => {
                let kind = self.cur.kind();
                let op = match self.consume_lexer(kind) {
                    Ok(op) => op,
                    Err(error) => {
                        return Err(error);
                    },
                };
                let operand = match self.factor() {
                    Ok(operand) => operand,
                    Err(error) => {
                        return Err(error);
                    },
                };
                Ok(ASTNode::UnaryOp { op: op, expr: Box::new(operand) })
            },
            // Handle parentheses
            Token::LParen => {
                match self.consume_lexer(TokenKind::LParen) {
                    Ok(_) => {},
                    Err(error) => {
                        return Err(error);
                    },
                }
                let inner = match self.expr() {
                    Ok(inner) => inner,
                    Err(error) => {
                        return Err(error);
                    },
                };
                match self.consume_lexer(TokenKind::RParen) {
                    Ok(_) => {},
                    Err(error) => {
                        return Err(error);
                    },
                }
                Ok(inner)
            },
            // Just a number
            Token::Integer(value) => {
                let value = *value;
                match self.consume_lexer(TokenKind::Integer) {
                    Ok(_) => {},
                    Err(error) => {
                        return Err(error);
                    },
                }
                Ok(ASTNode::Num(signed(value)))
            },
            Token::Id(_) => self.variable(),
            _ => Err(
                ParseError::SyntaxError {
                    expected: TokenKind::Integer,
                    found: self.cur.kind(),
                },
            ),
        }
    }

    /// Checks that the lookahead token is of kind `expect`, takes it, and
    /// pulls the next token from the lexer. Where either fails, the parser
    /// stays as it was.
    fn consume_lexer(&mut self, expect: TokenKind) -> (result: Result<Token, ParseError>)
        requires
            old(self).wf(),
        ensures
            final(self).wf(),
            final(self).input() == old(self).input(),
            match consume(old(self).input(), old(self).position(), expect) {
                Ok((token, q)) => {
                    &&& result matches Ok(consumed)
                    &&& consumed@ == token
                    &&& final(self).position() == q
                },
                Err(error) => {
                    &&& result matches Err(e)
                    &&& e == error
                    &&& final(self).position() == old(self).position()
                },
            },
    {
        let found = self.cur.kind();
        if found != expect {
            return Err(ParseError::SyntaxError { expected: expect, found: found });
        }
        let ghost begin = self.lexer.position();
        proof {
            lemma_scan_advances(self.lexer.input(), self.start@);
        }
        match self.lexer.next() {
            Ok(tok) => {
                let mut tok = tok;
                std::mem::swap(&mut self.cur, &mut tok);
                self.start = Ghost(begin);
                Ok(tok)
            },
            Err(error) => Err(ParseError::LexError(error)),
        }
    }
}

} // verus!
