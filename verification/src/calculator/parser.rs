//! The parser of the calculator for expressions: recursive descent with one
//! token of lookahead.
//!
//! ```text
//! expr:   term (('+' | '-') term)*
//! term:   factor (('*' | '/') factor)*
//! factor: ('+' | '-') factor | INTEGER | '(' expr ')'
//! ```
//!
//! What each production yields is given by [`factor_at`], [`term_at`] and
//! [`expr_at`], functions of the text and of the position where the
//! lookahead token starts.
//!
//! Where one of these functions goes on behind an operand, it first asks that
//! the operand ended at or behind its start and inside the text. That always
//! holds (`lemma_factor_advances` and the lemmas beside it), so the question
//! decides nothing: it is there for the definitions to terminate.

use super::interpreter::computable;
use super::lexer::{lemma_scan_advances, token_at, token_end, Lexer};
use super::syn::{ASTNode, Token};
use crate::arithmetic::{signed, to_signed};
use crate::language::lexer::LexError;
use vstd::prelude::*;

verus! {

/// Why the text is no expression.
#[derive(Debug, PartialEq, Eq, Clone, Copy)]
pub enum ParseError {
    /// The lexer found no token where the parser asked for the next one.
    LexError(LexError),
    /// The lookahead token is `found` where the grammar asks for a token of
    /// the kind of `expected`. Where a number is expected, or a factor must
    /// start, `expected` is `Integer(0)`.
    SyntaxError { expected: Token, found: Token },
}

/// What a production yields: the tree, and the position where the next
/// lookahead token starts.
pub type Parsed = Result<(ASTNode, int), ParseError>;

/// Where the next lookahead token starts once the one at `p` is consumed.
/// The next token is cut from the text at once: where that fails, so does
/// the step.
pub open spec fn advance(s: Seq<char>, p: int) -> Result<int, ParseError> {
    let q = token_end(s, p);
    match token_at(s, q) {
        Ok(_) => Ok(q),
        Err(error) => Err(ParseError::LexError(error)),
    }
}

/// Consuming the lookahead token at `p`, which must be of the kind of
/// `expect`: the token, and where the next one starts.
pub open spec fn consume(s: Seq<char>, p: int, expect: Token) -> Result<(Token, int), ParseError> {
    match token_at(s, p) {
        Err(error) => Err(ParseError::LexError(error)),
        Ok(token) => if token.same_kind(expect) {
            match advance(s, p) {
                Ok(q) => Ok((token, q)),
                Err(error) => Err(error),
            }
        } else {
            Err(ParseError::SyntaxError { expected: expect, found: token })
        },
    }
}

/// `factor: ('+' | '-') factor | INTEGER | '(' expr ')'`
pub open spec fn factor_at(s: Seq<char>, p: int) -> Parsed
    decreases s.len() - p, 0int,
{
    match token_at(s, p) {
        Err(error) => Err(ParseError::LexError(error)),
        Ok(token) => if token.is_operator('+') || token.is_operator('-') {
            match advance(s, p) {
                Err(error) => Err(error),
                Ok(q) => {
                    proof {
                        lemma_scan_advances(s, p);
                    }
                    match factor_at(s, q) {
                        Err(error) => Err(error),
                        Ok((operand, r)) => Ok(
                            (ASTNode::UnaryOp { op: token, expr: Box::new(operand) }, r),
                        ),
                    }
                },
            }
        } else if token.is_operator('(') {
            match advance(s, p) {
                Err(error) => Err(error),
                Ok(q) => {
                    proof {
                        lemma_scan_advances(s, p);
                    }
                    match expr_at(s, q) {
                        Err(error) => Err(error),
                        Ok((inner, r)) => match consume(s, r, Token::Operator(')')) {
                            Err(error) => Err(error),
                            Ok((_, after)) => Ok((inner, after)),
                        },
                    }
                },
            }
        } else if let Token::Integer(value) = token {
            match advance(s, p) {
                Err(error) => Err(error),
                Ok(q) => Ok((ASTNode::Num(to_signed(value)), q)),
            }
        } else {
            Err(ParseError::SyntaxError { expected: Token::Integer(0), found: token })
        },
    }
}

/// `(('*' | '/') factor)*` behind the operand `left`: the operators
/// associate to the left.
pub open spec fn term_tail(s: Seq<char>, left: ASTNode, p: int) -> Parsed
    decreases s.len() - p, 1int,
{
    match token_at(s, p) {
        Ok(op) if op.is_operator('*') || op.is_operator('/') => match advance(s, p) {
            Err(error) => Err(error),
            Ok(q) => {
                proof {
                    lemma_scan_advances(s, p);
                }
                match factor_at(s, q) {
                    Ok((right, r)) if q <= r <= s.len() => term_tail(
                        s,
                        ASTNode::BinOp { left: Box::new(left), op, right: Box::new(right) },
                        r,
                    ),
                    other => other,
                }
            },
        },
        _ => Ok((left, p)),
    }
}

/// `term: factor (('*' | '/') factor)*`
pub open spec fn term_at(s: Seq<char>, p: int) -> Parsed
    decreases s.len() - p, 2int,
{
    match factor_at(s, p) {
        Ok((left, q)) if p <= q <= s.len() => term_tail(s, left, q),
        other => other,
    }
}

/// `(('+' | '-') term)*` behind the operand `left`: the operators associate
/// to the left.
pub open spec fn expr_tail(s: Seq<char>, left: ASTNode, p: int) -> Parsed
    decreases s.len() - p, 3int,
{
    match token_at(s, p) {
        Ok(op) if op.is_operator('+') || op.is_operator('-') => match advance(s, p) {
            Err(error) => Err(error),
            Ok(q) => {
                proof {
                    lemma_scan_advances(s, p);
                }
                match term_at(s, q) {
                    Ok((right, r)) if q <= r <= s.len() => expr_tail(
                        s,
                        ASTNode::BinOp { left: Box::new(left), op, right: Box::new(right) },
                        r,
                    ),
                    other => other,
                }
            },
        },
        _ => Ok((left, p)),
    }
}

/// `expr: term (('+' | '-') term)*`
pub open spec fn expr_at(s: Seq<char>, p: int) -> Parsed
    decreases s.len() - p, 4int,
{
    match term_at(s, p) {
        Ok((left, q)) if p <= q <= s.len() => expr_tail(s, left, q),
        other => other,
    }
}

/// A successful step lands on a position of the text where a token starts,
/// and behind the token it consumed.
pub proof fn lemma_advance_moves(s: Seq<char>, p: int)
    requires
        0 <= p <= s.len(),
    ensures
        advance(s, p) matches Ok(q) ==> p <= q <= s.len() && token_at(s, q) is Ok,
        advance(s, p) matches Ok(q) ==> (token_at(s, p) matches Ok(token) ==> token is End || p
            < q),
{
    lemma_scan_advances(s, p);
}

/// A factor ends behind where it starts, inside the text, and a token starts
/// where it ends.
pub proof fn lemma_factor_advances(s: Seq<char>, p: int)
    requires
        0 <= p <= s.len(),
    ensures
        factor_at(s, p) matches Ok((_, q)) ==> p < q <= s.len() && token_at(s, q) is Ok,
    decreases s.len() - p, 0int,
{
    lemma_scan_advances(s, p);
    if let Ok(token) = token_at(s, p) {
        if token.is_operator('+') || token.is_operator('-') {
            if let Ok(q) = advance(s, p) {
                lemma_factor_advances(s, q);
            }
        } else if token.is_operator('(') {
            if let Ok(q) = advance(s, p) {
                lemma_expr_advances(s, q);
                if let Ok((_, r)) = expr_at(s, q) {
                    lemma_advance_moves(s, r);
                }
            }
        }
    }
}

/// The tail of a term ends at or behind where it starts, inside the text,
/// and a token starts where it ends.
pub proof fn lemma_term_tail_advances(s: Seq<char>, left: ASTNode, p: int)
    requires
        0 <= p <= s.len(),
        token_at(s, p) is Ok,
    ensures
        term_tail(s, left, p) matches Ok((_, q)) ==> p <= q <= s.len() && token_at(s, q) is Ok,
    decreases s.len() - p, 1int,
{
    lemma_scan_advances(s, p);
    if let Ok(op) = token_at(s, p) {
        if op.is_operator('*') || op.is_operator('/') {
            if let Ok(q) = advance(s, p) {
                lemma_factor_advances(s, q);
                if let Ok((right, r)) = factor_at(s, q) {
                    lemma_term_tail_advances(
                        s,
                        ASTNode::BinOp { left: Box::new(left), op, right: Box::new(right) },
                        r,
                    );
                }
            }
        }
    }
}

/// A term ends behind where it starts, inside the text, and a token starts
/// where it ends.
pub proof fn lemma_term_advances(s: Seq<char>, p: int)
    requires
        0 <= p <= s.len(),
    ensures
        term_at(s, p) matches Ok((_, q)) ==> p < q <= s.len() && token_at(s, q) is Ok,
    decreases s.len() - p, 2int,
{
    lemma_factor_advances(s, p);
    if let Ok((left, q)) = factor_at(s, p) {
        lemma_term_tail_advances(s, left, q);
    }
}

/// The tail of an expression ends at or behind where it starts, inside the
/// text, and a token starts where it ends.
pub proof fn lemma_expr_tail_advances(s: Seq<char>, left: ASTNode, p: int)
    requires
        0 <= p <= s.len(),
        token_at(s, p) is Ok,
    ensures
        expr_tail(s, left, p) matches Ok((_, q)) ==> p <= q <= s.len() && token_at(s, q) is Ok,
    decreases s.len() - p, 3int,
{
    lemma_scan_advances(s, p);
    if let Ok(op) = token_at(s, p) {
        if op.is_operator('+') || op.is_operator('-') {
            if let Ok(q) = advance(s, p) {
                lemma_term_advances(s, q);
                if let Ok((right, r)) = term_at(s, q) {
                    lemma_expr_tail_advances(
                        s,
                        ASTNode::BinOp { left: Box::new(left), op, right: Box::new(right) },
                        r,
                    );
                }
            }
        }
    }
}

/// An expression ends behind where it starts, inside the text, and a token
/// starts where it ends.
pub proof fn lemma_expr_advances(s: Seq<char>, p: int)
    requires
        0 <= p <= s.len(),
    ensures
        expr_at(s, p) matches Ok((_, q)) ==> p < q <= s.len() && token_at(s, q) is Ok,
    decreases s.len() - p, 4int,
{
    lemma_term_advances(s, p);
    if let Ok((left, q)) = term_at(s, p) {
        lemma_expr_tail_advances(s, left, q);
    }
}

/// Every tree that a factor yields carries operators that the evaluator
/// handles.
pub proof fn lemma_factor_computable(s: Seq<char>, p: int)
    requires
        0 <= p <= s.len(),
    ensures
        factor_at(s, p) matches Ok((node, _)) ==> computable(node),
    decreases s.len() - p, 0int,
{
    lemma_scan_advances(s, p);
    if let Ok(token) = token_at(s, p) {
        if token.is_operator('+') || token.is_operator('-') {
            if let Ok(q) = advance(s, p) {
                lemma_factor_computable(s, q);
            }
        } else if token.is_operator('(') {
            if let Ok(q) = advance(s, p) {
                lemma_expr_computable(s, q);
            }
        }
    }
}

/// The tail of a term adds only operators that the evaluator handles.
pub proof fn lemma_term_tail_computable(s: Seq<char>, left: ASTNode, p: int)
    requires
        0 <= p <= s.len(),
        computable(left),
    ensures
        term_tail(s, left, p) matches Ok((node, _)) ==> computable(node),
    decreases s.len() - p, 1int,
{
    lemma_scan_advances(s, p);
    if let Ok(op) = token_at(s, p) {
        if op.is_operator('*') || op.is_operator('/') {
            if let Ok(q) = advance(s, p) {
                lemma_factor_advances(s, q);
                lemma_factor_computable(s, q);
                if let Ok((right, r)) = factor_at(s, q) {
                    lemma_term_tail_computable(
                        s,
                        ASTNode::BinOp { left: Box::new(left), op, right: Box::new(right) },
                        r,
                    );
                }
            }
        }
    }
}

/// Every tree that a term yields carries operators that the evaluator
/// handles.
pub proof fn lemma_term_computable(s: Seq<char>, p: int)
    requires
        0 <= p <= s.len(),
    ensures
        term_at(s, p) matches Ok((node, _)) ==> computable(node),
    decreases s.len() - p, 2int,
{
    lemma_factor_advances(s, p);
    lemma_factor_computable(s, p);
    if let Ok((left, q)) = factor_at(s, p) {
        lemma_term_tail_computable(s, left, q);
    }
}

/// The tail of an expression adds only operators that the evaluator
/// handles.
pub proof fn lemma_expr_tail_computable(s: Seq<char>, left: ASTNode, p: int)
    requires
        0 <= p <= s.len(),
        computable(left),
    ensures
        expr_tail(s, left, p) matches Ok((node, _)) ==> computable(node),
    decreases s.len() - p, 3int,
{
    lemma_scan_advances(s, p);
    if let Ok(op) = token_at(s, p) {
        if op.is_operator('+') || op.is_operator('-') {
            if let Ok(q) = advance(s, p) {
                lemma_term_advances(s, q);
                lemma_term_computable(s, q);
                if let Ok((right, r)) = term_at(s, q) {
                    lemma_expr_tail_computable(
                        s,
                        ASTNode::BinOp { left: Box::new(left), op, right: Box::new(right) },
                        r,
                    );
                }
            }
        }
    }
}

/// Every tree that the parser yields carries only operators that the
/// evaluator handles: `+ - * /` in binary nodes, `+ -` in unary nodes.
pub proof fn lemma_expr_computable(s: Seq<char>, p: int)
    requires
        0 <= p <= s.len(),
    ensures
        expr_at(s, p) matches Ok((node, _)) ==> computable(node),
    decreases s.len() - p, 4int,
{
    lemma_term_advances(s, p);
    lemma_term_computable(s, p);
    if let Ok((left, q)) = term_at(s, p) {
        lemma_expr_tail_computable(s, left, q);
    }
}

/// What the result of a production stands for, given where the parser stands
/// behind it.
pub open spec fn parsed(result: Result<ASTNode, ParseError>, position: int) -> Parsed {
    match result {
        Ok(node) => Ok((node, position)),
        Err(error) => Err(error),
    }
}

/// A recursive-descent parser that pulls its tokens from a [`Lexer`], one at a
/// time, and keeps one token of lookahead.
pub struct Parser {
    lexer: Lexer,
    cur: Token,
    start: Ghost<int>,
}

impl Parser {
    /// The text that is parsed.
    pub closed spec fn input(self) -> Seq<char> {
        self.lexer.input()
    }

    /// Where in the text the lookahead token starts, the blanks before it
    /// included.
    pub closed spec fn position(self) -> int {
        self.start@
    }

    /// The lookahead token.
    pub closed spec fn current(self) -> Token {
        self.cur
    }

    /// The lookahead token is the one that the text holds at
    /// [`Parser::position`], and the lexer stands behind it.
    pub closed spec fn wf(self) -> bool {
        &&& 0 <= self.start@ <= self.lexer.input().len()
        &&& token_at(self.lexer.input(), self.start@) == Ok::<Token, LexError>(self.cur)
        &&& token_end(self.lexer.input(), self.start@) == self.lexer.position()
    }

    /// What [`Parser::wf`] says of the lookahead token.
    pub proof fn lemma_wf(self)
        requires
            self.wf(),
        ensures
            0 <= self.position() <= self.input().len(),
            token_at(self.input(), self.position()) == Ok::<Token, LexError>(self.current()),
    {
    }

    /// A parser over the rest of the text of `lexer`. Its first token is cut
    /// from the text at once: where that fails, there is no parser.
    pub fn new(lexer: Lexer) -> (result: Result<Parser, ParseError>)
        ensures
            match token_at(lexer.input(), lexer.position()) {
                Ok(_) => {
                    &&& result matches Ok(parser)
                    &&& parser.wf()
                    &&& parser.input() == lexer.input()
                    &&& parser.position() == lexer.position()
                },
                Err(error) => result matches Err(e) && e == ParseError::LexError(error),
            },
    {
        let ghost start = lexer.position();
        proof {
            use_type_invariant(&lexer);
        }
        let mut lexer = lexer;
        match lexer.next() {
            Ok(tok) => Ok(Parser { lexer: lexer, cur: tok, start: Ghost(start) }),
            Err(error) => Err(ParseError::LexError(error)),
        }
    }

    /// `expr: term (('+' | '-') term)*`
    pub fn expr(&mut self) -> (result: Result<ASTNode, ParseError>)
        requires
            old(self).wf(),
        ensures
            final(self).wf(),
            final(self).input() == old(self).input(),
            parsed(result, final(self).position()) == expr_at(
                old(self).input(),
                old(self).position(),
            ),
            result matches Ok(root) ==> computable(root),
        decreases old(self).input().len() - old(self).position(), 4int,
    {
        let ghost s = self.input();
        let ghost p = self.position();
        proof {
            lemma_expr_computable(s, p);
            lemma_term_advances(s, p);
        }
        let mut left = match self.term() {
            Ok(left) => left,
            Err(error) => {
                return Err(error);
            },
        };
        loop
            invariant
                self.wf(),
                self.input() == s,
                s == old(self).input(),
                p == old(self).position(),
                p <= self.position(),
                expr_at(s, p) == expr_tail(s, left, self.position()),
            ensures
                self.wf(),
                self.input() == s,
                expr_at(s, p) == Ok::<(ASTNode, int), ParseError>((left, self.position())),
            decreases s.len() - self.position(),
        {
            proof {
                lemma_advance_moves(s, self.position());
            }
            let op = self.cur;
            match op {
                Token::Operator('+') | Token::Operator('-') => {},
                _ => {
                    break ;
                },
            }
            match self.consume_lexer(op) {
                Ok(_) => {},
                Err(error) => {
                    return Err(error);
                },
            }
            proof {
                lemma_term_advances(s, self.position());
            }
            let right = match self.term() {
                Ok(right) => right,
                Err(error) => {
                    return Err(error);
                },
            };
            left = ASTNode::BinOp { left: Box::new(left), op: op, right: Box::new(right) };
        }
        Ok(left)
    }

    /// `term: factor (('*' | '/') factor)*`
    pub fn term(&mut self) -> (result: Result<ASTNode, ParseError>)
        requires
            old(self).wf(),
        ensures
            final(self).wf(),
            final(self).input() == old(self).input(),
            parsed(result, final(self).position()) == term_at(
                old(self).input(),
                old(self).position(),
            ),
            result matches Ok(root) ==> computable(root),
        decreases old(self).input().len() - old(self).position(), 2int,
    {
        let ghost s = self.input();
        let ghost p = self.position();
        proof {
            lemma_term_computable(s, p);
            lemma_factor_advances(s, p);
        }
        let mut left = match self.factor() {
            Ok(left) => left,
            Err(error) => {
                return Err(error);
            },
        };
        loop
            invariant
                self.wf(),
                self.input() == s,
                s == old(self).input(),
                p == old(self).position(),
                p <= self.position(),
                term_at(s, p) == term_tail(s, left, self.position()),
            ensures
                self.wf(),
                self.input() == s,
                term_at(s, p) == Ok::<(ASTNode, int), ParseError>((left, self.position())),
            decreases s.len() - self.position(),
        {
            proof {
                lemma_advance_moves(s, self.position());
            }
            let op = self.cur;
            match op {
                Token::Operator('*') | Token::Operator('/') => {},
                _ => {
                    break ;
                },
            }
            match self.consume_lexer(op) {
                Ok(_) => {},
                Err(error) => {
                    return Err(error);
                },
            }
            proof {
                lemma_factor_advances(s, self.position());
            }
            let right = match self.factor() {
                Ok(right) => right,
                Err(error) => {
                    return Err(error);
                },
            };
            left = ASTNode::BinOp { left: Box::new(left), op: op, right: Box::new(right) };
        }
        Ok(left)
    }

    /// `factor: ('+' | '-') factor | INTEGER | '(' expr ')'`
    pub fn factor(&mut self) -> (result: Result<ASTNode, ParseError>)
        requires
            old(self).wf(),
        ensures
            final(self).wf(),
            final(self).input() == old(self).input(),
            parsed(result, final(self).position()) == factor_at(
                old(self).input(),
                old(self).position(),
            ),
            result matches Ok(root) ==> computable(root),
        decreases old(self).input().len() - old(self).position(), 0int,
    {
        let ghost s = self.input();
        let ghost p = self.position();
        proof {
            lemma_factor_computable(s, p);
            lemma_advance_moves(s, p);
        }
        let token = self.cur;
        match token {
            // Handle unary operators
            Token::Operator('+') | Token::Operator('-') => {
                match self.consume_lexer(token) {
                    Ok(_) => {},
                    Err(error) => {
                        return Err(error);
                    },
                }
                let operand = match self.factor() {
                    Ok(operand) => operand,
                    Err(error) => {
                        return Err(error);
                    },
                };
                Ok(ASTNode::UnaryOp { op: token, expr: Box::new(operand) })
            },
            // Handle parentheses
            Token::Operator('(') => {
                match self.consume_lexer(Token::Operator('(')) {
                    Ok(_) => {},
                    Err(error) => {
                        return Err(error);
                    },
                }
                let res = match self.expr() {
                    Ok(res) => res,
                    Err(error) => {
                        return Err(error);
                    },
                };
                match self.consume_lexer(Token::Operator(')')) {
                    Ok(_) => {},
                    Err(error) => {
                        return Err(error);
                    },
                }
                Ok(res)
            },
            // Just a number
            Token::Integer(i) => {
                match self.consume_lexer(Token::Integer(0)) {
                    Ok(_) => {},
                    Err(error) => {
                        return Err(error);
                    },
                }
                Ok(ASTNode::Num(signed(i)))
            },
            _ => Err(ParseError::SyntaxError { expected: Token::Integer(0), found: token }),
        }
    }

    /// Whether `a` and `b` are of one kind.
    fn same_kind(a: Token, b: Token) -> (answer: bool)
        ensures
            answer == a.same_kind(b),
    {
        match (a, b) {
            (Token::Integer(_), Token::Integer(_)) => true,
            (Token::Operator(x), Token::Operator(y)) => x == y,
            (Token::End, Token::End) => true,
            _ => false,
        }
    }

    /// Checks that the lookahead token is of the kind of `expect`, takes it,
    /// and pulls the next token from the lexer. Where either fails, the
    /// parser stays as it was.
    fn consume_lexer(&mut self, expect: Token) -> (result: Result<Token, ParseError>)
        requires
            old(self).wf(),
        ensures
            final(self).wf(),
            final(self).input() == old(self).input(),
            match consume(old(self).input(), old(self).position(), expect) {
                Ok((token, q)) => {
                    &&& result == Ok::<Token, ParseError>(token)
                    &&& final(self).position() == q
                },
                Err(error) => {
                    &&& result == Err::<Token, ParseError>(error)
                    &&& final(self).position() == old(self).position()
                },
            },
    {
        if !Self::same_kind(self.cur, expect) {
            return Err(ParseError::SyntaxError { expected: expect, found: self.cur });
        }
        let tok = self.cur;
        let ghost begin = self.lexer.position();
        proof {
            lemma_scan_advances(self.lexer.input(), self.start@);
        }
        match self.lexer.next() {
            Ok(next) => {
                self.cur = next;
                self.start = Ghost(begin);
                Ok(tok)
            },
            Err(error) => Err(ParseError::LexError(error)),
        }
    }
}

} // verus!
