//! The standard way of writing an arithmetic expression, and the law that
//! the parser reads it back: precedence and associativity are those of
//! ordinary arithmetic.

use super::interpreter::eval;
use super::laws::{
    divides_by_zero, exact_value, lemma_arithmetic_outcome, lemma_arithmetic_value,
    lemma_division_by_zero_fails,
};
use super::lexer::{symbol, token_at, token_end, LexError};
use super::parser::{
    advance, consume, ended, expr_at, expr_tail, factor_at, term_at, term_tail, ParseError,
    Parsed,
};
use super::syn::{SpecNode, SpecToken, TokenKind};
use super::{evaluation, value_of, SpecError};
use crate::arithmetic::to_signed;
use crate::text::{
    decimal_digits, lemma_decimal_digits, lemma_run_end_unique, run_end, CharClass,
};
use vstd::prelude::*;

verus! {

/// How tightly the operator at the root of a tree binds: `+` and `-` least,
/// `*` and `/` more, and what is no binary operation most.
pub open spec fn precedence(e: SpecNode) -> nat {
    match e {
        SpecNode::BinOp { left, op, right } => if op is Add || op is Sub {
            0
        } else {
            1
        },
        _ => 2,
    }
}

/// The trees that can be written as arithmetic: numbers that are not
/// negative, under the signs `+ -` and the operators `+ - * /`.
pub open spec fn writable(e: SpecNode) -> bool
    decreases e,
{
    match e {
        SpecNode::BinOp { left, op, right } => {
            &&& op.is_binary_operator()
            &&& writable(*left)
            &&& writable(*right)
        },
        SpecNode::UnaryOp { op, expr } => op.is_unary_operator() && writable(*expr),
        SpecNode::Num(value) => value >= 0,
        _ => false,
    }
}

/// The tree `e` as it is written where an operand of precedence `context` is
/// expected: a number in base ten, a sign before its operand, a binary
/// operation as its left operand, its operator and its right operand, with
/// no blanks. Operators of one precedence associate to the left, so the
/// right operand is written as one of the next precedence; parentheses
/// stand around a binary operation that binds less tightly than `context`.
pub open spec fn written(e: SpecNode, context: nat) -> Seq<char>
    decreases e,
{
    match e {
        SpecNode::Num(value) => decimal_digits(value as nat),
        SpecNode::UnaryOp { op, expr } => seq![op.operator_char()] + written(*expr, 2),
        SpecNode::BinOp { left, op, right } => {
            let body = written(*left, precedence(e)) + seq![op.operator_char()] + written(
                *right,
                precedence(e) + 1,
            );
            if precedence(e) < context {
                seq!['('] + body + seq![')']
            } else {
                body
            }
        },
        _ => Seq::empty(),
    }
}

/// Whether the characters of `text` stand in `s` from position `p` on.
pub open spec fn reads(s: Seq<char>, p: int, text: Seq<char>) -> bool {
    &&& 0 <= p
    &&& p + text.len() <= s.len()
    &&& s.subrange(p, p + text.len()) == text
}

/// Whether a written expression can end at `end`: a token starts there, or
/// the text ends, and no digit stands there that would run on a number.
pub open spec fn delimited(s: Seq<char>, end: int) -> bool {
    &&& token_at(s, end) is Ok
    &&& end < s.len() ==> !CharClass::Digit.contains(s[end])
}

/// What the production of precedence `level` yields at `p`.
pub open spec fn production(level: nat, s: Seq<char>, p: int) -> Parsed {
    if level == 0 {
        expr_at(s, p)
    } else if level == 1 {
        term_at(s, p)
    } else {
        factor_at(s, p)
    }
}

/// What the production of precedence `level` yields once it has read the
/// operand `e` up to `end`: it goes on with the operators of its own
/// precedence, if any follow.
pub open spec fn continued(level: nat, s: Seq<char>, e: SpecNode, end: int) -> Parsed {
    if level == 0 {
        expr_tail(s, e, end)
    } else if level == 1 {
        term_tail(s, e, end)
    } else {
        Ok((e, end))
    }
}

/// Where a text stands, so do its two halves.
pub proof fn lemma_reads_both(s: Seq<char>, p: int, first: Seq<char>, second: Seq<char>)
    requires
        reads(s, p, first + second),
    ensures
        reads(s, p, first),
        reads(s, p + first.len(), second),
{
    let whole = first + second;
    assert(s.subrange(p, p + first.len()) =~= whole.subrange(0, first.len() as int));
    assert(whole.subrange(0, first.len() as int) =~= first);
    assert(s.subrange(p + first.len(), p + first.len() + second.len()) =~= whole.subrange(
        first.len() as int,
        whole.len() as int,
    ));
    assert(whole.subrange(first.len() as int, whole.len() as int) =~= second);
}

/// A character that is a token by itself is read as that token, and the
/// step ends behind it.
pub proof fn lemma_reads_symbol(s: Seq<char>, p: int)
    requires
        0 <= p < s.len(),
        symbol(s[p]) is Some,
    ensures
        token_at(s, p) == Ok::<SpecToken, LexError>(symbol(s[p])->0),
        token_end(s, p) == p + 1,
{
    assert(run_end(s, p, CharClass::Space) == p);
}

/// The digits of a number that fits in 64 bits, with no digit behind them,
/// are read as that number, and the step ends behind them.
pub proof fn lemma_reads_number(s: Seq<char>, p: int, n: nat)
    requires
        reads(s, p, decimal_digits(n)),
        n <= u64::MAX,
        p + decimal_digits(n).len() < s.len() ==> !CharClass::Digit.contains(
            s[p + decimal_digits(n).len()],
        ),
    ensures
        token_at(s, p) == Ok::<SpecToken, LexError>(SpecToken::Integer(n as u64)),
        token_end(s, p) == p + decimal_digits(n).len(),
{
    let digits = decimal_digits(n);
    let end = p + digits.len();
    lemma_decimal_digits(n);
    assert forall|k: int| p <= k < end implies CharClass::Digit.contains(#[trigger] s[k]) by {
        assert(s[k] == s.subrange(p, end)[k - p]);
        assert(CharClass::Digit.contains(digits[k - p]));
    }
    assert(CharClass::Digit.contains(s[p]));
    lemma_run_end_unique(s, p, end, CharClass::Digit);
    assert(run_end(s, p, CharClass::Space) == p);
    assert(symbol(s[p]) is None);
}

/// A number that stands alone as a factor is read as itself.
pub proof fn lemma_reads_literal(value: i64, s: Seq<char>, p: int)
    requires
        value >= 0,
        reads(s, p, decimal_digits(value as nat)),
        delimited(s, p + decimal_digits(value as nat).len()),
    ensures
        factor_at(s, p) == Ok::<(SpecNode, int), ParseError>(
            (SpecNode::Num(value), p + decimal_digits(value as nat).len()),
        ),
{
    lemma_reads_number(s, p, value as nat);
    assert(to_signed(value as u64) == value);
}

/// A sign before a factor that is read as `operand` is read as the unary
/// operation on `operand`.
pub proof fn lemma_reads_sign(op: SpecToken, operand: SpecNode, s: Seq<char>, p: int, end: int)
    requires
        op.is_unary_operator(),
        0 <= p < s.len(),
        s[p] == op.operator_char(),
        factor_at(s, p + 1) == Ok::<(SpecNode, int), ParseError>((operand, end)),
    ensures
        factor_at(s, p) == Ok::<(SpecNode, int), ParseError>(
            (SpecNode::UnaryOp { op, expr: Box::new(operand) }, end),
        ),
{
    lemma_reads_symbol(s, p);
    assert(token_at(s, p + 1) is Ok);
    assert(advance(s, p) == Ok::<int, ParseError>(p + 1));
}

/// An expression in parentheses is read as a factor that is that
/// expression.
pub proof fn lemma_reads_parentheses(inner: SpecNode, s: Seq<char>, p: int, close: int)
    requires
        0 <= p < close < s.len(),
        s[p] == '(',
        s[close] == ')',
        expr_at(s, p + 1) == Ok::<(SpecNode, int), ParseError>((inner, close)),
        token_at(s, close + 1) is Ok,
    ensures
        factor_at(s, p) == Ok::<(SpecNode, int), ParseError>((inner, close + 1)),
{
    lemma_reads_symbol(s, p);
    lemma_reads_symbol(s, close);
    assert(token_at(s, p + 1) is Ok) by {
        if token_at(s, p + 1) is Err {
            assert(factor_at(s, p + 1) is Err);
            assert(term_at(s, p + 1) is Err);
        }
    }
    assert(advance(s, p) == Ok::<int, ParseError>(p + 1));
    assert(advance(s, close) == Ok::<int, ParseError>(close + 1));
    assert(consume(s, close, TokenKind::RParen) == Ok::<(SpecToken, int), ParseError>(
        (SpecToken::RParen, close + 1),
    ));
}

/// Behind the operand `left`, `*` or `/` and a factor that is read as
/// `right` take the term on to the operation on both.
pub proof fn lemma_reads_factor_operator(
    left: SpecNode,
    op: SpecToken,
    right: SpecNode,
    s: Seq<char>,
    at: int,
    end: int,
)
    requires
        op is Mul || op is Div,
        0 <= at < s.len(),
        s[at] == op.operator_char(),
        factor_at(s, at + 1) == Ok::<(SpecNode, int), ParseError>((right, end)),
        at + 1 <= end <= s.len(),
    ensures
        term_tail(s, left, at) == term_tail(
            s,
            SpecNode::BinOp { left: Box::new(left), op, right: Box::new(right) },
            end,
        ),
{
    lemma_reads_symbol(s, at);
    assert(token_at(s, at + 1) is Ok);
    assert(advance(s, at) == Ok::<int, ParseError>(at + 1));
}

/// Behind the operand `left`, `+` or `-` and a term that is read as `right`
/// take the expression on to the operation on both.
pub proof fn lemma_reads_term_operator(
    left: SpecNode,
    op: SpecToken,
    right: SpecNode,
    s: Seq<char>,
    at: int,
    end: int,
)
    requires
        op is Add || op is Sub,
        0 <= at < s.len(),
        s[at] == op.operator_char(),
        term_at(s, at + 1) == Ok::<(SpecNode, int), ParseError>((right, end)),
        at + 1 <= end <= s.len(),
    ensures
        expr_tail(s, left, at) == expr_tail(
            s,
            SpecNode::BinOp { left: Box::new(left), op, right: Box::new(right) },
            end,
        ),
{
    lemma_reads_symbol(s, at);
    assert(token_at(s, at + 1) is Ok) by {
        if token_at(s, at + 1) is Err {
            assert(factor_at(s, at + 1) is Err);
        }
    }
    assert(advance(s, at) == Ok::<int, ParseError>(at + 1));
}

/// Where no `*` or `/` follows, the term ends.
pub proof fn lemma_term_ends(s: Seq<char>, e: SpecNode, end: int)
    requires
        !(token_at(s, end) matches Ok(token) && (token is Mul || token is Div)),
    ensures
        term_tail(s, e, end) == Ok::<(SpecNode, int), ParseError>((e, end)),
{
}

/// Where no `+` or `-` follows, the expression ends.
pub proof fn lemma_expr_ends(s: Seq<char>, e: SpecNode, end: int)
    requires
        !(token_at(s, end) matches Ok(token) && (token is Add || token is Sub)),
    ensures
        expr_tail(s, e, end) == Ok::<(SpecNode, int), ParseError>((e, end)),
{
}

/// The text of a binary operation, cut at its operator.
pub proof fn lemma_reads_operation(e: SpecNode, s: Seq<char>, p: int)
    requires
        e is BinOp,
        reads(s, p, written(e, precedence(e))),
    ensures
        ({
            let first = written(*e->BinOp_left, precedence(e));
            let second = written(*e->BinOp_right, precedence(e) + 1);
            &&& written(e, precedence(e)).len() == first.len() + 1 + second.len()
            &&& reads(s, p, first)
            &&& s[p + first.len()] == e->BinOp_op.operator_char()
            &&& reads(s, p + first.len() + 1, second)
        }),
{
    let first = written(*e->BinOp_left, precedence(e));
    let sign = seq![e->BinOp_op.operator_char()];
    let second = written(*e->BinOp_right, precedence(e) + 1);
    assert(written(e, precedence(e)) =~= first + (sign + second));
    lemma_reads_both(s, p, first, sign + second);
    let at = p + first.len();
    lemma_reads_both(s, at, sign, second);
    assert(s[at] == s.subrange(at, at + 1)[0]);
}

/// The text of a binary operation in parentheses, cut at the parentheses.
pub proof fn lemma_reads_enclosed(e: SpecNode, level: nat, s: Seq<char>, p: int)
    requires
        e is BinOp,
        precedence(e) < level,
        reads(s, p, written(e, level)),
    ensures
        written(e, level).len() == written(e, 0).len() + 2,
        s[p] == '(',
        reads(s, p + 1, written(e, 0)),
        s[p + 1 + written(e, 0).len()] == ')',
{
    let body = written(e, 0);
    let text = written(e, level);
    assert(text =~= seq!['('] + (body + seq![')']));
    lemma_reads_both(s, p, seq!['('], body + seq![')']);
    lemma_reads_both(s, p + 1, body, seq![')']);
    assert(s[p] == s.subrange(p, p + 1)[0]);
    let close = p + 1 + body.len();
    assert(s[close] == s.subrange(close, close + 1)[0]);
}

/// The text of a sign and its operand, cut behind the sign.
pub proof fn lemma_reads_signed(e: SpecNode, level: nat, s: Seq<char>, p: int)
    requires
        e is UnaryOp,
        reads(s, p, written(e, level)),
    ensures
        written(e, level).len() == 1 + written(*e->expr, 2).len(),
        s[p] == e->UnaryOp_op.operator_char(),
        reads(s, p + 1, written(*e->expr, 2)),
{
    let sign = seq![e->UnaryOp_op.operator_char()];
    lemma_reads_both(s, p, sign, written(*e->expr, 2));
    assert(s[p] == s.subrange(p, p + 1)[0]);
}

/// How far the production of precedence `level` is from reading into the
/// tree.
pub open spec fn detour(level: nat, e: SpecNode) -> nat {
    ((precedence(e) + 3 - level) % 3) as nat
}

/// Where the text of a writable tree stands as an operand of precedence
/// `level`, the production of that precedence reads the tree, and goes on
/// behind it. For an expression, what follows must not be `*` or `/`, which
/// would bind its last term.
pub proof fn lemma_reads_written(e: SpecNode, level: nat, s: Seq<char>, p: int)
    requires
        writable(e),
        level <= 2,
        reads(s, p, written(e, level)),
        delimited(s, p + written(e, level).len()),
        level == 0 ==> !(token_at(s, p + written(e, level).len()) matches Ok(token) && (token
            is Mul || token is Div)),
    ensures
        production(level, s, p) == continued(level, s, e, p + written(e, level).len()),
        written(e, level).len() > 0,
    decreases e, 2 * detour(level, e) + 1,
{
    let end = p + written(e, level).len();
    if level > precedence(e) || level == 2 {
        // a factor, in parentheses if it is a binary operation
        lemma_reads_as_factor(e, level, s, p);
        if level == 0 {
            lemma_term_ends(s, e, end);
        }
    } else if level < precedence(e) {
        // what binds more tightly than this level asks is read one level up
        assert(written(e, level) == written(e, level + 1));
        lemma_reads_written(e, level + 1, s, p);
        if level == 0 && precedence(e) == 1 {
            lemma_term_ends(s, e, end);
        }
    } else {
        // a binary operation of this level: left operand, operator, right
        // operand
        lemma_reads_operation(e, s, p);
        let at = p + written(*e->BinOp_left, level).len();
        lemma_reads_symbol(s, at);
        lemma_reads_written(*e->BinOp_left, level, s, p);
        lemma_reads_written(*e->BinOp_right, level + 1, s, at + 1);
        if level == 0 {
            lemma_term_ends(s, *e->BinOp_right, end);
            lemma_reads_term_operator(*e->BinOp_left, e->BinOp_op, *e->BinOp_right, s, at, end);
        } else {
            lemma_reads_factor_operator(*e->BinOp_left, e->BinOp_op, *e->BinOp_right, s, at, end);
        }
    }
}

/// [`lemma_reads_written`], of a tree that is written as a factor: a number,
/// a sign and its operand, or a binary operation in parentheses.
pub proof fn lemma_reads_as_factor(e: SpecNode, level: nat, s: Seq<char>, p: int)
    requires
        writable(e),
        level <= 2,
        level > precedence(e) || level == 2,
        reads(s, p, written(e, level)),
        delimited(s, p + written(e, level).len()),
    ensures
        factor_at(s, p) == Ok::<(SpecNode, int), ParseError>((e, p + written(e, level).len())),
        level < 2 ==> term_at(s, p) == term_tail(s, e, p + written(e, level).len()),
        written(e, level).len() > 0,
    decreases e, 2 * detour(2, e),
{
    let end = p + written(e, level).len();
    match e {
        SpecNode::Num(value) => {
            lemma_decimal_digits(value as nat);
            lemma_reads_literal(value, s, p);
        },
        SpecNode::UnaryOp { op, expr } => {
            lemma_reads_signed(e, level, s, p);
            lemma_reads_written(*expr, 2, s, p + 1);
            lemma_reads_sign(op, *expr, s, p, end);
        },
        SpecNode::BinOp { left, op, right } => {
            lemma_reads_enclosed(e, level, s, p);
            let close = end - 1;
            lemma_reads_symbol(s, close);
            lemma_reads_written(e, 0, s, p + 1);
            lemma_expr_ends(s, e, close);
            lemma_reads_parentheses(e, s, p, close);
        },
        _ => {},
    }
}

/// The text of a writable expression, alone, is read back as the expression
/// itself, to the end of the text: `*` and `/` bind more tightly than `+`
/// and `-`, operators of one precedence associate to the left, and
/// parentheses override both.
pub proof fn lemma_written_expression_reads_back(e: SpecNode)
    requires
        writable(e),
    ensures
        expr_at(written(e, 0), 0) == Ok::<(SpecNode, int), ParseError>(
            (e, written(e, 0).len() as int),
        ),
        token_at(written(e, 0), written(e, 0).len() as int) == Ok::<SpecToken, LexError>(
            SpecToken::EOF,
        ),
{
    let s = written(e, 0);
    let end = s.len() as int;
    assert(s.subrange(0, end) =~= s);
    assert(run_end(s, end, CharClass::Space) == end);
    lemma_reads_written(e, 0, s, 0);
}

/// A writable tree is an arithmetic expression.
pub proof fn lemma_writable_is_arithmetic(e: SpecNode)
    requires
        writable(e),
    ensures
        e.is_arithmetic(),
    decreases e,
{
    match e {
        SpecNode::BinOp { left, op, right } => {
            lemma_writable_is_arithmetic(*left);
            lemma_writable_is_arithmetic(*right);
        },
        SpecNode::UnaryOp { op, expr } => {
            lemma_writable_is_arithmetic(*expr);
        },
        _ => {},
    }
}

/// Parsing the text of a writable expression and evaluating the tree gives
/// the number that the expression denotes in ordinary arithmetic, with `/`
/// rounding towards zero, unless the evaluation ends with an
/// `ArithmeticError`: a division by zero, or a result that does not fit in
/// 64 bits.
pub proof fn lemma_written_expression_evaluates(e: SpecNode, env: Map<Seq<char>, i64>)
    requires
        writable(e),
    ensures
        expr_at(written(e, 0), 0) matches Ok((tree, _)) && match eval(tree, env).value {
            Ok(value) => value == Some(exact_value(e) as i64) && i64::MIN <= exact_value(e)
                <= i64::MAX,
            Err(error) => error is ArithmeticError,
        },
{
    lemma_written_expression_reads_back(e);
    lemma_writable_is_arithmetic(e);
    lemma_arithmetic_outcome(e, env);
    lemma_arithmetic_value(e, env);
}

/// What [`evaluate`](super::evaluate) returns for the text of a writable
/// expression: the number that the expression denotes in ordinary
/// arithmetic, with `/` rounding towards zero; or an `ArithmeticError`, and
/// that whenever a divisor comes to zero.
pub proof fn lemma_evaluation_of_written_expression(e: SpecNode)
    requires
        writable(e),
    ensures
        match evaluation(written(e, 0)) {
            Ok(value) => value == Some(exact_value(e) as i64) && i64::MIN <= exact_value(e)
                <= i64::MAX,
            Err(error) => error matches SpecError::Eval(fault) && fault is ArithmeticError,
        },
        divides_by_zero(e, Map::empty()) ==> evaluation(written(e, 0)) is Err,
{
    let s = written(e, 0);
    lemma_written_expression_reads_back(e);
    lemma_written_expression_evaluates(e, Map::empty());
    assert(token_at(s, 0) is Ok) by {
        if token_at(s, 0) is Err {
            assert(factor_at(s, 0) is Err);
            assert(term_at(s, 0) is Err);
        }
    }
    if divides_by_zero(e, Map::empty()) {
        lemma_written_expression_reads_back(e);
        lemma_writable_is_arithmetic(e);
        lemma_division_by_zero_fails(e, Map::<Seq<char>, i64>::empty());
        assert(evaluation(s) == value_of(ended(s, expr_at(s, 0))));
    }
}

} // verus!
