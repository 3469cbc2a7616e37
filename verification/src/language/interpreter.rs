//! Walks over the syntax tree. The evaluator computes with 64-bit integers
//! and keeps the values of variables in an [`Environment`]; what a tree
//! evaluates to is given by [`eval`], a function of the tree and of the
//! environment before. Two more walks write an expression down, in postfix
//! ([`postfix`]) and in prefix notation ([`lisp`]); they handle binary
//! operations over numbers and nothing else.

use super::syn::{ASTNode, SpecNode, SpecToken, Token};
use crate::arithmetic::{checked, truncated_quotient, Fault};
use crate::text::{decimal, push_char, push_decimal};
use vstd::prelude::*;
use vstd::string::StringExecFns;

verus! {

/// Why a tree has no value.
#[derive(Debug, PartialEq, Eq)]
pub enum EvalError {
    /// An operation on integers failed.
    ArithmeticError(Fault),
    /// A variable was read before anything was assigned to it.
    UnboundVariableError(String),
    /// A node that the walk does not handle. For the evaluator: an operator
    /// that is none at its place, a target of an assignment that is no
    /// variable, or an operand that yields no value. For the notations:
    /// anything but a binary operation or a number.
    UnsupportedNodeError,
}

/// What an [`EvalError`] stands for in contracts.
pub enum SpecEvalError {
    ArithmeticError(Fault),
    UnboundVariableError(Seq<char>),
    UnsupportedNodeError,
}

impl View for EvalError {
    type V = SpecEvalError;

    open spec fn view(&self) -> SpecEvalError {
        match self {
            EvalError::ArithmeticError(fault) => SpecEvalError::ArithmeticError(*fault),
            EvalError::UnboundVariableError(name) => SpecEvalError::UnboundVariableError(name@),
            EvalError::UnsupportedNodeError => SpecEvalError::UnsupportedNodeError,
        }
    }
}

impl Clone for EvalError {
    fn clone(&self) -> (copy: EvalError)
        ensures
            copy@ == self@,
    {
        match self {
            EvalError::ArithmeticError(fault) => EvalError::ArithmeticError(*fault),
            EvalError::UnboundVariableError(name) => EvalError::UnboundVariableError(name.clone()),
            EvalError::UnsupportedNodeError => EvalError::UnsupportedNodeError,
        }
    }
}

/// The values of the variables: a map from names to the integers last
/// assigned to them.
pub struct Environment {
    bindings: Vec<(String, i64)>,
}

/// The value of the first binding of `name` at or behind index `from`.
spec fn lookup(bindings: Seq<(String, i64)>, from: int, name: Seq<char>) -> Option<i64>
    decreases bindings.len() - from,
{
    if from < 0 || from >= bindings.len() {
        None
    } else if bindings[from].0@ == name {
        Some(bindings[from].1)
    } else {
        lookup(bindings, from + 1, name)
    }
}

/// Two lists of bindings that agree from `from` on bind the same there.
proof fn lemma_lookup_same(
    before: Seq<(String, i64)>,
    after: Seq<(String, i64)>,
    from: int,
    name: Seq<char>,
)
    requires
        0 <= from,
        before.len() == after.len(),
        forall|k: int| from <= k < before.len() ==> before[k] == after[k],
    ensures
        lookup(after, from, name) == lookup(before, from, name),
    decreases before.len() - from,
{
    if from < before.len() {
        lemma_lookup_same(before, after, from + 1, name);
    }
}

/// Replacing the value of the first binding of `key` binds `key` to the new
/// value and leaves every other name as it was.
proof fn lemma_lookup_rebound(
    before: Seq<(String, i64)>,
    after: Seq<(String, i64)>,
    at: int,
    key: Seq<char>,
    value: i64,
    from: int,
    name: Seq<char>,
)
    requires
        0 <= from <= at < before.len(),
        before.len() == after.len(),
        forall|k: int| 0 <= k < before.len() && k != at ==> before[k] == after[k],
        forall|k: int| 0 <= k < at ==> before[k].0@ != key,
        before[at].0@ == key,
        after[at].0@ == key,
        after[at].1 == value,
    ensures
        lookup(after, from, name) == if name == key {
            Some(value)
        } else {
            lookup(before, from, name)
        },
    decreases at - from,
{
    if from < at {
        lemma_lookup_rebound(before, after, at, key, value, from + 1, name);
    } else {
        lemma_lookup_same(before, after, at + 1, name);
    }
}

/// Appending a binding of a name that is not bound binds that name and
/// leaves every other name as it was.
proof fn lemma_lookup_extended(
    before: Seq<(String, i64)>,
    after: Seq<(String, i64)>,
    key: Seq<char>,
    value: i64,
    from: int,
    name: Seq<char>,
)
    requires
        0 <= from <= before.len(),
        after.len() == before.len() + 1,
        forall|k: int| 0 <= k < before.len() ==> before[k] == after[k],
        forall|k: int| 0 <= k < before.len() ==> before[k].0@ != key,
        after[before.len() as int].0@ == key,
        after[before.len() as int].1 == value,
    ensures
        lookup(after, from, name) == if name == key {
            Some(value)
        } else {
            lookup(before, from, name)
        },
    decreases before.len() - from,
{
    if from < before.len() {
        lemma_lookup_extended(before, after, key, value, from + 1, name);
    } else {
        assert(lookup(after, from + 1, name) is None);
    }
}

impl View for Environment {
    type V = Map<Seq<char>, i64>;

    closed spec fn view(&self) -> Map<Seq<char>, i64> {
        Map::new(
            |name: Seq<char>| lookup(self.bindings@, 0, name) is Some,
            |name: Seq<char>| lookup(self.bindings@, 0, name)->0,
        )
    }
}

impl Environment {
    /// An environment in which no variable is bound.
    pub fn new() -> (env: Environment)
        ensures
            env@ == Map::<Seq<char>, i64>::empty(),
    {
        let env = Environment { bindings: Vec::new() };
        assert(env@ =~= Map::<Seq<char>, i64>::empty());
        env
    }

    /// The value bound to `name`, if any.
    pub fn get(&self, name: &String) -> (value: Option<i64>)
        ensures
            value == if self@.contains_key(name@) {
                Some(self@[name@])
            } else {
                None
            },
    {
        let mut i: usize = 0;
        while i < self.bindings.len()
            invariant
                i <= self.bindings.len(),
                lookup(self.bindings@, 0, name@) == lookup(self.bindings@, i as int, name@),
            decreases self.bindings.len() - i,
        {
            if self.bindings[i].0 == *name {
                return Some(self.bindings[i].1);
            }
            i += 1;
        }
        None
    }

    /// Binds `name` to `value`, in place of what it was bound to.
    pub fn set(&mut self, name: String, value: i64)
        ensures
            final(self)@ == old(self)@.insert(name@, value),
    {
        let ghost before = self.bindings@;
        let ghost key = name@;
        let mut i: usize = 0;
        while i < self.bindings.len()
            invariant
                self.bindings@ == before,
                before == old(self).bindings@,
                key == name@,
                i <= self.bindings.len(),
                forall|k: int| 0 <= k < i ==> before[k].0@ != key,
            decreases self.bindings.len() - i,
        {
            if self.bindings[i].0 == name {
                self.bindings.set(i, (name, value));
                proof {
                    let after = self.bindings@;
                    assert forall|n: Seq<char>|
                        lookup(after, 0, n) == if n == key {
                            Some(value)
                        } else {
                            lookup(before, 0, n)
                        } by {
                        lemma_lookup_rebound(before, after, i as int, key, value, 0, n);
                    }
                    assert(self@ =~= old(self)@.insert(key, value));
                }
                return ;
            }
            i += 1;
        }
        self.bindings.push((name, value));
        proof {
            let after = self.bindings@;
            assert forall|n: Seq<char>|
                lookup(after, 0, n) == if n == key {
                    Some(value)
                } else {
                    lookup(before, 0, n)
                } by {
                lemma_lookup_extended(before, after, key, value, 0, n);
            }
            assert(self@ =~= old(self)@.insert(key, value));
        }
    }
}

/// What the binary operator `op` makes of `a` and `b`: the sum, difference
/// or product, or the quotient rounded towards zero.
pub open spec fn binary(op: SpecToken, a: i64, b: i64) -> Result<i64, Fault>
    recommends
        op.is_binary_operator(),
{
    match op {
        SpecToken::Add => checked(a + b),
        SpecToken::Sub => checked(a - b),
        SpecToken::Mul => checked(a * b),
        _ => if b == 0 {
            Err(Fault::DivisionByZero)
        } else {
            checked(truncated_quotient(a as int, b as int))
        },
    }
}

/// What the unary operator `op` makes of `a`: `a` itself, or its negation.
pub open spec fn unary(op: SpecToken, a: i64) -> Result<i64, Fault>
    recommends
        op.is_unary_operator(),
{
    match op {
        SpecToken::Add => Ok(a),
        _ => checked(-a),
    }
}

/// What evaluating a tree comes to: its value, if it has one, or the error
/// that ended the walk; and the environment at that point.
pub struct Outcome {
    pub value: Result<Option<i64>, SpecEvalError>,
    pub env: Map<Seq<char>, i64>,
}

/// The outcome of an arithmetic operation in the environment `env`.
pub open spec fn computed(result: Result<i64, Fault>, env: Map<Seq<char>, i64>) -> Outcome {
    match result {
        Ok(value) => Outcome { value: Ok(Some(value)), env },
        Err(fault) => Outcome { value: Err(SpecEvalError::ArithmeticError(fault)), env },
    }
}

/// The outcome of meeting a node that the walk does not handle.
pub open spec fn unsupported(env: Map<Seq<char>, i64>) -> Outcome {
    Outcome { value: Err(SpecEvalError::UnsupportedNodeError), env }
}

/// Evaluates `node` in the environment `env`.
///
/// - A number is its own value; the empty statement has none.
/// - A variable has the value bound to its name; if none is, the walk ends
///   with `UnboundVariableError`.
/// - An operator node evaluates its operands from left to right and applies
///   the operator, in 64 bits; division by zero and overflow end the walk
///   with `ArithmeticError`.
/// - An assignment evaluates its right side, binds the name to the value,
///   and has that value.
/// - A block evaluates its statements in order and has the value of the
///   last one.
///
/// The first error ends the walk: nothing behind it is evaluated.
pub open spec fn eval(node: SpecNode, env: Map<Seq<char>, i64>) -> Outcome
    decreases node, 0int,
{
    match node {
        SpecNode::Num(value) => Outcome { value: Ok(Some(value)), env },
        SpecNode::NoOp => Outcome { value: Ok(None), env },
        SpecNode::Var { token } => match token {
            SpecToken::Id(name) => if env.contains_key(name) {
                Outcome { value: Ok(Some(env[name])), env }
            } else {
                Outcome { value: Err(SpecEvalError::UnboundVariableError(name)), env }
            },
            _ => unsupported(env),
        },
        SpecNode::UnaryOp { op, expr } => if !op.is_unary_operator() {
            unsupported(env)
        } else {
            let operand = eval(*expr, env);
            match operand.value {
                Err(_) => operand,
                Ok(None) => unsupported(operand.env),
                Ok(Some(a)) => computed(unary(op, a), operand.env),
            }
        },
        SpecNode::BinOp { left, op, right } => if !op.is_binary_operator() {
            unsupported(env)
        } else {
            let first = eval(*left, env);
            match first.value {
                Err(_) => first,
                Ok(None) => unsupported(first.env),
                Ok(Some(a)) => {
                    let second = eval(*right, first.env);
                    match second.value {
                        Err(_) => second,
                        Ok(None) => unsupported(second.env),
                        Ok(Some(b)) => computed(binary(op, a, b), second.env),
                    }
                },
            }
        },
        SpecNode::Assign { left, right } => match *left {
            SpecNode::Var { token: SpecToken::Id(name) } => {
                let assigned = eval(*right, env);
                match assigned.value {
                    Err(_) => assigned,
                    Ok(None) => unsupported(assigned.env),
                    Ok(Some(value)) => Outcome {
                        value: Ok(Some(value)),
                        env: assigned.env.insert(name, value),
                    },
                }
            },
            _ => unsupported(env),
        },
        SpecNode::Compound { children } => eval_sequence(children, 0, env),
    }
}

/// Evaluates the statements from index `from` on, in order. The outcome is
/// that of the last statement, or of the first that fails; of no statement
/// at all it is no value.
pub open spec fn eval_sequence(statements: Seq<SpecNode>, from: int, env: Map<Seq<char>, i64>)
    -> Outcome
    decreases statements, statements.len() - from,
{
    if from < 0 || from >= statements.len() {
        Outcome { value: Ok(None), env }
    } else {
        let first = eval(statements[from], env);
        if first.value is Err || from + 1 == statements.len() {
            first
        } else {
            eval_sequence(statements, from + 1, first.env)
        }
    }
}

/// What the result of a walk stands for.
pub open spec fn evaluated(result: Result<Option<i64>, EvalError>) -> Result<
    Option<i64>,
    SpecEvalError,
> {
    match result {
        Ok(value) => Ok(value),
        Err(error) => Err(error@),
    }
}

/// Evaluates `node` in a fresh environment, which is dropped afterwards.
pub fn visit(node: &ASTNode) -> (result: Result<Option<i64>, EvalError>)
    ensures
        evaluated(result) == eval(node@, Map::empty()).value,
{
    let mut env = Environment::new();
    visit_in(node, &mut env)
}

/// Evaluates `node` in the environment `env`, which keeps what the
/// assignments in `node` bind, up to the end of the walk or to its first
/// error.
pub fn visit_in(node: &ASTNode, env: &mut Environment) -> (result: Result<Option<i64>, EvalError>)
    ensures
        evaluated(result) == eval(node@, old(env)@).value,
        final(env)@ == eval(node@, old(env)@).env,
    decreases node, 1int,
{
    // Generic visit function that maps operations to their functions
    match node {
        ASTNode::BinOp { left: _, op: _, right: _ } => visit_binop(node, env),
        ASTNode::UnaryOp { op: _, expr: _ } => visit_unaryop(node, env),
        ASTNode::Compound { children: _ } => visit_compound(node, env),
        ASTNode::Assign { left: _, right: _ } => visit_assign(node, env),
        ASTNode::Var { token } => match token {
            Token::Id(name) => match env.get(name) {
                Some(value) => Ok(Some(value)),
                None => Err(EvalError::UnboundVariableError(name.clone())),
            },
            _ => Err(EvalError::UnsupportedNodeError),
        },
        ASTNode::Num(i) => Ok(Some(*i)),
        ASTNode::NoOp => Ok(None),
    }
}

fn visit_binop(node: &ASTNode, env: &mut Environment) -> (result: Result<Option<i64>, EvalError>)
    requires
        node is BinOp,
    ensures
        evaluated(result) == eval(node@, old(env)@).value,
        final(env)@ == eval(node@, old(env)@).env,
    decreases node, 0int,
{
    if let ASTNode::BinOp { left, op, right } = node {
        match op {
            Token::Add | Token::Sub | Token::Mul | Token::Div => {},
            _ => {
                return Err(EvalError::UnsupportedNodeError);
            },
        }
        let a = match visit_in(left, env) {
            Ok(Some(a)) => a,
            Ok(None) => {
                return Err(EvalError::UnsupportedNodeError);
            },
            Err(error) => {
                return Err(error);
            },
        };
        let b = match visit_in(right, env) {
            Ok(Some(b)) => b,
            Ok(None) => {
                return Err(EvalError::UnsupportedNodeError);
            },
            Err(error) => {
                return Err(error);
            },
        };
        let computed = match op {
            Token::Add => a.checked_add(b),
            Token::Sub => a.checked_sub(b),
            Token::Mul => a.checked_mul(b),
            _ => {
                if b == 0 {
                    return Err(EvalError::ArithmeticError(Fault::DivisionByZero));
                }
                a.checked_div(b)
            },
        };
        return match computed {
            Some(value) => Ok(Some(value)),
            None => Err(EvalError::ArithmeticError(Fault::Overflow)),
        };
    }
    Err(EvalError::UnsupportedNodeError)
}

fn visit_unaryop(node: &ASTNode, env: &mut Environment) -> (result: Result<Option<i64>, EvalError>)
    requires
        node is UnaryOp,
    ensures
        evaluated(result) == eval(node@, old(env)@).value,
        final(env)@ == eval(node@, old(env)@).env,
    decreases node, 0int,
{
    if let ASTNode::UnaryOp { op, expr } = node {
        match op {
            Token::Add | Token::Sub => {},
            _ => {
                return Err(EvalError::UnsupportedNodeError);
            },
        }
        let a = match visit_in(expr, env) {
            Ok(Some(a)) => a,
            Ok(None) => {
                return Err(EvalError::UnsupportedNodeError);
            },
            Err(error) => {
                return Err(error);
            },
        };
        return match op {
            Token::Add => Ok(Some(a)),
            _ => match 0i64.checked_sub(a) {
                Some(value) => Ok(Some(value)),
                None => Err(EvalError::ArithmeticError(Fault::Overflow)),
            },
        };
    }
    Err(EvalError::UnsupportedNodeError)
}

fn visit_assign(node: &ASTNode, env: &mut Environment) -> (result: Result<Option<i64>, EvalError>)
    requires
        node is Assign,
    ensures
        evaluated(result) == eval(node@, old(env)@).value,
        final(env)@ == eval(node@, old(env)@).env,
    decreases node, 0int,
{
    proof {
        reveal_with_fuel(ASTNode::model, 2);
    }
    if let ASTNode::Assign { left, right } = node {
        if let ASTNode::Var { token: Token::Id(name) } = &**left {
            return match visit_in(right, env) {
                Ok(Some(value)) => {
                    env.set(name.clone(), value);
                    Ok(Some(value))
                },
                Ok(None) => Err(EvalError::UnsupportedNodeError),
                Err(error) => Err(error),
            };
        }
    }
    Err(EvalError::UnsupportedNodeError)
}

fn visit_compound(node: &ASTNode, env: &mut Environment) -> (result: Result<
    Option<i64>,
    EvalError,
>)
    requires
        node is Compound,
    ensures
        evaluated(result) == eval(node@, old(env)@).value,
        final(env)@ == eval(node@, old(env)@).env,
    decreases node, 0int,
{
    let mut last: Option<i64> = None;
    if let ASTNode::Compound { children } = node {
        let ghost statements = node@->children;
        let ghost whole = eval(node@, env@);
        let mut i: usize = 0;
        while i < children.len()
            invariant
                *node is Compound,
                node->children == *children,
                statements == node@->children,
                statements.len() == children.len(),
                whole == eval(node@, old(env)@),
                i <= children.len(),
                i < children.len() ==> whole == eval_sequence(statements, i as int, env@),
                i == children.len() ==> whole == (Outcome { value: Ok(last), env: env@ }),
            decreases children.len() - i,
        {
            assert(statements[i as int] == children@[i as int]@);
            match visit_in(&children[i], env) {
                Ok(value) => {
                    last = value;
                },
                Err(error) => {
                    return Err(error);
                },
            }
            i += 1;
        }
    }
    Ok(last)
}

/// A tree in postfix notation: the operands of a binary node, then its
/// operator, with a blank between each two; a number in base ten. Nothing
/// else can be written so.
pub open spec fn postfix(node: SpecNode) -> Result<Seq<char>, SpecEvalError>
    decreases node,
{
    match node {
        SpecNode::BinOp { left, op, right } => if !op.is_binary_operator() {
            Err(SpecEvalError::UnsupportedNodeError)
        } else {
            match postfix(*left) {
                Err(error) => Err(error),
                Ok(first) => match postfix(*right) {
                    Err(error) => Err(error),
                    Ok(second) => Ok(first + seq![' '] + second + seq![' ', op.operator_char()]),
                },
            }
        },
        SpecNode::Num(value) => Ok(decimal(value as int)),
        _ => Err(SpecEvalError::UnsupportedNodeError),
    }
}

/// A tree in prefix notation, as Lisp writes it: a binary node is its
/// operator and its operands, with a blank between each two, in
/// parentheses; a number in base ten. Nothing else can be written so.
pub open spec fn lisp(node: SpecNode) -> Result<Seq<char>, SpecEvalError>
    decreases node,
{
    match node {
        SpecNode::BinOp { left, op, right } => if !op.is_binary_operator() {
            Err(SpecEvalError::UnsupportedNodeError)
        } else {
            match lisp(*left) {
                Err(error) => Err(error),
                Ok(first) => match lisp(*right) {
                    Err(error) => Err(error),
                    Ok(second) => Ok(
                        seq!['(', op.operator_char(), ' '] + first + seq![' '] + second + seq![')'],
                    ),
                },
            }
        },
        SpecNode::Num(value) => Ok(decimal(value as int)),
        _ => Err(SpecEvalError::UnsupportedNodeError),
    }
}

/// The trees that the notations handle: binary operations over numbers.
pub open spec fn notable(node: SpecNode) -> bool
    decreases node,
{
    match node {
        SpecNode::BinOp { left, op, right } => {
            &&& op.is_binary_operator()
            &&& notable(*left)
            &&& notable(*right)
        },
        SpecNode::Num(_) => true,
        _ => false,
    }
}

/// Both notations write down exactly the trees that are [`notable`]; of any
/// other, such as one that holds a sign, a variable or a statement, they
/// say `UnsupportedNodeError`, and nothing else.
pub proof fn lemma_notations_support(node: SpecNode)
    ensures
        postfix(node) is Ok <==> notable(node),
        lisp(node) is Ok <==> notable(node),
        postfix(node) matches Err(error) ==> error is UnsupportedNodeError,
        lisp(node) matches Err(error) ==> error is UnsupportedNodeError,
    decreases node,
{
    match node {
        SpecNode::BinOp { left, op, right } => {
            lemma_notations_support(*left);
            lemma_notations_support(*right);
        },
        _ => {},
    }
}

/// What the result of a notation stands for.
pub open spec fn text_of(result: Result<String, EvalError>) -> Result<Seq<char>, SpecEvalError> {
    match result {
        Ok(text) => Ok(text@),
        Err(error) => Err(error@),
    }
}

/// The character that writes `op`, if it is a binary operator.
fn operator_char(op: &Token) -> (c: Option<char>)
    ensures
        c == if op@.is_binary_operator() {
            Some(op@.operator_char())
        } else {
            None
        },
{
    match op {
        Token::Add => Some('+'),
        Token::Sub => Some('-'),
        Token::Mul => Some('*'),
        Token::Div => Some('/'),
        _ => None,
    }
}

/// `node` in postfix notation.
pub fn postfix_notation(node: &ASTNode) -> (result: Result<String, EvalError>)
    ensures
        text_of(result) == postfix(node@),
    decreases node,
{
    match node {
        ASTNode::BinOp { left, op, right } => {
            let c = match operator_char(op) {
                Some(c) => c,
                None => {
                    return Err(EvalError::UnsupportedNodeError);
                },
            };
            let mut text = match postfix_notation(left) {
                Ok(first) => first,
                Err(error) => {
                    return Err(error);
                },
            };
            let second = match postfix_notation(right) {
                Ok(second) => second,
                Err(error) => {
                    return Err(error);
                },
            };
            let ghost first = text@;
            push_char(&mut text, ' ');
            text.append(second.as_str());
            push_char(&mut text, ' ');
            push_char(&mut text, c);
            assert(text@ =~= first + seq![' '] + second@ + seq![' ', c]);
            Ok(text)
        },
        ASTNode::Num(i) => {
            let mut text = String::new();
            push_decimal(&mut text, *i);
            assert(text@ =~= decimal(*i as int));
            Ok(text)
        },
        _ => Err(EvalError::UnsupportedNodeError),
    }
}

/// `node` in prefix notation, as Lisp writes it.
pub fn lisp_notation(node: &ASTNode) -> (result: Result<String, EvalError>)
    ensures
        text_of(result) == lisp(node@),
    decreases node,
{
    match node {
        ASTNode::BinOp { left, op, right } => {
            let c = match operator_char(op) {
                Some(c) => c,
                None => {
                    return Err(EvalError::UnsupportedNodeError);
                },
            };
            let first = match lisp_notation(left) {
                Ok(first) => first,
                Err(error) => {
                    return Err(error);
                },
            };
            let second = match lisp_notation(right) {
                Ok(second) => second,
                Err(error) => {
                    return Err(error);
                },
            };
            let mut text = String::new();
            push_char(&mut text, '(');
            push_char(&mut text, c);
            push_char(&mut text, ' ');
            text.append(first.as_str());
            push_char(&mut text, ' ');
            text.append(second.as_str());
            push_char(&mut text, ')');
            assert(text@ =~= seq!['(', c, ' '] + first@ + seq![' '] + second@ + seq![')']);
            Ok(text)
        },
        ASTNode::Num(i) => {
            let mut text = String::new();
            push_decimal(&mut text, *i);
            assert(text@ =~= decimal(*i as int));
            Ok(text)
        },
        _ => Err(EvalError::UnsupportedNodeError),
    }
}

} // verus!
