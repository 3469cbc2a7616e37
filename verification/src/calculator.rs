//! A calculator for flat arithmetic, `number operator number operator ...`:
//! a lexer that hands out numbers and operators in turn, and an interpreter
//! that is a finite state machine driven by those tokens. Operators apply
//! from left to right, with no precedence.
//!
//! The submodules hold a calculator for expressions with precedence and
//! parentheses.

pub mod interpreter;
pub mod lexer;
pub mod parser;
pub mod syn;

use crate::arithmetic::{checked_i32, truncated_quotient, Fault};
use crate::language::lexer::LexError;
use crate::text::{chars_of, decimal_value, is_digit, parse_decimal, CharClass};
use vstd::prelude::*;

verus! {

/// A lexical unit of flat arithmetic: a number, an operator given by its
/// character, or the end of the input.
#[derive(Debug, PartialEq, Eq, Clone, Copy, Structural)]
pub enum Token {
    Integer(i32),
    Operator(char),
    End,
}

/// What the interpreter waits for: at the start a number, behind a number
/// an operator or the end, behind an operator its right operand.
#[derive(Debug, PartialEq, Eq, Clone, Copy, Structural)]
pub enum InterpreterState {
    Start,
    Integer,
    Add,
    Subtract,
    Multiply,
    Divide,
    End,
}

/// Why the interpreter cannot take a token.
#[derive(Debug, PartialEq, Eq, Clone, Copy)]
pub enum InterpreterError {
    /// The token cannot follow what came before it.
    SyntaxError,
    /// An operator other than `+`, `-`, `*` and `/`.
    InvalidOperator(char),
    /// An operation on integers failed.
    ArithmeticError(Fault),
    /// An operator has no left operand to apply to: the stack is empty.
    MissingOperand,
}

/// What a step of the interpreter comes to: the state to go to, and the
/// stack behind the step.
pub type Transition = Result<(InterpreterState, Seq<i32>), InterpreterError>;

/// The stack with the exact result `exact` in place of its top, which the
/// state [`InterpreterState::Integer`] follows.
pub open spec fn replace_top(stack: Seq<i32>, exact: int) -> Transition {
    match checked_i32(exact) {
        Ok(value) => Ok((InterpreterState::Integer, stack.drop_last().push(value))),
        Err(fault) => Err(InterpreterError::ArithmeticError(fault)),
    }
}

/// The step from `state` on the token `event`.
///
/// - At the start a number is pushed; the end of the input ends the run.
/// - Behind a number comes an operator, or the end of the input.
/// - Behind an operator comes a number, which the operator combines with the
///   top of the stack. Division rounds towards zero.
/// - At the end, the step takes the result off the stack.
pub open spec fn transition(state: InterpreterState, stack: Seq<i32>, event: Token) -> Transition {
    match state {
        InterpreterState::Start => match event {
            Token::Integer(d) => Ok((InterpreterState::Integer, stack.push(d))),
            Token::End => Ok((InterpreterState::End, stack)),
            Token::Operator(_) => Err(InterpreterError::SyntaxError),
        },
        InterpreterState::Integer => match event {
            Token::Operator(op) => if op == '+' {
                Ok((InterpreterState::Add, stack))
            } else if op == '-' {
                Ok((InterpreterState::Subtract, stack))
            } else if op == '*' {
                Ok((InterpreterState::Multiply, stack))
            } else if op == '/' {
                Ok((InterpreterState::Divide, stack))
            } else {
                Err(InterpreterError::InvalidOperator(op))
            },
            Token::End => Ok((InterpreterState::End, stack)),
            Token::Integer(_) => Err(InterpreterError::SyntaxError),
        },
        InterpreterState::End => Ok(
            (
                InterpreterState::End,
                if stack.len() > 0 {
                    stack.drop_last()
                } else {
                    stack
                },
            ),
        ),
        _ => match event {
            Token::Integer(d) => if state is Divide && d == 0 {
                Err(InterpreterError::ArithmeticError(Fault::DivisionByZero))
            } else if stack.len() == 0 {
                Err(InterpreterError::MissingOperand)
            } else {
                let a = stack.last();
                match state {
                    InterpreterState::Add => replace_top(stack, a + d),
                    InterpreterState::Subtract => replace_top(stack, a - d),
                    InterpreterState::Multiply => replace_top(stack, a * d),
                    _ => replace_top(stack, truncated_quotient(a as int, d as int)),
                }
            },
            _ => Err(InterpreterError::SyntaxError),
        },
    }
}

/// The interpreter: the state it is in, and a stack whose top is the value
/// of what has been read so far.
pub struct Interpreter {
    pub state: InterpreterState,
    pub stack: Vec<i32>,
}

impl Interpreter {
    /// What a call of a handler for the state `state` stands for: the stack
    /// behind it holds what [`transition`] says, and nothing changes where
    /// the step fails. No handler changes `self.state`.
    pub open spec fn stepped(
        before: Interpreter,
        after: Interpreter,
        state: InterpreterState,
        event: Token,
        result: Result<InterpreterState, InterpreterError>,
    ) -> bool {
        &&& after.state == before.state
        &&& match transition(state, before.stack@, event) {
            Ok((next, stack)) => result == Ok::<InterpreterState, InterpreterError>(next)
                && after.stack@ == stack,
            Err(error) => result == Err::<InterpreterState, InterpreterError>(error)
                && after.stack@ == before.stack@,
        }
    }

    // Initializes a new interpreter with the start state
    pub fn new() -> (interpreter: Interpreter)
        ensures
            interpreter.state == InterpreterState::Start,
            interpreter.stack@ == Seq::<i32>::empty(),
    {
        Interpreter { state: InterpreterState::Start, stack: Vec::new() }
    }

    // Resets interpreter internals
    pub fn reset(&mut self)
        ensures
            final(self).state == InterpreterState::Start,
            final(self).stack@ == Seq::<i32>::empty(),
    {
        self.state = InterpreterState::Start;
        self.stack.clear();
    }

    /// Given a token (event), the state to go to from `self.state`. The step
    /// works on the stack; it is for the caller to store the new state.
    pub fn next(&mut self, event: &Token) -> (result: Result<InterpreterState, InterpreterError>)
        ensures
            Self::stepped(*old(self), *final(self), old(self).state, *event, result),
    {
        // Match current state with handler functions
        match self.state {
            InterpreterState::Start => self.handle_start(event),
            InterpreterState::Integer => self.handle_integer(event),
            InterpreterState::Add => self.handle_add(event),
            InterpreterState::Subtract => self.handle_subtract(event),
            InterpreterState::Multiply => self.handle_multiply(event),
            InterpreterState::Divide => self.handle_divide(event),
            InterpreterState::End => {
                // Execution of expression ended, the result leaves the stack
                self.handle_end();
                Ok(InterpreterState::End)
            },
        }
    }

    /// Takes the result of the run off the stack: the number on top, if
    /// there is one.
    pub fn handle_end(&mut self) -> (result: Option<i32>)
        ensures
            final(self).state == old(self).state,
            old(self).stack@.len() > 0 ==> result == Some(old(self).stack@.last())
                && final(self).stack@ == old(self).stack@.drop_last(),
            old(self).stack@.len() == 0 ==> result is None && final(self).stack@ == old(
                self,
            ).stack@,
    {
        self.stack.pop()
    }

    // Start state allows transition to `Integer` and `End` state
    fn handle_start(&mut self, event: &Token) -> (result: Result<
        InterpreterState,
        InterpreterError,
    >)
        ensures
            Self::stepped(*old(self), *final(self), InterpreterState::Start, *event, result),
    {
        match event {
            Token::Integer(d) => {
                self.stack.push(*d);
                Ok(InterpreterState::Integer)
            },
            Token::End => Ok(InterpreterState::End),
            _ => Err(InterpreterError::SyntaxError),
        }
    }

    // Integer state allows transition to `Add` and `End` state
    fn handle_integer(&mut self, event: &Token) -> (result: Result<
        InterpreterState,
        InterpreterError,
    >)
        ensures
            Self::stepped(*old(self), *final(self), InterpreterState::Integer, *event, result),
    {
        match event {
            Token::Operator(op) => match *op {
                '+' => Ok(InterpreterState::Add),
                '-' => Ok(InterpreterState::Subtract),
                '*' => Ok(InterpreterState::Multiply),
                '/' => Ok(InterpreterState::Divide),
                _ => Err(InterpreterError::InvalidOperator(*op)),
            },
            Token::End => Ok(InterpreterState::End),
            _ => Err(InterpreterError::SyntaxError),
        }
    }

    /// Puts `computed` in place of the top of the stack, if it is a number.
    fn store(&mut self, computed: Option<i32>, Ghost(exact): Ghost<int>) -> (result: Result<
        InterpreterState,
        InterpreterError,
    >)
        requires
            old(self).stack@.len() > 0,
            computed == match checked_i32(exact) {
                Ok(value) => Some(value),
                Err(_) => None,
            },
        ensures
            final(self).state == old(self).state,
            match replace_top(old(self).stack@, exact) {
                Ok((next, stack)) => result == Ok::<InterpreterState, InterpreterError>(next)
                    && final(self).stack@ == stack,
                Err(error) => result == Err::<InterpreterState, InterpreterError>(error)
                    && final(self).stack@ == old(self).stack@,
            },
    {
        match computed {
            Some(value) => {
                let top = self.stack.len() - 1;
                self.stack.set(top, value);
                assert(self.stack@ =~= old(self).stack@.drop_last().push(value));
                Ok(InterpreterState::Integer)
            },
            None => Err(InterpreterError::ArithmeticError(Fault::Overflow)),
        }
    }

    // Add state allows transition to `Integer` state
    fn handle_add(&mut self, event: &Token) -> (result: Result<
        InterpreterState,
        InterpreterError,
    >)
        ensures
            Self::stepped(*old(self), *final(self), InterpreterState::Add, *event, result),
    {
        match event {
            Token::Integer(d) => {
                if self.stack.len() == 0 {
                    return Err(InterpreterError::MissingOperand);
                }
                let a = self.stack[self.stack.len() - 1];
                self.store(a.checked_add(*d), Ghost(a + *d))
            },
            _ => Err(InterpreterError::SyntaxError),
        }
    }

    // Subtract state allows transition to `Integer` state
    fn handle_subtract(&mut self, event: &Token) -> (result: Result<
        InterpreterState,
        InterpreterError,
    >)
        ensures
            Self::stepped(*old(self), *final(self), InterpreterState::Subtract, *event, result),
    {
        match event {
            Token::Integer(d) => {
                if self.stack.len() == 0 {
                    return Err(InterpreterError::MissingOperand);
                }
                let a = self.stack[self.stack.len() - 1];
                self.store(a.checked_sub(*d), Ghost(a - *d))
            },
            _ => Err(InterpreterError::SyntaxError),
        }
    }

    // Multiply state allows transition to `Integer` state
    fn handle_multiply(&mut self, event: &Token) -> (result: Result<
        InterpreterState,
        InterpreterError,
    >)
        ensures
            Self::stepped(*old(self), *final(self), InterpreterState::Multiply, *event, result),
    {
        match event {
            Token::Integer(d) => {
                if self.stack.len() == 0 {
                    return Err(InterpreterError::MissingOperand);
                }
                let a = self.stack[self.stack.len() - 1];
                self.store(a.checked_mul(*d), Ghost(a * *d))
            },
            _ => Err(InterpreterError::SyntaxError),
        }
    }

    // Divide state allows transition to `Integer` state
    fn handle_divide(&mut self, event: &Token) -> (result: Result<
        InterpreterState,
        InterpreterError,
    >)
        ensures
            Self::stepped(*old(self), *final(self), InterpreterState::Divide, *event, result),
    {
        match event {
            Token::Integer(d) => {
                if *d == 0 {
                    return Err(InterpreterError::ArithmeticError(Fault::DivisionByZero));
                }
                if self.stack.len() == 0 {
                    return Err(InterpreterError::MissingOperand);
                }
                let a = self.stack[self.stack.len() - 1];
                self.store(a.checked_div(*d), Ghost(truncated_quotient(a as int, *d as int)))
            },
            _ => Err(InterpreterError::SyntaxError),
        }
    }
}

/// What the lexer is in the middle of.
#[derive(Debug, PartialEq, Eq, Clone, Copy, Structural)]
pub enum LexerState {
    /// The digits of a number are being collected.
    Digit,
    /// An operator has been read and waits to be handed out.
    Operator,
    /// The input is exhausted.
    End,
}

/// What one call of the lexer comes to: the token, and the lexer behind it.
pub struct LexStep {
    pub token: Result<Token, LexError>,
    pub position: int,
    pub state: LexerState,
    pub pending: Seq<char>,
}

/// The number that the collected digits denote, if it fits in 32 bits with
/// a sign.
pub open spec fn integer_token(digits: Seq<char>) -> Result<Token, LexError> {
    if decimal_value(digits) <= i32::MAX {
        Ok(Token::Integer(decimal_value(digits) as i32))
    } else {
        Err(LexError::IntegerOverflow)
    }
}

/// One call of the lexer on the text `s`, from the position `position`, in
/// the state `state`, with the characters `pending` read and not yet handed
/// out.
///
/// Blanks are skipped everywhere, inside a number too. Digits are collected
/// until a character that is neither digit nor blank ends the number: that
/// character is an operator, kept for the next call. An operator is handed
/// out once the character behind it has been read. At the end of the text
/// what is pending is handed out, and after that `End`.
pub open spec fn next_token_at(s: Seq<char>, position: int, state: LexerState, pending: Seq<char>)
    -> LexStep
    decreases s.len() - position,
{
    if position < 0 || position >= s.len() {
        match state {
            LexerState::Digit => LexStep {
                token: integer_token(pending),
                position,
                state: LexerState::End,
                pending: Seq::empty(),
            },
            LexerState::Operator => LexStep {
                token: Ok(Token::Operator(pending.last())),
                position,
                state: LexerState::End,
                pending: pending.drop_last(),
            },
            LexerState::End => LexStep { token: Ok(Token::End), position, state, pending },
        }
    } else if CharClass::Digit.contains(s[position]) {
        match state {
            LexerState::Digit => next_token_at(s, position + 1, state, pending.push(s[position])),
            LexerState::Operator => LexStep {
                token: Ok(Token::Operator(pending.last())),
                position: position + 1,
                state: LexerState::Digit,
                pending: pending.drop_last().push(s[position]),
            },
            LexerState::End => LexStep {
                token: Ok(Token::End),
                position: position + 1,
                state,
                pending,
            },
        }
    } else if s[position] == ' ' {
        next_token_at(s, position + 1, state, pending)
    } else {
        match state {
            LexerState::Digit => LexStep {
                token: integer_token(pending),
                position: position + 1,
                state: LexerState::Operator,
                pending: seq![s[position]],
            },
            LexerState::Operator => LexStep {
                token: Ok(Token::Operator(pending.last())),
                position: position + 1,
                state: LexerState::Operator,
                pending: pending.drop_last().push(s[position]),
            },
            LexerState::End => LexStep {
                token: Ok(Token::End),
                position: position + 1,
                state,
                pending,
            },
        }
    }
}

/// A lexer for flat arithmetic. It starts as if a `0` had been read, so
/// that a text may begin with an operator.
pub struct Lexer {
    state: LexerState,
    chars: Vec<char>,
    pos: usize,
    stack: Vec<char>,
}

impl Lexer {
    /// The text this lexer reads.
    pub closed spec fn input(self) -> Seq<char> {
        self.chars@
    }

    /// How many characters of the text have been read.
    pub closed spec fn position(self) -> int {
        self.pos as int
    }

    /// What the lexer is in the middle of.
    pub closed spec fn state(self) -> LexerState {
        self.state
    }

    /// The characters read and not yet handed out.
    pub closed spec fn pending(self) -> Seq<char> {
        self.stack@
    }

    /// While a number is collected, its digits are pending, at least one;
    /// while an operator waits, it alone is pending.
    pub closed spec fn wf(self) -> bool {
        &&& self.pos <= self.chars.len()
        &&& self.state is Digit ==> self.stack.len() > 0 && forall|i: int|
            0 <= i < self.stack.len() ==> CharClass::Digit.contains(#[trigger] self.stack[i])
        &&& self.state is Operator ==> self.stack.len() == 1
    }

    pub fn new(s: &str) -> (lexer: Lexer)
        ensures
            lexer.wf(),
            lexer.input() == s@,
            lexer.position() == 0,
            lexer.state() == LexerState::Digit,
            lexer.pending() == seq!['0'],
    {
        // Stack contains '0' to make starting with operators a valid expression
        let mut stack: Vec<char> = Vec::new();
        stack.push('0');
        Lexer { state: LexerState::Digit, chars: chars_of(s), pos: 0, stack: stack }
    }

    /// The value of the digits collected, as a token.
    fn integer(&self) -> (token: Result<Token, LexError>)
        requires
            forall|i: int|
                0 <= i < self.stack.len() ==> CharClass::Digit.contains(#[trigger] self.stack[i]),
        ensures
            token == integer_token(self.stack@),
    {
        match parse_decimal(&self.stack) {
            Some(value) => if value <= 0x7fff_ffff {
                Ok(Token::Integer(value as i32))
            } else {
                Err(LexError::IntegerOverflow)
            },
            None => Err(LexError::IntegerOverflow),
        }
    }

    /// The operator that waits, with `next` pending in its place if there is
    /// one.
    fn operator(&mut self, next: Option<char>) -> (token: Token)
        requires
            old(self).stack.len() == 1,
        ensures
            token == Token::Operator(old(self).stack@.last()),
            final(self).stack@ == match next {
                Some(c) => old(self).stack@.drop_last().push(c),
                None => old(self).stack@.drop_last(),
            },
            final(self).chars == old(self).chars,
            final(self).pos == old(self).pos,
            final(self).state == old(self).state,
    {
        let op = self.stack[0];
        match next {
            Some(c) => {
                self.stack.set(0, c);
                assert(self.stack@ =~= old(self).stack@.drop_last().push(c));
            },
            None => {
                self.stack.clear();
                assert(self.stack@ =~= old(self).stack@.drop_last());
            },
        }
        Token::Operator(op)
    }

    /// The next token: what [`next_token_at`] says of the text and of the
    /// lexer as it stands. An integer that does not fit in 32 bits is an
    /// error; the lexer goes on behind it.
    pub fn next_token(&mut self) -> (result: Result<Token, LexError>)
        requires
            old(self).wf(),
        ensures
            final(self).wf(),
            final(self).input() == old(self).input(),
            ({
                let step = next_token_at(
                    old(self).input(),
                    old(self).position(),
                    old(self).state(),
                    old(self).pending(),
                );
                &&& result == step.token
                &&& final(self).position() == step.position
                &&& final(self).state() == step.state
                &&& final(self).pending() == step.pending
            }),
    {
        let ghost s = self.chars@;
        let ghost whole = next_token_at(s, self.pos as int, self.state, self.stack@);
        loop
            invariant
                self.wf(),
                self.chars@ == s,
                s == old(self).chars@,
                whole == next_token_at(
                    s,
                    old(self).pos as int,
                    old(self).state,
                    old(self).stack@,
                ),
                whole == next_token_at(s, self.pos as int, self.state, self.stack@),
            decreases s.len() - self.pos,
        {
            if self.pos >= self.chars.len() {
                match self.state {
                    LexerState::Digit => {
                        self.state = LexerState::End;
                        let tok = self.integer();
                        self.stack.clear();
                        return tok;
                    },
                    LexerState::Operator => {
                        let tok = self.operator(None);
                        self.state = LexerState::End;
                        return Ok(tok);
                    },
                    LexerState::End => {
                        return Ok(Token::End);
                    },
                }
            }
            let c = self.chars[self.pos];
            self.pos += 1;
            if is_digit(c) {
                match self.state {
                    LexerState::Digit => {
                        self.stack.push(c);
                    },
                    LexerState::Operator => {
                        let tok = self.operator(Some(c));
                        self.state = LexerState::Digit;
                        return Ok(tok);
                    },
                    LexerState::End => {
                        return Ok(Token::End);
                    },
                }
            } else if c == ' ' {
                // Skip white space
            } else {
                match self.state {
                    LexerState::Digit => {
                        self.state = LexerState::Operator;
                        let tok = self.integer();
                        self.stack.clear();
                        self.stack.push(c);
                        return tok;
                    },
                    LexerState::Operator => {
                        let tok = self.operator(Some(c));
                        return Ok(tok);
                    },
                    LexerState::End => {
                        return Ok(Token::End);
                    },
                }
            }
        }
    }
}

} // verus!
