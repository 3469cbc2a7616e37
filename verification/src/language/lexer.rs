//! The lexer: a cursor over the characters of the source text that hands out
//! one token per call.
//!
//! Its behaviour is given by [`scan`], a function of the text and a position.

use super::syn::{SpecToken, Token};
use crate::text::{
    char_is_alphabetic, chars_of, decimal_value, digit_of, is_blank, is_digit,
    lemma_decimal_value_grows, lemma_decimal_value_step, lemma_run_end_longest, push_char,
    run_end, CharClass, RADIX,
};
use vstd::prelude::*;

verus! {

/// Why the text at the cursor is no token.
#[derive(Debug, PartialEq, Eq, Clone, Copy)]
pub enum LexError {
    /// A character that starts no token; a `:` that no `=` follows is one.
    InvalidCharacter(char),
    /// An integer literal whose value does not fit in 64 bits.
    IntegerOverflow,
}

/// The token that a single character is, if it is one by itself.
pub open spec fn symbol(c: char) -> Option<SpecToken> {
    if c == '+' {
        Some(SpecToken::Add)
    } else if c == '-' {
        Some(SpecToken::Sub)
    } else if c == '*' {
        Some(SpecToken::Mul)
    } else if c == '/' {
        Some(SpecToken::Div)
    } else if c == '(' {
        Some(SpecToken::LParen)
    } else if c == ')' {
        Some(SpecToken::RParen)
    } else if c == '{' {
        Some(SpecToken::LCBrac)
    } else if c == '}' {
        Some(SpecToken::RCBrac)
    } else if c == ';' {
        Some(SpecToken::Semi)
    } else {
        None
    }
}

/// What one step of the lexer finds: a token or an error, and the position
/// just behind what was consumed.
pub struct Lexeme {
    pub token: Result<SpecToken, LexError>,
    pub end: int,
}

/// The lexeme whose first character stands at `i`, where no white space
/// stands.
pub open spec fn lexeme_at(s: Seq<char>, i: int) -> Lexeme {
    if !(0 <= i < s.len()) {
        Lexeme { token: Ok(SpecToken::EOF), end: i }
    } else if symbol(s[i]) is Some {
        Lexeme { token: Ok(symbol(s[i])->0), end: i + 1 }
    } else if s[i] == ':' {
        if i + 1 < s.len() && s[i + 1] == '=' {
            Lexeme { token: Ok(SpecToken::Assign), end: i + 2 }
        } else {
            Lexeme { token: Err(LexError::InvalidCharacter(':')), end: i }
        }
    } else if CharClass::Digit.contains(s[i]) {
        let end = run_end(s, i, CharClass::Digit);
        let value = decimal_value(s.subrange(i, end));
        if value <= u64::MAX {
            Lexeme { token: Ok(SpecToken::Integer(value as u64)), end }
        } else {
            Lexeme { token: Err(LexError::IntegerOverflow), end: i }
        }
    } else if CharClass::Alphabetic.contains(s[i]) {
        let end = run_end(s, i, CharClass::Alphabetic);
        Lexeme { token: Ok(SpecToken::Id(s.subrange(i, end))), end }
    } else {
        Lexeme { token: Err(LexError::InvalidCharacter(s[i])), end: i }
    }
}

/// One step of the lexer from position `p`: white space is skipped, then
/// the longest token that starts there is taken. At the end of the text the
/// token is `EOF`. Where the text is no token the step fails and consumes
/// nothing, not even the white space.
pub open spec fn scan(s: Seq<char>, p: int) -> Lexeme {
    let found = lexeme_at(s, run_end(s, p, CharClass::Space));
    match found.token {
        Ok(_) => found,
        Err(_) => Lexeme { token: found.token, end: p },
    }
}

/// The token found by a step from `p`.
pub open spec fn token_at(s: Seq<char>, p: int) -> Result<SpecToken, LexError> {
    scan(s, p).token
}

/// The position behind the token found by a step from `p`.
pub open spec fn token_end(s: Seq<char>, p: int) -> int {
    scan(s, p).end
}

/// What the result of a step stands for.
pub open spec fn lexed(result: Result<Token, LexError>) -> Result<SpecToken, LexError> {
    match result {
        Ok(token) => Ok(token@),
        Err(error) => Err(error),
    }
}

/// A step never moves backwards nor past the end of the text; it consumes at
/// least one character whenever it finds a token other than `EOF`, nothing
/// when it fails, and all that is left when it finds `EOF`.
pub proof fn lemma_scan_advances(s: Seq<char>, p: int)
    requires
        0 <= p <= s.len(),
    ensures
        p <= token_end(s, p) <= s.len(),
        token_at(s, p) is Err ==> token_end(s, p) == p,
        token_at(s, p) matches Ok(token) && !(token is EOF) ==> token_end(s, p) > p,
        token_at(s, p) == Ok::<SpecToken, LexError>(SpecToken::EOF) ==> token_end(s, p) == s.len(),
{
    let i = run_end(s, p, CharClass::Space);
    lemma_run_end_longest(s, p, CharClass::Space);
    if i < s.len() {
        lemma_run_end_longest(s, i, CharClass::Digit);
        lemma_run_end_longest(s, i, CharClass::Alphabetic);
    }
}

/// A cursor over the characters of a source text.
pub struct Lexer {
    chars: Vec<char>,
    pos: usize,
    radix: u64,
}

impl Lexer {
    /// The text this lexer reads.
    pub closed spec fn input(self) -> Seq<char> {
        self.chars@
    }

    /// How many characters of the text have been consumed.
    pub closed spec fn position(self) -> int {
        self.pos as int
    }

    /// The base in which this lexer reads integer literals.
    pub closed spec fn radix(self) -> u64 {
        self.radix
    }

    /// The cursor stands inside the text or at its end, and the base is the
    /// one the lexer was made with.
    #[verifier::type_invariant]
    pub open spec fn in_bounds(self) -> bool {
        &&& 0 <= self.position() <= self.input().len()
        &&& self.radix() == RADIX
    }

    /// A lexer at the start of `s`, which reads integers in base [`RADIX`].
    pub fn new(s: &str) -> (lexer: Lexer)
        ensures
            lexer.input() == s@,
            lexer.position() == 0,
            lexer.radix() == RADIX,
    {
        Lexer { chars: chars_of(s), pos: 0, radix: RADIX }
    }

    /// The rest of an integer literal whose first digit, `first`, has just
    /// been consumed. On overflow the cursor is left somewhere inside the
    /// literal.
    fn lex_integer(&mut self, first: char) -> (result: Result<Token, LexError>)
        requires
            0 < old(self).pos <= old(self).chars.len(),
            old(self).chars@[old(self).pos - 1] == first,
            CharClass::Digit.contains(first),
        ensures
            final(self).chars@ == old(self).chars@,
            final(self).radix == old(self).radix,
            ({
                let s = old(self).chars@;
                let start = old(self).pos - 1;
                let end = run_end(s, start, CharClass::Digit);
                let value = decimal_value(s.subrange(start, end));
                if value <= u64::MAX {
                    &&& result matches Ok(token)
                    &&& token@ == SpecToken::Integer(value as u64)
                    &&& final(self).pos == end
                } else {
                    result == Err::<Token, LexError>(LexError::IntegerOverflow)
                }
            }),
    {
        proof {
            use_type_invariant(&*self);
        }
        let ghost s = self.chars@;
        let ghost start = self.pos - 1;
        let mut value: u64 = digit_of(first);
        proof {
            assert(s.subrange(start, start + 1).drop_last() =~= Seq::<char>::empty());
            assert(decimal_value(s.subrange(start, start)) == 0);
            lemma_decimal_value_step(s, start, start);
        }
        while self.pos < self.chars.len() && is_digit(self.chars[self.pos])
            invariant
                self.chars@ == s,
                self.radix == RADIX,
                self.radix == old(self).radix,
                s == old(self).chars@,
                start == old(self).pos - 1,
                0 <= start < self.pos <= s.len(),
                run_end(s, start, CharClass::Digit) == run_end(
                    s,
                    self.pos as int,
                    CharClass::Digit,
                ),
                value == decimal_value(s.subrange(start, self.pos as int)),
            decreases s.len() - self.pos,
        {
            let c = self.chars[self.pos];
            let digit: u64 = digit_of(c);
            proof {
                lemma_decimal_value_step(s, start, self.pos as int);
                lemma_run_end_longest(s, self.pos + 1, CharClass::Digit);
                lemma_decimal_value_grows(
                    s,
                    start,
                    self.pos + 1,
                    run_end(s, start, CharClass::Digit),
                );
            }
            let scaled = match value.checked_mul(self.radix) {
                Some(scaled) => scaled,
                None => {
                    return Err(LexError::IntegerOverflow);
                },
            };
            let next = match scaled.checked_add(digit) {
                Some(next) => next,
                None => {
                    return Err(LexError::IntegerOverflow);
                },
            };
            value = next;
            self.pos += 1;
        }
        Ok(Token::Integer(value))
    }

    /// The rest of an identifier whose first character, `first`, has just
    /// been consumed.
    fn lex_identifier(&mut self, first: char) -> (token: Token)
        requires
            old(self).radix == RADIX,
            0 < old(self).pos <= old(self).chars.len(),
            old(self).chars@[old(self).pos - 1] == first,
            CharClass::Alphabetic.contains(first),
        ensures
            final(self).chars@ == old(self).chars@,
            final(self).radix == old(self).radix,
            final(self).pos == run_end(old(self).chars@, old(self).pos - 1, CharClass::Alphabetic),
            token@ == SpecToken::Id(
                old(self).chars@.subrange(old(self).pos - 1, final(self).pos as int),
            ),
    {
        let ghost s = self.chars@;
        let ghost start = self.pos - 1;
        let mut name = String::new();
        push_char(&mut name, first);
        assert(name@ =~= s.subrange(start, start + 1));
        while self.pos < self.chars.len() && char_is_alphabetic(self.chars[self.pos])
            invariant
                self.chars@ == s,
                self.radix == old(self).radix,
                self.radix == RADIX,
                0 <= start < self.pos <= s.len(),
                run_end(s, start, CharClass::Alphabetic) == run_end(
                    s,
                    self.pos as int,
                    CharClass::Alphabetic,
                ),
                name@ == s.subrange(start, self.pos as int),
            decreases s.len() - self.pos,
        {
            push_char(&mut name, self.chars[self.pos]);
            assert(name@ =~= s.subrange(start, self.pos + 1));
            self.pos += 1;
        }
        Token::Id(name)
    }

    /// The next token of the text, or `EOF` once only white space is left.
    /// Where the text at the cursor is no token, the error says why and the
    /// cursor stays where it was.
    pub fn next(&mut self) -> (result: Result<Token, LexError>)
        ensures
            final(self).input() == old(self).input(),
            lexed(result) == token_at(old(self).input(), old(self).position()),
            final(self).position() == token_end(old(self).input(), old(self).position()),
    {
        proof {
            use_type_invariant(&*self);
        }
        let ghost s = self.chars@;
        let begin = self.pos;
        while self.pos < self.chars.len() && is_blank(self.chars[self.pos])
            invariant
                self.chars@ == s,
                self.radix == RADIX,
                begin <= self.pos <= s.len(),
                run_end(s, begin as int, CharClass::Space) == run_end(
                    s,
                    self.pos as int,
                    CharClass::Space,
                ),
            decreases s.len() - self.pos,
        {
            self.pos += 1;
        }
        if self.pos >= self.chars.len() {
            return Ok(Token::EOF);
        }
        let c = self.chars[self.pos];
        self.pos += 1;
        let found = match c {
            '+' => Ok(Token::Add),
            '-' => Ok(Token::Sub),
            '*' => Ok(Token::Mul),
            '/' => Ok(Token::Div),
            '(' => Ok(Token::LParen),
            ')' => Ok(Token::RParen),
            '{' => Ok(Token::LCBrac),
            '}' => Ok(Token::RCBrac),
            ';' => Ok(Token::Semi),
            ':' => {
                if self.pos < self.chars.len() && self.chars[self.pos] == '=' {
                    self.pos += 1;
                    Ok(Token::Assign)
                } else {
                    Err(LexError::InvalidCharacter(':'))
                }
            },
            _ => {
                if is_digit(c) {
                    self.lex_integer(c)
                } else if char_is_alphabetic(c) {
                    Ok(self.lex_identifier(c))
                } else {
                    Err(LexError::InvalidCharacter(c))
                }
            },
        };
        if found.is_err() {
            self.pos = begin;
        }
        found
    }
}

} // verus!
