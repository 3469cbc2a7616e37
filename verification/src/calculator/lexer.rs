//! The lexer of the calculator for expressions: numbers, and operators
//! written as single characters or spelled out.
//!
//! ```text
//! integer:  DIGIT+
//! operator: a word for an operator, or any character that is neither digit,
//!           letter nor blank
//! ```
//!
//! Its behaviour is given by [`scan_at`].

use super::syn::Token;
use crate::language::lexer::LexError;
use crate::text::{
    char_is_alphabetic, chars_of, decimal_value, is_digit, lowercase, parse_decimal, to_lowercase,
    CharClass,
};
use vstd::prelude::*;

verus! {

/// The operator that a word spells, whatever the case of its letters.
pub open spec fn word_operator(letters: Seq<char>) -> Option<char> {
    let word = letters.map_values(|c: char| lowercase(c));
    if word == seq!['p', 'l', 'u', 's'] {
        Some('+')
    } else if word == seq!['m', 'i', 'n', 'u', 'e'] {
        Some('-')
    } else if word == seq!['t', 'i', 'm', 'e', 's'] {
        Some('*')
    } else if word == seq!['d', 'i', 'v', 'i', 'd', 'e'] {
        Some('/')
    } else {
        None
    }
}

/// The number that the collected digits denote, if it fits in 64 bits.
pub open spec fn integer_token(digits: Seq<char>) -> Result<Token, LexError> {
    if decimal_value(digits) <= u64::MAX {
        Ok(Token::Integer(decimal_value(digits) as u64))
    } else {
        Err(LexError::IntegerOverflow)
    }
}

/// What one step of the lexer finds: a token or an error, and the position
/// just behind what was read.
pub struct Scanned {
    pub token: Result<Token, LexError>,
    pub end: int,
}

/// One step of the lexer from `position`, with the digits `digits` and the
/// letters `letters` read so far in this step.
///
/// Blanks are skipped everywhere, inside a number too. Digits are collected
/// until a character that is neither digit nor blank, or the end of the
/// text, ends the number. Before any digit, letters are collected until
/// they spell the word for an operator; letters that spell none are dropped.
/// Any other character is an operator by itself. At the end of the text the
/// token is `End`.
pub open spec fn scan_at(s: Seq<char>, position: int, digits: Seq<char>, letters: Seq<char>)
    -> Scanned
    decreases s.len() - position,
{
    if position < 0 || position >= s.len() {
        if digits.len() == 0 {
            Scanned { token: Ok(Token::End), end: position }
        } else {
            Scanned { token: integer_token(digits), end: position }
        }
    } else if s[position] == ' ' {
        scan_at(s, position + 1, digits, letters)
    } else if CharClass::Digit.contains(s[position]) {
        scan_at(s, position + 1, digits.push(s[position]), letters)
    } else if digits.len() == 0 {
        if CharClass::Alphabetic.contains(s[position]) {
            match word_operator(letters.push(s[position])) {
                Some(op) => Scanned { token: Ok(Token::Operator(op)), end: position + 1 },
                None => scan_at(s, position + 1, digits, letters.push(s[position])),
            }
        } else {
            Scanned { token: Ok(Token::Operator(s[position])), end: position + 1 }
        }
    } else {
        Scanned { token: integer_token(digits), end: position }
    }
}

/// The token found by a step from `p`. Where the step fails, it reads
/// nothing.
pub open spec fn token_at(s: Seq<char>, p: int) -> Result<Token, LexError> {
    scan_at(s, p, Seq::empty(), Seq::empty()).token
}

/// The position behind the token found by a step from `p`.
pub open spec fn token_end(s: Seq<char>, p: int) -> int {
    if token_at(s, p) is Ok {
        scan_at(s, p, Seq::empty(), Seq::empty()).end
    } else {
        p
    }
}

/// A step in progress ends at or behind where it stands, inside the text;
/// it ends at the end of the text if it finds `End`, and has read a
/// character if it finds an operator.
pub proof fn lemma_scan_at_advances(s: Seq<char>, p: int, digits: Seq<char>, letters: Seq<char>)
    requires
        0 <= p <= s.len(),
    ensures
        p <= scan_at(s, p, digits, letters).end <= s.len(),
        scan_at(s, p, digits, letters).token matches Ok(Token::End) ==> digits.len() == 0
            && scan_at(s, p, digits, letters).end == s.len(),
        scan_at(s, p, digits, letters).token matches Ok(Token::Operator(_)) ==> digits.len() == 0
            && p < scan_at(s, p, digits, letters).end,
        scan_at(s, p, digits, letters).token matches Ok(Token::Integer(_)) ==> digits.len() > 0
            || p < scan_at(s, p, digits, letters).end,
    decreases s.len() - p,
{
    if p < s.len() {
        if s[p] == ' ' {
            lemma_scan_at_advances(s, p + 1, digits, letters);
        } else if CharClass::Digit.contains(s[p]) {
            lemma_scan_at_advances(s, p + 1, digits.push(s[p]), letters);
        } else if digits.len() == 0 && CharClass::Alphabetic.contains(s[p]) {
            lemma_scan_at_advances(s, p + 1, digits, letters.push(s[p]));
        }
    }
}

/// A step never moves backwards nor past the end of the text; it reads at
/// least one character whenever it finds a token other than `End`, nothing
/// when it fails, and all that is left when it finds `End`.
pub proof fn lemma_scan_advances(s: Seq<char>, p: int)
    requires
        0 <= p <= s.len(),
    ensures
        p <= token_end(s, p) <= s.len(),
        token_at(s, p) is Err ==> token_end(s, p) == p,
        token_at(s, p) matches Ok(token) && !(token is End) ==> token_end(s, p) > p,
        token_at(s, p) == Ok::<Token, LexError>(Token::End) ==> token_end(s, p) == s.len(),
{
    lemma_scan_at_advances(s, p, Seq::empty(), Seq::empty());
}

/// A cursor over the characters of a text.
pub struct Lexer {
    chars: Vec<char>,
    pos: usize,
}

impl Lexer {
    /// The text this lexer reads.
    pub closed spec fn input(self) -> Seq<char> {
        self.chars@
    }

    /// How many characters of the text have been read.
    pub closed spec fn position(self) -> int {
        self.pos as int
    }

    /// The cursor stands inside the text or at its end.
    #[verifier::type_invariant]
    pub open spec fn in_bounds(self) -> bool {
        0 <= self.position() <= self.input().len()
    }

    /// A lexer at the start of `s`.
    pub fn new(s: &str) -> (lexer: Lexer)
        ensures
            lexer.input() == s@,
            lexer.position() == 0,
    {
        Lexer { chars: chars_of(s), pos: 0 }
    }

    /// Whether the letters collected, in lower case, spell `word`.
    fn spells(letters: &Vec<char>, word: Vec<char>) -> (answer: bool)
        ensures
            answer == (letters@ == word@),
    {
        if letters.len() != word.len() {
            return false;
        }
        let mut i: usize = 0;
        while i < letters.len()
            invariant
                letters.len() == word.len(),
                i <= letters.len(),
                forall|k: int| 0 <= k < i ==> letters[k] == word[k],
            decreases letters.len() - i,
        {
            if letters[i] != word[i] {
                return false;
            }
            i += 1;
        }
        assert(letters@ =~= word@);
        true
    }

    /// The operator that the letters collected spell, given in lower case.
    fn operator_of(lowered: &Vec<char>, Ghost(letters): Ghost<Seq<char>>) -> (op: Option<char>)
        requires
            lowered@ == letters.map_values(|c: char| lowercase(c)),
        ensures
            op == word_operator(letters),
    {
        if Self::spells(lowered, vec!['p', 'l', 'u', 's']) {
            Some('+')
        } else if Self::spells(lowered, vec!['m', 'i', 'n', 'u', 'e']) {
            Some('-')
        } else if Self::spells(lowered, vec!['t', 'i', 'm', 'e', 's']) {
            Some('*')
        } else if Self::spells(lowered, vec!['d', 'i', 'v', 'i', 'd', 'e']) {
            Some('/')
        } else {
            None
        }
    }

    /// The next token of the text, or `End` once nothing is left: what
    /// [`token_at`] says. An integer that does not fit in 64 bits is an
    /// error, and the cursor then stays where it was.
    pub fn next(&mut self) -> (result: Result<Token, LexError>)
        ensures
            final(self).input() == old(self).input(),
            result == token_at(old(self).input(), old(self).position()),
            final(self).position() == token_end(old(self).input(), old(self).position()),
    {
        proof {
            use_type_invariant(&*self);
        }
        let ghost s = self.chars@;
        let begin = self.pos;
        let mut stack: Vec<char> = Vec::new();
        let mut alpha_stack: Vec<char> = Vec::new();
        let ghost letters = Seq::<char>::empty();
        let ghost whole = scan_at(s, begin as int, Seq::empty(), Seq::empty());
        assert(alpha_stack@ =~= letters.map_values(|c: char| lowercase(c)));
        loop
            invariant
                self.chars@ == s,
                s == old(self).chars@,
                begin == old(self).pos,
                begin <= self.pos <= s.len(),
                whole == scan_at(s, begin as int, Seq::empty(), Seq::empty()),
                whole == scan_at(s, self.pos as int, stack@, letters),
                alpha_stack@ == letters.map_values(|c: char| lowercase(c)),
                forall|i: int|
                    0 <= i < stack.len() ==> CharClass::Digit.contains(#[trigger] stack[i]),
            decreases s.len() - self.pos,
        {
            if self.pos < self.chars.len() {
                let c = self.chars[self.pos];
                if c == ' ' {
                    // Ignore whitespace
                    self.pos += 1;
                    continue ;
                }
                if is_digit(c) {
                    // Digit
                    stack.push(c);
                    self.pos += 1;
                    continue ;
                }
                if stack.len() == 0 {
                    // Operator
                    self.pos += 1;
                    if char_is_alphabetic(c) {
                        alpha_stack.push(to_lowercase(c));
                        proof {
                            assert(alpha_stack@ =~= letters.push(c).map_values(
                                |c: char| lowercase(c),
                            ));
                        }
                        match Self::operator_of(&alpha_stack, Ghost(letters.push(c))) {
                            Some(op) => {
                                return Ok(Token::Operator(op));
                            },
                            None => {},
                        }
                        proof {
                            letters = letters.push(c);
                        }
                        continue ;
                    }
                    return Ok(Token::Operator(c));
                }
            } else if stack.len() == 0 {
                return Ok(Token::End);
            }
            // Return integer
            return match parse_decimal(&stack) {
                Some(value) => Ok(Token::Integer(value)),
                None => {
                    self.pos = begin;
                    Err(LexError::IntegerOverflow)
                },
            };
        }
    }
}

} // verus!
