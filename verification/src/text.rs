//! Characters and runs of characters: the classes that the lexers tell
//! apart, the value of a run of digits, and how a string grows.

use vstd::prelude::*;

verus! {

/// The base in which integer literals are written.
pub const RADIX: u64 = 10;

/// Whether `c` is alphabetic as `char::is_alphabetic` decides it, by the
/// Unicode property `Alphabetic`. No contract says which characters these
/// are.
pub uninterp spec fn is_alphabetic(c: char) -> bool;

/// Calls `char::is_alphabetic`. The contract gives its answer the name
/// [`is_alphabetic`] and claims nothing else of it.
#[verifier::external_body]
pub(crate) fn char_is_alphabetic(c: char) -> (answer: bool)
    ensures
        answer == is_alphabetic(c),
{
    c.is_alphabetic()
}

/// Whether `c` is white space: the space, the tab, the line and page breaks
/// of ASCII, and the other characters that Unicode gives the property
/// `White_Space`.
pub open spec fn is_whitespace(c: char) -> bool {
    let code = c as int;
    ||| 0x09 <= code <= 0x0D
    ||| code == 0x20
    ||| code == 0x85
    ||| code == 0xA0
    ||| code == 0x1680
    ||| 0x2000 <= code <= 0x200A
    ||| code == 0x2028
    ||| code == 0x2029
    ||| code == 0x202F
    ||| code == 0x205F
    ||| code == 0x3000
}

/// The classes of characters that the lexer consumes in runs.
pub enum CharClass {
    /// The blanks that separate tokens: see [`is_whitespace`].
    Space,
    /// The digits `0` to `9`.
    Digit,
    /// The characters of identifiers.
    Alphabetic,
}

impl CharClass {
    pub open spec fn contains(self, c: char) -> bool {
        match self {
            CharClass::Space => is_whitespace(c),
            CharClass::Digit => '0' <= c && c <= '9',
            CharClass::Alphabetic => is_alphabetic(c),
        }
    }
}

/// Where the longest run of characters of `class` that starts at `p` ends.
pub open spec fn run_end(s: Seq<char>, p: int, class: CharClass) -> int
    decreases s.len() - p,
{
    if 0 <= p < s.len() && class.contains(s[p]) {
        run_end(s, p + 1, class)
    } else {
        p
    }
}

/// The number a digit stands for.
pub open spec fn digit_value(c: char) -> nat {
    (c as int - '0' as int) as nat
}

/// The number that a sequence of digits denotes in base [`RADIX`], the most
/// significant digit first.
pub open spec fn decimal_value(digits: Seq<char>) -> nat
    decreases digits.len(),
{
    if digits.len() == 0 {
        0
    } else {
        RADIX as nat * decimal_value(digits.drop_last()) + digit_value(digits.last())
    }
}

/// A run ends between its start and the end of the text, holds only
/// characters of its class, and stops at the first character that is not of
/// the class: the lexer takes the longest match.
pub proof fn lemma_run_end_longest(s: Seq<char>, p: int, class: CharClass)
    requires
        0 <= p <= s.len(),
    ensures
        p <= run_end(s, p, class) <= s.len(),
        forall|k: int| p <= k < run_end(s, p, class) ==> class.contains(#[trigger] s[k]),
        run_end(s, p, class) < s.len() ==> !class.contains(s[run_end(s, p, class)]),
    decreases s.len() - p,
{
    if p < s.len() && class.contains(s[p]) {
        lemma_run_end_longest(s, p + 1, class);
    }
}

/// The only position that bounds a run as [`lemma_run_end_longest`] says is
/// its end.
pub proof fn lemma_run_end_unique(s: Seq<char>, p: int, e: int, class: CharClass)
    requires
        0 <= p <= e <= s.len(),
        forall|k: int| p <= k < e ==> class.contains(#[trigger] s[k]),
        e < s.len() ==> !class.contains(s[e]),
    ensures
        run_end(s, p, class) == e,
    decreases e - p,
{
    if p < e {
        lemma_run_end_unique(s, p + 1, e, class);
    }
}

/// Appending one digit multiplies the value by the radix and adds the digit.
pub proof fn lemma_decimal_value_step(s: Seq<char>, from: int, to: int)
    requires
        0 <= from <= to < s.len(),
    ensures
        decimal_value(s.subrange(from, to + 1)) == RADIX * decimal_value(s.subrange(from, to))
            + digit_value(s[to]),
{
    let longer = s.subrange(from, to + 1);
    assert(longer.drop_last() =~= s.subrange(from, to));
    assert(longer.last() == s[to]);
}

/// More digits never denote a smaller number.
pub proof fn lemma_decimal_value_grows(s: Seq<char>, from: int, mid: int, to: int)
    requires
        0 <= from <= mid <= to <= s.len(),
    ensures
        decimal_value(s.subrange(from, mid)) <= decimal_value(s.subrange(from, to)),
    decreases to - mid,
{
    if mid < to {
        lemma_decimal_value_grows(s, from, mid, to - 1);
        lemma_decimal_value_step(s, from, to - 1);
    }
}

/// The characters of `s`, in order.
pub(crate) fn chars_of(s: &str) -> (chars: Vec<char>)
    ensures
        chars@ == s@,
{
    let mut chars: Vec<char> = Vec::new();
    let source = s.chars();
    for c in iter: source
        invariant
            chars@ == iter.seq().take(iter.index() as int),
    {
        chars.push(c);
    }
    chars
}

/// Whether `c` is white space.
pub(crate) fn is_blank(c: char) -> (answer: bool)
    ensures
        answer == CharClass::Space.contains(c),
{
    let code = c as u32;
    (0x09 <= code && code <= 0x0D) || code == 0x20 || code == 0x85 || code == 0xA0 || code
        == 0x1680 || (0x2000 <= code && code <= 0x200A) || code == 0x2028 || code == 0x2029
        || code == 0x202F || code == 0x205F || code == 0x3000
}

/// Whether `c` is one of the digits `0` to `9`.
pub(crate) fn is_digit(c: char) -> (answer: bool)
    ensures
        answer == CharClass::Digit.contains(c),
{
    '0' <= c && c <= '9'
}

/// The number a digit stands for.
pub(crate) fn digit_of(c: char) -> (digit: u64)
    requires
        CharClass::Digit.contains(c),
    ensures
        digit == digit_value(c),
{
    (c as u32 - '0' as u32) as u64
}

/// The number that `digits` denotes, unless it does not fit in 64 bits.
pub(crate) fn parse_decimal(digits: &Vec<char>) -> (value: Option<u64>)
    requires
        forall|i: int| 0 <= i < digits.len() ==> CharClass::Digit.contains(#[trigger] digits[i]),
    ensures
        value == if decimal_value(digits@) <= u64::MAX {
            Some(decimal_value(digits@) as u64)
        } else {
            None
        },
{
    let mut value: u64 = 0;
    let mut i: usize = 0;
    assert(digits@.subrange(0, 0) =~= Seq::<char>::empty());
    assert(digits@.subrange(0, digits.len() as int) =~= digits@);
    while i < digits.len()
        invariant
            i <= digits.len(),
            forall|k: int|
                0 <= k < digits.len() ==> CharClass::Digit.contains(#[trigger] digits[k]),
            value == decimal_value(digits@.subrange(0, i as int)),
            digits@.subrange(0, digits.len() as int) == digits@,
        decreases digits.len() - i,
    {
        let digit = digit_of(digits[i]);
        proof {
            lemma_decimal_value_step(digits@, 0, i as int);
            lemma_decimal_value_grows(digits@, 0, i + 1, digits.len() as int);
        }
        let scaled = match value.checked_mul(RADIX) {
            Some(scaled) => scaled,
            None => {
                return None;
            },
        };
        value = match scaled.checked_add(digit) {
            Some(next) => next,
            None => {
                return None;
            },
        };
        i += 1;
    }
    Some(value)
}

/// The lower-case form of an upper-case letter of the Latin alphabet; any
/// other character is left as it is.
pub open spec fn lowercase(c: char) -> char {
    if 'A' <= c && c <= 'Z' {
        ((c as int) + 32) as char
    } else {
        c
    }
}

/// Computes [`lowercase`].
pub(crate) fn to_lowercase(c: char) -> (lower: char)
    ensures
        lower == lowercase(c),
{
    if 'A' <= c && c <= 'Z' {
        ((c as u8) + 32) as char
    } else {
        c
    }
}

/// The character that writes the digit `d`.
pub open spec fn digit_char(d: nat) -> char
    recommends
        d < 10,
{
    (d + '0' as nat) as char
}

/// The digits that write `n` in base ten, the most significant first, with
/// no leading zero.
pub open spec fn decimal_digits(n: nat) -> Seq<char>
    decreases n,
{
    if n < 10 {
        seq![digit_char(n)]
    } else {
        decimal_digits(n / 10).push(digit_char(n % 10))
    }
}

/// How an integer is written in base ten: its digits, behind a `-` where it
/// is negative.
pub open spec fn decimal(i: int) -> Seq<char> {
    if i < 0 {
        seq!['-'] + decimal_digits((-i) as nat)
    } else {
        decimal_digits(i as nat)
    }
}

/// The digits of a number are digits, at least one, and denote the number.
pub proof fn lemma_decimal_digits(n: nat)
    ensures
        decimal_digits(n).len() > 0,
        forall|i: int|
            0 <= i < decimal_digits(n).len() ==> CharClass::Digit.contains(
                #[trigger] decimal_digits(n)[i],
            ),
        decimal_value(decimal_digits(n)) == n,
    decreases n,
{
    let digits = decimal_digits(n);
    if n < 10 {
        assert(digits.drop_last() =~= Seq::<char>::empty());
        assert(decimal_value(digits.drop_last()) == 0);
        assert(digits.last() == digit_char(n));
    } else {
        lemma_decimal_digits(n / 10);
        assert(digits.drop_last() =~= decimal_digits(n / 10));
        assert(digits.last() == digit_char(n % 10));
    }
}

/// Appends the digits of `n` to `text`.
pub(crate) fn push_digits(text: &mut String, n: u64)
    ensures
        final(text)@ == old(text)@ + decimal_digits(n as nat),
    decreases n,
{
    if n >= 10 {
        push_digits(text, n / 10);
    }
    let digit = (n % 10) as u8;
    push_char(text, (48u8 + digit) as char);
    assert(text@ =~= old(text)@ + decimal_digits(n as nat));
}

/// Appends `value`, written in base ten, to `text`.
pub(crate) fn push_decimal(text: &mut String, value: i64)
    ensures
        final(text)@ == old(text)@ + decimal(value as int),
{
    if value < 0 {
        push_char(text, '-');
        let magnitude: u64 = ((-(value + 1)) as u64) + 1;
        push_digits(text, magnitude);
        assert(text@ =~= old(text)@ + decimal(value as int));
    } else {
        push_digits(text, value as u64);
    }
}

/// Appends `c` to `text` by `String::push`. The contract claims, without
/// proof, that the characters of `text` afterwards are those it held before,
/// followed by `c`.
#[verifier::external_body]
pub(crate) fn push_char(text: &mut String, c: char)
    ensures
        final(text)@ == old(text)@.push(c),
{
    text.push(c)
}

} // verus!
