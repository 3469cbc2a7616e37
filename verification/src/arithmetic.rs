//! Integer arithmetic as the evaluators do it: exact where the result fits,
//! an error where it does not.

use vstd::prelude::*;

verus! {

/// What went wrong in an arithmetic operation.
#[derive(Debug, PartialEq, Eq, Clone, Copy)]
pub enum Fault {
    /// The divisor is zero.
    DivisionByZero,
    /// The exact result does not fit in 64 bits with a sign.
    Overflow,
}

/// The quotient of `a` by `b`, which is not zero, rounded towards zero.
pub open spec fn truncated_quotient(a: int, b: int) -> int {
    if a >= 0 && b > 0 {
        a / b
    } else if a >= 0 {
        -(a / (-b))
    } else if b > 0 {
        -((-a) / b)
    } else {
        (-a) / (-b)
    }
}

/// The exact result of an operation as a 64-bit integer, if it is one.
pub open spec fn checked(exact: int) -> Result<i64, Fault> {
    if i64::MIN <= exact <= i64::MAX {
        Ok(exact as i64)
    } else {
        Err(Fault::Overflow)
    }
}

/// The exact result of an operation as a 32-bit integer, if it is one.
pub open spec fn checked_i32(exact: int) -> Result<i32, Fault> {
    if i32::MIN <= exact <= i32::MAX {
        Ok(exact as i32)
    } else {
        Err(Fault::Overflow)
    }
}

/// The number that an integer literal denotes in a tree: its value where that
/// fits in 64 bits with a sign, and the value less 2^64 where it does not.
pub open spec fn to_signed(value: u64) -> i64 {
    if value <= i64::MAX {
        value as i64
    } else {
        (value - 0x1_0000_0000_0000_0000) as i64
    }
}

/// Computes [`to_signed`].
pub fn signed(value: u64) -> (number: i64)
    ensures
        number == to_signed(value),
{
    if value <= 0x7fff_ffff_ffff_ffff {
        value as i64
    } else {
        (value - 0x8000_0000_0000_0000) as i64 + i64::MIN
    }
}

} // verus!
