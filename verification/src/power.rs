//! The binding powers of the operator symbols.
//!
//! A higher power binds tighter. An infix operator has a left and a right
//! power: the left one is smaller for an operator that groups to the left,
//! the right one is smaller for an operator that groups to the right.

use vstd::prelude::*;

verus! {

/// The right power of `op` as a prefix operator, if it is one.
pub open spec fn prefix_power(op: char) -> Option<u8> {
    if op == '+' || op == '-' {
        Some(9u8)
    } else {
        None
    }
}

/// The left power of `op` as a postfix operator, if it is one.
pub open spec fn postfix_power(op: char) -> Option<u8> {
    if op == '!' || op == '[' {
        Some(11u8)
    } else {
        None
    }
}

/// The left and right power of `op` as an infix operator, if it is one.
pub open spec fn infix_power(op: char) -> Option<(u8, u8)> {
    if op == '=' {
        Some((2u8, 1u8))
    } else if op == '?' {
        Some((4u8, 3u8))
    } else if op == '+' || op == '-' {
        Some((5u8, 6u8))
    } else if op == '*' || op == '/' {
        Some((7u8, 8u8))
    } else if op == '.' {
        Some((14u8, 13u8))
    } else {
        None
    }
}

/// The power with which `op` takes the operand before it, as a postfix or as
/// an infix operator.
pub open spec fn left_power(op: char) -> Option<u8> {
    match postfix_power(op) {
        Some(left_bp) => Some(left_bp),
        None => match infix_power(op) {
            Some((left_bp, _)) => Some(left_bp),
            None => None,
        },
    }
}

/// The left power of `op` as an infix operator.
pub open spec fn infix_left(op: char) -> u8
    recommends
        infix_power(op) is Some,
{
    let (left_bp, _) = infix_power(op)->0;
    left_bp
}

/// The right power of `op` as an infix operator.
pub open spec fn infix_right(op: char) -> u8
    recommends
        infix_power(op) is Some,
{
    let (_, right_bp) = infix_power(op)->0;
    right_bp
}

/// Every power is positive; the two powers of an infix operator are
/// neighbours, so that each operator groups to one side; and no symbol is both
/// a postfix and an infix operator.
pub proof fn lemma_power_table(op: char)
    ensures
        prefix_power(op) is Some ==> prefix_power(op)->0 >= 1,
        postfix_power(op) is Some ==> postfix_power(op)->0 >= 1,
        infix_power(op) is Some ==> {
            &&& infix_left(op) >= 1
            &&& infix_right(op) >= 1
            &&& (infix_left(op) + 1 == infix_right(op) || infix_right(op) + 1 == infix_left(op))
        },
        !(postfix_power(op) is Some && infix_power(op) is Some),
{
}

/// The right power of `op` as a prefix operator, if it is one.
pub fn prefix_binding_power(op: char) -> (res: Option<u8>)
    ensures
        res == prefix_power(op),
{
    match op {
        '+' | '-' => Some(9),
        _ => None,
    }
}

/// The left power of `op` as a postfix operator, if it is one.
pub fn postfix_binding_power(op: char) -> (res: Option<u8>)
    ensures
        res == postfix_power(op),
{
    match op {
        '!' | '[' => Some(11),
        _ => None,
    }
}

/// The left and right power of `op` as an infix operator, if it is one.
pub fn infix_binding_power(op: char) -> (res: Option<(u8, u8)>)
    ensures
        res == infix_power(op),
{
    match op {
        '=' => Some((2, 1)),
        '?' => Some((4, 3)),
        '+' | '-' => Some((5, 6)),
        '*' | '/' => Some((7, 8)),
        '.' => Some((14, 13)),
        _ => None,
    }
}

} // verus!
