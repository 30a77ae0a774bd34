//! Operators: the tokens they are written as, and how tightly they bind.
use vstd::prelude::*;

use crate::ast::{BinOp, UnOp};
use crate::token::TokenKind;

verus! {

/// The unary operator a token is, if it is one.
pub open spec fn unary_op_of(kind: TokenKind) -> Option<UnOp> {
    match kind {
        TokenKind::Not => Some(UnOp::Not),
        TokenKind::Byte(0x2d) => Some(UnOp::Neg),
        TokenKind::Byte(0x23) => Some(UnOp::Len),
        TokenKind::Byte(0x7e) => Some(UnOp::BNot),
        _ => None,
    }
}

/// The binary operator a token is, if it is one.
pub open spec fn binary_op_of(kind: TokenKind) -> Option<BinOp> {
    match kind {
        TokenKind::Byte(0x2b) => Some(BinOp::Add),
        TokenKind::Byte(0x2d) => Some(BinOp::Sub),
        TokenKind::Byte(0x2a) => Some(BinOp::Mul),
        TokenKind::Byte(0x2f) => Some(BinOp::Div),
        TokenKind::IDiv => Some(BinOp::IDiv),
        TokenKind::Byte(0x25) => Some(BinOp::Mod),
        TokenKind::Byte(0x5e) => Some(BinOp::Pow),
        TokenKind::Concat => Some(BinOp::Concat),
        TokenKind::Eq => Some(BinOp::Eq),
        TokenKind::Ne => Some(BinOp::Ne),
        TokenKind::Byte(0x3c) => Some(BinOp::Lt),
        TokenKind::Le => Some(BinOp::Le),
        TokenKind::Byte(0x3e) => Some(BinOp::Gt),
        TokenKind::Ge => Some(BinOp::Ge),
        TokenKind::And => Some(BinOp::And),
        TokenKind::Or => Some(BinOp::Or),
        TokenKind::Byte(0x26) => Some(BinOp::BAnd),
        TokenKind::Byte(0x7c) => Some(BinOp::BOr),
        TokenKind::Byte(0x7e) => Some(BinOp::BXor),
        TokenKind::Shl => Some(BinOp::Shl),
        TokenKind::Shr => Some(BinOp::Shr),
        _ => None,
    }
}

/// Left and right binding priority, as the reference grammar ranks them.
pub open spec fn priority_of(op: BinOp) -> (u8, u8) {
    match op {
        BinOp::Or => (1, 1),
        BinOp::And => (2, 2),
        BinOp::Lt | BinOp::Gt | BinOp::Le | BinOp::Ge | BinOp::Ne | BinOp::Eq => (3, 3),
        BinOp::BOr => (4, 4),
        BinOp::BXor => (5, 5),
        BinOp::BAnd => (6, 6),
        BinOp::Shl | BinOp::Shr => (7, 7),
        BinOp::Concat => (9, 8),
        BinOp::Add | BinOp::Sub => (10, 10),
        BinOp::Mul | BinOp::Div | BinOp::IDiv | BinOp::Mod => (11, 11),
        BinOp::Pow => (14, 13),
    }
}

/// How tightly a unary operator binds its operand: above every binary operator but `^`.
pub const UNARY_PRIORITY: u8 = 12;

pub fn unary_op(kind: &TokenKind<'_>) -> (op: Option<UnOp>)
    ensures
        op == unary_op_of(*kind),
{
    match kind {
        TokenKind::Not => Some(UnOp::Not),
        TokenKind::Byte(0x2d) => Some(UnOp::Neg),
        TokenKind::Byte(0x23) => Some(UnOp::Len),
        TokenKind::Byte(0x7e) => Some(UnOp::BNot),
        _ => None,
    }
}

pub fn binary_op(kind: &TokenKind<'_>) -> (op: Option<BinOp>)
    ensures
        op == binary_op_of(*kind),
{
    match kind {
        TokenKind::Byte(0x2b) => Some(BinOp::Add),
        TokenKind::Byte(0x2d) => Some(BinOp::Sub),
        TokenKind::Byte(0x2a) => Some(BinOp::Mul),
        TokenKind::Byte(0x2f) => Some(BinOp::Div),
        TokenKind::IDiv => Some(BinOp::IDiv),
        TokenKind::Byte(0x25) => Some(BinOp::Mod),
        TokenKind::Byte(0x5e) => Some(BinOp::Pow),
        TokenKind::Concat => Some(BinOp::Concat),
        TokenKind::Eq => Some(BinOp::Eq),
        TokenKind::Ne => Some(BinOp::Ne),
        TokenKind::Byte(0x3c) => Some(BinOp::Lt),
        TokenKind::Le => Some(BinOp::Le),
        TokenKind::Byte(0x3e) => Some(BinOp::Gt),
        TokenKind::Ge => Some(BinOp::Ge),
        TokenKind::And => Some(BinOp::And),
        TokenKind::Or => Some(BinOp::Or),
        TokenKind::Byte(0x26) => Some(BinOp::BAnd),
        TokenKind::Byte(0x7c) => Some(BinOp::BOr),
        TokenKind::Byte(0x7e) => Some(BinOp::BXor),
        TokenKind::Shl => Some(BinOp::Shl),
        TokenKind::Shr => Some(BinOp::Shr),
        _ => None,
    }
}

/// Left and right binding priority. Only `..` and `^` differ between the two.
pub fn binary_priority(op: BinOp) -> (priority: (u8, u8))
    ensures
        priority == priority_of(op),
{
    match op {
        BinOp::Or => (1, 1),
        BinOp::And => (2, 2),
        BinOp::Lt | BinOp::Gt | BinOp::Le | BinOp::Ge | BinOp::Ne | BinOp::Eq => (3, 3),
        BinOp::BOr => (4, 4),
        BinOp::BXor => (5, 5),
        BinOp::BAnd => (6, 6),
        BinOp::Shl | BinOp::Shr => (7, 7),
        BinOp::Concat => (9, 8),
        BinOp::Add | BinOp::Sub => (10, 10),
        BinOp::Mul | BinOp::Div | BinOp::IDiv | BinOp::Mod => (11, 11),
        BinOp::Pow => (14, 13),
    }
}

/// Only `..` and `^` associate to the right: theirs are the only operators whose right
/// priority is below their left, and every other operator binds both sides alike.
pub proof fn lemma_right_associative_operators(op: BinOp)
    ensures
        (priority_of(op).1 < priority_of(op).0) == (op == BinOp::Concat || op == BinOp::Pow),
        !(op == BinOp::Concat || op == BinOp::Pow) ==> priority_of(op).0 == priority_of(op).1,
{
}

/// A unary operator binds tighter than every binary operator except `^`, so `-x^2` is
/// `-(x^2)` and `-x*2` is `(-x)*2`.
pub proof fn lemma_unary_binds_below_power_only(op: BinOp)
    ensures
        (UNARY_PRIORITY < priority_of(op).0) == (op == BinOp::Pow),
{
}

/// The tokens `-` and `~` are the only ones that are both a unary and a binary operator.
pub proof fn lemma_tokens_with_two_readings(kind: TokenKind)
    ensures
        (unary_op_of(kind) is Some && binary_op_of(kind) is Some) == (kind == TokenKind::Byte(0x2d)
            || kind == TokenKind::Byte(0x7e)),
{
}

/// The precedence ladder, loosest first: `or`, `and`, the six comparisons, `|`, `~`, `&`,
/// the shifts, `..`, `+ -`, `* / // %`, the unary operators, `^`. The operators of one rung
/// bind alike; all of them group to the left but `..` and `^`, which group to the right, and
/// the right operand of `^` may itself start with a unary operator.
pub proof fn lemma_precedence_ladder()
    ensures
        priority_of(BinOp::Or).0 < priority_of(BinOp::And).0,
        priority_of(BinOp::And).0 < priority_of(BinOp::Eq).0,
        priority_of(BinOp::Lt) == priority_of(BinOp::Eq),
        priority_of(BinOp::Gt) == priority_of(BinOp::Eq),
        priority_of(BinOp::Le) == priority_of(BinOp::Eq),
        priority_of(BinOp::Ge) == priority_of(BinOp::Eq),
        priority_of(BinOp::Ne) == priority_of(BinOp::Eq),
        priority_of(BinOp::Eq).0 < priority_of(BinOp::BOr).0,
        priority_of(BinOp::BOr).0 < priority_of(BinOp::BXor).0,
        priority_of(BinOp::BXor).0 < priority_of(BinOp::BAnd).0,
        priority_of(BinOp::BAnd).0 < priority_of(BinOp::Shl).0,
        priority_of(BinOp::Shr) == priority_of(BinOp::Shl),
        priority_of(BinOp::Shl).0 < priority_of(BinOp::Concat).1,
        priority_of(BinOp::Concat).0 < priority_of(BinOp::Add).0,
        priority_of(BinOp::Sub) == priority_of(BinOp::Add),
        priority_of(BinOp::Add).0 < priority_of(BinOp::Mul).0,
        priority_of(BinOp::Div) == priority_of(BinOp::Mul),
        priority_of(BinOp::IDiv) == priority_of(BinOp::Mul),
        priority_of(BinOp::Mod) == priority_of(BinOp::Mul),
        priority_of(BinOp::Mul).0 < UNARY_PRIORITY,
        UNARY_PRIORITY < priority_of(BinOp::Pow).1,
        forall|op: BinOp| !(op is Concat) && !(op is Pow) ==> #[trigger] priority_of(op).0 == priority_of(op).1,
        priority_of(BinOp::Concat).1 < priority_of(BinOp::Concat).0,
        priority_of(BinOp::Pow).1 < priority_of(BinOp::Pow).0,
{
}

} // verus!
