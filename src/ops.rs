//! The binary operators and their application to a stack of operands.
use vstd::prelude::*;
use crate::fixed::Fixed;

verus! {

/// A binary operator of the expression language.
#[derive(Clone, Copy, Debug, PartialEq, Eq, Structural)]
pub enum Op {
    Add,
    Sub,
    Mul,
    Div,
    Mod,
    And,
    Or,
    Xor,
    Shl,
    Shr,
}

/// Binding strength: the bitwise operators and shifts bind loosest,
/// then addition and subtraction, then multiplication, division and remainder.
pub open spec fn spec_precedence(op: Op) -> i32 {
    match op {
        Op::And | Op::Or | Op::Xor | Op::Shl | Op::Shr => 1,
        Op::Add | Op::Sub => 2,
        Op::Mul | Op::Div | Op::Mod => 3,
    }
}

/// Whether `op` divides by the right operand and that operand is zero.
pub open spec fn divides_by_zero(op: Op, rhs: Fixed) -> bool {
    (op == Op::Div || op == Op::Mod) && rhs.0 == 0
}

/// The value of `a op b`.
pub open spec fn apply_op(op: Op, a: Fixed, b: Fixed) -> Fixed {
    match op {
        Op::Add => a.spec_add(b),
        Op::Sub => a.spec_sub(b),
        Op::Mul => a.spec_mul(b),
        Op::Div => a.spec_div(b),
        Op::Mod => a.spec_rem(b),
        Op::And => Fixed(a.0 & b.0),
        Op::Or => Fixed(a.0 | b.0),
        Op::Xor => Fixed(a.0 ^ b.0),
        Op::Shl => a.spec_shl(b),
        Op::Shr => a.spec_shr(b),
    }
}

/// The operator's binding strength.
pub fn precedence(op: &Op) -> (r: i32)
    ensures
        r == spec_precedence(*op),
{
    match op {
        Op::And => 1,
        Op::Or => 1,
        Op::Xor => 1,
        Op::Shl => 1,
        Op::Shr => 1,
        Op::Add => 2,
        Op::Sub => 2,
        Op::Mul => 3,
        Op::Div => 3,
        Op::Mod => 3,
    }
}

/// `a op b`, computed by the operator of `Fixed` that `op` names.
pub fn apply(op: Op, a: Fixed, b: Fixed) -> (r: Fixed)
    requires
        !divides_by_zero(op, b),
    ensures
        r == apply_op(op, a, b),
{
    match op {
        Op::Add => a.add(b),
        Op::Sub => a.sub(b),
        Op::Mul => a.mul(b),
        Op::Div => a.div(b),
        Op::Mod => a.rem(b),
        Op::And => a.bitand(b),
        Op::Or => a.bitor(b),
        Op::Xor => a.bitxor(b),
        Op::Shl => a.shl(b),
        Op::Shr => a.shr(b),
    }
}

/// Pops the top operator and the two top operands (the right operand on top),
/// and pushes the result of applying the operator to them.
pub fn apply_top(op_stack: &mut Vec<Op>, stack: &mut Vec<Fixed>)
    requires
        old(op_stack).len() >= 1,
        old(stack).len() >= 2,
        !divides_by_zero(old(op_stack)@.last(), old(stack)@.last()),
    ensures
        final(op_stack)@ == old(op_stack)@.drop_last(),
        final(stack)@ == old(stack)@.drop_last().drop_last().push(
            apply_op(old(op_stack)@.last(), old(stack)@[old(stack)@.len() - 2], old(stack)@.last()),
        ),
{
    let op = op_stack.pop().unwrap();
    let b = stack.pop().unwrap();
    let a = stack.pop().unwrap();
    stack.push(apply(op, a, b));
}

} // verus!
