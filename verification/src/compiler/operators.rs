//! Operators: how they are grouped, which of them are computed at compile time, and the
//! instructions that they become.

use crate::opcode::{ConstantIndex8, OpCode, RegisterIndex};
use crate::parser::{BinaryOperator, UnaryOperator};
use crate::value::{Value, ValueView};
use vstd::prelude::*;

verus! {

/// An operand: a register, or one of the first 256 constants.
#[derive(Debug, Clone, Copy, PartialEq, Eq, Structural)]
pub enum RegisterOrConstant {
    Register(RegisterIndex),
    Constant(ConstantIndex8),
}

/// An operator that has both operands evaluated and yields any value.
#[derive(Debug, Clone, Copy, PartialEq, Eq, Structural)]
pub enum SimpleBinOp {
    Add,
    Sub,
    Mul,
    Mod,
    Exp,
    Div,
    IDiv,
    BitAnd,
    BitOr,
    BitXor,
    ShiftLeft,
    ShiftRight,
}

/// An operator that yields a boolean.
#[derive(Debug, Clone, Copy, PartialEq, Eq, Structural)]
pub enum ComparisonBinOp {
    NotEqual,
    Equal,
    LessThan,
    LessEqual,
    GreaterThan,
    GreaterEqual,
}

/// An operator that may leave its right operand unevaluated.
#[derive(Debug, Clone, Copy, PartialEq, Eq, Structural)]
pub enum ShortCircuitBinOp {
    And,
    Or,
}

#[derive(Debug, Clone, Copy, PartialEq, Eq, Structural)]
pub enum BinOpCategory {
    Simple(SimpleBinOp),
    Comparison(ComparisonBinOp),
    ShortCircuit(ShortCircuitBinOp),
    Concat,
}

/// The group that a binary operator belongs to.
pub open spec fn category(binop: BinaryOperator) -> BinOpCategory {
    match binop {
        BinaryOperator::Add => BinOpCategory::Simple(SimpleBinOp::Add),
        BinaryOperator::Sub => BinOpCategory::Simple(SimpleBinOp::Sub),
        BinaryOperator::Mul => BinOpCategory::Simple(SimpleBinOp::Mul),
        BinaryOperator::Mod => BinOpCategory::Simple(SimpleBinOp::Mod),
        BinaryOperator::Exp => BinOpCategory::Simple(SimpleBinOp::Exp),
        BinaryOperator::Div => BinOpCategory::Simple(SimpleBinOp::Div),
        BinaryOperator::IDiv => BinOpCategory::Simple(SimpleBinOp::IDiv),
        BinaryOperator::BitAnd => BinOpCategory::Simple(SimpleBinOp::BitAnd),
        BinaryOperator::BitOr => BinOpCategory::Simple(SimpleBinOp::BitOr),
        BinaryOperator::BitXor => BinOpCategory::Simple(SimpleBinOp::BitXor),
        BinaryOperator::ShiftLeft => BinOpCategory::Simple(SimpleBinOp::ShiftLeft),
        BinaryOperator::ShiftRight => BinOpCategory::Simple(SimpleBinOp::ShiftRight),
        BinaryOperator::Concat => BinOpCategory::Concat,
        BinaryOperator::NotEqual => BinOpCategory::Comparison(ComparisonBinOp::NotEqual),
        BinaryOperator::Equal => BinOpCategory::Comparison(ComparisonBinOp::Equal),
        BinaryOperator::LessThan => BinOpCategory::Comparison(ComparisonBinOp::LessThan),
        BinaryOperator::LessEqual => BinOpCategory::Comparison(ComparisonBinOp::LessEqual),
        BinaryOperator::GreaterThan => BinOpCategory::Comparison(ComparisonBinOp::GreaterThan),
        BinaryOperator::GreaterEqual => BinOpCategory::Comparison(ComparisonBinOp::GreaterEqual),
        BinaryOperator::And => BinOpCategory::ShortCircuit(ShortCircuitBinOp::And),
        BinaryOperator::Or => BinOpCategory::ShortCircuit(ShortCircuitBinOp::Or),
    }
}

pub fn categorize_binop(binop: BinaryOperator) -> (group: BinOpCategory)
    ensures
        group == category(binop),
{
    match binop {
        BinaryOperator::Add => BinOpCategory::Simple(SimpleBinOp::Add),
        BinaryOperator::Sub => BinOpCategory::Simple(SimpleBinOp::Sub),
        BinaryOperator::Mul => BinOpCategory::Simple(SimpleBinOp::Mul),
        BinaryOperator::Mod => BinOpCategory::Simple(SimpleBinOp::Mod),
        BinaryOperator::Exp => BinOpCategory::Simple(SimpleBinOp::Exp),
        BinaryOperator::Div => BinOpCategory::Simple(SimpleBinOp::Div),
        BinaryOperator::IDiv => BinOpCategory::Simple(SimpleBinOp::IDiv),
        BinaryOperator::BitAnd => BinOpCategory::Simple(SimpleBinOp::BitAnd),
        BinaryOperator::BitOr => BinOpCategory::Simple(SimpleBinOp::BitOr),
        BinaryOperator::BitXor => BinOpCategory::Simple(SimpleBinOp::BitXor),
        BinaryOperator::ShiftLeft => BinOpCategory::Simple(SimpleBinOp::ShiftLeft),
        BinaryOperator::ShiftRight => BinOpCategory::Simple(SimpleBinOp::ShiftRight),
        BinaryOperator::Concat => BinOpCategory::Concat,
        BinaryOperator::NotEqual => BinOpCategory::Comparison(ComparisonBinOp::NotEqual),
        BinaryOperator::Equal => BinOpCategory::Comparison(ComparisonBinOp::Equal),
        BinaryOperator::LessThan => BinOpCategory::Comparison(ComparisonBinOp::LessThan),
        BinaryOperator::LessEqual => BinOpCategory::Comparison(ComparisonBinOp::LessEqual),
        BinaryOperator::GreaterThan => BinOpCategory::Comparison(ComparisonBinOp::GreaterThan),
        BinaryOperator::GreaterEqual => BinOpCategory::Comparison(ComparisonBinOp::GreaterEqual),
        BinaryOperator::And => BinOpCategory::ShortCircuit(ShortCircuitBinOp::And),
        BinaryOperator::Or => BinOpCategory::ShortCircuit(ShortCircuitBinOp::Or),
    }
}

/// What a unary operator yields on a constant, where that is known at compile time: `not` on
/// every constant, the arithmetic ones on integers, where they wrap around.
pub open spec fn unop_fold(unop: UnaryOperator, value: ValueView) -> Option<ValueView> {
    match (unop, value) {
        (UnaryOperator::Not, v) => Some(
            ValueView::Boolean(v == ValueView::Nil || v == ValueView::Boolean(false)),
        ),
        (UnaryOperator::Minus, ValueView::Integer(i)) => Some(
            ValueView::Integer(0i64.wrapping_sub(i)),
        ),
        (UnaryOperator::BitNot, ValueView::Integer(i)) => Some(ValueView::Integer(!i)),
        _ => None,
    }
}

pub fn unop_const_fold<'a>(unop: UnaryOperator, value: Value<'a>) -> (folded: Option<Value<'a>>)
    ensures
        folded matches Some(v) ==> unop_fold(unop, value@) == Some(v@),
        folded is None ==> unop_fold(unop, value@) is None,
{
    match (unop, value) {
        (UnaryOperator::Not, Value::Nil) => Some(Value::Boolean(true)),
        (UnaryOperator::Not, Value::Boolean(b)) => Some(Value::Boolean(!b)),
        (UnaryOperator::Not, _) => Some(Value::Boolean(false)),
        (UnaryOperator::Minus, Value::Integer(i)) => Some(Value::Integer(0i64.wrapping_sub(i))),
        (UnaryOperator::BitNot, Value::Integer(i)) => Some(Value::Integer(!i)),
        _ => None,
    }
}

/// What a simple operator yields on two constants, where that is known at compile time: sums,
/// differences and products of integers, which wrap around, and their bitwise combinations.
pub open spec fn simple_fold(op: SimpleBinOp, left: ValueView, right: ValueView) -> Option<
    ValueView,
> {
    match (left, right) {
        (ValueView::Integer(a), ValueView::Integer(b)) => match op {
            SimpleBinOp::Add => Some(ValueView::Integer(a.wrapping_add(b))),
            SimpleBinOp::Sub => Some(ValueView::Integer(a.wrapping_sub(b))),
            SimpleBinOp::Mul => Some(ValueView::Integer(a.wrapping_mul(b))),
            SimpleBinOp::BitAnd => Some(ValueView::Integer(a & b)),
            SimpleBinOp::BitOr => Some(ValueView::Integer(a | b)),
            SimpleBinOp::BitXor => Some(ValueView::Integer(a ^ b)),
            _ => None,
        },
        _ => None,
    }
}

pub fn simple_binop_const_fold<'a>(op: SimpleBinOp, left: Value<'a>, right: Value<'a>) -> (folded:
    Option<Value<'a>>)
    ensures
        folded matches Some(v) ==> simple_fold(op, left@, right@) == Some(v@),
        folded is None ==> simple_fold(op, left@, right@) is None,
{
    match (left, right) {
        (Value::Integer(a), Value::Integer(b)) => match op {
            SimpleBinOp::Add => Some(Value::Integer(a.wrapping_add(b))),
            SimpleBinOp::Sub => Some(Value::Integer(a.wrapping_sub(b))),
            SimpleBinOp::Mul => Some(Value::Integer(a.wrapping_mul(b))),
            SimpleBinOp::BitAnd => Some(Value::Integer(a & b)),
            SimpleBinOp::BitOr => Some(Value::Integer(a | b)),
            SimpleBinOp::BitXor => Some(Value::Integer(a ^ b)),
            _ => None,
        },
        _ => None,
    }
}

/// What a comparison yields on two constants, where that is known at compile time: every
/// comparison of integers, and equality of constants that are no floating point numbers.
pub open spec fn comparison_fold(
    op: ComparisonBinOp,
    left: ValueView,
    right: ValueView,
) -> Option<ValueView> {
    match (left, right) {
        (ValueView::Integer(a), ValueView::Integer(b)) => Some(
            ValueView::Boolean(
                match op {
                    ComparisonBinOp::NotEqual => a != b,
                    ComparisonBinOp::Equal => a == b,
                    ComparisonBinOp::LessThan => a < b,
                    ComparisonBinOp::LessEqual => a <= b,
                    ComparisonBinOp::GreaterThan => a > b,
                    ComparisonBinOp::GreaterEqual => a >= b,
                },
            ),
        ),
        (ValueView::Number(_), _) => None,
        (_, ValueView::Number(_)) => None,
        _ => match op {
            ComparisonBinOp::NotEqual => Some(ValueView::Boolean(left != right)),
            ComparisonBinOp::Equal => Some(ValueView::Boolean(left == right)),
            _ => None,
        },
    }
}

pub fn comparison_binop_const_fold<'a>(
    op: ComparisonBinOp,
    left: Value<'a>,
    right: Value<'a>,
) -> (folded: Option<Value<'a>>)
    ensures
        folded matches Some(v) ==> comparison_fold(op, left@, right@) == Some(v@),
        folded is None ==> comparison_fold(op, left@, right@) is None,
{
    match (left, right) {
        (Value::Integer(a), Value::Integer(b)) => Some(
            Value::Boolean(
                match op {
                    ComparisonBinOp::NotEqual => a != b,
                    ComparisonBinOp::Equal => a == b,
                    ComparisonBinOp::LessThan => a < b,
                    ComparisonBinOp::LessEqual => a <= b,
                    ComparisonBinOp::GreaterThan => a > b,
                    ComparisonBinOp::GreaterEqual => a >= b,
                },
            ),
        ),
        (Value::Number(_), _) => None,
        (_, Value::Number(_)) => None,
        _ => match op {
            ComparisonBinOp::NotEqual => Some(Value::Boolean(!left.same_constant(&right))),
            ComparisonBinOp::Equal => Some(Value::Boolean(left.same_constant(&right))),
            _ => None,
        },
    }
}

/// The instruction of a unary operator.
pub open spec fn unop_instruction(
    unop: UnaryOperator,
    dest: RegisterIndex,
    source: RegisterIndex,
) -> OpCode {
    match unop {
        UnaryOperator::Not => OpCode::Not { dest, source },
        UnaryOperator::Minus => OpCode::Minus { dest, source },
        UnaryOperator::BitNot => OpCode::BitNot { dest, source },
        UnaryOperator::Len => OpCode::Length { dest, source },
    }
}

pub fn unop_opcode(unop: UnaryOperator, dest: RegisterIndex, source: RegisterIndex) -> (op: OpCode)
    ensures
        op == unop_instruction(unop, dest, source),
{
    match unop {
        UnaryOperator::Not => OpCode::Not { dest, source },
        UnaryOperator::Minus => OpCode::Minus { dest, source },
        UnaryOperator::BitNot => OpCode::BitNot { dest, source },
        UnaryOperator::Len => OpCode::Length { dest, source },
    }
}

pub fn simple_binop_opcode(
    op: SimpleBinOp,
    dest: RegisterIndex,
    left: RegisterOrConstant,
    right: RegisterOrConstant,
) -> (opcode: OpCode)
    ensures
        opcode == (OpCode::Simple { op, dest, left, right }),
{
    OpCode::Simple { op, dest, left, right }
}

pub fn comparison_binop_opcode(
    op: ComparisonBinOp,
    left: RegisterOrConstant,
    right: RegisterOrConstant,
) -> (opcode: OpCode)
    ensures
        opcode == (OpCode::Compare { op, left, right }),
{
    OpCode::Compare { op, left, right }
}

} // verus!
