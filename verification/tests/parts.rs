//! The parts of the compiler that can be used alone.

use lua_compiler::compiler::operators::{
    ComparisonBinOp, RegisterOrConstant, SimpleBinOp, ShortCircuitBinOp, BinOpCategory,
    categorize_binop, unop_const_fold, simple_binop_const_fold, comparison_binop_const_fold,
    unop_opcode, simple_binop_opcode, comparison_binop_opcode,
};
use lua_compiler::compiler::register_allocator::RegisterAllocator;
use lua_compiler::opcode::{ConstantIndex8, OpCode, RegisterIndex, VarCount};
use lua_compiler::parser::{BinaryOperator, UnaryOperator};
use lua_compiler::value::Value;

#[test]
fn registers_are_handed_out_from_the_lowest() {
    let mut a = RegisterAllocator::new();
    assert_eq!(a.allocate(), Some(RegisterIndex(0)));
    assert_eq!(a.allocate(), Some(RegisterIndex(1)));
    assert_eq!(a.allocate(), Some(RegisterIndex(2)));
    a.free(RegisterIndex(1));
    assert!(!a.is_used(RegisterIndex(1)));
    assert!(a.is_used(RegisterIndex(2)));
    assert_eq!(a.stack_top(), 3);
    assert_eq!(a.allocate(), Some(RegisterIndex(1)));
    assert_eq!(a.stack_size(), 3);
}

#[test]
fn blocks_are_handed_out_at_the_top() {
    let mut a = RegisterAllocator::new();
    assert_eq!(a.push(3), Some(RegisterIndex(0)));
    a.free(RegisterIndex(0));
    assert_eq!(a.push(2), Some(RegisterIndex(3)));
    a.pop_to(3);
    assert_eq!(a.stack_top(), 3);
    assert_eq!(a.stack_size(), 5);
    assert_eq!(a.push(0), None);
    assert_eq!(a.push(253), Some(RegisterIndex(3)));
    assert_eq!(a.push(1), None);
    assert_eq!(a.allocate(), Some(RegisterIndex(0)));
    assert_eq!(a.allocate(), None);
}

#[test]
fn a_popped_top_stays_until_it_is_asked_for() {
    let mut a = RegisterAllocator::new();
    assert_eq!(a.push(4), Some(RegisterIndex(0)));
    a.free(RegisterIndex(1));
    a.free(RegisterIndex(2));
    a.pop_to(3);
    assert_eq!(a.push(1), Some(RegisterIndex(3)));
    a.pop_to(3);
    assert_eq!(a.stack_top(), 1);
    assert_eq!(a.push(1), Some(RegisterIndex(1)));
}

#[test]
fn counts_of_arguments_and_results() {
    assert_eq!(VarCount::make_variable().to_constant(), None);
    assert_eq!(VarCount::make_zero().to_constant(), Some(0));
    assert_eq!(VarCount::make_one().to_constant(), Some(1));
    assert_eq!(VarCount::make_constant(254).unwrap().to_constant(), Some(254));
    assert_eq!(VarCount::make_constant(255), None);
}

#[test]
fn operators_by_category() {
    assert_eq!(
        categorize_binop(BinaryOperator::IDiv),
        BinOpCategory::Simple(SimpleBinOp::IDiv)
    );
    assert_eq!(
        categorize_binop(BinaryOperator::GreaterEqual),
        BinOpCategory::Comparison(ComparisonBinOp::GreaterEqual)
    );
    assert_eq!(
        categorize_binop(BinaryOperator::Or),
        BinOpCategory::ShortCircuit(ShortCircuitBinOp::Or)
    );
    assert_eq!(categorize_binop(BinaryOperator::Concat), BinOpCategory::Concat);
}

#[test]
fn unary_operators_on_constants() {
    assert_eq!(
        unop_const_fold(UnaryOperator::Not, Value::Integer(0)),
        Some(Value::Boolean(false))
    );
    assert_eq!(
        unop_const_fold(UnaryOperator::Not, Value::Boolean(false)),
        Some(Value::Boolean(true))
    );
    assert_eq!(
        unop_const_fold(UnaryOperator::Minus, Value::Integer(5)),
        Some(Value::Integer(-5))
    );
    assert_eq!(
        unop_const_fold(UnaryOperator::Minus, Value::Integer(i64::MIN)),
        Some(Value::Integer(i64::MIN))
    );
    assert_eq!(
        unop_const_fold(UnaryOperator::BitNot, Value::Integer(0)),
        Some(Value::Integer(-1))
    );
    assert_eq!(unop_const_fold(UnaryOperator::Len, Value::String(b"abc")), None);
}

#[test]
fn binary_operators_on_constants() {
    let fold = |op, a, b| simple_binop_const_fold(op, Value::Integer(a), Value::Integer(b));
    assert_eq!(fold(SimpleBinOp::Add, i64::MAX, 1), Some(Value::Integer(i64::MIN)));
    assert_eq!(fold(SimpleBinOp::Sub, 3, 5), Some(Value::Integer(-2)));
    assert_eq!(fold(SimpleBinOp::Mul, 6, 7), Some(Value::Integer(42)));
    assert_eq!(
        simple_binop_const_fold(SimpleBinOp::Add, Value::Nil, Value::Integer(1)),
        None
    );
}

#[test]
fn comparisons_of_constants() {
    let fold = |op, a, b| comparison_binop_const_fold(op, Value::Integer(a), Value::Integer(b));
    assert_eq!(fold(ComparisonBinOp::LessThan, 1, 2), Some(Value::Boolean(true)));
    assert_eq!(fold(ComparisonBinOp::GreaterEqual, 1, 2), Some(Value::Boolean(false)));
    assert_eq!(fold(ComparisonBinOp::NotEqual, 1, 1), Some(Value::Boolean(false)));
}

#[test]
fn instructions_of_operators() {
    let left = RegisterOrConstant::Register(RegisterIndex(4));
    let right = RegisterOrConstant::Constant(ConstantIndex8(9));
    let dest = RegisterIndex(1);
    let source = RegisterIndex(2);
    assert_eq!(unop_opcode(UnaryOperator::Len, dest, source), OpCode::Length { dest, source });
    assert_eq!(
        simple_binop_opcode(SimpleBinOp::Exp, dest, left, right),
        OpCode::Simple { op: SimpleBinOp::Exp, dest, left, right }
    );
    assert_eq!(
        comparison_binop_opcode(ComparisonBinOp::Equal, left, right),
        OpCode::Compare { op: ComparisonBinOp::Equal, left, right }
    );
}

#[test]
fn which_constants_are_the_same() {
    assert!(Value::String(b"ab").same_constant(&Value::String(b"ab")));
    assert!(!Value::String(b"ab").same_constant(&Value::String(b"ac")));
    assert!(!Value::Integer(1).same_constant(&Value::Number(1.0f64.to_bits())));
    assert!(!Value::Number(0.0f64.to_bits()).same_constant(&Value::Number((-0.0f64).to_bits())));
    assert!(Value::Nil.same_constant(&Value::Nil));
    assert!(!Value::Boolean(true).same_constant(&Value::Boolean(false)));
}
