//! Instructions of the register machine.

use crate::compiler::operators::{ComparisonBinOp, RegisterOrConstant, SimpleBinOp};
use vstd::prelude::*;

verus! {

/// One of the 256 registers of a function.
#[derive(Debug, Clone, Copy, PartialEq, Eq, Structural)]
pub struct RegisterIndex(pub u8);

/// One of the first 256 constants of a function.
#[derive(Debug, Clone, Copy, PartialEq, Eq, Structural)]
pub struct ConstantIndex8(pub u8);

/// Any constant of a function.
#[derive(Debug, Clone, Copy, PartialEq, Eq, Structural)]
pub struct ConstantIndex16(pub u16);

/// One of the upvalues of a function.
#[derive(Debug, Clone, Copy, PartialEq, Eq, Structural)]
pub struct UpValueIndex(pub u8);

/// One of the inner functions of a function.
#[derive(Debug, Clone, Copy, PartialEq, Eq, Structural)]
pub struct PrototypeIndex(pub u8);

/// How many arguments or results an instruction deals with, in one byte: 0 stands for "as many
/// as there are", `n + 1` for the constant `n`.
#[derive(Debug, Clone, Copy, PartialEq, Eq, Structural)]
pub struct VarCount(pub u8);

impl VarCount {
    /// The count of `n`, for an `n` of at most 254.
    pub open spec fn constant(n: int) -> VarCount {
        VarCount((n + 1) as u8)
    }

    /// "As many as there are".
    pub open spec fn variable() -> VarCount {
        VarCount(0)
    }

    pub fn make_variable() -> (count: VarCount)
        ensures
            count == VarCount::variable(),
    {
        VarCount(0)
    }

    pub fn make_zero() -> (count: VarCount)
        ensures
            count == VarCount::constant(0),
    {
        VarCount(1)
    }

    pub fn make_one() -> (count: VarCount)
        ensures
            count == VarCount::constant(1),
    {
        VarCount(2)
    }

    /// The count of `n`, or `None` where one byte does not hold it.
    pub fn make_constant(n: u8) -> (count: Option<VarCount>)
        ensures
            n < 255 ==> count == Some(VarCount::constant(n as int)),
            n == 255 ==> count is None,
    {
        if n < 255 {
            Some(VarCount(n + 1))
        } else {
            None
        }
    }

    /// The constant that the count stands for, or `None` where it is variable.
    pub fn to_constant(self) -> (n: Option<u8>)
        ensures
            self == VarCount::variable() <==> n is None,
            n matches Some(n) ==> self == VarCount::constant(n as int) && n < 255,
    {
        if self.0 == 0 {
            None
        } else {
            Some(self.0 - 1)
        }
    }
}

#[derive(Debug, Clone, Copy, PartialEq, Eq, Structural)]
#[allow(inconsistent_fields)]
pub enum OpCode {
    Move { dest: RegisterIndex, source: RegisterIndex },
    LoadConstant { dest: RegisterIndex, constant: ConstantIndex16 },
    LoadBool { dest: RegisterIndex, value: bool, skip_next: bool },
    /// Sets `count` registers from `dest` on to nil.
    LoadNil { dest: RegisterIndex, count: u8 },
    NewTable { dest: RegisterIndex },
    GetTableR { dest: RegisterIndex, table: RegisterIndex, key: RegisterIndex },
    GetTableC { dest: RegisterIndex, table: RegisterIndex, key: ConstantIndex8 },
    SetTableRR { table: RegisterIndex, key: RegisterIndex, value: RegisterIndex },
    SetTableRC { table: RegisterIndex, key: RegisterIndex, value: ConstantIndex8 },
    SetTableCR { table: RegisterIndex, key: ConstantIndex8, value: RegisterIndex },
    SetTableCC { table: RegisterIndex, key: ConstantIndex8, value: ConstantIndex8 },
    GetUpTableR { dest: RegisterIndex, table: UpValueIndex, key: RegisterIndex },
    GetUpTableC { dest: RegisterIndex, table: UpValueIndex, key: ConstantIndex8 },
    SetUpTableRR { table: UpValueIndex, key: RegisterIndex, value: RegisterIndex },
    SetUpTableRC { table: UpValueIndex, key: RegisterIndex, value: ConstantIndex8 },
    SetUpTableCR { table: UpValueIndex, key: ConstantIndex8, value: RegisterIndex },
    SetUpTableCC { table: UpValueIndex, key: ConstantIndex8, value: ConstantIndex8 },
    /// Calls the function in `func` with the arguments behind it; the results replace it.
    Call { func: RegisterIndex, args: VarCount, returns: VarCount },
    Return { start: RegisterIndex, count: VarCount },
    Closure { proto: PrototypeIndex, dest: RegisterIndex },
    /// Continues `offset` instructions behind the next one.
    Jump { offset: i16 },
    /// Skips the next instruction where the truth of `value` is `is_true`.
    Test { value: RegisterIndex, is_true: bool },
    /// As `Test`; where it does not skip, `dest` receives `value`.
    TestSet { dest: RegisterIndex, value: RegisterIndex, is_true: bool },
    GetUpValue { source: UpValueIndex, dest: RegisterIndex },
    SetUpValue { source: RegisterIndex, dest: UpValueIndex },
    Not { dest: RegisterIndex, source: RegisterIndex },
    Minus { dest: RegisterIndex, source: RegisterIndex },
    BitNot { dest: RegisterIndex, source: RegisterIndex },
    Length { dest: RegisterIndex, source: RegisterIndex },
    Simple {
        op: SimpleBinOp,
        dest: RegisterIndex,
        left: RegisterOrConstant,
        right: RegisterOrConstant,
    },
    Compare { op: ComparisonBinOp, left: RegisterOrConstant, right: RegisterOrConstant },
}

} // verus!
