//! Compilation, as a function from syntax trees to instructions.
//!
//! The state of a compilation is the stack of the functions that are being compiled, innermost
//! last. Each rule maps a state and a piece of syntax to a later state and a result, or to the
//! reason why compilation stops.

use crate::compiler::error::{CompilerError, Feature, Halt};
use crate::compiler::operators::{
    category, comparison_fold, simple_fold, unop_fold, unop_instruction, BinOpCategory,
    ComparisonBinOp, RegisterOrConstant, ShortCircuitBinOp, SimpleBinOp,
};
use crate::compiler::register_allocator::{REGISTERS, Registers};
use crate::compiler::size::{
    arms_size, block_size, call_size, definition_size, expression_size, expressions_size,
    field_size, head_size, lemma_weights_index, primary_size, simple_size, statement_size,
    statements_size, suffix_size, suffixed_size, suffixes_size, tail_size, target_size,
    targets_size, weight, weights,
};
use crate::function::{ProtoView, UpValueDescriptor};
use crate::opcode::{
    ConstantIndex16, ConstantIndex8, OpCode, PrototypeIndex, RegisterIndex, UpValueIndex, VarCount,
};
use crate::parser::{
    AssignmentStatement, AssignmentTarget, BinaryOperator, Block, CallSuffix, Chunk, Expression,
    FieldSuffix, FunctionCallStatement, FunctionDefinition, FunctionStatement, HeadExpression,
    IfStatement, LocalStatement, PrimaryExpression, ReturnStatement, SimpleExpression, Statement,
    SuffixPart, SuffixedExpression, TableConstructor, UnaryOperator,
};
use crate::value::ValueView;
use vstd::prelude::*;

verus! {

/// What is known of one function while it is being compiled.
#[verifier::ext_equal]
pub struct FunctionState {
    /// Its constants, each once.
    pub constants: Seq<ValueView>,
    /// Its upvalues, by name.
    pub upvalues: Seq<(Seq<u8>, UpValueDescriptor)>,
    /// The functions written inside it that have been compiled.
    pub prototypes: Seq<ProtoView>,
    /// Its registers.
    pub registers: Registers,
    pub has_varargs: bool,
    pub fixed_params: u8,
    /// The local variables in scope, oldest first, with their registers.
    pub locals: Seq<(Seq<u8>, RegisterIndex)>,
    /// Its instructions so far.
    pub opcodes: Seq<OpCode>,
    /// Where the last jump that was completed lands.
    pub landing: int,
}

/// The functions that are being compiled, innermost last.
pub type State = Seq<FunctionState>;

/// Why a rule does not yield a result.
pub enum Stop {
    /// A limit is exceeded.
    Error(CompilerError),
    /// The compiler does not know a part of the language.
    Unsupported(Feature),
    /// What the compiler takes for granted about itself does not hold. This never happens.
    Broken,
}

/// The reason to stop that a [`Halt`] stands for.
pub open spec fn reason(halt: Halt) -> Stop {
    match halt {
        Halt::Error(e) => Stop::Error(e),
        Halt::Unsupported(f) => Stop::Unsupported(f),
    }
}

/// A later state, with a result or with the reason to stop.
pub type Outcome<T> = Result<(Seq<FunctionState>, T), (Seq<FunctionState>, Stop)>;

/// Whether an assumption of the compiler about itself does not hold.
pub open spec fn broken<T>(outcome: Outcome<T>) -> bool {
    outcome matches Err((_, Stop::Broken))
}

/// A later state and a result.
pub open spec fn done<T>(st: State, result: T) -> Outcome<T> {
    Ok((st, result))
}

/// An expression whose value has not been placed yet.
#[verifier::ext_equal]
#[allow(inconsistent_fields)]
pub enum Desc {
    /// It lies in a register, which is to be given back if it is temporary.
    Register { register: RegisterIndex, is_temporary: bool },
    UpValue(UpValueIndex),
    Value(ValueView),
    Not(Box<Desc>),
    FunctionCall { func: Box<Desc>, args: Seq<Desc> },
    Comparison { left: Box<Desc>, op: ComparisonBinOp, right: Box<Desc> },
    /// The right operand is compiled only when the value is placed.
    ShortCircuitBinOp { left: Box<Desc>, op: ShortCircuitBinOp, right: Expression },
}

/// Where the value of an expression is to be placed.
#[derive(Debug, Clone, Copy, PartialEq, Eq, Structural)]
pub enum ExprDestination {
    /// In the given register, which is in use.
    Register(RegisterIndex),
    /// In a newly allocated register anywhere.
    AllocateNew,
    /// In a newly allocated register at the top of the stack.
    PushNew,
    /// Not at all: the expression is only evaluated.
    Nowhere,
}

/// What a name stands for.
#[verifier::ext_equal]
pub enum Variable {
    Local(RegisterIndex),
    UpValue(UpValueIndex),
    Global(Seq<u8>),
}

/// The name of the environment.
pub open spec fn env_name() -> Seq<u8> {
    seq![95u8, 69u8, 78u8, 86u8]
}

// ---------------------------------------------------------------------------------------------
// Changes of the innermost function

pub open spec fn current(st: State) -> FunctionState {
    st.last()
}

pub open spec fn put(st: State, f: FunctionState) -> State {
    st.update(st.len() - 1, f)
}

/// Appends an instruction.
pub open spec fn emit(st: State, op: OpCode) -> State {
    put(st, FunctionState { opcodes: current(st).opcodes.push(op), ..current(st) })
}

pub open spec fn set_registers(st: State, registers: Registers) -> State {
    put(st, FunctionState { registers, ..current(st) })
}

/// Brings a local variable into scope.
pub open spec fn bind(st: State, name: Seq<u8>, register: RegisterIndex) -> State {
    put(st, FunctionState { locals: current(st).locals.push((name, register)), ..current(st) })
}

/// Takes any free register.
#[verifier::opaque]
pub open spec fn allocate(st: State) -> Outcome<RegisterIndex> {
    let registers = current(st).registers;
    if registers.next() < REGISTERS {
        Ok((set_registers(st, registers.allocate()), RegisterIndex(registers.next() as u8)))
    } else {
        Err((st, Stop::Error(CompilerError::Registers)))
    }
}

/// Takes `count` registers at the top of the stack.
#[verifier::opaque]
pub open spec fn push_registers(st: State, count: int) -> Outcome<RegisterIndex> {
    let registers = current(st).registers;
    if registers.has_room(count) {
        Ok((set_registers(st, registers.push(count)), RegisterIndex(registers.top as u8)))
    } else {
        Err((st, Stop::Error(CompilerError::Registers)))
    }
}

/// Gives a register back. Only registers in use are given back.
#[verifier::opaque]
pub open spec fn free_register(st: State, register: RegisterIndex) -> Outcome<()> {
    let registers = current(st).registers;
    if registers.used.contains(register.0 as int) {
        Ok((set_registers(st, registers.free(register.0 as int)), ()))
    } else {
        Err((st, Stop::Broken))
    }
}

/// Lets the top of the stack fall back to the highest register in use.
pub open spec fn settle(st: State) -> State {
    set_registers(st, current(st).registers.settle())
}

pub open spec fn pop_to(st: State, top: int) -> State {
    set_registers(st, current(st).registers.pop_to(top))
}

/// A register at the destination, where it is a register.
#[verifier::opaque]
pub open spec fn new_destination(st: State, dest: ExprDestination) -> Outcome<
    Option<RegisterIndex>,
> {
    match dest {
        ExprDestination::Register(r) => Ok((st, Some(r))),
        ExprDestination::AllocateNew => match allocate(st) {
            Ok((st1, r)) => Ok((st1, Some(r))),
            Err(h) => Err(h),
        },
        ExprDestination::PushNew => match push_registers(st, 1) {
            Ok((st1, r)) => Ok((st1, Some(r))),
            Err(h) => Err(h),
        },
        ExprDestination::Nowhere => Ok((st, None)),
    }
}

/// Gives back the registers of the locals from the `i`th on.
pub open spec fn free_locals(
    st: State,
    locals: Seq<(Seq<u8>, RegisterIndex)>,
    i: int,
) -> Outcome<()>
    decreases locals.len() - i,
{
    if 0 <= i < locals.len() {
        match free_register(st, locals[i].1) {
            Ok((st1, ())) => free_locals(st1, locals, i + 1),
            Err(h) => Err(h),
        }
    } else {
        Ok((st, ()))
    }
}

/// Ends the scope of all locals but the first `kept`.
#[verifier::opaque]
pub open spec fn end_scope(st: State, kept: int) -> Outcome<()> {
    if kept > current(st).locals.len() {
        Err((st, Stop::Broken))
    } else {
        match free_locals(st, current(st).locals, kept) {
            Ok((st1, ())) => Ok(
                (
                    put(
                        st1,
                        FunctionState { locals: current(st1).locals.take(kept), ..current(st1) },
                    ),
                    (),
                ),
            ),
            Err(h) => Err(h),
        }
    }
}

/// Whether the last instruction sets registers up to the one before `dest` to nil and can be made
/// to set `dest` as well. That is not so where a jump lands behind it: whoever takes the jump
/// would miss it.
pub open spec fn continues_run(f: FunctionState, dest: RegisterIndex) -> bool {
    &&& f.opcodes.len() > 0
    &&& f.landing < f.opcodes.len()
    &&& f.opcodes.last() matches OpCode::LoadNil { dest: first, count } && first.0 + count == dest.0
        && count < u8::MAX
}

/// Sets a register to nil. Sequential instructions of this kind are combined into one.
#[verifier::opaque]
pub open spec fn load_nil(st: State, dest: RegisterIndex) -> State {
    let f = current(st);
    if continues_run(f, dest) {
        let first = f.opcodes.last()->LoadNil_dest;
        let count = f.opcodes.last()->LoadNil_count;
        put(
            st,
            FunctionState {
                opcodes: f.opcodes.drop_last().push(
                    OpCode::LoadNil { dest: first, count: (count + 1) as u8 },
                ),
                ..f
            },
        )
    } else {
        emit(st, OpCode::LoadNil { dest, count: 1 })
    }
}

/// The first place of a constant from the `i`th on.
pub open spec fn constant_position(constants: Seq<ValueView>, value: ValueView, i: int) -> Option<
    int,
>
    decreases constants.len() - i,
{
    if 0 <= i < constants.len() {
        if constants[i] == value {
            Some(i)
        } else {
            constant_position(constants, value, i + 1)
        }
    } else {
        None
    }
}

/// The place of a constant, which is added where the function does not have it yet.
#[verifier::opaque]
pub open spec fn get_constant(st: State, value: ValueView) -> Outcome<ConstantIndex16> {
    let f = current(st);
    match constant_position(f.constants, value, 0) {
        Some(i) => if i <= u16::MAX {
            Ok((st, ConstantIndex16(i as u16)))
        } else {
            Err((st, Stop::Broken))
        },
        None => if f.constants.len() <= u16::MAX {
            Ok(
                (
                    put(st, FunctionState { constants: f.constants.push(value), ..f }),
                    ConstantIndex16(f.constants.len() as u16),
                ),
            )
        } else {
            Err((st, Stop::Error(CompilerError::Constants)))
        },
    }
}

/// Appends a jump whose target is not known yet.
pub open spec fn jump_placeholder(st: State) -> State {
    emit(st, OpCode::Jump { offset: 0 })
}

/// Where the next instruction will stand.
pub open spec fn here(st: State) -> int {
    current(st).opcodes.len() as int
}

/// Makes the placeholder at `jump` jump to the next instruction.
#[verifier::opaque]
pub open spec fn jump_here(st: State, jump: int) -> Outcome<()> {
    let opcodes = current(st).opcodes;
    if !(0 <= jump < opcodes.len()) {
        Err((st, Stop::Broken))
    } else if opcodes.len() - jump - 1 > i16::MAX {
        Err((st, Stop::Error(CompilerError::OpCodes)))
    } else if opcodes[jump] == (OpCode::Jump { offset: 0 }) {
        let offset = (opcodes.len() - jump - 1) as i16;
        Ok(
            (
                put(
                    st,
                    FunctionState {
                        opcodes: opcodes.update(jump, OpCode::Jump { offset }),
                        landing: opcodes.len() as int,
                        ..current(st)
                    },
                ),
                (),
            ),
        )
    } else {
        Err((st, Stop::Broken))
    }
}

/// Makes all placeholders from the `i`th on jump to the next instruction.
pub open spec fn jumps_here(st: State, jumps: Seq<int>, i: int) -> Outcome<()>
    decreases jumps.len() - i,
{
    if 0 <= i < jumps.len() {
        match jump_here(st, jumps[i]) {
            Ok((st1, ())) => jumps_here(st1, jumps, i + 1),
            Err(h) => Err(h),
        }
    } else {
        Ok((st, ()))
    }
}

// ---------------------------------------------------------------------------------------------
// Names

/// The register of the newest of the first `n` locals with this name.
pub open spec fn newest_local(
    locals: Seq<(Seq<u8>, RegisterIndex)>,
    name: Seq<u8>,
    n: int,
) -> Option<RegisterIndex>
    decreases n,
{
    if 0 < n <= locals.len() {
        if locals[n - 1].0 == name {
            Some(locals[n - 1].1)
        } else {
            newest_local(locals, name, n - 1)
        }
    } else {
        None
    }
}

/// The first upvalue with this name, from the `i`th on.
pub open spec fn upvalue_position(
    upvalues: Seq<(Seq<u8>, UpValueDescriptor)>,
    name: Seq<u8>,
    i: int,
) -> Option<int>
    decreases upvalues.len() - i,
{
    if 0 <= i < upvalues.len() {
        if upvalues[i].0 == name {
            Some(i)
        } else {
            upvalue_position(upvalues, name, i + 1)
        }
    } else {
        None
    }
}

/// Adds an upvalue to the `k`th function.
pub open spec fn add_upvalue(
    st: State,
    k: int,
    name: Seq<u8>,
    descriptor: UpValueDescriptor,
) -> State {
    st.update(k, FunctionState { upvalues: st[k].upvalues.push((name, descriptor)), ..st[k] })
}

/// Hands a variable down as an upvalue, from the `k`th function to the innermost one.
#[verifier::opaque]
pub open spec fn hand_down(
    st: State,
    k: int,
    name: Seq<u8>,
    descriptor: UpValueDescriptor,
) -> Outcome<Variable>
    decreases st.len() - k,
{
    let index = st[k].upvalues.len();
    let st1 = add_upvalue(st, k, name, descriptor);
    if !(0 <= k < st.len()) {
        Err((st, Stop::Broken))
    } else if index > u8::MAX {
        Err((st1, Stop::Error(CompilerError::UpValues)))
    } else if k == st.len() - 1 {
        Ok((st1, Variable::UpValue(UpValueIndex(index as u8))))
    } else {
        hand_down(st1, k + 1, name, UpValueDescriptor::Outer(UpValueIndex(index as u8)))
    }
}

/// The chunk has the environment as its one upvalue, from the first time that it is named.
pub open spec fn with_environment(st: State, i: int, name: Seq<u8>) -> State {
    if i == 0 && name == env_name() && st[0].upvalues.len() == 0 {
        add_upvalue(st, 0, env_name(), UpValueDescriptor::Environment)
    } else {
        st
    }
}

/// Looks for a name in the `i`th function and in those around it.
#[verifier::opaque]
pub open spec fn resolve(st: State, name: Seq<u8>, i: int) -> Outcome<Variable>
    decreases i + 1,
{
    if !(0 <= i < st.len()) {
        Ok((st, Variable::Global(name)))
    } else {
        match newest_local(st[i].locals, name, st[i].locals.len() as int) {
            Some(register) => if i == st.len() - 1 {
                Ok((st, Variable::Local(register)))
            } else {
                hand_down(st, i + 1, name, UpValueDescriptor::ParentLocal(register))
            },
            None => {
                let st1 = with_environment(st, i, name);
                match upvalue_position(st1[i].upvalues, name, 0) {
                    Some(j) => if j > u8::MAX {
                        Err((st1, Stop::Broken))
                    } else if i == st.len() - 1 {
                        Ok((st1, Variable::UpValue(UpValueIndex(j as u8))))
                    } else {
                        hand_down(
                            st1,
                            i + 1,
                            name,
                            UpValueDescriptor::Outer(UpValueIndex(j as u8)),
                        )
                    },
                    None => resolve(st1, name, i - 1),
                }
            },
        }
    }
}

/// What a name stands for in the innermost function.
pub open spec fn find_variable(st: State, name: Seq<u8>) -> Outcome<Variable> {
    resolve(st, name, st.len() - 1)
}

/// The environment in scope.
#[verifier::opaque]
pub open spec fn get_environment(st: State) -> Outcome<Desc> {
    match find_variable(st, env_name()) {
        Ok((st1, Variable::Local(register))) => Ok(
            (st1, Desc::Register { register, is_temporary: false }),
        ),
        Ok((st1, Variable::UpValue(upvalue))) => Ok((st1, Desc::UpValue(upvalue))),
        Ok((st1, Variable::Global(_))) => Err((st1, Stop::Broken)),
        Err(h) => Err(h),
    }
}

// ---------------------------------------------------------------------------------------------
// Placing values

pub open spec fn temporary(register: RegisterIndex) -> Desc {
    Desc::Register { register, is_temporary: true }
}

/// Whether a descriptor has no operands.
pub open spec fn is_leaf(desc: Desc) -> bool {
    desc is Register || desc is UpValue || desc is Value
}

/// The descriptor of an expression once its value lies in `register`.
pub open spec fn held(desc: Desc, register: RegisterIndex) -> Desc {
    if desc is Register {
        desc
    } else {
        temporary(register)
    }
}

/// The descriptor of an expression once it has become the operand `operand`.
pub open spec fn held_operand(desc: Desc, operand: RegisterOrConstant) -> Desc {
    match operand {
        RegisterOrConstant::Register(r) => held(desc, r),
        RegisterOrConstant::Constant(_) => desc,
    }
}

/// Gives back the register of a descriptor without operands, if it is temporary.
pub open spec fn release(st: State, desc: Desc) -> Outcome<()> {
    match desc {
        Desc::Register { register, is_temporary } => if is_temporary {
            free_register(st, register)
        } else {
            Ok((st, ()))
        },
        _ => Ok((st, ())),
    }
}

/// Gives back two descriptors.
pub open spec fn release_both(st: State, first: Desc, second: Desc) -> Outcome<()> {
    match release(st, first) {
        Ok((st1, ())) => release(st1, second),
        Err(h) => Err(h),
    }
}

/// A value at the top of the stack is the last thing on the stack.
pub open spec fn landed(
    outcome: Outcome<Option<RegisterIndex>>,
    dest: ExprDestination,
) -> Outcome<Option<RegisterIndex>> {
    match outcome {
        Ok((st, Some(r))) => if dest != ExprDestination::PushNew {
            outcome
        } else if r.0 + 1 == current(settle(st)).registers.top {
            Ok((settle(st), Some(r)))
        } else {
            Err((settle(st), Stop::Broken))
        },
        Ok((st, None)) => if dest == ExprDestination::Nowhere {
            outcome
        } else {
            Err((st, Stop::Broken))
        },
        Err(h) => Err(h),
    }
}

/// A descriptor within a bound on its size. The bound is never exceeded.
pub open spec fn bounded(outcome: Outcome<Desc>, bound: nat) -> Outcome<Desc> {
    match outcome {
        Ok((st, d)) => if weight(d) <= bound {
            outcome
        } else {
            Err((st, Stop::Broken))
        },
        Err(h) => Err(h),
    }
}

/// As `bounded`, for a list.
pub open spec fn bounded_list(outcome: Outcome<Seq<Desc>>, bound: nat) -> Outcome<Seq<Desc>> {
    match outcome {
        Ok((st, ds)) => if weights(ds, 0) <= bound {
            outcome
        } else {
            Err((st, Stop::Broken))
        },
        Err(h) => Err(h),
    }
}

/// Places the value of a register. A temporary register is kept where any register will do.
#[verifier::opaque]
pub open spec fn place_register(
    st: State,
    source: RegisterIndex,
    is_temporary: bool,
    dest: ExprDestination,
) -> Outcome<Option<RegisterIndex>> {
    if is_temporary && dest == ExprDestination::AllocateNew {
        Ok((st, Some(source)))
    } else {
        match release(st, Desc::Register { register: source, is_temporary }) {
            Ok((st1, ())) => match new_destination(st1, dest) {
                Ok((st2, Some(dest))) => Ok(
                    (
                        if dest != source {
                            emit(st2, OpCode::Move { dest, source })
                        } else {
                            st2
                        },
                        Some(dest),
                    ),
                ),
                Ok((st2, None)) => Ok((st2, None)),
                Err(h) => Err(h),
            },
            Err(h) => Err(h),
        }
    }
}

/// Places the value of an upvalue.
#[verifier::opaque]
pub open spec fn place_upvalue(
    st: State,
    source: UpValueIndex,
    dest: ExprDestination,
) -> Outcome<Option<RegisterIndex>> {
    match new_destination(st, dest) {
        Ok((st1, Some(dest))) => Ok(
            (emit(st1, OpCode::GetUpValue { source, dest }), Some(dest)),
        ),
        Ok((st1, None)) => Ok((st1, None)),
        Err(h) => Err(h),
    }
}

/// Loads a constant into a register.
pub open spec fn load_value(st: State, value: ValueView, dest: RegisterIndex) -> Outcome<()> {
    match value {
        ValueView::Nil => Ok((load_nil(st, dest), ())),
        ValueView::Boolean(value) => Ok(
            (emit(st, OpCode::LoadBool { dest, value, skip_next: false }), ()),
        ),
        _ => match get_constant(st, value) {
            Ok((st1, constant)) => Ok((emit(st1, OpCode::LoadConstant { dest, constant }), ())),
            Err(h) => Err(h),
        },
    }
}

/// Places a constant.
#[verifier::opaque]
pub open spec fn place_value(st: State, value: ValueView, dest: ExprDestination) -> Outcome<
    Option<RegisterIndex>,
> {
    match new_destination(st, dest) {
        Ok((st1, Some(dest))) => match load_value(st1, value, dest) {
            Ok((st2, ())) => Ok((st2, Some(dest))),
            Err(h) => Err(h),
        },
        Ok((st1, None)) => Ok((st1, None)),
        Err(h) => Err(h),
    }
}

/// Places the first result of a call, which lies in `source` at the top of the stack.
#[verifier::opaque]
pub open spec fn place_result(st: State, source: RegisterIndex, dest: ExprDestination) -> Outcome<
    Option<RegisterIndex>,
> {
    match dest {
        ExprDestination::Register(dest) => if dest != source {
            Ok((emit(st, OpCode::Move { dest, source }), Some(dest)))
        } else {
            Err((st, Stop::Broken))
        },
        ExprDestination::AllocateNew | ExprDestination::PushNew => match push_registers(st, 1) {
            Ok((st1, r)) => if r == source {
                Ok((st1, Some(source)))
            } else {
                Err((st1, Stop::Broken))
            },
            Err(h) => Err(h),
        },
        ExprDestination::Nowhere => Ok((st, None)),
    }
}

/// The instructions that compare two operands and, where there is a destination, load the
/// outcome into it.
#[verifier::opaque]
pub open spec fn place_comparison(
    st: State,
    compare: OpCode,
    dest: Option<RegisterIndex>,
) -> State {
    match dest {
        Some(dest) => emit(
            emit(
                emit(emit(st, compare), OpCode::Jump { offset: 1 }),
                OpCode::LoadBool { dest, value: false, skip_next: true },
            ),
            OpCode::LoadBool { dest, value: true, skip_next: false },
        ),
        None => emit(emit(st, compare), OpCode::Jump { offset: 0 }),
    }
}

/// The test before the right operand of `and` and `or`: it goes on to the right operand where
/// the left one is true for `and`, false for `or`.
pub open spec fn short_circuit_test(
    op: ShortCircuitBinOp,
    value: RegisterIndex,
    dest: Option<RegisterIndex>,
) -> OpCode {
    let is_true = op == ShortCircuitBinOp::And;
    match dest {
        Some(dest) => if value == dest {
            OpCode::Test { value, is_true }
        } else {
            OpCode::TestSet { dest, value, is_true }
        },
        None => OpCode::Test { value, is_true },
    }
}

/// A destination that has already been found.
pub open spec fn found_destination(dest: Option<RegisterIndex>) -> ExprDestination {
    match dest {
        Some(r) => ExprDestination::Register(r),
        None => ExprDestination::Nowhere,
    }
}

/// Places the value of an expression and returns the register where it lies now, if there is
/// one. That register is in use; what the descriptor held is given back.
#[verifier::opaque]
pub open spec fn discharge(st: State, desc: Desc, dest: ExprDestination) -> Outcome<
    Option<RegisterIndex>,
>
    decreases weight(desc), 0nat,
{
    landed(
        match desc {
            Desc::Register { register, is_temporary } => place_register(
                st,
                register,
                is_temporary,
                dest,
            ),
            Desc::UpValue(source) => place_upvalue(st, source, dest),
            Desc::Value(value) => place_value(st, value, dest),
            Desc::Not(operand) => place_not(st, *operand, dest),
            Desc::FunctionCall { func, args } => match expr_function_call(
                st,
                *func,
                args,
                VarCount::constant(1),
            ) {
                Ok((st1, source)) => place_result(st1, source, dest),
                Err(h) => Err(h),
            },
            Desc::Comparison { left, op, right } => place_compared(st, *left, op, *right, dest),
            Desc::ShortCircuitBinOp { left, op, right } => place_short_circuit(
                st,
                *left,
                op,
                right,
                dest,
            ),
        },
        dest,
    )
}

/// Places a negation.
#[verifier::opaque]
pub open spec fn place_not(st: State, operand: Desc, dest: ExprDestination) -> Outcome<
    Option<RegisterIndex>,
>
    decreases weight(operand), 4nat,
{
    match new_destination(st, dest) {
        Ok((st1, Some(dest))) => match operand_register(st1, operand) {
            Ok((st2, source)) => Ok((emit(st2, OpCode::Not { dest, source }), Some(dest))),
            Err(h) => Err(h),
        },
        Ok((st1, None)) => discharge(st1, operand, ExprDestination::Nowhere),
        Err(h) => Err(h),
    }
}

/// Places the outcome of a comparison.
#[verifier::opaque]
pub open spec fn place_compared(
    st: State,
    left: Desc,
    op: ComparisonBinOp,
    right: Desc,
    dest: ExprDestination,
) -> Outcome<Option<RegisterIndex>>
    decreases weight(left) + weight(right), 4nat,
{
    match operands(st, left, right) {
        Ok((st1, (left, right))) => match new_destination(st1, dest) {
            Ok((st2, dest)) => Ok(
                (place_comparison(st2, OpCode::Compare { op, left, right }, dest), dest),
            ),
            Err(h) => Err(h),
        },
        Err(h) => Err(h),
    }
}

/// Places the value of `and` or `or`: the left operand where it decides, the right operand
/// otherwise.
#[verifier::opaque]
pub open spec fn place_short_circuit(
    st: State,
    left: Desc,
    op: ShortCircuitBinOp,
    right: Expression,
    dest: ExprDestination,
) -> Outcome<Option<RegisterIndex>>
    decreases weight(left) + expression_size(right), 4nat,
{
    match operand_register(st, left) {
        Ok((st1, left_register)) => match new_destination(st1, dest) {
            Ok((st2, dest)) => {
                let st3 = emit(st2, short_circuit_test(op, left_register, dest));
                match place_right(jump_placeholder(st3), right, found_destination(dest)) {
                    Ok((st4, ())) => match jump_here(st4, here(st3)) {
                        Ok((st5, ())) => Ok((st5, dest)),
                        Err(h) => Err(h),
                    },
                    Err(h) => Err(h),
                }
            },
            Err(h) => Err(h),
        },
        Err(h) => Err(h),
    }
}

/// Compiles the right operand of `and` or `or`, and places it.
#[verifier::opaque]
pub open spec fn place_right(st: State, right: Expression, dest: ExprDestination) -> Outcome<()>
    decreases expression_size(right), 7nat,
{
    match bounded(expression(st, right), expression_size(right)) {
        Ok((st1, d)) => match discharge(st1, d, dest) {
            Ok((st2, _)) => Ok((st2, ())),
            Err(h) => Err(h),
        },
        Err(h) => Err(h),
    }
}

/// Brings the value of an expression into any register.
#[verifier::opaque]
pub open spec fn any_register(st: State, desc: Desc) -> Outcome<RegisterIndex>
    decreases weight(desc), 1nat,
{
    match desc {
        Desc::Register { register, .. } => Ok((st, register)),
        _ => match discharge(st, desc, ExprDestination::AllocateNew) {
            Ok((st1, Some(r))) => Ok((st1, r)),
            Ok((st1, None)) => Err((st1, Stop::Broken)),
            Err(h) => Err(h),
        },
    }
}

/// Makes an expression an operand: a constant where it is one of the first 256, a register
/// otherwise.
#[verifier::opaque]
pub open spec fn any_register_or_constant(st: State, desc: Desc) -> Outcome<RegisterOrConstant>
    decreases weight(desc), 2nat,
{
    match desc {
        Desc::Value(value) => match get_constant(st, value) {
            Ok((st1, c)) => if c.0 <= u8::MAX {
                Ok((st1, RegisterOrConstant::Constant(ConstantIndex8(c.0 as u8))))
            } else {
                match any_register(st1, desc) {
                    Ok((st2, r)) => Ok((st2, RegisterOrConstant::Register(r))),
                    Err(h) => Err(h),
                }
            },
            Err(h) => Err(h),
        },
        _ => match any_register(st, desc) {
            Ok((st1, r)) => Ok((st1, RegisterOrConstant::Register(r))),
            Err(h) => Err(h),
        },
    }
}

/// Brings the value of an expression into any register, to be read by the next instruction:
/// what held it is given back already.
#[verifier::opaque]
pub open spec fn operand_register(st: State, desc: Desc) -> Outcome<RegisterIndex>
    decreases weight(desc), 2nat,
{
    match any_register(st, desc) {
        Ok((st1, r)) => match release(st1, held(desc, r)) {
            Ok((st2, ())) => Ok((st2, r)),
            Err(h) => Err(h),
        },
        Err(h) => Err(h),
    }
}

/// Makes two expressions operands of the next instruction: what held them is given back
/// already.
#[verifier::opaque]
pub open spec fn operands(st: State, left: Desc, right: Desc) -> Outcome<
    (RegisterOrConstant, RegisterOrConstant),
>
    decreases weight(left) + weight(right), 3nat,
{
    match any_register_or_constant(st, left) {
        Ok((st1, l)) => match any_register_or_constant(st1, right) {
            Ok((st2, r)) => match release_both(st2, held_operand(left, l), held_operand(right, r)) {
                Ok((st3, ())) => Ok((st3, (l, r))),
                Err(h) => Err(h),
            },
            Err(h) => Err(h),
        },
        Err(h) => Err(h),
    }
}

/// Places the arguments from the `i`th to before the `n`th, one after another at the top of the
/// stack.
#[verifier::opaque]
pub open spec fn push_arguments(st: State, args: Seq<Desc>, i: int, n: int) -> Outcome<()>
    decreases weights(args, i), 2nat,
{
    if 0 <= i < n <= args.len() {
        proof {
            assert(weight(args[i]) >= 1);
        }
        match discharge(st, args[i], ExprDestination::PushNew) {
            Ok((st1, _)) => push_arguments(st1, args, i + 1, n),
            Err(h) => Err(h),
        }
    } else {
        Ok((st, ()))
    }
}

/// The call itself, with the function and its arguments in place.
pub open spec fn called(
    st: State,
    func: RegisterIndex,
    args: VarCount,
    results: VarCount,
) -> State {
    pop_to(emit(st, OpCode::Call { func, args, returns: results }), func.0 as int)
}

/// Calls a function, which is placed at the top of the stack with its arguments behind it. The
/// results lie from the returned register on, which is the top of the stack again; they are not
/// in use. The last argument hands on all results, where it is a call itself.
#[verifier::opaque]
pub open spec fn expr_function_call(
    st: State,
    func: Desc,
    args: Seq<Desc>,
    results: VarCount,
) -> Outcome<RegisterIndex>
    decreases weight(func) + weights(args, 0), 3nat,
{
    match discharge(st, func, ExprDestination::PushNew) {
        Ok((st1, Some(func))) => if args.len() > u8::MAX {
            Err((st1, Stop::Error(CompilerError::FixedParameters)))
        } else if args.len() == 0 {
            Ok((called(st1, func, VarCount::constant(0), results), func))
        } else {
            match push_arguments(st1, args, 0, args.len() - 1) {
                Ok((st2, ())) => {
                    proof {
                        lemma_weights_index(args, 0, args.len() - 1);
                    }
                    match args[args.len() - 1] {
                        Desc::FunctionCall { func: last_func, args: last_args } => {
                            match expr_function_call(
                                st2,
                                *last_func,
                                last_args,
                                VarCount::variable(),
                            ) {
                                Ok((st3, _)) => Ok(
                                    (called(st3, func, VarCount::variable(), results), func),
                                ),
                                Err(h) => Err(h),
                            }
                        },
                        _ => match discharge(
                            st2,
                            args[args.len() - 1],
                            ExprDestination::PushNew,
                        ) {
                            Ok((st3, _)) => if args.len() == u8::MAX {
                                Err((st3, Stop::Error(CompilerError::FixedParameters)))
                            } else {
                                Ok(
                                    (
                                        called(
                                            st3,
                                            func,
                                            VarCount::constant(args.len() as int),
                                            results,
                                        ),
                                        func,
                                    ),
                                )
                            },
                            Err(h) => Err(h),
                        },
                    }
                },
                Err(h) => Err(h),
            }
        },
        Ok((st1, None)) => Err((st1, Stop::Broken)),
        Err(h) => Err(h),
    }
}

// ---------------------------------------------------------------------------------------------
// Tables

pub open spec fn get_up_table_op(
    dest: RegisterIndex,
    table: UpValueIndex,
    key: RegisterOrConstant,
) -> OpCode {
    match key {
        RegisterOrConstant::Constant(key) => OpCode::GetUpTableC { dest, table, key },
        RegisterOrConstant::Register(key) => OpCode::GetUpTableR { dest, table, key },
    }
}

pub open spec fn get_table_op(
    dest: RegisterIndex,
    table: RegisterIndex,
    key: RegisterOrConstant,
) -> OpCode {
    match key {
        RegisterOrConstant::Constant(key) => OpCode::GetTableC { dest, table, key },
        RegisterOrConstant::Register(key) => OpCode::GetTableR { dest, table, key },
    }
}

pub open spec fn set_up_table_op(
    table: UpValueIndex,
    key: RegisterOrConstant,
    value: RegisterOrConstant,
) -> OpCode {
    match (key, value) {
        (RegisterOrConstant::Register(key), RegisterOrConstant::Register(value)) => {
            OpCode::SetUpTableRR { table, key, value }
        },
        (RegisterOrConstant::Register(key), RegisterOrConstant::Constant(value)) => {
            OpCode::SetUpTableRC { table, key, value }
        },
        (RegisterOrConstant::Constant(key), RegisterOrConstant::Register(value)) => {
            OpCode::SetUpTableCR { table, key, value }
        },
        (RegisterOrConstant::Constant(key), RegisterOrConstant::Constant(value)) => {
            OpCode::SetUpTableCC { table, key, value }
        },
    }
}

pub open spec fn set_table_op(
    table: RegisterIndex,
    key: RegisterOrConstant,
    value: RegisterOrConstant,
) -> OpCode {
    match (key, value) {
        (RegisterOrConstant::Register(key), RegisterOrConstant::Register(value)) => {
            OpCode::SetTableRR { table, key, value }
        },
        (RegisterOrConstant::Register(key), RegisterOrConstant::Constant(value)) => {
            OpCode::SetTableRC { table, key, value }
        },
        (RegisterOrConstant::Constant(key), RegisterOrConstant::Register(value)) => {
            OpCode::SetTableCR { table, key, value }
        },
        (RegisterOrConstant::Constant(key), RegisterOrConstant::Constant(value)) => {
            OpCode::SetTableCC { table, key, value }
        },
    }
}

/// Reads a field of a table into a new register. The result is that register, and what the
/// descriptors of the table and of the key have become.
#[verifier::opaque]
pub open spec fn get_table(st: State, table: Desc, key: Desc) -> Outcome<
    (RegisterIndex, Desc, Desc),
>
    decreases weight(table) + weight(key), 4nat,
{
    match allocate(st) {
        Ok((st1, dest)) => match table {
            Desc::UpValue(t) => match any_register_or_constant(st1, key) {
                Ok((st2, k)) => Ok(
                    (
                        emit(st2, get_up_table_op(dest, t, k)),
                        (dest, table, held_operand(key, k)),
                    ),
                ),
                Err(h) => Err(h),
            },
            _ => match any_register(st1, table) {
                Ok((st2, t)) => match any_register_or_constant(st2, key) {
                    Ok((st3, k)) => Ok(
                        (
                            emit(st3, get_table_op(dest, t, k)),
                            (dest, held(table, t), held_operand(key, k)),
                        ),
                    ),
                    Err(h) => Err(h),
                },
                Err(h) => Err(h),
            },
        },
        Err(h) => Err(h),
    }
}

/// Writes a field of a table. The result is what the descriptors of the table, of the key and
/// of the value have become.
#[verifier::opaque]
pub open spec fn set_table(st: State, table: Desc, key: Desc, value: Desc) -> Outcome<
    (Desc, Desc, Desc),
>
    decreases weight(table) + weight(key) + weight(value), 4nat,
{
    match table {
        Desc::UpValue(t) => match any_register_or_constant(st, key) {
            Ok((st1, k)) => match any_register_or_constant(st1, value) {
                Ok((st2, v)) => Ok(
                    (
                        emit(st2, set_up_table_op(t, k, v)),
                        (table, held_operand(key, k), held_operand(value, v)),
                    ),
                ),
                Err(h) => Err(h),
            },
            Err(h) => Err(h),
        },
        _ => match any_register(st, table) {
            Ok((st1, t)) => match any_register_or_constant(st1, key) {
                Ok((st2, k)) => match any_register_or_constant(st2, value) {
                    Ok((st3, v)) => Ok(
                        (
                            emit(st3, set_table_op(t, k, v)),
                            (held(table, t), held_operand(key, k), held_operand(value, v)),
                        ),
                    ),
                    Err(h) => Err(h),
                },
                Err(h) => Err(h),
            },
            Err(h) => Err(h),
        },
    }
}

/// Reads a field of a table and gives back what held the table and the key.
#[verifier::opaque]
pub open spec fn read_field(st: State, table: Desc, key: Desc) -> Outcome<Desc>
    decreases weight(table) + weight(key), 5nat,
{
    match get_table(st, table, key) {
        Ok((st1, (dest, table, key))) => match release_both(st1, table, key) {
            Ok((st2, ())) => Ok((st2, temporary(dest))),
            Err(h) => Err(h),
        },
        Err(h) => Err(h),
    }
}

/// Writes a field of a table and gives back what held the table, the key and the value.
#[verifier::opaque]
pub open spec fn write_field(st: State, table: Desc, key: Desc, value: Desc) -> Outcome<()>
    decreases weight(table) + weight(key) + weight(value), 5nat,
{
    match set_table(st, table, key, value) {
        Ok((st1, (table, key, value))) => match release_both(st1, table, key) {
            Ok((st2, ())) => release(st2, value),
            Err(h) => Err(h),
        },
        Err(h) => Err(h),
    }
}

// ---------------------------------------------------------------------------------------------
// Expressions

#[verifier::opaque]
pub open spec fn expression(st: State, e: Expression) -> Outcome<Desc>
    decreases expression_size(e), 6nat,
{
    match bounded(head_expression(st, *e.head), head_size(*e.head)) {
        Ok((st1, d)) => expression_rest(st1, d, e.tail@, 0),
        Err(h) => Err(h),
    }
}

/// Applies the operators from the `i`th on.
#[verifier::opaque]
pub open spec fn expression_rest(
    st: State,
    left: Desc,
    tail: Seq<(BinaryOperator, Expression)>,
    i: int,
) -> Outcome<Desc>
    decreases weight(left) + tail_size(tail, i), 5nat,
{
    if 0 <= i < tail.len() {
        match bounded(
            binary_operator(st, left, tail[i].0, tail[i].1),
            1 + weight(left) + expression_size(tail[i].1),
        ) {
            Ok((st1, d)) => expression_rest(st1, d, tail, i + 1),
            Err(h) => Err(h),
        }
    } else {
        Ok((st, left))
    }
}

#[verifier::opaque]
pub open spec fn head_expression(st: State, head: HeadExpression) -> Outcome<Desc>
    decreases head_size(head), 6nat,
{
    match head {
        HeadExpression::Simple(s) => simple_expression(st, s),
        HeadExpression::UnaryOperator(op, e) => match bounded(
            expression(st, e),
            expression_size(e),
        ) {
            Ok((st1, d)) => unary_operator(st1, op, d),
            Err(h) => Err(h),
        },
    }
}

#[verifier::opaque]
pub open spec fn simple_expression(st: State, simple: SimpleExpression) -> Outcome<Desc>
    decreases simple_size(simple), 6nat,
{
    match simple {
        SimpleExpression::Float(f) => Ok((st, Desc::Value(ValueView::Number(f)))),
        SimpleExpression::Integer(i) => Ok((st, Desc::Value(ValueView::Integer(i)))),
        SimpleExpression::String(s) => Ok((st, Desc::Value(ValueView::String(s@)))),
        SimpleExpression::Nil => Ok((st, Desc::Value(ValueView::Nil))),
        SimpleExpression::True => Ok((st, Desc::Value(ValueView::Boolean(true)))),
        SimpleExpression::False => Ok((st, Desc::Value(ValueView::Boolean(false)))),
        SimpleExpression::VarArgs => Err((st, Stop::Unsupported(Feature::VarArgs))),
        SimpleExpression::TableConstructor(t) => table_constructor(st, t),
        SimpleExpression::Function(f) => function_expression(st, f),
        SimpleExpression::Suffixed(s) => suffixed_expression(st, s),
    }
}

/// Creates an empty table in a new register.
#[verifier::opaque]
pub open spec fn table_constructor(st: State, table: TableConstructor) -> Outcome<Desc> {
    if table.fields@.len() != 0 {
        Err((st, Stop::Unsupported(Feature::TableFields)))
    } else {
        match allocate(st) {
            Ok((st1, dest)) => Ok((emit(st1, OpCode::NewTable { dest }), temporary(dest))),
            Err(h) => Err(h),
        }
    }
}

/// Creates a closure of an inner function in a new register.
#[verifier::opaque]
pub open spec fn closure(st: State, proto: PrototypeIndex) -> Outcome<RegisterIndex> {
    match allocate(st) {
        Ok((st1, dest)) => Ok((emit(st1, OpCode::Closure { proto, dest }), dest)),
        Err(h) => Err(h),
    }
}

#[verifier::opaque]
pub open spec fn function_expression(st: State, f: FunctionDefinition) -> Outcome<Desc>
    decreases definition_size(f), 7nat,
{
    match new_prototype(st, f) {
        Ok((st1, proto)) => match closure(st1, proto) {
            Ok((st2, dest)) => Ok((st2, temporary(dest))),
            Err(h) => Err(h),
        },
        Err(h) => Err(h),
    }
}

#[verifier::opaque]
pub open spec fn suffixed_expression(st: State, suffixed: SuffixedExpression) -> Outcome<Desc>
    decreases suffixed_size(suffixed), 6nat,
{
    match bounded(primary_expression(st, suffixed.primary), primary_size(suffixed.primary)) {
        Ok((st1, d)) => suffixed_rest(st1, d, suffixed.suffixes@, 0),
        Err(h) => Err(h),
    }
}

/// Applies the suffixes from the `i`th on.
#[verifier::opaque]
pub open spec fn suffixed_rest(
    st: State,
    desc: Desc,
    suffixes: Seq<SuffixPart>,
    i: int,
) -> Outcome<Desc>
    decreases weight(desc) + suffixes_size(suffixes, i), 6nat,
{
    if 0 <= i < suffixes.len() {
        match bounded(
            suffix(st, desc, suffixes[i]),
            weight(desc) + suffix_size(suffixes[i]),
        ) {
            Ok((st1, d)) => suffixed_rest(st1, d, suffixes, i + 1),
            Err(h) => Err(h),
        }
    } else {
        Ok((st, desc))
    }
}

/// Applies a suffix: a field is read, a call is put off until its value is placed.
#[verifier::opaque]
pub open spec fn suffix(st: State, desc: Desc, part: SuffixPart) -> Outcome<Desc>
    decreases weight(desc) + suffix_size(part), 5nat,
{
    match part {
        SuffixPart::Field(field) => match bounded(field_key(st, field), field_size(field)) {
            Ok((st1, key)) => read_field(st1, desc, key),
            Err(h) => Err(h),
        },
        SuffixPart::Call(CallSuffix::Function(args)) => match bounded_list(
            expressions(st, args@, 0, Seq::empty()),
            expressions_size(args@, 0),
        ) {
            Ok((st1, args)) => Ok((st1, Desc::FunctionCall { func: Box::new(desc), args })),
            Err(h) => Err(h),
        },
        SuffixPart::Call(CallSuffix::Method(_, _)) => Err(
            (st, Stop::Unsupported(Feature::MethodCallExpression)),
        ),
    }
}

/// The key of a field.
#[verifier::opaque]
pub open spec fn field_key(st: State, field: FieldSuffix) -> Outcome<Desc>
    decreases field_size(field), 6nat,
{
    match field {
        FieldSuffix::Named(name) => Ok((st, Desc::Value(ValueView::String(name@)))),
        FieldSuffix::Indexed(e) => expression(st, e),
    }
}

/// Compiles the expressions from the `i`th on, behind those that are `done`.
#[verifier::opaque]
pub open spec fn expressions(st: State, es: Seq<Expression>, i: int, done: Seq<Desc>) -> Outcome<
    Seq<Desc>,
>
    decreases expressions_size(es, i), 6nat,
{
    if 0 <= i < es.len() {
        match bounded(expression(st, es[i]), expression_size(es[i])) {
            Ok((st1, d)) => expressions(st1, es, i + 1, done.push(d)),
            Err(h) => Err(h),
        }
    } else {
        Ok((st, done))
    }
}

#[verifier::opaque]
pub open spec fn primary_expression(st: State, primary: PrimaryExpression) -> Outcome<Desc>
    decreases primary_size(primary), 6nat,
{
    match primary {
        PrimaryExpression::Name(name) => match find_variable(st, name@) {
            Ok((st1, Variable::Local(register))) => Ok(
                (st1, Desc::Register { register, is_temporary: false }),
            ),
            Ok((st1, Variable::UpValue(upvalue))) => Ok((st1, Desc::UpValue(upvalue))),
            Ok((st1, Variable::Global(name))) => match bounded(get_environment(st1), 1) {
                Ok((st2, env)) => read_field(st2, env, Desc::Value(ValueView::String(name))),
                Err(h) => Err(h),
            },
            Err(h) => Err(h),
        },
        PrimaryExpression::GroupedExpression(e) => expression(st, e),
    }
}

#[verifier::opaque]
pub open spec fn unary_operator(st: State, op: UnaryOperator, operand: Desc) -> Outcome<Desc>
    decreases weight(operand), 4nat,
{
    let folded = match operand {
        Desc::Value(v) => unop_fold(op, v),
        _ => None,
    };
    match folded {
        Some(v) => Ok((st, Desc::Value(v))),
        None => if op == UnaryOperator::Not {
            Ok((st, Desc::Not(Box::new(operand))))
        } else {
            match operand_register(st, operand) {
                Ok((st1, source)) => match allocate(st1) {
                    Ok((st2, dest)) => Ok(
                        (emit(st2, unop_instruction(op, dest, source)), temporary(dest)),
                    ),
                    Err(h) => Err(h),
                },
                Err(h) => Err(h),
            }
        },
    }
}

/// The instruction of a simple operator, with the result in a new register.
#[verifier::opaque]
pub open spec fn simple_operation(st: State, left: Desc, op: SimpleBinOp, right: Desc) -> Outcome<
    Desc,
>
    decreases weight(left) + weight(right), 4nat,
{
    match operands(st, left, right) {
        Ok((st1, (left, right))) => match allocate(st1) {
            Ok((st2, dest)) => Ok(
                (emit(st2, OpCode::Simple { op, dest, left, right }), temporary(dest)),
            ),
            Err(h) => Err(h),
        },
        Err(h) => Err(h),
    }
}

#[verifier::opaque]
pub open spec fn binary_operator(st: State, left: Desc, op: BinaryOperator, right: Expression)
    -> Outcome<Desc>
    decreases weight(left) + expression_size(right), 5nat,
{
    match category(op) {
        BinOpCategory::Simple(op) => match bounded(expression(st, right), expression_size(right)) {
            Ok((st1, right)) => {
                let folded = match (left, right) {
                    (Desc::Value(a), Desc::Value(b)) => simple_fold(op, a, b),
                    _ => None,
                };
                match folded {
                    Some(v) => Ok((st1, Desc::Value(v))),
                    None => simple_operation(st1, left, op, right),
                }
            },
            Err(h) => Err(h),
        },
        BinOpCategory::Comparison(op) => match bounded(
            expression(st, right),
            expression_size(right),
        ) {
            Ok((st1, right)) => {
                let folded = match (left, right) {
                    (Desc::Value(a), Desc::Value(b)) => comparison_fold(op, a, b),
                    _ => None,
                };
                match folded {
                    Some(v) => Ok((st1, Desc::Value(v))),
                    None => Ok(
                        (
                            st1,
                            Desc::Comparison { left: Box::new(left), op, right: Box::new(right) },
                        ),
                    ),
                }
            },
            Err(h) => Err(h),
        },
        BinOpCategory::ShortCircuit(op) => Ok(
            (st, Desc::ShortCircuitBinOp { left: Box::new(left), op, right }),
        ),
        BinOpCategory::Concat => Err((st, Stop::Unsupported(Feature::Concat))),
    }
}

// ---------------------------------------------------------------------------------------------
// Statements

#[verifier::opaque]
pub open spec fn block(st: State, b: Block) -> Outcome<()>
    decreases block_size(b), 6nat,
{
    let first_local = current(st).locals.len() as int;
    match statements(st, b.statements@, 0) {
        Ok((st1, ())) => match b.return_statement {
            Some(r) => match return_statement(st1, r) {
                Ok((st2, ())) => end_scope(st2, first_local),
                Err(h) => Err(h),
            },
            None => end_scope(st1, first_local),
        },
        Err(h) => Err(h),
    }
}

/// Compiles the statements from the `i`th on.
#[verifier::opaque]
pub open spec fn statements(st: State, ss: Seq<Statement>, i: int) -> Outcome<()>
    decreases statements_size(ss, i), 6nat,
{
    if 0 <= i < ss.len() {
        match statement(st, ss[i]) {
            Ok((st1, ())) => statements(st1, ss, i + 1),
            Err(h) => Err(h),
        }
    } else {
        Ok((st, ()))
    }
}

#[verifier::opaque]
pub open spec fn statement(st: State, s: Statement) -> Outcome<()>
    decreases statement_size(s), 6nat,
{
    match s {
        Statement::If(s) => if_statement(st, s),
        Statement::Do(b) => block(st, b),
        Statement::Function(s) => function_statement(st, s),
        Statement::LocalFunction(s) => local_function(st, s),
        Statement::LocalStatement(s) => local_statement(st, s),
        Statement::FunctionCall(s) => function_call(st, s),
        Statement::Assignment(s) => assignment(st, s),
        Statement::While(_) => Err((st, Stop::Unsupported(Feature::While))),
        Statement::For(_) => Err((st, Stop::Unsupported(Feature::For))),
        Statement::Repeat(_) => Err((st, Stop::Unsupported(Feature::Repeat))),
        Statement::Label(_) => Err((st, Stop::Unsupported(Feature::Label))),
        Statement::Break => Err((st, Stop::Unsupported(Feature::Break))),
        Statement::Goto(_) => Err((st, Stop::Unsupported(Feature::Goto))),
    }
}

/// The test of an `if`. The instruction behind it is skipped where the condition holds; a
/// comparison is left to its own instruction, and a negation is folded into the test.
#[verifier::opaque]
pub open spec fn condition(st: State, e: Expression) -> Outcome<()>
    decreases expression_size(e), 7nat,
{
    match bounded(expression(st, e), expression_size(e)) {
        Ok((st1, Desc::Comparison { left, op, right })) => match operands(st1, *left, *right) {
            Ok((st2, (left, right))) => Ok((emit(st2, OpCode::Compare { op, left, right }), ())),
            Err(h) => Err(h),
        },
        Ok((st1, Desc::Not(operand))) => match operand_register(st1, *operand) {
            Ok((st2, value)) => Ok((emit(st2, OpCode::Test { value, is_true: false }), ())),
            Err(h) => Err(h),
        },
        Ok((st1, d)) => match operand_register(st1, d) {
            Ok((st2, value)) => Ok((emit(st2, OpCode::Test { value, is_true: true }), ())),
            Err(h) => Err(h),
        },
        Err(h) => Err(h),
    }
}

/// Completes the jump past the previous arm, if there is one.
pub open spec fn arm_start(st: State, next: Option<int>) -> Outcome<()> {
    match next {
        Some(jump) => jump_here(st, jump),
        None => Ok((st, ())),
    }
}

/// One arm of an `if`. The result is the jump past the arm where its condition fails, and the
/// jumps to the end, of this arm and of those before.
#[verifier::opaque]
pub open spec fn if_arm(
    st: State,
    e: Expression,
    b: Block,
    next: Option<int>,
    ends: Seq<int>,
) -> Outcome<(int, Seq<int>)>
    decreases expression_size(e) + block_size(b), 8nat,
{
    match arm_start(st, next) {
        Ok((st1, ())) => match condition(st1, e) {
            Ok((st2, ())) => match block(jump_placeholder(st2), b) {
                Ok((st3, ())) => Ok(
                    (jump_placeholder(st3), (here(st2), ends.push(here(st3)))),
                ),
                Err(h) => Err(h),
            },
            Err(h) => Err(h),
        },
        Err(h) => Err(h),
    }
}

/// The arms from the `i`th on.
#[verifier::opaque]
pub open spec fn if_arms(
    st: State,
    arms: Seq<(Expression, Block)>,
    i: int,
    next: int,
    ends: Seq<int>,
) -> Outcome<(int, Seq<int>)>
    decreases arms_size(arms, i), 8nat,
{
    if 0 <= i < arms.len() {
        match if_arm(st, arms[i].0, arms[i].1, Some(next), ends) {
            Ok((st1, (next, ends))) => if_arms(st1, arms, i + 1, next, ends),
            Err(h) => Err(h),
        }
    } else {
        Ok((st, (next, ends)))
    }
}

#[verifier::opaque]
pub open spec fn if_statement(st: State, s: IfStatement) -> Outcome<()>
    decreases statement_size(Statement::If(s)), 5nat,
{
    match if_arm(st, s.if_part.0, s.if_part.1, None, Seq::empty()) {
        Ok((st1, (next, ends))) => match if_arms(st1, s.else_if_parts@, 0, next, ends) {
            Ok((st2, (next, ends))) => match s.else_part {
                Some(b) => match jump_here(st2, next) {
                    Ok((st3, ())) => match block(st3, b) {
                        Ok((st4, ())) => jumps_here(st4, ends, 0),
                        Err(h) => Err(h),
                    },
                    Err(h) => Err(h),
                },
                None => jumps_here(st2, ends.push(next), 0),
            },
            Err(h) => Err(h),
        },
        Err(h) => Err(h),
    }
}

#[verifier::opaque]
pub open spec fn function_statement(st: State, s: FunctionStatement) -> Outcome<()>
    decreases definition_size(s.definition), 8nat,
{
    if s.name.fields@.len() != 0 {
        Err((st, Stop::Unsupported(Feature::FunctionNameFields)))
    } else if s.name.method is Some {
        Err((st, Stop::Unsupported(Feature::FunctionNameMethod)))
    } else {
        match new_prototype(st, s.definition) {
            Ok((st1, proto)) => match bounded(get_environment(st1), 1) {
                Ok((st2, env)) => match closure(st2, proto) {
                    Ok((st3, dest)) => write_field(
                        st3,
                        env,
                        Desc::Value(ValueView::String(s.name.name@)),
                        temporary(dest),
                    ),
                    Err(h) => Err(h),
                },
                Err(h) => Err(h),
            },
            Err(h) => Err(h),
        }
    }
}

#[verifier::opaque]
pub open spec fn local_function(st: State, s: FunctionStatement) -> Outcome<()>
    decreases definition_size(s.definition), 8nat,
{
    if s.name.fields@.len() != 0 {
        Err((st, Stop::Unsupported(Feature::FunctionNameFields)))
    } else if s.name.method is Some {
        Err((st, Stop::Unsupported(Feature::FunctionNameMethod)))
    } else {
        match new_prototype(st, s.definition) {
            Ok((st1, proto)) => match closure(st1, proto) {
                Ok((st2, dest)) => Ok((bind(st2, s.name.name@, dest), ())),
                Err(h) => Err(h),
            },
            Err(h) => Err(h),
        }
    }
}

#[verifier::opaque]
pub open spec fn return_statement(st: State, s: ReturnStatement) -> Outcome<()>
    decreases expressions_size(s.returns@, 0), 8nat,
{
    let count = s.returns@.len() as int;
    if count == 0 {
        Ok(
            (
                emit(
                    st,
                    OpCode::Return { start: RegisterIndex(0), count: VarCount::constant(0) },
                ),
                (),
            ),
        )
    } else if current(settle(st)).registers.top > u8::MAX {
        Err((settle(st), Stop::Error(CompilerError::Registers)))
    } else {
        let start = RegisterIndex(current(settle(st)).registers.top as u8);
        match push_returns(settle(st), s.returns@, 0) {
            Ok((st1, count)) => Ok(
                (pop_to(emit(st1, OpCode::Return { start, count }), start.0 as int), ()),
            ),
            Err(h) => Err(h),
        }
    }
}

/// Places the return values from the `i`th on, one after another at the top of the stack. The
/// result is their number, which is variable where the last one is a call.
#[verifier::opaque]
pub open spec fn push_returns(st: State, es: Seq<Expression>, i: int) -> Outcome<VarCount>
    decreases expressions_size(es, i), 7nat,
{
    if 0 <= i < es.len() {
        match bounded(expression(st, es[i]), expression_size(es[i])) {
            Ok((st1, d)) => if i < es.len() - 1 {
                match discharge(st1, d, ExprDestination::PushNew) {
                    Ok((st2, _)) => push_returns(st2, es, i + 1),
                    Err(h) => Err(h),
                }
            } else {
                match d {
                    Desc::FunctionCall { func, args } => match expr_function_call(
                        st1,
                        *func,
                        args,
                        VarCount::variable(),
                    ) {
                        Ok((st2, _)) => Ok((st2, VarCount::variable())),
                        Err(h) => Err(h),
                    },
                    _ => match discharge(st1, d, ExprDestination::PushNew) {
                        Ok((st2, _)) => if es.len() < u8::MAX {
                            Ok((st2, VarCount::constant(es.len() as int)))
                        } else {
                            Err((st2, Stop::Error(CompilerError::Returns)))
                        },
                        Err(h) => Err(h),
                    },
                }
            },
            Err(h) => Err(h),
        }
    } else {
        Err((st, Stop::Broken))
    }
}

/// Gives `count` names from the `i`th on the registers from `first` on.
pub open spec fn bind_names(
    st: State,
    names: Seq<Box<[u8]>>,
    i: int,
    first: RegisterIndex,
    count: int,
) -> State
    decreases count,
{
    if 0 < count {
        bind(
            bind_names(st, names, i, first, count - 1),
            names[i + count - 1]@,
            RegisterIndex((first.0 + count - 1) as u8),
        )
    } else {
        st
    }
}

/// A call as the last value of a local statement: it yields values for all names that are left.
#[verifier::opaque]
pub open spec fn local_call(
    st: State,
    names: Seq<Box<[u8]>>,
    i: int,
    func: Desc,
    args: Seq<Desc>,
) -> Outcome<()>
    decreases weight(func) + weights(args, 0), 4nat,
{
    let count = names.len() - i;
    if count > u8::MAX {
        Err((st, Stop::Error(CompilerError::Registers)))
    } else if count == u8::MAX {
        Err((st, Stop::Error(CompilerError::Returns)))
    } else {
        match expr_function_call(st, func, args, VarCount::constant(count)) {
            Ok((st1, _)) => match push_registers(st1, count) {
                Ok((st2, first)) => Ok((bind_names(st2, names, i, first, count), ())),
                Err(h) => Err(h),
            },
            Err(h) => Err(h),
        }
    }
}

/// The names from the `i`th on have no value: they become nil.
pub open spec fn local_nils(st: State, names: Seq<Box<[u8]>>, i: int) -> Outcome<()>
    decreases names.len() - i,
{
    if 0 <= i < names.len() {
        match allocate(st) {
            Ok((st1, r)) => local_nils(bind(load_nil(st1, r), names[i]@, r), names, i + 1),
            Err(h) => Err(h),
        }
    } else {
        Ok((st, ()))
    }
}

#[verifier::opaque]
pub open spec fn local_statement(st: State, s: LocalStatement) -> Outcome<()>
    decreases expressions_size(s.values@, 0), 8nat,
{
    local_values(st, s.names@, s.values@, 0)
}

/// The values from the `i`th on, each of which becomes a local as soon as it is evaluated, then
/// the names that have no value.
#[verifier::opaque]
pub open spec fn local_values(
    st: State,
    names: Seq<Box<[u8]>>,
    values: Seq<Expression>,
    i: int,
) -> Outcome<()>
    decreases expressions_size(values, i), 7nat,
{
    if 0 <= i < values.len() {
        match bounded(expression(st, values[i]), expression_size(values[i])) {
            Ok((st1, d)) => if i >= names.len() {
                match discharge(st1, d, ExprDestination::Nowhere) {
                    Ok((st2, _)) => local_values(st2, names, values, i + 1),
                    Err(h) => Err(h),
                }
            } else if i == values.len() - 1 && d is FunctionCall {
                local_call(st1, names, i, *d->func, d->args)
            } else {
                match discharge(st1, d, ExprDestination::AllocateNew) {
                    Ok((st2, Some(r))) => local_values(
                        bind(st2, names[i]@, r),
                        names,
                        values,
                        i + 1,
                    ),
                    Ok((st2, None)) => Err((st2, Stop::Broken)),
                    Err(h) => Err(h),
                }
            },
            Err(h) => Err(h),
        }
    } else {
        local_nils(st, names, values.len() as int)
    }
}

/// A call as a statement: it yields no values.
#[verifier::opaque]
pub open spec fn function_call(st: State, s: FunctionCallStatement) -> Outcome<()>
    decreases suffixed_size(s.head) + call_size(s.call), 6nat,
{
    match bounded(suffixed_expression(st, s.head), suffixed_size(s.head)) {
        Ok((st1, func)) => match s.call {
            CallSuffix::Function(args) => match bounded_list(
                expressions(st1, args@, 0, Seq::empty()),
                expressions_size(args@, 0),
            ) {
                Ok((st2, args)) => match expr_function_call(
                    st2,
                    func,
                    args,
                    VarCount::constant(0),
                ) {
                    Ok((st3, _)) => Ok((st3, ())),
                    Err(h) => Err(h),
                },
                Err(h) => Err(h),
            },
            CallSuffix::Method(_, _) => Err(
                (st1, Stop::Unsupported(Feature::MethodCallStatement)),
            ),
        },
        Err(h) => Err(h),
    }
}

#[verifier::opaque]
pub open spec fn assignment(st: State, s: AssignmentStatement) -> Outcome<()>
    decreases targets_size(s.targets@, 0) + expressions_size(s.values@, 0), 8nat,
{
    assignments(st, s.targets@, s.values@, 0)
}

/// The value that belongs to the `i`th target: nil where there is none.
#[verifier::opaque]
pub open spec fn assigned_value(st: State, values: Seq<Expression>, i: int) -> Outcome<Desc>
    decreases expressions_size(values, i), 6nat,
{
    if 0 <= i < values.len() {
        expression(st, values[i])
    } else {
        Ok((st, Desc::Value(ValueView::Nil)))
    }
}

/// The size of that value.
pub open spec fn assigned_size(values: Seq<Expression>, i: int) -> nat {
    if 0 <= i < values.len() {
        expression_size(values[i])
    } else {
        1
    }
}

/// The targets from the `i`th on.
#[verifier::opaque]
pub open spec fn assignments(
    st: State,
    targets: Seq<AssignmentTarget>,
    values: Seq<Expression>,
    i: int,
) -> Outcome<()>
    decreases targets_size(targets, i) + expressions_size(values, i), 7nat,
{
    if 0 <= i < targets.len() {
        match bounded(assigned_value(st, values, i), assigned_size(values, i)) {
            Ok((st1, d)) => match assign(st1, targets[i], d) {
                Ok((st2, ())) => assignments(st2, targets, values, i + 1),
                Err(h) => Err(h),
            },
            Err(h) => Err(h),
        }
    } else {
        Ok((st, ()))
    }
}

/// Assigns a value to a target.
#[verifier::opaque]
pub open spec fn assign(st: State, target: AssignmentTarget, value: Desc) -> Outcome<()>
    decreases target_size(target) + weight(value), 6nat,
{
    match target {
        AssignmentTarget::Name(name) => match find_variable(st, name@) {
            Ok((st1, Variable::Local(r))) => match discharge(
                st1,
                value,
                ExprDestination::Register(r),
            ) {
                Ok((st2, _)) => Ok((st2, ())),
                Err(h) => Err(h),
            },
            Ok((st1, Variable::UpValue(dest))) => match any_register(st1, value) {
                Ok((st2, source)) => release(
                    emit(st2, OpCode::SetUpValue { source, dest }),
                    held(value, source),
                ),
                Err(h) => Err(h),
            },
            Ok((st1, Variable::Global(name))) => match bounded(get_environment(st1), 1) {
                Ok((st2, env)) => write_field(
                    st2,
                    env,
                    Desc::Value(ValueView::String(name)),
                    value,
                ),
                Err(h) => Err(h),
            },
            Err(h) => Err(h),
        },
        AssignmentTarget::Field(table, field) => match bounded(
            suffixed_expression(st, table),
            suffixed_size(table),
        ) {
            Ok((st1, table)) => match bounded(field_key(st1, field), field_size(field)) {
                Ok((st2, key)) => write_field(st2, table, key, value),
                Err(h) => Err(h),
            },
            Err(h) => Err(h),
        },
    }
}

// ---------------------------------------------------------------------------------------------
// Functions

/// The parameters are the first locals, in the first registers.
pub open spec fn parameter_locals(parameters: Seq<Box<[u8]>>) -> Seq<(Seq<u8>, RegisterIndex)> {
    Seq::new(parameters.len(), |i: int| (parameters[i]@, RegisterIndex(i as u8)))
}

/// A function before its body is compiled.
pub open spec fn new_function(parameters: Seq<Box<[u8]>>, has_varargs: bool) -> FunctionState {
    let empty = Registers::empty();
    FunctionState {
        constants: Seq::empty(),
        upvalues: Seq::empty(),
        prototypes: Seq::empty(),
        registers: if parameters.len() > 0 {
            empty.push(parameters.len() as int)
        } else {
            empty
        },
        has_varargs,
        fixed_params: parameters.len() as u8,
        locals: parameter_locals(parameters),
        opcodes: Seq::empty(),
        landing: 0,
    }
}

/// The compiled form of a function whose body has been compiled.
pub open spec fn finished(f: FunctionState) -> ProtoView {
    ProtoView {
        fixed_params: f.fixed_params,
        has_varargs: false,
        stack_size: f.registers.size,
        constants: f.constants,
        opcodes: f.opcodes,
        upvalues: f.upvalues.map_values(|u: (Seq<u8>, UpValueDescriptor)| u.1),
        prototypes: f.prototypes,
    }
}

/// Ends a function: it returns nothing where its body has not returned before, and all its
/// registers have been given back.
#[verifier::opaque]
pub open spec fn finish(st: State) -> Outcome<ProtoView> {
    let st1 = emit(
        st,
        OpCode::Return { start: RegisterIndex(0), count: VarCount::constant(0) },
    );
    if current(st1).locals.len() != current(st1).fixed_params {
        Err((st1, Stop::Broken))
    } else {
        match end_scope(st1, 0) {
            Ok((st2, ())) => if current(settle(st2)).registers.top != 0 {
                Err((settle(st2), Stop::Broken))
            } else {
                Ok((st2.drop_last(), finished(current(st2))))
            },
            Err(h) => Err(h),
        }
    }
}

/// Compiles a function inside those that are being compiled.
#[verifier::opaque]
pub open spec fn compile_function(
    st: State,
    parameters: Seq<Box<[u8]>>,
    has_varargs: bool,
    body: Block,
) -> Outcome<ProtoView>
    decreases block_size(body), 7nat,
{
    if parameters.len() > u8::MAX {
        Err((st, Stop::Error(CompilerError::FixedParameters)))
    } else {
        match block(st.push(new_function(parameters, has_varargs)), body) {
            Ok((st1, ())) => finish(st1),
            Err(h) => Err(h),
        }
    }
}

/// Adds a compiled function to the functions written inside the innermost one.
#[verifier::opaque]
pub open spec fn add_prototype(st: State, proto: ProtoView) -> Outcome<PrototypeIndex> {
    let prototypes = current(st).prototypes;
    let st1 = put(st, FunctionState { prototypes: prototypes.push(proto), ..current(st) });
    if prototypes.len() <= u8::MAX {
        Ok((st1, PrototypeIndex(prototypes.len() as u8)))
    } else {
        Err((st1, Stop::Error(CompilerError::Functions)))
    }
}

/// Compiles a function and adds it to the functions written inside the innermost one.
#[verifier::opaque]
pub open spec fn new_prototype(st: State, f: FunctionDefinition) -> Outcome<PrototypeIndex>
    decreases definition_size(f), 6nat,
{
    match compile_function(st, f.parameters@, f.has_varargs, f.body) {
        Ok((st1, proto)) => add_prototype(st1, proto),
        Err(h) => Err(h),
    }
}

/// Compiles a chunk: a function without parameters that takes any arguments.
pub open spec fn compilation(chunk: Chunk) -> Result<ProtoView, Stop> {
    match compile_function(Seq::empty(), Seq::empty(), true, chunk.block) {
        Ok((_, proto)) => Ok(proto),
        Err((_, h)) => Err(h),
    }
}

} // verus!
