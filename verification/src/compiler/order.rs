//! What holds of the state between any two steps of a compilation, and that the basic steps
//! keep it.

use crate::compiler::error::CompilerError;
use crate::compiler::model::{
    allocate, bind, constant_position, continues_run, current, emit, env_name, free_register,
    get_constant, here, jump_here, load_nil, newest_local, pop_to, push_registers, put,
    set_registers, settle, FunctionState, State, Stop,
};
use crate::compiler::operators::RegisterOrConstant;
use crate::compiler::register_allocator::{height, lowest_free, REGISTERS, Registers};
use crate::function::{ProtoView, UpValueDescriptor};
use crate::opcode::{OpCode, RegisterIndex, VarCount};
use crate::value::ValueView;
use vstd::prelude::*;

verus! {

// ---------------------------------------------------------------------------------------------
// Instructions within limits

/// How much an instruction of a function can refer to.
pub struct Limits {
    pub registers: int,
    pub constants: int,
    pub upvalues: int,
    pub prototypes: int,
    /// The last position to which control may go.
    pub target: int,
}

/// Whether the first limits are at most the second ones.
pub open spec fn within(a: Limits, b: Limits) -> bool {
    &&& a.registers <= b.registers
    &&& a.constants <= b.constants
    &&& a.upvalues <= b.upvalues
    &&& a.prototypes <= b.prototypes
    &&& a.target <= b.target
}

pub open spec fn register_fits(r: RegisterIndex, l: Limits) -> bool {
    r.0 < l.registers
}

pub open spec fn operand_fits(o: RegisterOrConstant, l: Limits) -> bool {
    match o {
        RegisterOrConstant::Register(r) => register_fits(r, l),
        RegisterOrConstant::Constant(c) => c.0 < l.constants,
    }
}

/// Whether the instruction at `position` refers only to registers, constants, upvalues and inner
/// functions that exist, and hands control on only to positions within the limits. A call finds
/// all its arguments behind the function in registers that exist.
pub open spec fn op_fits(op: OpCode, position: int, l: Limits) -> bool {
    match op {
        OpCode::Move { dest, source } => register_fits(dest, l) && register_fits(source, l),
        OpCode::LoadConstant { dest, constant } => register_fits(dest, l) && constant.0
            < l.constants,
        OpCode::LoadBool { dest, value: _, skip_next } => register_fits(dest, l) && (skip_next
            ==> position + 2 <= l.target),
        OpCode::LoadNil { dest, count } => 1 <= count && dest.0 + count <= l.registers,
        OpCode::NewTable { dest } => register_fits(dest, l),
        OpCode::GetTableR { dest, table, key } => register_fits(dest, l) && register_fits(table, l)
            && register_fits(key, l),
        OpCode::GetTableC { dest, table, key } => register_fits(dest, l) && register_fits(table, l)
            && key.0 < l.constants,
        OpCode::SetTableRR { table, key, value } => register_fits(table, l) && register_fits(
            key,
            l,
        ) && register_fits(value, l),
        OpCode::SetTableRC { table, key, value } => register_fits(table, l) && register_fits(
            key,
            l,
        ) && value.0 < l.constants,
        OpCode::SetTableCR { table, key, value } => register_fits(table, l) && key.0 < l.constants
            && register_fits(value, l),
        OpCode::SetTableCC { table, key, value } => register_fits(table, l) && key.0 < l.constants
            && value.0 < l.constants,
        OpCode::GetUpTableR { dest, table, key } => register_fits(dest, l) && table.0 < l.upvalues
            && register_fits(key, l),
        OpCode::GetUpTableC { dest, table, key } => register_fits(dest, l) && table.0 < l.upvalues
            && key.0 < l.constants,
        OpCode::SetUpTableRR { table, key, value } => table.0 < l.upvalues && register_fits(key, l)
            && register_fits(value, l),
        OpCode::SetUpTableRC { table, key, value } => table.0 < l.upvalues && register_fits(key, l)
            && value.0 < l.constants,
        OpCode::SetUpTableCR { table, key, value } => table.0 < l.upvalues && key.0 < l.constants
            && register_fits(value, l),
        OpCode::SetUpTableCC { table, key, value } => table.0 < l.upvalues && key.0 < l.constants
            && value.0 < l.constants,
        OpCode::Call { func, args, returns: _ } => register_fits(func, l) && (args
            != VarCount::variable() ==> func.0 + (args.0 - 1) < l.registers),
        OpCode::Return { start, count } => count == VarCount::constant(0) || register_fits(
            start,
            l,
        ),
        OpCode::Closure { proto, dest } => proto.0 < l.prototypes && register_fits(dest, l),
        OpCode::Jump { offset } => 0 <= offset && position + 1 + offset <= l.target,
        OpCode::Test { value, is_true: _ } => register_fits(value, l) && position + 2 <= l.target,
        OpCode::TestSet { dest, value, is_true: _ } => register_fits(dest, l) && register_fits(
            value,
            l,
        ) && position + 2 <= l.target,
        OpCode::GetUpValue { source, dest } => source.0 < l.upvalues && register_fits(dest, l),
        OpCode::SetUpValue { source, dest } => register_fits(source, l) && dest.0 < l.upvalues,
        OpCode::Not { dest, source } => register_fits(dest, l) && register_fits(source, l),
        OpCode::Minus { dest, source } => register_fits(dest, l) && register_fits(source, l),
        OpCode::BitNot { dest, source } => register_fits(dest, l) && register_fits(source, l),
        OpCode::Length { dest, source } => register_fits(dest, l) && register_fits(source, l),
        OpCode::Simple { op: _, dest, left, right } => register_fits(dest, l) && operand_fits(
            left,
            l,
        ) && operand_fits(right, l),
        OpCode::Compare { op: _, left, right } => operand_fits(left, l) && operand_fits(right, l)
            && position + 2 <= l.target,
    }
}

/// What an upvalue descriptor refers to exists in the enclosing function.
pub open spec fn upvalue_fits(u: UpValueDescriptor, registers: int, upvalues: int) -> bool {
    match u {
        UpValueDescriptor::Environment => false,
        UpValueDescriptor::ParentLocal(r) => r.0 < registers,
        UpValueDescriptor::Outer(i) => i.0 < upvalues,
    }
}

/// An upvalue stands for what its name stands for in the enclosing function: the newest local
/// variable of that name, or else the upvalue of that name.
pub open spec fn upvalue_from(u: (Seq<u8>, UpValueDescriptor), outer: FunctionState) -> bool {
    &&& upvalue_fits(u.1, outer.registers.size, outer.upvalues.len() as int)
    &&& match u.1 {
        UpValueDescriptor::Environment => false,
        UpValueDescriptor::ParentLocal(r) => newest_local(
            outer.locals,
            u.0,
            outer.locals.len() as int,
        ) == Some(r),
        UpValueDescriptor::Outer(i) => {
            &&& newest_local(outer.locals, u.0, outer.locals.len() as int) is None
            &&& outer.upvalues[i.0 as int].0 == u.0
        },
    }
}

/// The limits of a compiled function. Control never goes past the last instruction.
pub open spec fn proto_limits(p: ProtoView) -> Limits {
    Limits {
        registers: p.stack_size,
        constants: p.constants.len() as int,
        upvalues: p.upvalues.len() as int,
        prototypes: p.prototypes.len() as int,
        target: p.opcodes.len() - 1,
    }
}

/// A compiled function is well formed: it ends with a return of nothing, each of its instructions
/// fits, its constants differ, its parameters have registers, and the functions inside it are well
/// formed and take their upvalues from what it has.
pub open spec fn proto_ok(p: ProtoView) -> bool
    decreases p,
{
    &&& p.opcodes.len() > 0
    &&& p.opcodes.last() == (OpCode::Return {
        start: RegisterIndex(0),
        count: VarCount::constant(0),
    })
    &&& forall|i: int|
        0 <= i < p.opcodes.len() ==> op_fits(#[trigger] p.opcodes[i], i, proto_limits(p))
    &&& p.fixed_params <= p.stack_size <= REGISTERS
    &&& p.constants.no_duplicates()
    &&& p.upvalues.len() <= 256
    &&& forall|i: int|
        0 <= i < p.prototypes.len() ==> {
            &&& proto_ok(#[trigger] p.prototypes[i])
            &&& inner_ok(p.prototypes[i], p.stack_size, p.upvalues.len() as int)
        }
}

/// An inner function takes its upvalues from what the enclosing function has.
pub open spec fn inner_ok(p: ProtoView, registers: int, upvalues: int) -> bool {
    forall|i: int|
        0 <= i < p.upvalues.len() ==> upvalue_fits(#[trigger] p.upvalues[i], registers, upvalues)
}

// ---------------------------------------------------------------------------------------------
// The invariant

/// The registers in use lie below the top.
pub open spec fn regs_ok(r: Registers) -> bool {
    &&& 0 <= r.top <= r.size <= REGISTERS
    &&& forall|i: int| #[trigger] r.used.contains(i) ==> 0 <= i < r.top
}

/// Whether a register belongs to a local variable.
pub open spec fn is_local(f: FunctionState, r: int) -> bool {
    exists|i: int| 0 <= i < f.locals.len() && (#[trigger] f.locals[i]).1.0 == r
}

/// Each local variable has a register of its own, which is in use.
pub open spec fn locals_ok(f: FunctionState) -> bool {
    &&& forall|i: int|
        0 <= i < f.locals.len() ==> f.registers.used.contains((#[trigger] f.locals[i]).1.0 as int)
    &&& forall|i: int, j: int|
        0 <= i < j < f.locals.len() ==> (#[trigger] f.locals[i]).1 != (#[trigger] f.locals[j]).1
}

pub open spec fn limits(f: FunctionState) -> Limits {
    Limits {
        registers: f.registers.size,
        constants: f.constants.len() as int,
        upvalues: f.upvalues.len() as int,
        prototypes: f.prototypes.len() as int,
        target: f.opcodes.len() as int,
    }
}

/// The furthest place to which control goes from the instruction at `position`.
pub open spec fn reach(op: OpCode, position: int) -> int {
    match op {
        OpCode::Jump { offset } => position + 1 + offset,
        OpCode::Test { .. } => position + 2,
        OpCode::TestSet { .. } => position + 2,
        OpCode::Compare { .. } => position + 2,
        OpCode::LoadBool { dest: _, value: _, skip_next } => if skip_next {
            position + 2
        } else {
            position + 1
        },
        _ => position + 1,
    }
}

/// Where the last instruction sets registers to nil and no completed jump lands behind it, control
/// gets behind it through that instruction alone.
pub open spec fn runs_ok(opcodes: Seq<OpCode>, landing: int) -> bool {
    opcodes.len() > 0 && opcodes.last() is LoadNil && landing < opcodes.len() ==> forall|i: int|
        0 <= i < opcodes.len() - 1 ==> reach(#[trigger] opcodes[i], i) < opcodes.len()
}

/// What holds of a function at all times.
pub open spec fn function_ok(f: FunctionState) -> bool {
    &&& regs_ok(f.registers)
    &&& locals_ok(f)
    &&& 0 <= f.landing <= f.opcodes.len()
    &&& runs_ok(f.opcodes, f.landing)
    &&& f.fixed_params <= f.registers.size
    &&& f.constants.no_duplicates()
    &&& f.constants.len() <= 65536
    &&& f.upvalues.len() <= 256
    &&& f.prototypes.len() <= 256
    &&& forall|i: int|
        0 <= i < f.opcodes.len() ==> op_fits(#[trigger] f.opcodes[i], i, limits(f))
    &&& forall|i: int|
        0 <= i < f.prototypes.len() ==> {
            &&& proto_ok(#[trigger] f.prototypes[i])
            &&& inner_ok(f.prototypes[i], f.registers.size, f.upvalues.len() as int)
        }
}

/// Each variable is at most one of the upvalues of a function.
pub open spec fn distinct_names(upvalues: Seq<(Seq<u8>, UpValueDescriptor)>) -> bool {
    forall|i: int, j: int|
        0 <= i < j < upvalues.len() ==> (#[trigger] upvalues[i]).0 != (#[trigger] upvalues[j]).0
}

/// The `k`th function takes its upvalues from the function around it, each once; the chunk has at
/// most the environment.
pub open spec fn upvalues_ok(st: State, k: int) -> bool {
    if k == 0 {
        &&& st[0].upvalues.len() <= 1
        &&& st[0].upvalues.len() == 1 ==> st[0].upvalues[0] == (
            env_name(),
            UpValueDescriptor::Environment,
        )
    } else {
        &&& distinct_names(st[k].upvalues)
        &&& forall|i: int|
            0 <= i < st[k].upvalues.len() ==> upvalue_from(
                #[trigger] st[k].upvalues[i],
                st[k - 1],
            )
    }
}

/// What holds between any two steps.
#[verifier::opaque]
pub open spec fn inv(st: State) -> bool {
    &&& st.len() > 0
    &&& forall|k: int| 0 <= k < st.len() ==> function_ok(#[trigger] st[k])
    &&& forall|k: int| 0 <= k < st.len() ==> #[trigger] upvalues_ok(st, k)
}

pub open spec fn prefix<T>(a: Seq<T>, b: Seq<T>) -> bool {
    a.len() <= b.len() && forall|i: int| 0 <= i < a.len() ==> #[trigger] a[i] == b[i]
}

/// A function that is not the innermost one changes only by upvalues that are handed down.
pub open spec fn waits(f: FunctionState, g: FunctionState) -> bool {
    &&& prefix(f.upvalues, g.upvalues)
    &&& g == (FunctionState { upvalues: g.upvalues, ..f })
}

/// An instruction that sets registers to nil, and one that sets these and more.
pub open spec fn lengthens(a: OpCode, b: OpCode) -> bool {
    &&& a matches OpCode::LoadNil { dest: first, count: n }
    &&& b matches OpCode::LoadNil { dest: second, count: m }
    &&& first == second
    &&& n <= m
}

/// Instructions are added and stay as they are, but that the last one may come to set more
/// registers to nil, as long as no jump lands behind it.
pub open spec fn code_grows(f: FunctionState, g: FunctionState) -> bool {
    &&& f.opcodes.len() <= g.opcodes.len()
    &&& f.landing <= g.landing
    &&& forall|i: int|
        0 <= i < f.opcodes.len() ==> #[trigger] f.opcodes[i] == g.opcodes[i] || {
            &&& i == f.opcodes.len() - 1
            &&& f.landing < f.opcodes.len()
            &&& lengthens(f.opcodes[i], g.opcodes[i])
        }
}

/// The innermost function only grows.
pub open spec fn grows(f: FunctionState, g: FunctionState) -> bool {
    &&& prefix(f.constants, g.constants)
    &&& prefix(f.upvalues, g.upvalues)
    &&& prefix(f.prototypes, g.prototypes)
    &&& code_grows(f, g)
    &&& prefix(f.locals, g.locals)
    &&& f.registers.size <= g.registers.size
    &&& f.fixed_params == g.fixed_params
    &&& f.has_varargs == g.has_varargs
}

/// A limit has been reached: the function that was being compiled has as many registers, constants
/// or inner functions as there can be, it is too long to be jumped over, or one of the functions
/// has too many upvalues; or what was to be compiled is so large that it exceeds a limit by
/// itself. `n` is its size.
pub open spec fn exceeded(st: State, e: CompilerError, n: nat) -> bool {
    match e {
        CompilerError::Registers => current(st).registers.size + n > REGISTERS,
        CompilerError::Constants => current(st).constants.len() > u16::MAX,
        CompilerError::Functions => current(st).prototypes.len() > 256,
        CompilerError::OpCodes => current(st).opcodes.len() > i16::MAX,
        CompilerError::UpValues => exists|k: int|
            0 <= k < st.len() && (#[trigger] st[k]).upvalues.len() > 256,
        CompilerError::FixedParameters => n >= u8::MAX,
        CompilerError::Returns => n >= u8::MAX,
    }
}

/// The compilation stops because of this limit.
pub open spec fn over(stop: (State, Stop), e: CompilerError, n: nat) -> bool {
    stop.1 == Stop::Error(e) && exceeded(stop.0, e, n)
}

/// How a state changes in the course of a compilation.
#[verifier::opaque]
pub open spec fn evolves(a: State, b: State) -> bool {
    &&& a.len() == b.len()
    &&& a.len() > 0
    &&& forall|k: int| 0 <= k < a.len() - 1 ==> waits(#[trigger] a[k], b[k])
    &&& grows(current(a), current(b))
}

/// The registers in use.
pub open spec fn used(st: State) -> Set<int> {
    current(st).registers.used
}

/// A change that leaves the local variables as they are.
pub open spec fn step(a: State, b: State) -> bool {
    &&& inv(b)
    &&& evolves(a, b)
    &&& current(a).locals == current(b).locals
}

/// A change that leaves the local variables and the registers as they are.
pub open spec fn quiet(a: State, b: State) -> bool {
    &&& step(a, b)
    &&& current(a).registers == current(b).registers
}

/// The top lies directly above the highest register in use.
pub open spec fn settled(st: State) -> bool {
    current(st).registers.top == height(used(st), REGISTERS as int)
}

pub broadcast proof fn lemma_evolves_trans(a: State, b: State, c: State)
    requires
        #[trigger] evolves(a, b),
        #[trigger] evolves(b, c),
    ensures
        evolves(a, c),
{
    reveal(evolves);
    assert forall|k: int| 0 <= k < a.len() - 1 implies waits(#[trigger] a[k], c[k]) by {
        assert(waits(a[k], b[k]));
        assert(waits(b[k], c[k]));
    }
}

pub proof fn lemma_evolves_refl(a: State)
    requires
        a.len() > 0,
    ensures
        evolves(a, a),
{
    reveal(evolves);
}

/// What the invariant says of the innermost function.
pub broadcast proof fn lemma_inv_current(st: State)
    requires
        #[trigger] inv(st),
    ensures
        st.len() > 0,
        function_ok(current(st)),
        evolves(st, st),
{
    reveal(inv);
    lemma_evolves_refl(st);
}

/// What a change says of the innermost function.
pub broadcast proof fn lemma_evolves_current(a: State, b: State)
    requires
        #[trigger] evolves(a, b),
    ensures
        a.len() == b.len(),
        grows(current(a), current(b)),
        within(limits(current(a)), limits(current(b))),
{
    reveal(evolves);
}

pub broadcast group group_state {
    lemma_evolves_trans,
    lemma_inv_current,
    lemma_evolves_current,
}

/// Greater limits allow more.
pub proof fn lemma_fits_mono(op: OpCode, position: int, a: Limits, b: Limits)
    requires
        op_fits(op, position, a),
        within(a, b),
    ensures
        op_fits(op, position, b),
{
}

/// Replacing the innermost function by a grown one that is in order keeps the invariant.
pub proof fn lemma_put(st: State, g: FunctionState)
    requires
        inv(st),
        function_ok(g),
        grows(current(st), g),
        g.upvalues == current(st).upvalues,
    ensures
        inv(put(st, g)),
        evolves(st, put(st, g)),
        current(put(st, g)) == g,
{
    reveal(inv);
    reveal(evolves);
    let st1 = put(st, g);
    assert forall|k: int| 0 <= k < st1.len() implies function_ok(#[trigger] st1[k]) by {
        assert(function_ok(st[k]));
    }
    assert forall|k: int| 0 <= k < st1.len() implies #[trigger] upvalues_ok(st1, k) by {
        assert(upvalues_ok(st, k));
        if k > 0 {
            assert forall|i: int| 0 <= i < st1[k].upvalues.len() implies upvalue_from(
                #[trigger] st1[k].upvalues[i],
                st1[k - 1],
            ) by {
                assert(st[k].upvalues[i] == st1[k].upvalues[i]);
            }
        }
    }
}

/// The instructions and inner functions that were in order stay so when the function grows.
pub proof fn lemma_grown_code(f: FunctionState, g: FunctionState, i: int)
    requires
        function_ok(f),
        grows(f, g),
        0 <= i < f.opcodes.len(),
        g.opcodes[i] == f.opcodes[i],
    ensures
        op_fits(g.opcodes[i], i, limits(g)),
{
    assert(op_fits(f.opcodes[i], i, limits(f)));
    lemma_fits_mono(f.opcodes[i], i, limits(f), limits(g));
}

pub proof fn lemma_grown_proto(f: FunctionState, g: FunctionState, i: int)
    requires
        function_ok(f),
        grows(f, g),
        0 <= i < f.prototypes.len(),
    ensures
        proto_ok(g.prototypes[i]),
        inner_ok(g.prototypes[i], g.registers.size, g.upvalues.len() as int),
{
    assert(proto_ok(f.prototypes[i]));
    assert(g.prototypes[i] == f.prototypes[i]);
    let p = g.prototypes[i];
    assert forall|j: int| 0 <= j < p.upvalues.len() implies upvalue_fits(
        #[trigger] p.upvalues[j],
        g.registers.size,
        g.upvalues.len() as int,
    ) by {
        assert(upvalue_fits(p.upvalues[j], f.registers.size, f.upvalues.len() as int));
    }
}

/// A function that grows by nothing but registers stays in order.
pub proof fn lemma_registers(st: State, r: Registers)
    requires
        inv(st),
        regs_ok(r),
        current(st).registers.size <= r.size,
        forall|i: int|
            0 <= i < current(st).locals.len() ==> r.used.contains(
                (#[trigger] current(st).locals[i]).1.0 as int,
            ),
    ensures
        step(st, set_registers(st, r)),
        current(set_registers(st, r)) == (FunctionState { registers: r, ..current(st) }),
{
    broadcast use group_state;

    let f = current(st);
    let g = FunctionState { registers: r, ..f };
    assert forall|i: int| 0 <= i < g.opcodes.len() implies op_fits(
        #[trigger] g.opcodes[i],
        i,
        limits(g),
    ) by {
        lemma_grown_code(f, g, i);
    }
    assert forall|i: int| 0 <= i < g.prototypes.len() implies {
        &&& proto_ok(#[trigger] g.prototypes[i])
        &&& inner_ok(g.prototypes[i], g.registers.size, g.upvalues.len() as int)
    } by {
        lemma_grown_proto(f, g, i);
    }
    assert(locals_ok(g));
    lemma_put(st, g);
}

/// Appending an instruction that fits.
pub proof fn lemma_emit(st: State, op: OpCode)
    requires
        inv(st),
        op_fits(op, here(st), Limits { target: here(st) + 1, ..limits(current(st)) }),
    ensures
        quiet(st, emit(st, op)),
        here(emit(st, op)) == here(st) + 1,
        current(emit(st, op)).opcodes == current(st).opcodes.push(op),
{
    broadcast use group_state;

    let f = current(st);
    let g = FunctionState { opcodes: f.opcodes.push(op), ..f };
    lemma_extended(f, g);
    lemma_appended(f, g.opcodes, op);
    assert forall|i: int| 0 <= i < g.opcodes.len() implies op_fits(
        #[trigger] g.opcodes[i],
        i,
        limits(g),
    ) by {
        if i < f.opcodes.len() {
            lemma_grown_code(f, g, i);
        }
    }
    lemma_put(st, g);
}

/// Whatever is appended, control does not get past it from before.
proof fn lemma_appended(f: FunctionState, opcodes: Seq<OpCode>, last: OpCode)
    requires
        function_ok(f),
        opcodes == f.opcodes.push(last),
    ensures
        runs_ok(opcodes, f.landing),
{
    assert forall|i: int| 0 <= i < opcodes.len() - 1 implies reach(#[trigger] opcodes[i], i)
        < opcodes.len() by {
        assert(op_fits(f.opcodes[i], i, limits(f)));
    }
}

/// What stays in order of a function that grows without a change of its registers and locals.
proof fn lemma_extended(f: FunctionState, g: FunctionState)
    requires
        function_ok(f),
        prefix(f.constants, g.constants),
        prefix(f.opcodes, g.opcodes),
        f.prototypes == g.prototypes,
        f.upvalues == g.upvalues,
        f.locals == g.locals,
        f.registers == g.registers,
        f.fixed_params == g.fixed_params,
        f.has_varargs == g.has_varargs,
        f.landing == g.landing,
    ensures
        grows(f, g),
        locals_ok(g),
        forall|i: int|
            0 <= i < g.prototypes.len() ==> {
                &&& proto_ok(#[trigger] g.prototypes[i])
                &&& inner_ok(g.prototypes[i], g.registers.size, g.upvalues.len() as int)
            },
{
    assert forall|i: int| 0 <= i < g.prototypes.len() implies {
        &&& proto_ok(#[trigger] g.prototypes[i])
        &&& inner_ok(g.prototypes[i], g.registers.size, g.upvalues.len() as int)
    } by {
        lemma_grown_proto(f, g, i);
    }
}

/// Appending an instruction that may skip the next one, and that one.
pub proof fn lemma_emit_pair(st: State, first: OpCode, second: OpCode)
    requires
        inv(st),
        op_fits(first, here(st), Limits { target: here(st) + 2, ..limits(current(st)) }),
        op_fits(second, here(st) + 1, Limits { target: here(st) + 2, ..limits(current(st)) }),
        !(second is LoadNil),
    ensures
        quiet(st, emit(emit(st, first), second)),
        here(emit(emit(st, first), second)) == here(st) + 2,
        current(emit(emit(st, first), second)).opcodes == current(st).opcodes.push(first).push(
            second,
        ),
{
    broadcast use group_state;

    let f = current(st);
    let g = FunctionState { opcodes: f.opcodes.push(first).push(second), ..f };
    lemma_extended(f, g);
    assert forall|i: int| 0 <= i < g.opcodes.len() implies op_fits(
        #[trigger] g.opcodes[i],
        i,
        limits(g),
    ) by {
        if i < f.opcodes.len() {
            lemma_grown_code(f, g, i);
        }
    }
    lemma_put(st, g);
    assert(emit(emit(st, first), second) =~= put(st, g));
}

/// The instructions of a comparison with a destination.
pub proof fn lemma_emit_comparison(st: State, compare: OpCode, dest: RegisterIndex)
    requires
        inv(st),
        compare is Compare,
        op_fits(compare, here(st), Limits { target: here(st) + 2, ..limits(current(st)) }),
        register_fits(dest, limits(current(st))),
    ensures
        quiet(
            st,
            emit(
                emit(
                    emit(emit(st, compare), OpCode::Jump { offset: 1 }),
                    OpCode::LoadBool { dest, value: false, skip_next: true },
                ),
                OpCode::LoadBool { dest, value: true, skip_next: false },
            ),
        ),
{
    broadcast use group_state;

    let f = current(st);
    let jump = OpCode::Jump { offset: 1 };
    let no = OpCode::LoadBool { dest, value: false, skip_next: true };
    let yes = OpCode::LoadBool { dest, value: true, skip_next: false };
    let g = FunctionState {
        opcodes: f.opcodes.push(compare).push(jump).push(no).push(yes),
        ..f
    };
    lemma_extended(f, g);
    assert forall|i: int| 0 <= i < g.opcodes.len() implies op_fits(
        #[trigger] g.opcodes[i],
        i,
        limits(g),
    ) by {
        if i < f.opcodes.len() {
            lemma_grown_code(f, g, i);
        }
    }
    lemma_put(st, g);
    assert(emit(emit(emit(emit(st, compare), jump), no), yes) =~= put(st, g));
}

// ---------------------------------------------------------------------------------------------
// Registers

/// The height lies directly above the highest register in use.
pub proof fn lemma_height(used: Set<int>, below: int)
    requires
        0 <= below,
    ensures
        0 <= height(used, below) <= below,
        height(used, below) > 0 ==> used.contains(height(used, below) - 1),
        forall|i: int|
            height(used, below) <= i < below ==> !#[trigger] used.contains(i),
    decreases below,
{
    if below > 0 && !used.contains(below - 1) {
        lemma_height(used, below - 1);
    }
}

/// The register directly below the height is the highest one in use.
pub proof fn lemma_height_is(used: Set<int>, h: int)
    requires
        0 <= h <= REGISTERS,
        h > 0 ==> used.contains(h - 1),
        forall|i: int| #[trigger] used.contains(i) ==> 0 <= i < h,
    ensures
        height(used, REGISTERS as int) == h,
{
    lemma_height(used, REGISTERS as int);
    let g = height(used, REGISTERS as int);
    if h < g {
        assert(used.contains(g - 1));
    }
    if g < h {
        assert(!used.contains(h - 1));
    }
}

pub proof fn lemma_lowest_free(used: Set<int>, from: int)
    requires
        0 <= from <= REGISTERS,
    ensures
        from <= lowest_free(used, from) <= REGISTERS,
        lowest_free(used, from) < REGISTERS ==> !used.contains(lowest_free(used, from)),
        forall|i: int| from <= i < lowest_free(used, from) ==> #[trigger] used.contains(i),
    decreases REGISTERS - from,
{
    if from < REGISTERS && used.contains(from) {
        lemma_lowest_free(used, from + 1);
    }
}

pub proof fn lemma_allocate(st: State)
    requires
        inv(st),
    ensures
        match allocate(st) {
            Ok((st1, r)) => {
                &&& step(st, st1)
                &&& used(st1) == used(st).insert(r.0 as int)
                &&& !used(st).contains(r.0 as int)
                &&& register_fits(r, limits(current(st1)))
                &&& current(st1).opcodes == current(st).opcodes
            },
            Err(h) => over(h, CompilerError::Registers, 1),
        },
{
    broadcast use group_state;

    reveal(allocate);
    let r = current(st).registers;
    lemma_lowest_free(r.used, 0);
    if r.next() < REGISTERS {
        lemma_registers(st, r.allocate());
    } else {
        assert(r.used.contains(REGISTERS - 1));
    }
}

pub proof fn lemma_push_registers(st: State, count: int)
    requires
        inv(st),
    ensures
        match push_registers(st, count) {
            Ok((st1, r)) => {
                &&& step(st, st1)
                &&& used(st1) == current(st).registers.push(count).used
                &&& r.0 == current(st).registers.top
                &&& current(st1).registers.top == r.0 + count
                &&& current(st1).opcodes == current(st).opcodes
                &&& count == 1 ==> used(st1) == used(st).insert(r.0 as int)
            },
            Err(h) => {
                &&& h.1 == Stop::Error(CompilerError::Registers)
                &&& count > 0 ==> over(h, CompilerError::Registers, count as nat)
            },
        },
{
    broadcast use group_state;

    reveal(push_registers);
    let r = current(st).registers;
    if r.has_room(count) {
        lemma_registers(st, r.push(count));
        if count == 1 {
            assert(r.push(1).used =~= r.used.insert(r.top));
        }
    }
}

/// Giving back a register that no local variable has.
pub proof fn lemma_free_register(st: State, register: RegisterIndex)
    requires
        inv(st),
        used(st).contains(register.0 as int),
        !is_local(current(st), register.0 as int),
    ensures
        match free_register(st, register) {
            Ok((st1, ())) => {
                &&& step(st, st1)
                &&& used(st1) == used(st).remove(register.0 as int)
                &&& settled(st1)
                &&& current(st1).opcodes == current(st).opcodes
            },
            Err(_) => false,
        },
{
    broadcast use group_state;

    reveal(free_register);
    let r = current(st).registers;
    let g = r.free(register.0 as int);
    lemma_height(g.used, REGISTERS as int);
    assert forall|i: int| #[trigger] g.used.contains(i) implies 0 <= i < g.top by {
        assert(r.used.contains(i));
    }
    if g.top > r.top {
        assert(r.used.contains(g.top - 1));
    }
    lemma_registers(st, g);
}

pub proof fn lemma_settle(st: State)
    requires
        inv(st),
    ensures
        step(st, settle(st)),
        used(settle(st)) == used(st),
        settled(settle(st)),
        current(settle(st)).opcodes == current(st).opcodes,
        current(settle(st)).registers.top == height(used(st), REGISTERS as int),
{
    broadcast use group_state;

    let r = current(st).registers;
    let g = r.settle();
    lemma_height(r.used, REGISTERS as int);
    if g.top > r.top {
        assert(r.used.contains(g.top - 1));
    }
    lemma_registers(st, g);
}

/// Giving back all registers from a place on, where no local variable has one of them.
pub proof fn lemma_pop_to(st: State, top: int)
    requires
        inv(st),
        0 <= top <= current(st).registers.top,
        forall|i: int| #[trigger] is_local(current(st), i) ==> i < top,
    ensures
        step(st, pop_to(st, top)),
        used(pop_to(st, top)) == used(st).intersect(Set::new(|i: int| i < top)),
        current(pop_to(st, top)).registers.top == top,
        current(pop_to(st, top)).opcodes == current(st).opcodes,
{
    broadcast use group_state;

    let r = current(st).registers;
    let g = r.pop_to(top);
    assert forall|i: int| 0 <= i < current(st).locals.len() implies g.used.contains(
        (#[trigger] current(st).locals[i]).1.0 as int,
    ) by {
        assert(is_local(current(st), current(st).locals[i].1.0 as int));
    }
    lemma_registers(st, g);
    assert(g.used =~= r.used.intersect(Set::new(|i: int| i < top)));
}

/// A local variable gets a register that is in use and that no other one has.
pub proof fn lemma_bind(st: State, name: Seq<u8>, register: RegisterIndex)
    requires
        inv(st),
        used(st).contains(register.0 as int),
        !is_local(current(st), register.0 as int),
    ensures
        inv(bind(st, name, register)),
        evolves(st, bind(st, name, register)),
        current(bind(st, name, register)).registers == current(st).registers,
        current(bind(st, name, register)).locals == current(st).locals.push((name, register)),
        current(bind(st, name, register)).opcodes == current(st).opcodes,
{
    broadcast use group_state;

    let f = current(st);
    let g = FunctionState { locals: f.locals.push((name, register)), ..f };
    assert forall|i: int, j: int|
        0 <= i < j < g.locals.len() implies (#[trigger] g.locals[i]).1 != (
    #[trigger] g.locals[j]).1 by {
        if j == f.locals.len() {
            assert(g.locals[i] == f.locals[i]);
            assert(f.locals[i].1 != register) by {
                if f.locals[i].1 == register {
                    assert(is_local(f, register.0 as int));
                }
            }
        } else {
            assert(f.locals[i].1 != f.locals[j].1);
        }
    }
    assert(locals_ok(g));
    lemma_put(st, g);
}

// ---------------------------------------------------------------------------------------------
// Constants and jumps

pub proof fn lemma_constant_position(constants: Seq<ValueView>, value: ValueView, i: int)
    requires
        0 <= i <= constants.len(),
    ensures
        match constant_position(constants, value, i) {
            Some(k) => i <= k < constants.len() && constants[k] == value,
            None => forall|k: int| i <= k < constants.len() ==> constants[k] != value,
        },
    decreases constants.len() - i,
{
    if i < constants.len() && constants[i] != value {
        lemma_constant_position(constants, value, i + 1);
    }
}

pub proof fn lemma_get_constant(st: State, value: ValueView)
    requires
        inv(st),
    ensures
        match get_constant(st, value) {
            Ok((st1, c)) => {
                &&& quiet(st, st1)
                &&& c.0 < current(st1).constants.len()
                &&& current(st1).constants[c.0 as int] == value
                &&& current(st1).opcodes == current(st).opcodes
            },
            Err(h) => over(h, CompilerError::Constants, 1),
        },
{
    broadcast use group_state;

    reveal(get_constant);
    let f = current(st);
    lemma_constant_position(f.constants, value, 0);
    if constant_position(f.constants, value, 0) is None && f.constants.len() <= u16::MAX {
        let g = FunctionState { constants: f.constants.push(value), ..f };
        lemma_extended(f, g);
        assert forall|i: int| 0 <= i < g.opcodes.len() implies op_fits(
            #[trigger] g.opcodes[i],
            i,
            limits(g),
        ) by {
            lemma_grown_code(f, g, i);
        }
        assert(g.constants.no_duplicates());
        lemma_put(st, g);
    }
}

/// Setting a register to nil lengthens the run that ends directly below it, where there is one
/// that can be lengthened, and otherwise is one more instruction.
pub proof fn lemma_load_nil(st: State, dest: RegisterIndex)
    requires
        inv(st),
        register_fits(dest, limits(current(st))),
    ensures
        quiet(st, load_nil(st, dest)),
        here(load_nil(st, dest)) == here(st) + (if continues_run(current(st), dest) {
            0int
        } else {
            1
        }),
        current(load_nil(st, dest)).opcodes.last() matches OpCode::LoadNil { dest: first, count }
            && count > 0 && first.0 + count == dest.0 + 1,
{
    broadcast use group_state;

    reveal(load_nil);
    let f = current(st);
    if continues_run(f, dest) {
        let first = f.opcodes.last()->LoadNil_dest;
        let count = f.opcodes.last()->LoadNil_count;
        let longer = OpCode::LoadNil { dest: first, count: (count + 1) as u8 };
        let g = FunctionState { opcodes: f.opcodes.drop_last().push(longer), ..f };
        assert(grows(f, g));
        assert forall|i: int| 0 <= i < g.opcodes.len() implies op_fits(
            #[trigger] g.opcodes[i],
            i,
            limits(g),
        ) by {
            if i < f.opcodes.len() - 1 {
                lemma_grown_code(f, g, i);
            }
        }
        assert forall|i: int| 0 <= i < g.prototypes.len() implies {
            &&& proto_ok(#[trigger] g.prototypes[i])
            &&& inner_ok(g.prototypes[i], g.registers.size, g.upvalues.len() as int)
        } by {
            lemma_grown_proto(f, g, i);
        }
        assert(locals_ok(g));
        assert(runs_ok(g.opcodes, g.landing)) by {
            assert forall|i: int| 0 <= i < g.opcodes.len() - 1 implies reach(
                #[trigger] g.opcodes[i],
                i,
            ) < g.opcodes.len() by {
                assert(reach(f.opcodes[i], i) < f.opcodes.len());
            }
        }
        lemma_put(st, g);
    } else {
        lemma_emit(st, OpCode::LoadNil { dest, count: 1 });
    }
}

/// Completing a placeholder makes it jump to the next instruction, and changes nothing else.
pub proof fn lemma_jump_here(st: State, jump: int)
    requires
        inv(st),
        0 <= jump < current(st).opcodes.len(),
        current(st).opcodes[jump] == (OpCode::Jump { offset: 0 }),
    ensures
        match jump_here(st, jump) {
            Ok((st1, ())) => {
                let f = current(st);
                let g = current(st1);
                &&& inv(st1)
                &&& st1.len() == st.len()
                &&& forall|k: int| 0 <= k < st.len() - 1 ==> #[trigger] st1[k] == st[k]
                &&& g == (FunctionState { opcodes: g.opcodes, landing: here(st), ..f })
                &&& g.opcodes.len() == f.opcodes.len()
                &&& g.opcodes[jump] matches OpCode::Jump { offset } && jump + 1 + offset == here(st)
                &&& forall|i: int|
                    0 <= i < f.opcodes.len() && i != jump ==> #[trigger] g.opcodes[i]
                        == f.opcodes[i]
            },
            Err(h) => over(h, CompilerError::OpCodes, 1),
        },
{
    reveal(jump_here);
    reveal(inv);
    let f = current(st);
    if f.opcodes.len() - jump - 1 <= i16::MAX {
        let offset = (f.opcodes.len() - jump - 1) as i16;
        let g = FunctionState {
            opcodes: f.opcodes.update(jump, OpCode::Jump { offset }),
            landing: here(st),
            ..f
        };
        let st1 = put(st, g);
        assert(function_ok(f));
        assert forall|i: int| 0 <= i < g.opcodes.len() implies op_fits(
            #[trigger] g.opcodes[i],
            i,
            limits(g),
        ) by {
            assert(op_fits(f.opcodes[i], i, limits(f)));
        }
        assert forall|i: int| 0 <= i < g.prototypes.len() implies {
            &&& proto_ok(#[trigger] g.prototypes[i])
            &&& inner_ok(g.prototypes[i], g.registers.size, g.upvalues.len() as int)
        } by {
            assert(proto_ok(f.prototypes[i]));
        }
        assert(locals_ok(g));
        assert forall|k: int| 0 <= k < st1.len() implies function_ok(#[trigger] st1[k]) by {
            assert(function_ok(st[k]));
        }
        assert forall|k: int| 0 <= k < st1.len() implies #[trigger] upvalues_ok(st1, k) by {
            assert(upvalues_ok(st, k));
            if k > 0 {
                assert forall|i: int| 0 <= i < st1[k].upvalues.len() implies upvalue_from(
                    #[trigger] st1[k].upvalues[i],
                    st1[k - 1],
                ) by {
                    assert(st[k].upvalues[i] == st1[k].upvalues[i]);
                }
            }
        }
    }
}

} // verus!
