//! The state of a compilation, and the steps that change one function of it.

use crate::compiler::cast::{cast_i16, cast_u16, cast_u8};
use crate::compiler::error::{CompilerError, Halt};
use crate::compiler::model;
use crate::compiler::model::{Desc, ExprDestination, FunctionState, Outcome, State, Variable};
use crate::compiler::operators::{ComparisonBinOp, ShortCircuitBinOp};
use crate::compiler::register_allocator::{REGISTERS, RegisterAllocator};
use crate::function::{protos_view, values_view, FunctionProto, UpValueDescriptor};
use crate::opcode::{ConstantIndex16, OpCode, PrototypeIndex, RegisterIndex, UpValueIndex, VarCount};
use crate::parser::Expression;
use crate::value::{bytes_equal, Value};
use vstd::pervasive::unreached;
use vstd::prelude::*;

verus! {

/// One function that is being compiled.
pub struct CompilerFunction<'a> {
    pub constants: Vec<Value<'a>>,
    pub upvalues: Vec<(&'a [u8], UpValueDescriptor)>,
    pub prototypes: Vec<FunctionProto<'a>>,
    pub register_allocator: RegisterAllocator,
    pub has_varargs: bool,
    pub fixed_params: u8,
    pub locals: Vec<(&'a [u8], RegisterIndex)>,
    pub opcodes: Vec<OpCode>,
    /// Where the last jump that was completed lands.
    pub landing: usize,
}

/// The functions that are being compiled, innermost last.
pub struct Compiler<'a> {
    pub functions: Vec<CompilerFunction<'a>>,
}

/// What a name stands for.
#[derive(Debug)]
pub enum VariableDescriptor<'a> {
    Local(RegisterIndex),
    UpValue(UpValueIndex),
    Global(&'a [u8]),
}

/// An expression whose value has not been placed yet.
#[derive(Debug)]
#[allow(inconsistent_fields)]
pub enum ExprDescriptor<'a> {
    Register { register: RegisterIndex, is_temporary: bool },
    UpValue(UpValueIndex),
    Value(Value<'a>),
    Not(Box<ExprDescriptor<'a>>),
    FunctionCall { func: Box<ExprDescriptor<'a>>, args: Vec<ExprDescriptor<'a>> },
    Comparison {
        left: Box<ExprDescriptor<'a>>,
        op: ComparisonBinOp,
        right: Box<ExprDescriptor<'a>>,
    },
    ShortCircuitBinOp {
        left: Box<ExprDescriptor<'a>>,
        op: ShortCircuitBinOp,
        right: &'a Expression,
    },
}

pub open spec fn upvalues_view(upvalues: Seq<(&[u8], UpValueDescriptor)>) -> Seq<
    (Seq<u8>, UpValueDescriptor),
> {
    upvalues.map_values(|u: (&[u8], UpValueDescriptor)| (u.0@, u.1))
}

pub open spec fn locals_view(locals: Seq<(&[u8], RegisterIndex)>) -> Seq<
    (Seq<u8>, RegisterIndex),
> {
    locals.map_values(|l: (&[u8], RegisterIndex)| (l.0@, l.1))
}

impl<'a> View for CompilerFunction<'a> {
    type V = FunctionState;

    open spec fn view(&self) -> FunctionState {
        FunctionState {
            constants: values_view(self.constants@),
            upvalues: upvalues_view(self.upvalues@),
            prototypes: protos_view(self.prototypes@),
            registers: self.register_allocator@,
            has_varargs: self.has_varargs,
            fixed_params: self.fixed_params,
            locals: locals_view(self.locals@),
            opcodes: self.opcodes@,
            landing: self.landing as int,
        }
    }
}

impl<'a> View for Compiler<'a> {
    type V = State;

    closed spec fn view(&self) -> State {
        self.functions@.map_values(|f: CompilerFunction<'a>| f@)
    }
}

impl<'a> View for VariableDescriptor<'a> {
    type V = Variable;

    open spec fn view(&self) -> Variable {
        match *self {
            VariableDescriptor::Local(r) => Variable::Local(r),
            VariableDescriptor::UpValue(u) => Variable::UpValue(u),
            VariableDescriptor::Global(name) => Variable::Global(name@),
        }
    }
}

pub open spec fn desc_view(desc: ExprDescriptor<'_>) -> Desc
    decreases desc,
{
    match desc {
        ExprDescriptor::Register { register, is_temporary } => Desc::Register {
            register,
            is_temporary,
        },
        ExprDescriptor::UpValue(u) => Desc::UpValue(u),
        ExprDescriptor::Value(v) => Desc::Value(v@),
        ExprDescriptor::Not(d) => Desc::Not(Box::new(desc_view(*d))),
        ExprDescriptor::FunctionCall { func, args } => Desc::FunctionCall {
            func: Box::new(desc_view(*func)),
            args: descs_view(args@),
        },
        ExprDescriptor::Comparison { left, op, right } => Desc::Comparison {
            left: Box::new(desc_view(*left)),
            op,
            right: Box::new(desc_view(*right)),
        },
        ExprDescriptor::ShortCircuitBinOp { left, op, right } => Desc::ShortCircuitBinOp {
            left: Box::new(desc_view(*left)),
            op,
            right: *right,
        },
    }
}

pub open spec fn descs_view(descs: Seq<ExprDescriptor<'_>>) -> Seq<Desc>
    decreases descs,
{
    if descs.len() == 0 {
        Seq::empty()
    } else {
        descs_view(descs.drop_last()).push(desc_view(descs.last()))
    }
}

/// The view of a list is the list of the views.
pub proof fn lemma_descs_view(descs: Seq<ExprDescriptor<'_>>)
    ensures
        descs_view(descs).len() == descs.len(),
        forall|i: int|
            0 <= i < descs.len() ==> #[trigger] descs_view(descs)[i] == desc_view(descs[i]),
    decreases descs.len(),
{
    if descs.len() > 0 {
        lemma_descs_view(descs.drop_last());
    }
}

/// The view of a list of compiled functions is as long as the list.
proof fn lemma_protos_view_len(protos: Seq<FunctionProto<'_>>)
    ensures
        protos_view(protos).len() == protos.len(),
    decreases protos.len(),
{
    if protos.len() > 0 {
        lemma_protos_view_len(protos.drop_last());
    }
}

impl<'a> View for ExprDescriptor<'a> {
    type V = Desc;

    open spec fn view(&self) -> Desc {
        desc_view(*self)
    }
}

/// Whether a result and the state behind it are those of the model.
pub open spec fn agrees<T>(outcome: Outcome<T>, result: Result<T, Halt>, post: State) -> bool {
    match outcome {
        Ok((st, v)) => result == Ok::<T, Halt>(v) && post == st,
        Err((st, stop)) => result is Err && stop == model::reason(result->Err_0) && post == st,
    }
}

/// As `agrees`, for a result that the model knows by its view.
pub open spec fn agrees_view<T: View>(
    outcome: Outcome<T::V>,
    result: Result<T, Halt>,
    post: State,
) -> bool {
    match outcome {
        Ok((st, v)) => result is Ok && result->Ok_0@ == v && post == st,
        Err((st, stop)) => result is Err && stop == model::reason(result->Err_0) && post == st,
    }
}

/// As `agrees`, for a list of descriptors.
pub open spec fn agrees_list(
    outcome: Outcome<Seq<Desc>>,
    result: Result<Vec<ExprDescriptor<'_>>, Halt>,
    post: State,
) -> bool {
    match outcome {
        Ok((st, ds)) => result is Ok && descs_view(result->Ok_0@) == ds && post == st,
        Err((st, stop)) => result is Err && stop == model::reason(result->Err_0) && post == st,
    }
}

impl<'a> Compiler<'a> {
    /// There is a function to compile, and the registers of all functions are in order.
    pub open spec fn ready(self) -> bool {
        self@.len() > 0 && self.in_order()
    }

    /// The registers of all functions are in order.
    pub closed spec fn in_order(self) -> bool {
        forall|i: int|
            0 <= i < self.functions@.len() ==> (
            #[trigger] self.functions@[i]).register_allocator.well_formed()
    }

    /// `self` is ready and has as many functions as `before`.
    pub open spec fn ready_like(self, before: Self) -> bool {
        self.ready() && self@.len() == before@.len()
    }

    /// The function currently being compiled.
    pub(crate) fn current_function(&mut self) -> (f: &mut CompilerFunction<'a>)
        requires
            old(self).functions@.len() > 0,
        ensures
            *f == old(self).functions@.last(),
            final(self).functions@ == old(self).functions@.update(
                old(self).functions@.len() - 1,
                *final(f),
            ),
    {
        let n: usize = self.functions.len();
        &mut self.functions[n - 1]
    }

    /// Appends an instruction.
    pub(crate) fn emit(&mut self, op: OpCode)
        requires
            old(self).ready(),
        ensures
            final(self)@ == model::emit(old(self)@, op),
            final(self).ready_like(*old(self)),
    {
        self.current_function().opcodes.push(op);
        assert(self@ =~= model::emit(old(self)@, op));
    }

    /// Takes any free register.
    pub(crate) fn allocate(&mut self) -> (result: Result<RegisterIndex, Halt>)
        requires
            old(self).ready(),
        ensures
            agrees(model::allocate(old(self)@), result, final(self)@),
            result is Ok ==> final(self).ready_like(*old(self)),
            result is Err ==> final(self)@ == old(self)@,
    {
        proof {
            reveal(model::allocate);
        }
        match self.current_function().register_allocator.allocate() {
            Some(register) => {
                assert(self@ =~= model::set_registers(
                    old(self)@,
                    model::current(old(self)@).registers.allocate(),
                ));
                Ok(register)
            },
            None => {
                assert(self@ =~= old(self)@);
                Err(Halt::Error(CompilerError::Registers))
            },
        }
    }

    /// Takes `count` registers at the top of the stack.
    pub(crate) fn push_registers(&mut self, count: u8) -> (result: Result<RegisterIndex, Halt>)
        requires
            old(self).ready(),
        ensures
            agrees(model::push_registers(old(self)@, count as int), result, final(self)@),
            result matches Ok(first) ==> first.0 + count <= REGISTERS,
            result is Ok ==> final(self).ready_like(*old(self)),
            result is Err ==> final(self)@ == old(self)@,
    {
        proof {
            reveal(model::push_registers);
        }
        match self.current_function().register_allocator.push(count) {
            Some(register) => {
                assert(self@ =~= model::set_registers(
                    old(self)@,
                    model::current(old(self)@).registers.push(count as int),
                ));
                Ok(register)
            },
            None => {
                assert(self@ =~= old(self)@);
                Err(Halt::Error(CompilerError::Registers))
            },
        }
    }

    /// Gives a register back.
    pub(crate) fn free_register(&mut self, register: RegisterIndex) -> (result: Result<(), Halt>)
        requires
            model::current(old(self)@).registers.used.contains(register.0 as int),
            old(self).ready(),
        ensures
            agrees(model::free_register(old(self)@, register), result, final(self)@),
            result is Ok ==> final(self).ready_like(*old(self)),
    {
        proof {
            reveal(model::free_register);
        }
        let n: usize = self.functions.len();
        if !self.functions[n - 1].register_allocator.is_used(register) {
            return unreached();
        }
        self.current_function().register_allocator.free(register);
        assert(self@ =~= model::set_registers(
            old(self)@,
            model::current(old(self)@).registers.free(register.0 as int),
        ));
        Ok(())
    }

    /// Lets the top of the stack fall back to the highest register in use, and returns it.
    pub(crate) fn stack_top(&mut self) -> (top: u16)
        requires
            old(self).ready(),
        ensures
            final(self)@ == model::settle(old(self)@),
            top == model::current(final(self)@).registers.top,
            final(self).ready_like(*old(self)),
    {
        let top: u16 = self.current_function().register_allocator.stack_top();
        assert(self@ =~= model::settle(old(self)@));
        top
    }

    /// Gives back all registers from `top` on, and makes `top` the top of the stack.
    pub(crate) fn pop_to(&mut self, top: u16)
        requires
            old(self).ready(),
        ensures
            final(self)@ == model::pop_to(old(self)@, top as int),
            final(self).ready_like(*old(self)),
    {
        self.current_function().register_allocator.pop_to(top);
        assert(self@ =~= model::pop_to(old(self)@, top as int));
    }

    /// Brings a local variable into scope.
    pub(crate) fn bind(&mut self, name: &'a [u8], register: RegisterIndex)
        requires
            old(self).ready(),
        ensures
            final(self)@ == model::bind(old(self)@, name@, register),
            final(self).ready_like(*old(self)),
    {
        self.current_function().locals.push((name, register));
        assert(self@.last().locals =~= model::bind(old(self)@, name@, register).last().locals);
        assert(self@ =~= model::bind(old(self)@, name@, register));
    }

    /// A register at the destination, where it is a register.
    pub(crate) fn new_destination(&mut self, dest: ExprDestination) -> (result: Result<
        Option<RegisterIndex>,
        Halt,
    >)
        requires
            old(self).ready(),
        ensures
            agrees(model::new_destination(old(self)@, dest), result, final(self)@),
            result is Ok ==> final(self).ready_like(*old(self)),
            result is Err ==> final(self)@ == old(self)@,
    {
        proof {
            reveal(model::new_destination);
        }
        match dest {
            ExprDestination::Register(r) => Ok(Some(r)),
            ExprDestination::AllocateNew => Ok(Some(self.allocate()?)),
            ExprDestination::PushNew => Ok(Some(self.push_registers(1)?)),
            ExprDestination::Nowhere => Ok(None),
        }
    }

    /// Ends the scope of all locals but the first `kept`.
    pub(crate) fn end_scope(&mut self, kept: usize) -> (result: Result<(), Halt>)
        requires
            !model::broken(model::end_scope(old(self)@, kept as int)),
            old(self).ready(),
        ensures
            agrees(model::end_scope(old(self)@, kept as int), result, final(self)@),
            result is Ok ==> final(self).ready_like(*old(self)),
    {
        proof {
            reveal(model::end_scope);
            reveal(model::free_register);
        }
        let n: usize = self.functions.len();
        let ghost locals = model::current(self@).locals;
        if kept > self.functions[n - 1].locals.len() {
            return unreached();
        }
        let mut i: usize = kept;
        #[verifier::loop_isolation(false)]
        while i < self.functions[n - 1].locals.len()
            invariant
                self.ready_like(*old(self)),
                n == self.functions@.len(),
                kept <= i <= locals.len(),
                locals == locals_view(self.functions@[n - 1].locals@),
                model::free_locals(old(self)@, locals, kept as int) == model::free_locals(
                    self@,
                    locals,
                    i as int,
                ),
                locals == model::current(old(self)@).locals,
            decreases locals.len() - i,
        {
            let register = self.functions[n - 1].locals[i].1;
            assert(locals[i as int].1 == register);
            let ghost before = self@;
            match self.free_register(register) {
                Ok(()) => {},
                Err(h) => {
                    return Err(h);
                },
            }
            assert(self@.last().locals == before.last().locals);
            i += 1;
        }
        let ghost before = self@;
        self.current_function().locals.truncate(kept);
        proof {
            let after = FunctionState {
                locals: model::current(before).locals.take(kept as int),
                ..model::current(before)
            };
            assert(self@.last().locals =~= after.locals);
            assert(self@ =~= model::put(before, after));
        }
        Ok(())
    }

    /// Sets a register to nil, possibly by combining several sequential instructions into one.
    pub(crate) fn load_nil(&mut self, dest: RegisterIndex) -> (result: Result<(), Halt>)
        requires
            old(self).ready(),
        ensures
            result == Ok::<(), Halt>(()),
            final(self)@ == model::load_nil(old(self)@, dest),
            final(self).ready_like(*old(self)),
    {
        proof {
            reveal(model::load_nil);
        }
        let n: usize = self.functions.len();
        let len: usize = self.functions[n - 1].opcodes.len();
        if self.functions[n - 1].landing < len {
            if let OpCode::LoadNil { dest: first, count } = self.functions[n - 1].opcodes[len - 1] {
                if first.0 as u16 + count as u16 == dest.0 as u16 && count < u8::MAX {
                    let longer = OpCode::LoadNil { dest: first, count: count + 1 };
                    self.current_function().opcodes[len - 1] = longer;
                    proof {
                        let f = model::current(old(self)@);
                        assert(self@.last().opcodes =~= f.opcodes.drop_last().push(longer));
                        assert(self@ =~= model::load_nil(old(self)@, dest));
                    }
                    return Ok(());
                }
            }
        }
        self.emit(OpCode::LoadNil { dest, count: 1 });
        Ok(())
    }

    /// Places a jump that must be completed later with [`Compiler::jump_here`].
    pub(crate) fn jump_placeholder(&mut self) -> (jump: usize)
        requires
            old(self).ready(),
        ensures
            final(self)@ == model::jump_placeholder(old(self)@),
            jump == model::here(old(self)@),
            final(self).ready_like(*old(self)),
    {
        let n: usize = self.functions.len();
        let jump: usize = self.functions[n - 1].opcodes.len();
        self.emit(OpCode::Jump { offset: 0 });
        jump
    }

    /// Makes a placeholder jump to the next instruction.
    pub(crate) fn jump_here(&mut self, jump: usize) -> (result: Result<(), Halt>)
        requires
            jump < model::here(old(self)@),
            model::here(old(self)@) - jump - 1 <= i16::MAX ==> model::current(
                old(self)@,
            ).opcodes[jump as int] == (OpCode::Jump { offset: 0 }),
            old(self).ready(),
        ensures
            agrees(model::jump_here(old(self)@, jump as int), result, final(self)@),
            result is Ok ==> final(self).ready_like(*old(self)),
            result is Err ==> final(self)@ == old(self)@,
    {
        proof {
            reveal(model::jump_here);
        }
        let n: usize = self.functions.len();
        let len: usize = self.functions[n - 1].opcodes.len();
        if jump >= len {
            return unreached();
        }
        let offset: i16 = match cast_i16(len - jump - 1) {
            Some(offset) => offset,
            None => {
                return Err(Halt::Error(CompilerError::OpCodes));
            },
        };
        if let OpCode::Jump { offset: unset } = self.functions[n - 1].opcodes[jump] {
            if unset == 0 {
                self.current_function().opcodes[jump] = OpCode::Jump { offset };
                self.current_function().landing = len;
                proof {
                    let f = model::current(old(self)@);
                    assert(self@ =~= model::put(
                        old(self)@,
                        FunctionState {
                            opcodes: f.opcodes.update(jump as int, OpCode::Jump { offset }),
                            landing: len as int,
                            ..f
                        },
                    ));
                }
                return Ok(());
            }
        }
        unreached()
    }

    /// The place of a constant, which is added where the function does not have it yet.
    pub(crate) fn get_constant(&mut self, constant: Value<'a>) -> (result: Result<
        ConstantIndex16,
        Halt,
    >)
        requires
            !model::broken(model::get_constant(old(self)@, constant@)),
            old(self).ready(),
        ensures
            agrees(model::get_constant(old(self)@, constant@), result, final(self)@),
            result is Ok ==> final(self).ready_like(*old(self)),
            result is Err ==> final(self)@ == old(self)@,
    {
        proof {
            reveal(model::get_constant);
        }
        let n: usize = self.functions.len();
        let ghost constants = model::current(self@).constants;
        let len: usize = self.functions[n - 1].constants.len();
        let mut i: usize = 0;
        #[verifier::loop_isolation(false)]
        while i < len
            invariant
                *self == *old(self),
                self.ready(),
                n == self.functions@.len(),
                len == constants.len(),
                constants == model::current(self@).constants,
                i <= len,
                model::constant_position(constants, constant@, 0) == model::constant_position(
                    constants,
                    constant@,
                    i as int,
                ),
            decreases len - i,
        {
            assert(constants[i as int] == self.functions@[n - 1].constants@[i as int]@);
            if self.functions[n - 1].constants[i].same_constant(&constant) {
                return match cast_u16(i) {
                    Some(c) => Ok(ConstantIndex16(c)),
                    None => unreached(),
                };
            }
            i += 1;
        }
        match cast_u16(len) {
            Some(c) => {
                self.current_function().constants.push(constant);
                proof {
                    let after = FunctionState {
                        constants: constants.push(constant@),
                        ..model::current(old(self)@)
                    };
                    assert(self@.last().constants =~= after.constants);
                    assert(self@ =~= model::put(old(self)@, after));
                }
                Ok(ConstantIndex16(c))
            },
            None => Err(Halt::Error(CompilerError::Constants)),
        }
    }

    /// The register of the newest local with this name in the `i`th function.
    pub(crate) fn newest_local(&self, i: usize, name: &'a [u8]) -> (found: Option<RegisterIndex>)
        requires
            i < self.functions@.len(),
        ensures
            found == model::newest_local(
                self@[i as int].locals,
                name@,
                self@[i as int].locals.len() as int,
            ),
    {
        let ghost locals = self@[i as int].locals;
        let mut n: usize = self.functions[i].locals.len();
        #[verifier::loop_isolation(false)]
        while n > 0
            invariant
                i < self.functions@.len(),
                locals == self@[i as int].locals,
                n <= locals.len(),
                model::newest_local(locals, name@, locals.len() as int) == model::newest_local(
                    locals,
                    name@,
                    n as int,
                ),
            decreases n,
        {
            let (local_name, register) = self.functions[i].locals[n - 1];
            assert(locals[n - 1] == (local_name@, register));
            if bytes_equal(name, local_name) {
                return Some(register);
            }
            n -= 1;
        }
        None
    }

    /// The first upvalue with this name in the `i`th function.
    pub(crate) fn upvalue_position(&self, i: usize, name: &'a [u8]) -> (found: Option<usize>)
        requires
            i < self.functions@.len(),
        ensures
            found matches Some(j) ==> model::upvalue_position(self@[i as int].upvalues, name@, 0)
                == Some(j as int),
            found is None ==> model::upvalue_position(self@[i as int].upvalues, name@, 0) is None,
    {
        let ghost upvalues = self@[i as int].upvalues;
        let mut j: usize = 0;
        #[verifier::loop_isolation(false)]
        while j < self.functions[i].upvalues.len()
            invariant
                i < self.functions@.len(),
                upvalues == self@[i as int].upvalues,
                j <= upvalues.len(),
                model::upvalue_position(upvalues, name@, 0) == model::upvalue_position(
                    upvalues,
                    name@,
                    j as int,
                ),
            decreases upvalues.len() - j,
        {
            assert(upvalues[j as int].0 == self.functions@[i as int].upvalues@[j as int].0@);
            if bytes_equal(name, self.functions[i].upvalues[j].0) {
                return Some(j);
            }
            j += 1;
        }
        None
    }

    /// Adds an upvalue to the `k`th function.
    pub(crate) fn add_upvalue(&mut self, k: usize, name: &'a [u8], descriptor: UpValueDescriptor)
        requires
            old(self).ready(),
            k < old(self).functions@.len(),
        ensures
            final(self)@ == model::add_upvalue(old(self)@, k as int, name@, descriptor),
            final(self).ready_like(*old(self)),
    {
        self.functions[k].upvalues.push((name, descriptor));
        proof {
            let after = model::add_upvalue(old(self)@, k as int, name@, descriptor);
            assert(self@[k as int].upvalues =~= after[k as int].upvalues);
            assert(self@ =~= after);
        }
    }

    /// Hands a variable down as an upvalue, from the `k`th function to the innermost one.
    pub(crate) fn hand_down(
        &mut self,
        k: usize,
        name: &'a [u8],
        descriptor: UpValueDescriptor,
    ) -> (result: Result<VariableDescriptor<'a>, Halt>)
        requires
            !model::broken(model::hand_down(old(self)@, k as int, name@, descriptor)),
            old(self).ready(),
            k < old(self).functions@.len(),
        ensures
            agrees_view(
                model::hand_down(old(self)@, k as int, name@, descriptor),
                result,
                final(self)@,
            ),
            result is Ok ==> final(self).ready_like(*old(self)),
    {
        proof {
            reveal(model::hand_down);
        }
        let n: usize = self.functions.len();
        let mut k: usize = k;
        let mut descriptor: UpValueDescriptor = descriptor;
        let ghost goal = model::hand_down(self@, k as int, name@, descriptor);
        #[verifier::loop_isolation(false)]
        loop
            invariant
                self.ready_like(*old(self)),
                n == self.functions@.len(),
                k < n,
                goal == model::hand_down(self@, k as int, name@, descriptor),
            decreases n - k,
        {
            let index: Option<u8> = cast_u8(self.functions[k].upvalues.len());
            self.add_upvalue(k, name, descriptor);
            let index: UpValueIndex = match index {
                Some(index) => UpValueIndex(index),
                None => {
                    return Err(Halt::Error(CompilerError::UpValues));
                },
            };
            if k == n - 1 {
                return Ok(VariableDescriptor::UpValue(index));
            }
            k += 1;
            descriptor = UpValueDescriptor::Outer(index);
        }
    }

    /// What a name stands for in the innermost function.
    pub(crate) fn find_variable(&mut self, name: &'a [u8]) -> (result: Result<
        VariableDescriptor<'a>,
        Halt,
    >)
        requires
            !model::broken(model::find_variable(old(self)@, name@)),
            old(self).ready(),
        ensures
            agrees_view(model::find_variable(old(self)@, name@), result, final(self)@),
            result is Ok ==> final(self).ready_like(*old(self)),
    {
        proof {
            reveal(model::resolve);
        }
        let n: usize = self.functions.len();
        let ghost goal = model::find_variable(self@, name@);
        let mut left: usize = n;
        #[verifier::loop_isolation(false)]
        while left > 0
            invariant
                self.ready_like(*old(self)),
                n == self.functions@.len(),
                left <= n,
                goal == model::find_variable(old(self)@, name@),
                goal == model::resolve(self@, name@, left - 1),
            decreases left,
        {
            let i: usize = left - 1;
            if let Some(register) = self.newest_local(i, name) {
                if i == n - 1 {
                    return Ok(VariableDescriptor::Local(register));
                }
                return self.hand_down(i + 1, name, UpValueDescriptor::ParentLocal(register));
            }
            // The chunk has an implicit environment as its only upvalue, which is added where
            // it is first named.
            if i == 0 && bytes_equal(name, env_name()) && self.functions[0].upvalues.len() == 0 {
                self.add_upvalue(0, env_name(), UpValueDescriptor::Environment);
            }
            if let Some(j) = self.upvalue_position(i, name) {
                let index: UpValueIndex = match cast_u8(j) {
                    Some(index) => UpValueIndex(index),
                    None => {
                        return unreached();
                    },
                };
                if i == n - 1 {
                    return Ok(VariableDescriptor::UpValue(index));
                }
                return self.hand_down(i + 1, name, UpValueDescriptor::Outer(index));
            }
            left -= 1;
        }
        Ok(VariableDescriptor::Global(name))
    }

    /// The variable `_ENV` in scope, or the one of the chunk where none is in scope.
    pub(crate) fn get_environment(&mut self) -> (result: Result<ExprDescriptor<'a>, Halt>)
        requires
            !model::broken(model::get_environment(old(self)@)),
            old(self).ready(),
        ensures
            agrees_view(model::get_environment(old(self)@), result, final(self)@),
            result is Ok ==> final(self).ready_like(*old(self)),
            result matches Ok(d) ==> model::is_leaf(d@),
    {
        proof {
            reveal(model::get_environment);
        }
        match self.find_variable(env_name()) {
            Ok(VariableDescriptor::Local(register)) => Ok(
                ExprDescriptor::Register { register, is_temporary: false },
            ),
            Ok(VariableDescriptor::UpValue(upvalue)) => Ok(ExprDescriptor::UpValue(upvalue)),
            Ok(VariableDescriptor::Global(_)) => unreached(),
            Err(h) => Err(h),
        }
    }

    /// No function is being compiled.
    pub(crate) fn new() -> (compiler: Compiler<'a>)
        ensures
            compiler.in_order(),
            compiler@ == Seq::<FunctionState>::empty(),
    {
        let compiler = Compiler { functions: Vec::new() };
        assert(compiler@ =~= Seq::<FunctionState>::empty());
        compiler
    }

    /// How many local variables are in scope.
    pub(crate) fn local_count(&self) -> (count: usize)
        requires
            self.ready(),
        ensures
            count == model::current(self@).locals.len(),
    {
        let n: usize = self.functions.len();
        self.functions[n - 1].locals.len()
    }

    /// Adds a compiled function to those written inside the innermost one.
    pub(crate) fn add_prototype(&mut self, proto: FunctionProto<'a>) -> (result: Result<
        PrototypeIndex,
        Halt,
    >)
        requires
            old(self).ready(),
        ensures
            agrees(model::add_prototype(old(self)@, proto@), result, final(self)@),
            result is Ok ==> final(self).ready_like(*old(self)),
    {
        proof {
            reveal(model::add_prototype);
        }
        let n: usize = self.functions.len();
        let ghost before = self@;
        let ghost protos = self.functions@[n - 1].prototypes@;
        self.current_function().prototypes.push(proto);
        proof {
            let after = FunctionState {
                prototypes: model::current(before).prototypes.push(proto@),
                ..model::current(before)
            };
            assert(protos.push(proto).drop_last() =~= protos);
            assert(protos_view(protos.push(proto)) =~= protos_view(protos).push(proto@));
            lemma_protos_view_len(protos);
            assert(self@ =~= model::put(before, after));
        }
        match cast_u8(self.functions[n - 1].prototypes.len() - 1) {
            Some(index) => Ok(PrototypeIndex(index)),
            None => Err(Halt::Error(CompilerError::Functions)),
        }
    }

    /// Begins to compile a function inside the innermost one.
    pub(crate) fn begin_function(
        &mut self,
        parameters: &'a [Box<[u8]>],
        fixed_params: u8,
        has_varargs: bool,
    )
        requires
            old(self).in_order(),
            fixed_params == parameters@.len(),
        ensures
            final(self)@ == old(self)@.push(model::new_function(parameters@, has_varargs)),
            final(self).ready(),
    {
        let mut register_allocator = RegisterAllocator::new();
        let _ = register_allocator.push(fixed_params);
        let mut locals: Vec<(&'a [u8], RegisterIndex)> = Vec::new();
        let mut i: usize = 0;
        #[verifier::loop_isolation(false)]
        while i < parameters.len()
            invariant
                i <= parameters@.len() <= 255,
                locals@.len() == i,
                forall|j: int|
                    0 <= j < i ==> #[trigger] locals_view(locals@)[j] == (
                        parameters@[j]@,
                        RegisterIndex(j as u8),
                    ),
            decreases parameters@.len() - i,
        {
            let ghost before = locals@;
            locals.push((&*parameters[i], RegisterIndex(i as u8)));
            assert(locals_view(locals@) =~= locals_view(before).push(
                (parameters@[i as int]@, RegisterIndex(i as u8)),
            ));
            i += 1;
        }
        let function = CompilerFunction {
            constants: Vec::new(),
            upvalues: Vec::new(),
            prototypes: Vec::new(),
            register_allocator,
            has_varargs,
            fixed_params,
            locals,
            opcodes: Vec::new(),
            landing: 0,
        };
        proof {
            let new = model::new_function(parameters@, has_varargs);
            assert(function@.locals =~= new.locals);
            assert(function@.constants =~= new.constants);
            assert(function@.upvalues =~= new.upvalues);
            assert(function@.opcodes =~= new.opcodes);
            assert(function@ =~= new);
        }
        let ghost outer = self@;
        self.functions.push(function);
        assert(self@ =~= outer.push(model::new_function(parameters@, has_varargs)));
    }

    /// Ends the innermost function.
    pub(crate) fn finish(&mut self) -> (result: Result<FunctionProto<'a>, Halt>)
        requires
            !model::broken(model::finish(old(self)@)),
            old(self).ready(),
        ensures
            agrees_view(model::finish(old(self)@), result, final(self)@),
            result is Ok ==> final(self).in_order() && final(self)@.len() == old(self)@.len() - 1,
    {
        proof {
            reveal(model::finish);
        }
        self.emit(OpCode::Return { start: RegisterIndex(0), count: VarCount::make_zero() });
        let n: usize = self.functions.len();
        if self.functions[n - 1].locals.len() != self.functions[n - 1].fixed_params as usize {
            return unreached();
        }
        self.end_scope(0)?;
        let ghost ended = self@;
        if self.stack_top() != 0 {
            return unreached();
        }
        let ghost settled = self.functions@;
        proof {
            assert(settled.last()@ == self@.last());
            assert(self@.drop_last() =~= ended.drop_last());
        }
        let ghost whole = self@;
        match self.functions.pop() {
            Some(function) => {
                assert(self@ =~= whole.drop_last());
                assert(function@ == settled.last()@);
                let mut upvalues: Vec<UpValueDescriptor> = Vec::new();
                let mut i: usize = 0;
                #[verifier::loop_isolation(false)]
                while i < function.upvalues.len()
                    invariant
                        i <= function.upvalues@.len(),
                        upvalues@.len() == i,
                        forall|j: int| 0 <= j < i ==> upvalues@[j] == function.upvalues@[j].1,
                    decreases function.upvalues@.len() - i,
                {
                    upvalues.push(function.upvalues[i].1);
                    i += 1;
                }
                let proto = FunctionProto {
                    fixed_params: function.fixed_params,
                    has_varargs: false,
                    stack_size: function.register_allocator.stack_size(),
                    constants: function.constants,
                    opcodes: function.opcodes,
                    upvalues,
                    prototypes: function.prototypes,
                };
                proof {
                    let goal = model::finished(model::current(ended));
                    assert(proto@.upvalues =~= goal.upvalues);
                    assert(proto@ =~= goal);
                }
                Ok(proto)
            },
            None => unreached(),
        }
    }
}

/// The name of the environment, `_ENV`.
fn env_name() -> (name: &'static [u8])
    ensures
        name@ == model::env_name(),
{
    let bytes: &'static [u8; 4] = &[95u8, 69u8, 78u8, 86u8];
    let name: &'static [u8] = bytes.as_slice();
    assert(name@ =~= model::env_name());
    name
}

} // verus!
