//! What holds of the compiler at every step and of every chunk that is compiled.

use crate::compiler::environment::chunk_uses;
use crate::compiler::effects::{group_spares, spares};
use crate::compiler::error::{CompilerError, Feature};
use crate::compiler::evaluation::lemma_expression;
use crate::compiler::execution::{lemma_block, lemma_compile_function, lemma_return_statement};
use crate::compiler::model::{
    allocate, any_register, any_register_or_constant, assign, assigned_size, assigned_value,
    assignment, assignments, binary_operator, bind, block, bounded, compilation, compile_function,
    constant_position, continues_run, current, discharge, done, env_name, expr_function_call,
    expression, find_variable, function_statement, get_constant, held, load_nil, local_function,
    new_destination, place_register, place_upvalue, place_value, push_registers, push_returns,
    resolve, return_statement, settle, simple_expression, statement, suffix, table_constructor,
    temporary, Desc, ExprDestination, Outcome, State, Stop, Variable,
};
use crate::compiler::names::{
    home, lemma_find_variable, lemma_home_environment, lemma_lookup_again, lemma_same_home,
    own_local, Home,
};
use crate::compiler::operators::{
    category, comparison_fold, simple_fold, unop_fold, BinOpCategory, ComparisonBinOp,
    RegisterOrConstant, ShortCircuitBinOp, SimpleBinOp,
};
use crate::compiler::order::{
    distinct_names, evolves, exceeded, group_state, inv, lemma_allocate, lemma_constant_position,
    lemma_get_constant, lemma_height, lemma_lowest_free, lemma_settle, proto_ok, reach, upvalues_ok,
    used, waits,
};
use crate::compiler::ownership::{holds, holds_list, owned, owned_list, rest};
use crate::compiler::placing::{
    kept_at, lemma_any_register, lemma_discharge, lemma_expr_function_call, lemma_rest_empty,
    number, open_to,
};
use crate::compiler::reference;
use crate::compiler::reference::{lemma_chunk, lemma_linked};
use crate::compiler::register_allocator::{height, REGISTERS};
use crate::compiler::scope::clean;
use crate::compiler::size::{block_size, expression_size, expressions_size, weight, weights};
use crate::compiler::support::{
    chunk_supported, desc_supported, expression_supported, expressions_supported,
};
use crate::function::{ProtoView, UpValueDescriptor};
use crate::opcode::{ConstantIndex16, OpCode, RegisterIndex, VarCount};
use crate::parser::{
    AssignmentStatement, AssignmentTarget, BinaryOperator, Block, CallSuffix, Chunk, Expression,
    FunctionStatement, ReturnStatement, SimpleExpression, Statement, SuffixPart, TableConstructor,
    UnaryOperator,
};
use crate::value::ValueView;
use vstd::prelude::*;

verus! {

// ---------------------------------------------------------------------------------------------
// Chunks

/// A compiled chunk is well formed, with all functions inside it: every instruction refers only
/// to registers within the stack size and to constants, upvalues and functions that there are,
/// control never leaves the instructions, and the last one returns.
pub proof fn law_well_formed(chunk: Chunk)
    ensures
        compilation(chunk) matches Ok(p) ==> proto_ok(p),
{
    lemma_compile_function(Seq::empty(), Seq::empty(), true, chunk.block);
}

/// A compiled chunk takes no parameters. It has the environment as its only upvalue where it
/// refers to it, and otherwise has none.
pub proof fn law_chunk_interface(chunk: Chunk)
    ensures
        compilation(chunk) matches Ok(p) ==> {
            &&& p.fixed_params == 0
            &&& !p.has_varargs
            &&& p.upvalues == (if chunk_uses(chunk) {
                seq![UpValueDescriptor::Environment]
            } else {
                Seq::empty()
            })
        },
{
    lemma_compile_function(Seq::empty(), Seq::empty(), true, chunk.block);
    lemma_chunk(chunk);
}

/// What the compiler takes for granted about itself holds on every chunk: no register leaks or is
/// given back twice, values that are wanted at the top of the stack end there, only placeholders
/// are completed, and the environment is found.
pub proof fn law_no_internal_failure(chunk: Chunk)
    ensures
        compilation(chunk) != Err::<ProtoView, Stop>(Stop::Broken),
{
    lemma_compile_function(Seq::empty(), Seq::empty(), true, chunk.block);
}

/// A chunk that keeps to the supported part of the language is compiled unless it exceeds a
/// limit, and no other chunk is compiled.
pub proof fn law_supported(chunk: Chunk)
    ensures
        match compilation(chunk) {
            Ok(_) => chunk_supported(chunk),
            Err(h) => chunk_supported(chunk) ==> h is Error,
        },
{
    lemma_compile_function(Seq::empty(), Seq::empty(), true, chunk.block);
}

// ---------------------------------------------------------------------------------------------
// Scopes

/// A block brings back the local variables that were in scope before it and the registers that
/// were in use, so that every name stands for what it stood for.
pub proof fn law_block_restores(st: State, b: Block)
    requires
        inv(st),
        clean(st),
    ensures
        block(st, b) matches Ok((st1, ())) ==> {
            &&& current(st1).locals == current(st).locals
            &&& used(st1) == used(st)
            &&& forall|name: Seq<u8>| #[trigger]
                home(st1, name, st1.len() - 1) == home(st, name, st.len() - 1)
        },
{
    lemma_block(st, b);
    if let Ok((st1, ())) = block(st, b) {
        assert(used(st1) =~= used(st));
        reveal(evolves);
        assert forall|j: int| 0 <= j < st1.len() implies (#[trigger] st1[j]).locals
            == st[j].locals by {
            if j < st.len() - 1 {
                assert(waits(st[j], st1[j]));
            }
        }
        assert forall|name: Seq<u8>| #[trigger]
            home(st1, name, st1.len() - 1) == home(st, name, st.len() - 1) by {
            lemma_same_home(st1, st, name, st1.len() - 1);
        }
    }
}

/// A local variable is in scope from where it is declared, and hides older ones of its name.
pub proof fn law_declared(st: State, name: Seq<u8>, register: RegisterIndex)
    requires
        st.len() > 0,
    ensures
        find_variable(bind(st, name, register), name) == done(
            bind(st, name, register),
            Variable::Local(register),
        ),
{
    reveal(resolve);
    let st1 = bind(st, name, register);
    assert(own_local(st1, name, st1.len() - 1) == Some(register));
}

/// A function takes a variable as an upvalue at most once.
pub proof fn law_captured_once(st: State, k: int)
    requires
        inv(st),
        0 <= k < st.len(),
    ensures
        distinct_names(st[k].upvalues),
{
    reveal(inv);
    assert(upvalues_ok(st, k));
}

/// A name that has been looked up stands for the same variable when it is looked up again, which
/// then changes nothing.
pub proof fn law_lookup_again(st: State, name: Seq<u8>)
    requires
        inv(st),
    ensures
        find_variable(st, name) matches Ok((st1, v)) ==> find_variable(st1, name) == done(st1, v),
{
    lemma_lookup_again(st, name);
}

/// The chunk gets the environment as its upvalue when it is first referred to: a lookup from any
/// function inside it leaves the chunk with the environment where the chunk had it before, or
/// where the name is that of the environment and the search for it meets no local variable.
pub proof fn law_environment_on_reference(st: State, name: Seq<u8>)
    requires
        inv(st),
    ensures
        find_variable(st, name) matches Ok((st1, _)) ==> st1[0].upvalues == (if st[0].upvalues.len()
            > 0 || home(st, name, st.len() - 1) == Home::Environment {
            seq![(env_name(), UpValueDescriptor::Environment)]
        } else {
            Seq::empty()
        }),
        home(st, name, st.len() - 1) == Home::Environment <==> {
            &&& name == env_name()
            &&& forall|k: int| 0 <= k < st.len() ==> #[trigger] own_local(st, name, k) is None
        },
{
    broadcast use group_state;

    lemma_linked(st);
    reference::lemma_find_variable(st, name);
    lemma_find_variable(st, name);
    lemma_home_environment(st, name, st.len() - 1);
    if let Ok((st1, _)) = find_variable(st, name) {
        reveal(inv);
        assert(upvalues_ok(st1, 0));
    }
}

// ---------------------------------------------------------------------------------------------
// Values

/// Compiling an expression adds no instruction that changes a register in use.
pub proof fn law_expression_spares(st: State, e: Expression)
    requires
        inv(st),
    ensures
        expression(st, e) matches Ok((st1, d)) ==> {
            &&& spares(st, st1, used(st))
            &&& used(st).subset_of(used(st1))
        },
{
    lemma_rest_empty(st);
    lemma_expression(st, e);
}

/// Placing a value consumes the expression: of what it held, at most the register of the value
/// stays in use. There is such a register unless the value was wanted nowhere, and it is in use.
/// No other register in use is changed.
pub proof fn law_discharge(st: State, desc: Desc, dest: ExprDestination)
    requires
        inv(st),
        holds(st, desc),
        open_to(st, owned(desc), dest),
    ensures
        discharge(st, desc, dest) matches Ok((st1, r)) ==> {
            &&& r is None <==> dest == ExprDestination::Nowhere
            &&& r matches Some(r) ==> used(st1).contains(r.0 as int)
            &&& forall|i: int| #[trigger]
                owned(desc).contains(i) && used(st1).contains(i) ==> i == number(r)
            &&& forall|i: int| #[trigger]
                used(st).contains(i) && !owned(desc).contains(i) ==> used(st1).contains(i)
            &&& spares(st, st1, used(st).difference(owned(desc)).remove(number(r)))
        },
{
    broadcast use group_spares;

    lemma_discharge(st, desc, dest);
    if let Ok((st1, r)) = discharge(st, desc, dest) {
        assert forall|i: int| #[trigger]
            owned(desc).contains(i) && used(st1).contains(i) implies i == number(r) by {
            assert(!rest(st, owned(desc)).contains(i));
        }
        assert forall|i: int| #[trigger]
            used(st).contains(i) && !owned(desc).contains(i) implies used(st1).contains(i) by {
            assert(rest(st, owned(desc)).contains(i));
        }
        if let ExprDestination::Register(x) = dest {
            assert(rest(st, owned(desc)).contains(x.0 as int));
        }
        assert(used(st).difference(owned(desc)).remove(number(r)).subset_of(
            kept_at(st, owned(desc), dest),
        ));
    }
}

/// A call consumes the function and the arguments. Its results begin at the top of the stack,
/// above all registers in use, of which none is changed.
pub proof fn law_call_results(st: State, func: Desc, args: Seq<Desc>, results: VarCount)
    requires
        inv(st),
        holds(st, func),
        holds_list(st, args, 0),
        owned(func).disjoint(owned_list(args, 0)),
    ensures
        expr_function_call(st, func, args, results) matches Ok((st1, r)) ==> {
            &&& current(st1).registers.top == r.0
            &&& used(st1) == used(st).difference(owned(func)).difference(owned_list(args, 0))
            &&& forall|i: int| #[trigger] used(st1).contains(i) ==> i < r.0
            &&& spares(st, st1, used(st1))
        },
{
    broadcast use group_state;

    lemma_expr_function_call(st, func, args, results);
    if let Ok((st1, r)) = expr_function_call(st, func, args, results) {
        assert(used(st1) =~= used(st).difference(owned(func)).difference(owned_list(args, 0)));
    }
}

/// An expression that has been brought into a register stays there: to bring it into a register
/// again gives the same register and changes nothing. The register is temporary unless the
/// expression lay in one from the start, in which case nothing was done.
pub proof fn law_any_register_again(st: State, desc: Desc)
    ensures
        any_register(st, desc) matches Ok((st1, r)) ==> {
            &&& any_register(st1, held(desc, r)) == done(st1, r)
            &&& match desc {
                Desc::Register { register, is_temporary: _ } => {
                    &&& r == register
                    &&& st1 == st
                    &&& held(desc, r) == desc
                },
                _ => held(desc, r) == temporary(r),
            }
        },
{
    reveal(any_register);
}

/// An operand is a constant where the expression is a value among the first 256 constants, and
/// otherwise a register, which then holds the expression.
#[verifier::spinoff_prover]
pub proof fn law_operand(st: State, desc: Desc)
    requires
        inv(st),
        holds(st, desc),
    ensures
        any_register_or_constant(st, desc) matches Ok((st1, operand)) ==> match operand {
            RegisterOrConstant::Constant(c) => {
                &&& desc is Value
                &&& constant_position(current(st1).constants, desc->Value_0, 0) == Some(c.0 as int)
            },
            RegisterOrConstant::Register(r) => {
                &&& used(st1).contains(r.0 as int)
                &&& held(desc, r) matches Desc::Register { register, is_temporary: _ } && register
                    == r
                &&& desc is Value ==> (constant_position(
                    current(st1).constants,
                    desc->Value_0,
                    0,
                ) matches Some(i) && 256 <= i)
            },
        },
{
    broadcast use group_state;

    reveal(any_register_or_constant);
    match desc {
        Desc::Value(value) => {
            lemma_get_constant(st, value);
            if let Ok((st1, c)) = get_constant(st, value) {
                lemma_constant_position(current(st1).constants, value, 0);
                if c.0 > u8::MAX {
                    lemma_any_register(st1, desc);
                    if let Ok((st2, r)) = any_register(st1, desc) {
                        let before = current(st1).constants;
                        let after = current(st2).constants;
                        assert(before[c.0 as int] == after[c.0 as int]);
                        lemma_constant_position(after, value, 0);
                    }
                }
            }
        },
        _ => lemma_any_register(st, desc),
    }
}

// ---------------------------------------------------------------------------------------------
// Statements

/// Values beyond the number of targets are not even compiled: two assignments that differ in such
/// values only are compiled alike.
#[verifier::spinoff_prover]
pub proof fn law_surplus_values(st: State, a: AssignmentStatement, b: AssignmentStatement)
    requires
        a.targets@ == b.targets@,
        a.targets@.len() <= a.values@.len(),
        a.targets@.len() <= b.values@.len(),
        forall|j: int| 0 <= j < a.targets@.len() ==> #[trigger] a.values@[j] == b.values@[j],
    ensures
        assignment(st, a) == assignment(st, b),
{
    reveal(assignment);
    lemma_surplus_values(st, a.targets@, a.values@, b.values@, 0);
}

#[verifier::spinoff_prover]
proof fn lemma_surplus_values(
    st: State,
    targets: Seq<AssignmentTarget>,
    a: Seq<Expression>,
    b: Seq<Expression>,
    i: int,
)
    requires
        0 <= i,
        targets.len() <= a.len(),
        targets.len() <= b.len(),
        forall|j: int| 0 <= j < targets.len() ==> #[trigger] a[j] == b[j],
    ensures
        assignments(st, targets, a, i) == assignments(st, targets, b, i),
    decreases targets.len() - i,
{
    reveal(assignments);
    reveal(assigned_value);
    if i < targets.len() {
        assert(a[i] == b[i]);
        assert(assigned_value(st, a, i) == assigned_value(st, b, i));
        if let Ok((st1, d)) = bounded(assigned_value(st, a, i), assigned_size(a, i)) {
            if let Ok((st2, ())) = assign(st1, targets[i], d) {
                lemma_surplus_values(st2, targets, a, b, i + 1);
            }
        }
    }
}

/// Whether an expression is compiled to a call whose results have not been placed yet.
pub open spec fn is_call(st: State, e: Expression) -> bool {
    expression(st, e) matches Ok((_, d)) && d is FunctionCall
}

/// How many values are returned.
#[verifier::spinoff_prover]
proof fn lemma_return_count(st: State, es: Seq<Expression>, i: int)
    ensures
        push_returns(st, es, i) matches Ok((_, count)) ==> {
            ||| count == VarCount::variable() && exists|at: State| is_call(at, es.last())
            ||| count == VarCount::constant(es.len() as int) && es.len() < u8::MAX
        },
    decreases es.len() - i,
{
    reveal(push_returns);
    if 0 <= i < es.len() {
        if let Ok((st1, d)) = bounded(expression(st, es[i]), expression_size(es[i])) {
            if i == es.len() - 1 {
                assert(d is FunctionCall ==> is_call(st, es.last()));
            } else if let Ok((st2, _)) = discharge(st1, d, ExprDestination::PushNew) {
                lemma_return_count(st2, es, i + 1);
            }
        }
    }
}

/// A return statement that is compiled ends in the one instruction that returns. It returns the
/// values from the first register above all that were in use on, as many as are written down,
/// fewer than 255, or a variable number where the last one is a call. One that is not compiled
/// gets no such instruction: it stops where placing its values has stopped.
#[verifier::spinoff_prover]
pub proof fn law_return(st: State, s: ReturnStatement)
    requires
        inv(st),
        clean(st),
    ensures
        match return_statement(st, s) {
            Ok((st1, ())) => {
                &&& current(st1).opcodes.last() matches OpCode::Return { start, count }
                &&& s.returns@.len() > 0 ==> start.0 == height(used(st), REGISTERS as int)
                &&& {
                    ||| count == VarCount::variable() && exists|at: State|
                        is_call(at, s.returns@.last())
                    ||| count == VarCount::constant(s.returns@.len() as int) && s.returns@.len()
                        < u8::MAX
                }
            },
            Err((st1, stop)) => {
                ||| push_returns(settle(st), s.returns@, 0) == Err::<(State, VarCount), _>(
                    (st1, stop),
                )
                ||| st1 == settle(st) && stop == Stop::Error(CompilerError::Registers)
            },
        },
{
    broadcast use group_state;

    reveal(return_statement);
    lemma_settle(st);
    lemma_height(used(st), REGISTERS as int);
    lemma_return_statement(st, s);
    lemma_return_count(settle(st), s.returns@, 0);
}

// ---------------------------------------------------------------------------------------------
// Limits

/// A new register is the lowest one that is free, and there is none only where all are in use.
pub proof fn law_lowest_register(st: State)
    requires
        inv(st),
    ensures
        match allocate(st) {
            Ok((_, r)) => {
                &&& !used(st).contains(r.0 as int)
                &&& forall|i: int| 0 <= i < r.0 ==> #[trigger] used(st).contains(i)
            },
            Err((st1, stop)) => {
                &&& st1 == st
                &&& stop == Stop::Error(CompilerError::Registers)
                &&& forall|i: int| 0 <= i < REGISTERS ==> #[trigger] used(st).contains(i)
            },
        },
{
    lemma_allocate(st);
    reveal(allocate);
    lemma_lowest_free(used(st), 0);
}

/// Where all registers are in use, a constant, an upvalue or a variable cannot be placed in a new
/// one, and the attempt changes nothing.
#[verifier::spinoff_prover]
pub proof fn law_registers_exhausted(st: State, desc: Desc, dest: ExprDestination)
    requires
        inv(st),
        forall|i: int| 0 <= i < REGISTERS ==> #[trigger] used(st).contains(i),
        desc is Value || desc is UpValue || (desc matches Desc::Register {
            register: _,
            is_temporary,
        } && !is_temporary),
        dest == ExprDestination::AllocateNew || dest == ExprDestination::PushNew,
    ensures
        discharge(st, desc, dest) == Err::<(State, Option<RegisterIndex>), _>(
            (st, Stop::Error(CompilerError::Registers)),
        ),
{
    broadcast use group_state;

    reveal(discharge);
    reveal(place_register);
    reveal(place_upvalue);
    reveal(place_value);
    reveal(new_destination);
    reveal(allocate);
    reveal(push_registers);
    lemma_allocate(st);
    assert(used(st).contains(REGISTERS - 1));
    if let Ok((st1, r)) = allocate(st) {
        assert(used(st).contains(r.0 as int));
    }
}

/// Where a function has 65536 constants, one that is not among them cannot be loaded, and the
/// attempt changes nothing.
#[verifier::spinoff_prover]
pub proof fn law_constants_exhausted(st: State, value: ValueView, dest: RegisterIndex)
    requires
        current(st).constants.len() == 65536,
        !current(st).constants.contains(value),
        !(value is Nil),
        !(value is Boolean),
    ensures
        discharge(st, Desc::Value(value), ExprDestination::Register(dest)) == Err::<
            (State, Option<RegisterIndex>),
            _,
        >((st, Stop::Error(CompilerError::Constants))),
{
    reveal(discharge);
    reveal(place_value);
    reveal(new_destination);
    reveal(get_constant);
    lemma_constant_position(current(st).constants, value, 0);
}

// ---------------------------------------------------------------------------------------------
// Instructions

/// Instructions that set registers to nil are combined: one more register is set by the last
/// instruction where that one ends directly below it and holds fewer than 255 registers. Then
/// control gets behind the last instruction through that instruction alone, so that nothing that
/// is executed later misses it.
#[verifier::spinoff_prover]
pub proof fn law_nil_run(st: State, dest: RegisterIndex)
    requires
        inv(st),
    ensures
        ({
            let old_code = current(st).opcodes;
            let new_code = current(load_nil(st, dest)).opcodes;
            &&& new_code.last() matches OpCode::LoadNil { dest: first, count }
            &&& first.0 + count == dest.0 + 1
            &&& if continues_run(current(st), dest) {
                &&& new_code == old_code.drop_last().push(new_code.last())
                &&& old_code.last() == (OpCode::LoadNil { dest: first, count: (count - 1) as u8 })
                &&& forall|i: int|
                    0 <= i < old_code.len() - 1 ==> reach(#[trigger] old_code[i], i)
                        < old_code.len()
            } else {
                &&& new_code == old_code.push(new_code.last())
                &&& first == dest
            }
        }),
{
    broadcast use group_state;

    reveal(load_nil);
}

// ---------------------------------------------------------------------------------------------
// Constants

/// A constant keeps its index: it is found there at any later time, and is not added again.
pub proof fn law_constant_once(
    st: State,
    value: ValueView,
    st1: State,
    c: ConstantIndex16,
    st2: State,
)
    requires
        inv(st),
        get_constant(st, value) == done(st1, c),
        inv(st2),
        evolves(st1, st2),
    ensures
        get_constant(st2, value) == done(st2, c),
{
    broadcast use group_state;

    lemma_get_constant(st, value);
    reveal(get_constant);
    let constants = current(st2).constants;
    assert(constants[c.0 as int] == value);
    lemma_constant_position(constants, value, 0);
}

/// A function is refused only where a limit has been reached: by the function that was being
/// compiled, or by what is written down in it.
pub proof fn law_refused(
    st: State,
    parameters: Seq<Box<[u8]>>,
    has_varargs: bool,
    body: Block,
)
    requires
        st.len() == 0 || inv(st),
    ensures
        compile_function(st, parameters, has_varargs, body) matches Err((st1, Stop::Error(e)))
            ==> exceeded(st1, e, parameters.len() + block_size(body)),
{
    lemma_compile_function(st, parameters, has_varargs, body);
}

/// So is a call.
pub proof fn law_call_refused(st: State, func: Desc, args: Seq<Desc>, results: VarCount)
    requires
        inv(st),
        holds(st, func),
        holds_list(st, args, 0),
        owned(func).disjoint(owned_list(args, 0)),
    ensures
        expr_function_call(st, func, args, results) matches Err((st1, Stop::Error(e)))
            ==> exceeded(st1, e, weight(func) + weights(args, 0)),
{
    lemma_expr_function_call(st, func, args, results);
}

/// A value is placed unless a limit has been reached.
pub proof fn law_placing_refused(st: State, desc: Desc, dest: ExprDestination)
    requires
        inv(st),
        holds(st, desc),
        open_to(st, owned(desc), dest),
    ensures
        discharge(st, desc, dest) matches Err((st1, stop)) ==> {
            &&& stop matches Stop::Error(e) ==> exceeded(st1, e, weight(desc))
            &&& desc_supported(desc) ==> stop is Error
        },
{
    lemma_discharge(st, desc, dest);
}

/// An expression is compiled unless a limit has been reached.
pub proof fn law_expression_refused(st: State, e: Expression)
    requires
        inv(st),
    ensures
        expression(st, e) matches Err((st1, stop)) ==> {
            &&& stop matches Stop::Error(error) ==> exceeded(st1, error, expression_size(e))
            &&& expression_supported(e) ==> stop is Error
        },
{
    lemma_expression(st, e);
}

/// A return statement is compiled unless a limit has been reached.
pub proof fn law_return_refused(st: State, s: ReturnStatement)
    requires
        inv(st),
        clean(st),
    ensures
        return_statement(st, s) matches Err((st1, stop)) ==> {
            &&& stop matches Stop::Error(e) ==> exceeded(
                st1,
                e,
                expressions_size(s.returns@, 0),
            )
            &&& expressions_supported(s.returns@, 0) ==> stop is Error
        },
{
    lemma_return_statement(st, s);
}

/// A statement that the compiler does not know is refused for what it is, and changes nothing.
pub proof fn law_unknown_statement(st: State, s: Statement)
    ensures
        s is While ==> refuses(st, statement(st, s), Feature::While),
        s is For ==> refuses(st, statement(st, s), Feature::For),
        s is Repeat ==> refuses(st, statement(st, s), Feature::Repeat),
        s is Label ==> refuses(st, statement(st, s), Feature::Label),
        s is Break ==> refuses(st, statement(st, s), Feature::Break),
        s is Goto ==> refuses(st, statement(st, s), Feature::Goto),
{
    reveal(statement);
}

/// So are the parts of expressions and calls that it does not know.
#[verifier::spinoff_prover]
pub proof fn law_unknown_expression(st: State, desc: Desc, part: SuffixPart, e: SimpleExpression)
    ensures
        e is VarArgs ==> refuses(st, simple_expression(st, e), Feature::VarArgs),
        part matches SuffixPart::Call(CallSuffix::Method(_, _)) ==> refuses(
            st,
            suffix(st, desc, part),
            Feature::MethodCallExpression,
        ),
{
    lemma_unknown_simple(st, e);
    lemma_unknown_suffix(st, desc, part);
}

#[verifier::spinoff_prover]
proof fn lemma_unknown_simple(st: State, e: SimpleExpression)
    ensures
        e is VarArgs ==> refuses(st, simple_expression(st, e), Feature::VarArgs),
{
    reveal(simple_expression);
}

#[verifier::spinoff_prover]
proof fn lemma_unknown_suffix(st: State, desc: Desc, part: SuffixPart)
    ensures
        part matches SuffixPart::Call(CallSuffix::Method(_, _)) ==> refuses(
            st,
            suffix(st, desc, part),
            Feature::MethodCallExpression,
        ),
{
    reveal(suffix);
}

/// A table with fields is refused.
pub proof fn law_unknown_table(st: State, t: TableConstructor)
    ensures
        t.fields@.len() > 0 ==> refuses(st, table_constructor(st, t), Feature::TableFields),
{
    reveal(table_constructor);
}

/// Concatenation is refused.
#[verifier::spinoff_prover]
pub proof fn law_unknown_operator(st: State, left: Desc, right: Expression)
    ensures
        refuses(st, binary_operator(st, left, BinaryOperator::Concat, right), Feature::Concat),
{
    reveal(binary_operator);
}

/// A function that is stored in a field or as a method is refused, local or not.
#[verifier::spinoff_prover]
pub proof fn law_unknown_function(st: State, s: FunctionStatement)
    ensures
        s.name.fields@.len() > 0 ==> {
            &&& refuses(st, function_statement(st, s), Feature::FunctionNameFields)
            &&& refuses(st, local_function(st, s), Feature::FunctionNameFields)
        },
        s.name.fields@.len() == 0 && s.name.method is Some ==> {
            &&& refuses(st, function_statement(st, s), Feature::FunctionNameMethod)
            &&& refuses(st, local_function(st, s), Feature::FunctionNameMethod)
        },
{
    lemma_unknown_function(st, s);
    lemma_unknown_local(st, s);
}

#[verifier::spinoff_prover]
proof fn lemma_unknown_function(st: State, s: FunctionStatement)
    ensures
        s.name.fields@.len() > 0 ==> refuses(
            st,
            function_statement(st, s),
            Feature::FunctionNameFields,
        ),
        s.name.fields@.len() == 0 && s.name.method is Some ==> refuses(
            st,
            function_statement(st, s),
            Feature::FunctionNameMethod,
        ),
{
    reveal(function_statement);
}

#[verifier::spinoff_prover]
proof fn lemma_unknown_local(st: State, s: FunctionStatement)
    ensures
        s.name.fields@.len() > 0 ==> refuses(
            st,
            local_function(st, s),
            Feature::FunctionNameFields,
        ),
        s.name.fields@.len() == 0 && s.name.method is Some ==> refuses(
            st,
            local_function(st, s),
            Feature::FunctionNameMethod,
        ),
{
    reveal(local_function);
}

/// The compilation stops at a part of the language that the compiler does not know.
pub open spec fn refuses<T>(st: State, outcome: Outcome<T>, feature: Feature) -> bool {
    outcome matches Err((st1, stop)) && st1 == st && stop == Stop::Unsupported(feature)
}

// ---------------------------------------------------------------------------------------------
// Operators

/// Each operator keeps its own operation: no two operators are the same operation, and the
/// operation is the one that the operator is named after.
pub proof fn law_operation(a: BinaryOperator, b: BinaryOperator)
    ensures
        category(a) == category(b) ==> a == b,
        match category(a) {
            BinOpCategory::Simple(op) => match op {
                SimpleBinOp::Add => a == BinaryOperator::Add,
                SimpleBinOp::Sub => a == BinaryOperator::Sub,
                SimpleBinOp::Mul => a == BinaryOperator::Mul,
                SimpleBinOp::Mod => a == BinaryOperator::Mod,
                SimpleBinOp::Exp => a == BinaryOperator::Exp,
                SimpleBinOp::Div => a == BinaryOperator::Div,
                SimpleBinOp::IDiv => a == BinaryOperator::IDiv,
                SimpleBinOp::BitAnd => a == BinaryOperator::BitAnd,
                SimpleBinOp::BitOr => a == BinaryOperator::BitOr,
                SimpleBinOp::BitXor => a == BinaryOperator::BitXor,
                SimpleBinOp::ShiftLeft => a == BinaryOperator::ShiftLeft,
                SimpleBinOp::ShiftRight => a == BinaryOperator::ShiftRight,
            },
            BinOpCategory::Comparison(op) => match op {
                ComparisonBinOp::NotEqual => a == BinaryOperator::NotEqual,
                ComparisonBinOp::Equal => a == BinaryOperator::Equal,
                ComparisonBinOp::LessThan => a == BinaryOperator::LessThan,
                ComparisonBinOp::LessEqual => a == BinaryOperator::LessEqual,
                ComparisonBinOp::GreaterThan => a == BinaryOperator::GreaterThan,
                ComparisonBinOp::GreaterEqual => a == BinaryOperator::GreaterEqual,
            },
            BinOpCategory::ShortCircuit(op) => match op {
                ShortCircuitBinOp::And => a == BinaryOperator::And,
                ShortCircuitBinOp::Or => a == BinaryOperator::Or,
            },
            BinOpCategory::Concat => a == BinaryOperator::Concat,
        },
{
}

/// Sums, differences, products and negations of integers that are known when they are compiled
/// are right up to a multiple of the number of integers there are, two to the power of 64. Of
/// two integers no other arithmetic operation is known in advance.
pub proof fn law_integers_folded(op: SimpleBinOp, a: i64, b: i64)
    ensures
        ({
            let folded = simple_fold(op, ValueView::Integer(a), ValueView::Integer(b));
            let c = match folded {
                Some(ValueView::Integer(c)) => c as int,
                _ => 0int,
            };
            &&& folded matches Some(v) ==> v is Integer
            &&& (folded is Some) == (op is Add || op is Sub || op is Mul || op is BitAnd
                || op is BitOr || op is BitXor)
            &&& op is Add ==> (a + b - c) % 0x1_0000_0000_0000_0000 == 0
            &&& op is Sub ==> (a - b - c) % 0x1_0000_0000_0000_0000 == 0
            &&& op is Mul ==> (a * b - c) % 0x1_0000_0000_0000_0000 == 0
        }),
        ({
            let negated = unop_fold(UnaryOperator::Minus, ValueView::Integer(a));
            negated matches Some(ValueView::Integer(c)) && (a + c) % 0x1_0000_0000_0000_0000 == 0
        }),
        ({
            let inverted = unop_fold(UnaryOperator::BitNot, ValueView::Integer(a));
            inverted matches Some(ValueView::Integer(c)) && a + c == -1
        }),
{
    let p = a * b;
    let m = 0x1_0000_0000_0000_0000int;
    assert((p - p % m) % m == 0 && (p - (p % m - m)) % m == 0) by {
        vstd::arithmetic::div_mod::lemma_fundamental_div_mod(p, m);
        vstd::arithmetic::div_mod::lemma_mod_multiples_basic(p / m, m);
        vstd::arithmetic::div_mod::lemma_mod_multiples_basic(p / m + 1, m);
        assert(m * (p / m) == (p / m) * m) by (nonlinear_arith);
        assert((p / m + 1) * m == (p / m) * m + m) by (nonlinear_arith);
    }
    assert(!a == -1 - a) by (bit_vector);
}

/// The bitwise combinations of integers that are known when they are compiled: together, `and`
/// and `or` add up to the integers themselves, and `xor` is what `or` has more than `and`. `and`
/// has no bit that one of the integers has not.
pub proof fn law_bits_folded(a: i64, b: i64)
    ensures
        ({
            let left = ValueView::Integer(a);
            let right = ValueView::Integer(b);
            &&& simple_fold(SimpleBinOp::BitAnd, left, right) matches Some(ValueView::Integer(both))
            &&& simple_fold(SimpleBinOp::BitOr, left, right) matches Some(ValueView::Integer(any))
            &&& simple_fold(SimpleBinOp::BitXor, left, right) matches Some(ValueView::Integer(one))
            &&& both + any == a + b
            &&& one == any - both
            &&& a >= 0 ==> 0 <= both <= a
            &&& b >= 0 ==> 0 <= both <= b
            &&& a >= 0 && b >= 0 ==> any >= a && any >= b
        }),
{
    assert((a & b) as int + (a | b) as int == a as int + b as int) by (bit_vector);
    assert((a ^ b) as int == (a | b) as int - (a & b) as int) by (bit_vector);
    assert(a >= 0 ==> 0 <= (a & b) && (a & b) <= a) by (bit_vector);
    assert(b >= 0 ==> 0 <= (a & b) && (a & b) <= b) by (bit_vector);
    assert(a >= 0 && b >= 0 ==> (a | b) >= a && (a | b) >= b) by (bit_vector);
}

/// What a comparison of two constants yields, where it is known when it is compiled.
pub open spec fn holds_of(op: ComparisonBinOp, a: ValueView, b: ValueView) -> Option<bool> {
    match comparison_fold(op, a, b) {
        Some(ValueView::Boolean(v)) => Some(v),
        _ => None,
    }
}

/// Comparisons of constants that are known when they are compiled are comparisons: of integers all
/// are known, exactly one of less, equal and greater holds, and the first integer is less where
/// the difference is negative. Equality is known of all constants but floating point numbers, and
/// is what it is: a constant is equal to itself, and to no other.
pub proof fn law_comparisons_folded(a: ValueView, b: ValueView)
    ensures
        (a is Number || b is Number) ==> forall|op: ComparisonBinOp| #[trigger]
            comparison_fold(op, a, b) is None,
        !(a is Number || b is Number) ==> {
            &&& holds_of(ComparisonBinOp::Equal, a, b) == Some(a == b)
            &&& holds_of(ComparisonBinOp::NotEqual, a, b) == Some(a != b)
        },
        match (a, b) {
            (ValueView::Integer(i), ValueView::Integer(j)) => {
                let less = holds_of(ComparisonBinOp::LessThan, a, b);
                let greater = holds_of(ComparisonBinOp::GreaterThan, a, b);
                &&& less == Some(i - j < 0)
                &&& greater == Some(j - i < 0)
                &&& holds_of(ComparisonBinOp::LessEqual, a, b) == Some(!(greater->0))
                &&& holds_of(ComparisonBinOp::GreaterEqual, a, b) == Some(!(less->0))
            },
            _ => forall|op: ComparisonBinOp| #[trigger]
                comparison_fold(op, a, b) is Some ==> op is Equal || op is NotEqual,
        },
{
}

/// `not` of a constant is known when it is compiled: it is true of nil and false alone, and twice
/// `not` gives back the truth of the constant.
pub proof fn law_not_folded(v: ValueView)
    ensures
        ({
            let falsy = v == ValueView::Nil || v == ValueView::Boolean(false);
            &&& unop_fold(UnaryOperator::Not, v) == Some(ValueView::Boolean(falsy))
            &&& unop_fold(UnaryOperator::Not, ValueView::Boolean(falsy)) == Some(
                ValueView::Boolean(!falsy),
            )
        }),
        unop_fold(UnaryOperator::Len, v) is None,
{
}

} // verus!
