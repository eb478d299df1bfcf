//! The chunk takes the environment as its upvalue where it refers to it, and only there.

use crate::compiler::environment::{
    arms_use, block_uses, chunk_uses, declared, definition_uses, desc_uses, descs_use,
    expression_uses, expressions_use, field_uses, first_use, head_uses, local_values_use, name_uses,
    primary_uses, scope_at_end, scope_behind, simple_uses, statement_uses, statements_use,
    suffix_uses, suffixed_uses, suffixes_use, tail_uses, target_uses, targets_use, Scope,
};
use crate::compiler::model::{
    add_prototype, add_upvalue, allocate, any_register, any_register_or_constant, arm_start, assign,
    assigned_size, assigned_value, assignment, assignments, binary_operator, bind, bind_names,
    block, bounded, bounded_list, closure, compilation, compile_function, condition, current,
    discharge, done, emit, end_scope, env_name, expr_function_call, expression, expression_rest,
    expressions, field_key, find_variable, finish, found_destination, free_locals, free_register,
    function_call, function_expression, function_statement, get_constant, get_environment,
    get_table, hand_down, head_expression, if_arm, if_arms, if_statement, jump_here,
    jump_placeholder, jumps_here, load_nil, local_call, local_function, local_nils, local_statement,
    local_values, new_destination, new_function, new_prototype, newest_local, operand_register,
    operands, parameter_locals, place_compared, place_comparison, place_not, place_register,
    place_result, place_right, place_short_circuit, place_upvalue, place_value, pop_to,
    primary_expression, push_arguments, push_registers, push_returns, put, read_field, release,
    release_both, resolve, return_statement, set_table, settle, short_circuit_test,
    simple_expression, simple_operation, statement, statements, suffix, suffixed_expression,
    suffixed_rest, table_constructor, temporary, unary_operator, upvalue_position, with_environment,
    write_field, Desc, ExprDestination, FunctionState, Outcome, State, Variable,
};
use crate::compiler::names::{
    has_environment, home, lemma_same_home, lemma_upvalue_position, own_local, Home,
};
use crate::compiler::operators::{ComparisonBinOp, ShortCircuitBinOp};
use crate::compiler::order::{inv, upvalue_from, upvalues_ok};
use crate::compiler::size::{
    arms_size, block_size, call_size, definition_size, expression_size, expressions_size,
    field_size, head_size, lemma_weights_index, primary_size, simple_size, statement_size,
    statements_size, suffix_size, suffixed_size, suffixes_size, tail_size, target_size,
    targets_size, weight, weights,
};
use crate::function::UpValueDescriptor;
use crate::opcode::{OpCode, RegisterIndex, UpValueIndex, VarCount};
use crate::parser::{
    AssignmentTarget, BinaryOperator, Block, CallSuffix, Chunk, Expression, FieldSuffix,
    FunctionCallStatement, FunctionDefinition, FunctionStatement, HeadExpression, IfStatement,
    PrimaryExpression, ReturnStatement, SimpleExpression, Statement, SuffixPart, SuffixedExpression,
    UnaryOperator,
};
use crate::value::ValueView;
use vstd::prelude::*;

verus! {

// ---------------------------------------------------------------------------------------------
// Scopes

/// The names of the local variables in scope.
#[verifier::opaque]
pub open spec fn scope(st: State) -> Scope {
    Set::new(|name: Seq<u8>| home(st, name, st.len() - 1) is Local)
}

/// An upvalue of the `k`th function stands for a local variable further out, or for the
/// environment, which the chunk has.
pub open spec fn grounded(st: State, k: int, name: Seq<u8>) -> bool {
    if k == 0 {
        name == env_name()
    } else {
        match home(st, name, k - 1) {
            Home::Local { .. } => true,
            Home::Environment => has_environment(st),
            Home::Free => false,
        }
    }
}

/// All upvalues are grounded.
#[verifier::opaque]
pub open spec fn linked(st: State) -> bool {
    &&& st.len() > 0
    &&& forall|k: int, u: int|
        0 <= k < st.len() && 0 <= u < st[k].upvalues.len() ==> grounded(
            st,
            k,
            (#[trigger] st[k].upvalues[u]).0,
        )
}

/// Between any two steps all upvalues are grounded.
pub proof fn lemma_linked(st: State)
    requires
        inv(st),
    ensures
        linked(st),
{
    reveal(linked);
    reveal(inv);
    assert forall|k: int, u: int|
        0 <= k < st.len() && 0 <= u < st[k].upvalues.len() implies grounded(
        st,
        k,
        (#[trigger] st[k].upvalues[u]).0,
    ) by {
        lemma_grounded(st, k, u);
    }
}

proof fn lemma_grounded(st: State, k: int, u: int)
    requires
        inv(st),
        0 <= k < st.len(),
        0 <= u < st[k].upvalues.len(),
    ensures
        grounded(st, k, st[k].upvalues[u].0),
    decreases k,
{
    reveal(inv);
    assert(upvalues_ok(st, k));
    if k > 0 {
        assert(upvalue_from(st[k].upvalues[u], st[k - 1]));
        if let UpValueDescriptor::Outer(i) = st[k].upvalues[u].1 {
            lemma_grounded(st, k - 1, i.0 as int);
        }
    }
}

/// No local variable comes into scope or goes out of it.
#[verifier::opaque]
pub open spec fn calm(a: State, b: State) -> bool {
    &&& a.len() == b.len()
    &&& forall|k: int| 0 <= k < a.len() ==> (#[trigger] a[k]).locals == b[k].locals
    &&& linked(a) ==> linked(b)
}

/// In addition, the chunk does not take the environment.
pub open spec fn same(a: State, b: State) -> bool {
    calm(a, b) && has_environment(a) == has_environment(b)
}

pub broadcast proof fn lemma_calm_trans(a: State, b: State, c: State)
    requires
        #[trigger] calm(a, b),
        #[trigger] calm(b, c),
    ensures
        calm(a, c),
{
    reveal(calm);
    assert forall|k: int| 0 <= k < a.len() implies (#[trigger] a[k]).locals == c[k].locals by {
        assert(a[k].locals == b[k].locals);
    }
}

pub broadcast proof fn lemma_calm(a: State, b: State)
    requires
        #[trigger] calm(a, b),
    ensures
        scope(a) == scope(b),
        linked(a) ==> linked(b),
        a.len() == b.len(),
{
    reveal(calm);
    reveal(scope);
    assert forall|name: Seq<u8>| scope(a).contains(name) == scope(b).contains(name) by {
        lemma_same_home(a, b, name, a.len() - 1);
    }
    assert(scope(a) =~= scope(b));
}

/// A change of the innermost function that leaves its locals and its upvalues as they are.
proof fn lemma_put(st: State, f: FunctionState)
    requires
        st.len() > 0,
        f.locals == current(st).locals,
        f.upvalues == current(st).upvalues,
    ensures
        same(st, put(st, f)),
{
    reveal(calm);
    reveal(linked);
    let st1 = put(st, f);
    if linked(st) {
        assert forall|k: int, u: int|
            0 <= k < st1.len() && 0 <= u < st1[k].upvalues.len() implies grounded(
            st1,
            k,
            (#[trigger] st1[k].upvalues[u]).0,
        ) by {
            let name = st[k].upvalues[u].0;
            assert(grounded(st, k, name));
            lemma_same_home(st, st1, name, k - 1);
        }
    }
}

pub broadcast proof fn lemma_same(st: State)
    ensures
        #[trigger] calm(st, st),
{
    reveal(calm);
}

pub broadcast proof fn lemma_emit(st: State, op: OpCode)
    requires
        linked(st),
    ensures
        same(st, #[trigger] emit(st, op)),
{
    reveal(linked);
    lemma_put(st, FunctionState { opcodes: current(st).opcodes.push(op), ..current(st) });
}

pub broadcast proof fn lemma_load_nil(st: State, dest: RegisterIndex)
    requires
        linked(st),
    ensures
        same(st, #[trigger] load_nil(st, dest)),
{
    reveal(linked);
    reveal(load_nil);
    lemma_put(
        st,
        FunctionState { opcodes: current(load_nil(st, dest)).opcodes, ..current(st) },
    );
}

pub broadcast proof fn lemma_settle(st: State)
    requires
        linked(st),
    ensures
        same(st, #[trigger] settle(st)),
{
    reveal(linked);
    lemma_put(st, FunctionState { registers: current(settle(st)).registers, ..current(st) });
}

pub broadcast proof fn lemma_pop_to(st: State, top: int)
    requires
        linked(st),
    ensures
        same(st, #[trigger] pop_to(st, top)),
{
    reveal(linked);
    lemma_put(st, FunctionState { registers: current(pop_to(st, top)).registers, ..current(st) });
}

pub broadcast proof fn lemma_allocate(st: State)
    requires
        linked(st),
    ensures
        #[trigger] allocate(st) matches Ok((st1, _)) ==> same(st, st1),
{
    reveal(linked);
    reveal(allocate);
    let registers = current(st).registers.allocate();
    lemma_put(st, FunctionState { registers, ..current(st) });
}

pub broadcast proof fn lemma_push_registers(st: State, count: int)
    requires
        linked(st),
    ensures
        #[trigger] push_registers(st, count) matches Ok((st1, _)) ==> same(st, st1),
{
    reveal(linked);
    reveal(push_registers);
    let registers = current(st).registers.push(count);
    lemma_put(st, FunctionState { registers, ..current(st) });
}

pub broadcast proof fn lemma_free_register(st: State, register: RegisterIndex)
    requires
        linked(st),
    ensures
        #[trigger] free_register(st, register) matches Ok((st1, _)) ==> same(st, st1),
{
    reveal(linked);
    reveal(free_register);
    let registers = current(st).registers.free(register.0 as int);
    lemma_put(st, FunctionState { registers, ..current(st) });
}

pub broadcast proof fn lemma_new_destination(st: State, dest: ExprDestination)
    requires
        linked(st),
    ensures
        #[trigger] new_destination(st, dest) matches Ok((st1, _)) ==> same(st, st1),
{
    broadcast use {lemma_same, lemma_allocate, lemma_push_registers};

    reveal(new_destination);
}

pub broadcast proof fn lemma_get_constant(st: State, value: ValueView)
    requires
        linked(st),
    ensures
        #[trigger] get_constant(st, value) matches Ok((st1, _)) ==> same(st, st1),
{
    broadcast use lemma_same;

    reveal(linked);
    reveal(get_constant);
    let constants = current(st).constants.push(value);
    lemma_put(st, FunctionState { constants, ..current(st) });
}

pub broadcast proof fn lemma_jump_here(st: State, jump: int)
    requires
        linked(st),
    ensures
        #[trigger] jump_here(st, jump) matches Ok((st1, _)) ==> same(st, st1),
{
    reveal(linked);
    reveal(jump_here);
    if let Ok((st1, _)) = jump_here(st, jump) {
        lemma_put(st, current(st1));
    }
}

pub broadcast proof fn lemma_jumps_here(st: State, jumps: Seq<int>, i: int)
    requires
        linked(st),
    ensures
        #[trigger] jumps_here(st, jumps, i) matches Ok((st1, _)) ==> same(st, st1),
    decreases jumps.len() - i,
{
    broadcast use {lemma_same, lemma_calm, lemma_calm_trans, lemma_jump_here};

    if 0 <= i < jumps.len() {
        if let Ok((st1, _)) = jump_here(st, jumps[i]) {
            lemma_jumps_here(st1, jumps, i + 1);
        }
    }
}

pub broadcast proof fn lemma_release(st: State, desc: Desc)
    requires
        linked(st),
    ensures
        #[trigger] release(st, desc) matches Ok((st1, _)) ==> same(st, st1),
{
    broadcast use {lemma_same, lemma_free_register};

}

pub broadcast proof fn lemma_release_both(st: State, first: Desc, second: Desc)
    requires
        linked(st),
    ensures
        #[trigger] release_both(st, first, second) matches Ok((st1, _)) ==> same(st, st1),
{
    broadcast use {lemma_calm, lemma_calm_trans, lemma_release};

}

/// The steps that leave the locals and the upvalues as they are.
pub broadcast group group_calm {
    lemma_calm_trans,
    lemma_calm,
    lemma_same,
    lemma_emit,
    lemma_load_nil,
    lemma_settle,
    lemma_pop_to,
    lemma_allocate,
    lemma_push_registers,
    lemma_free_register,
    lemma_new_destination,
    lemma_get_constant,
    lemma_jump_here,
    lemma_jumps_here,
    lemma_release,
    lemma_release_both,
}

// ---------------------------------------------------------------------------------------------
// Names

/// A name that is grounded in the `k`th function can be handed down from there.
proof fn lemma_hand_down(st: State, k: int, name: Seq<u8>, descriptor: UpValueDescriptor)
    requires
        linked(st),
        0 < k < st.len(),
        grounded(st, k, name),
        forall|j: int| k <= j < st.len() ==> #[trigger] own_local(st, name, j) is None,
    ensures
        hand_down(st, k, name, descriptor) matches Ok((st1, v)) ==> {
            &&& same(st, st1)
            &&& v is UpValue
        },
    decreases st.len() - k,
{
    broadcast use {lemma_calm, lemma_calm_trans};

    reveal(hand_down);
    let index = st[k].upvalues.len();
    let st1 = add_upvalue(st, k, name, descriptor);
    lemma_add_upvalue(st, k, name, descriptor);
    if k < st.len() - 1 && index <= u8::MAX {
        assert forall|j: int| k <= j < st1.len() implies #[trigger] own_local(
            st1,
            name,
            j,
        ) is None by {
            assert(own_local(st, name, j) is None);
        }
        assert(own_local(st1, name, k) is None);
        assert(grounded(st1, k + 1, name)) by {
            lemma_same_home(st, st1, name, k - 1);
        }
        lemma_hand_down(st1, k + 1, name, UpValueDescriptor::Outer(UpValueIndex(index as u8)));
    }
}

/// One more upvalue that is grounded.
proof fn lemma_add_upvalue(st: State, k: int, name: Seq<u8>, descriptor: UpValueDescriptor)
    requires
        linked(st),
        0 <= k < st.len(),
        grounded(st, k, name),
    ensures
        calm(st, add_upvalue(st, k, name, descriptor)),
        has_environment(add_upvalue(st, k, name, descriptor)) == (has_environment(st) || k == 0),
{
    reveal(calm);
    reveal(linked);
    let st1 = add_upvalue(st, k, name, descriptor);
    assert forall|j: int, u: int|
        0 <= j < st1.len() && 0 <= u < st1[j].upvalues.len() implies grounded(
        st1,
        j,
        (#[trigger] st1[j].upvalues[u]).0,
    ) by {
        let n = st1[j].upvalues[u].0;
        assert(grounded(st, j, n)) by {
            if u < st[j].upvalues.len() {
                assert(grounded(st, j, st[j].upvalues[u].0));
            }
        }
        lemma_same_home(st, st1, n, j - 1);
    }
}

/// Looking up a name gives the chunk the environment where the name stands for it.
proof fn lemma_resolve(st: State, name: Seq<u8>, i: int)
    requires
        linked(st),
        -1 <= i < st.len(),
        forall|j: int| i < j < st.len() ==> #[trigger] own_local(st, name, j) is None,
    ensures
        resolve(st, name, i) matches Ok((st1, v)) ==> {
            &&& calm(st, st1)
            &&& has_environment(st1) == (has_environment(st) || home(st, name, i)
                == Home::Environment)
            &&& v is Global <==> home(st, name, i) == Home::Free
        },
    decreases i + 1,
{
    broadcast use {lemma_calm, lemma_calm_trans, lemma_same};

    reveal(resolve);
    if i >= 0 {
        match own_local(st, name, i) {
            Some(register) => {
                if i < st.len() - 1 {
                    lemma_hand_down(st, i + 1, name, UpValueDescriptor::ParentLocal(register));
                }
            },
            None => {
                let st1 = with_environment(st, i, name);
                if st1 != st {
                    lemma_add_upvalue(st, 0, env_name(), UpValueDescriptor::Environment);
                    assert(st1[0].upvalues[0].0 == env_name());
                }
                assert forall|j: int| i <= j < st1.len() implies #[trigger] own_local(
                    st1,
                    name,
                    j,
                ) is None by {
                    assert(own_local(st, name, j) is None);
                }
                assert(own_local(st1, name, i) is None);
                assert(calm(st, st1));
                assert(home(st1, name, i) == home(st, name, i)) by {
                    reveal(calm);
                    lemma_same_home(st, st1, name, i);
                }
                lemma_upvalue_position(st1[i].upvalues, name, 0);
                match upvalue_position(st1[i].upvalues, name, 0) {
                    Some(j) => {
                        assert(grounded(st1, i, st1[i].upvalues[j].0)) by {
                            reveal(linked);
                        }
                        if i == 0 {
                            assert(home(st1, name, 0) == Home::Environment);
                        } else {
                            assert(home(st1, name, i) == home(st1, name, i - 1));
                        }
                        if i < st.len() - 1 {
                            lemma_hand_down(
                                st1,
                                i + 1,
                                name,
                                UpValueDescriptor::Outer(UpValueIndex(j as u8)),
                            );
                        }
                    },
                    None => {
                        if i == 0 && name == env_name() {
                            assert(st1[0].upvalues.len() > 0);
                            assert(grounded(st1, 0, st1[0].upvalues[0].0)) by {
                                reveal(linked);
                            }
                        }
                        lemma_resolve(st1, name, i - 1);
                    },
                }
            },
        }
    }
}

/// What a name stands for, by the names in scope.
proof fn lemma_scope(st: State, name: Seq<u8>, k: int)
    requires
        0 <= k < st.len(),
    ensures
        match home(st, name, k) {
            Home::Local { .. } => true,
            Home::Environment => name == env_name(),
            Home::Free => name != env_name(),
        },
    decreases k,
{
    if k > 0 {
        lemma_scope(st, name, k - 1);
    } else {
        assert(home(st, name, -1) == Home::Free);
    }
}

/// Looking up a name gives the chunk the environment where the name is that of the environment.
pub proof fn lemma_find_variable(st: State, name: Seq<u8>)
    requires
        linked(st),
    ensures
        find_variable(st, name) matches Ok((st1, v)) ==> {
            &&& calm(st, st1)
            &&& has_environment(st1) == (has_environment(st) || (name == env_name() && !scope(
                st,
            ).contains(name)))
            &&& v is Global <==> name != env_name() && !scope(st).contains(name)
        },
        (home(st, name, st.len() - 1) == Home::Environment) == (name == env_name() && !scope(
            st,
        ).contains(name)),
{
    reveal(linked);
    reveal(scope);
    lemma_resolve(st, name, st.len() - 1);
    lemma_scope(st, name, st.len() - 1);
}

pub proof fn lemma_get_environment(st: State)
    requires
        linked(st),
    ensures
        get_environment(st) matches Ok((st1, d)) ==> {
            &&& calm(st, st1)
            &&& has_environment(st1) == (has_environment(st) || name_uses(scope(st), env_name()))
            &&& d is Register || d is UpValue
        },
{
    reveal(get_environment);
    lemma_find_variable(st, env_name());
}

// ---------------------------------------------------------------------------------------------
// Placing values

/// Placing a value refers to the environment where an expression that was put off does.
#[verifier::spinoff_prover]
pub proof fn lemma_discharge(st: State, desc: Desc, dest: ExprDestination)
    requires
        linked(st),
    ensures
        discharge(st, desc, dest) matches Ok((st1, _)) ==> {
            &&& calm(st, st1)
            &&& has_environment(st1) == (has_environment(st) || desc_uses(scope(st), desc))
        },
    decreases weight(desc), 0nat,
{
    broadcast use group_calm;

    reveal(discharge);
    match desc {
        Desc::Register { .. } => {
            reveal(place_register);
        },
        Desc::UpValue(_) => {
            reveal(place_upvalue);
        },
        Desc::Value(_) => {
            reveal(place_value);
        },
        Desc::Not(operand) => lemma_place_not(st, *operand, dest),
        Desc::FunctionCall { func, args } => {
            reveal(place_result);
            lemma_expr_function_call(st, *func, args, VarCount::constant(1));
        },
        Desc::Comparison { left, op, right } => lemma_place_compared(st, *left, op, *right, dest),
        Desc::ShortCircuitBinOp { left, op, right } => lemma_place_short_circuit(
            st,
            *left,
            op,
            right,
            dest,
        ),
    }
}

#[verifier::spinoff_prover]
proof fn lemma_place_not(st: State, operand: Desc, dest: ExprDestination)
    requires
        linked(st),
    ensures
        place_not(st, operand, dest) matches Ok((st1, _)) ==> {
            &&& calm(st, st1)
            &&& has_environment(st1) == (has_environment(st) || desc_uses(scope(st), operand))
        },
    decreases weight(operand), 4nat,
{
    broadcast use group_calm;

    reveal(place_not);
    match new_destination(st, dest) {
        Ok((st1, Some(_))) => lemma_operand_register(st1, operand),
        Ok((st1, None)) => lemma_discharge(st1, operand, ExprDestination::Nowhere),
        Err(_) => {},
    }
}

#[verifier::spinoff_prover]
proof fn lemma_place_compared(
    st: State,
    left: Desc,
    op: ComparisonBinOp,
    right: Desc,
    dest: ExprDestination,
)
    requires
        linked(st),
    ensures
        place_compared(st, left, op, right, dest) matches Ok((st1, _)) ==> {
            &&& calm(st, st1)
            &&& has_environment(st1) == (has_environment(st) || desc_uses(scope(st), left)
                || desc_uses(scope(st), right))
        },
    decreases weight(left) + weight(right), 4nat,
{
    broadcast use group_calm;

    reveal(place_compared);
    reveal(place_comparison);
    lemma_operands(st, left, right);
}

#[verifier::spinoff_prover]
proof fn lemma_place_short_circuit(
    st: State,
    left: Desc,
    op: ShortCircuitBinOp,
    right: Expression,
    dest: ExprDestination,
)
    requires
        linked(st),
    ensures
        place_short_circuit(st, left, op, right, dest) matches Ok((st1, _)) ==> {
            &&& calm(st, st1)
            &&& has_environment(st1) == (has_environment(st) || desc_uses(scope(st), left)
                || expression_uses(scope(st), right))
        },
    decreases weight(left) + expression_size(right), 4nat,
{
    broadcast use group_calm;

    reveal(place_short_circuit);
    lemma_operand_register(st, left);
    if let Ok((st1, left_register)) = operand_register(st, left) {
        if let Ok((st2, dest)) = new_destination(st1, dest) {
            let st3 = emit(st2, short_circuit_test(op, left_register, dest));
            lemma_place_right(jump_placeholder(st3), right, found_destination(dest));
        }
    }
}

#[verifier::spinoff_prover]
proof fn lemma_place_right(st: State, right: Expression, dest: ExprDestination)
    requires
        linked(st),
    ensures
        place_right(st, right, dest) matches Ok((st1, _)) ==> {
            &&& calm(st, st1)
            &&& has_environment(st1) == (has_environment(st) || expression_uses(scope(st), right))
        },
    decreases expression_size(right), 7nat,
{
    broadcast use group_calm;

    reveal(place_right);
    lemma_expression(st, right);
    if let Ok((st1, d)) = bounded(expression(st, right), expression_size(right)) {
        lemma_discharge(st1, d, dest);
    }
}

#[verifier::spinoff_prover]
proof fn lemma_any_register(st: State, desc: Desc)
    requires
        linked(st),
    ensures
        any_register(st, desc) matches Ok((st1, _)) ==> {
            &&& calm(st, st1)
            &&& has_environment(st1) == (has_environment(st) || desc_uses(scope(st), desc))
        },
    decreases weight(desc), 1nat,
{
    broadcast use group_calm;

    reveal(any_register);
    lemma_discharge(st, desc, ExprDestination::AllocateNew);
}

#[verifier::spinoff_prover]
proof fn lemma_any_register_or_constant(st: State, desc: Desc)
    requires
        linked(st),
    ensures
        any_register_or_constant(st, desc) matches Ok((st1, _)) ==> {
            &&& calm(st, st1)
            &&& has_environment(st1) == (has_environment(st) || desc_uses(scope(st), desc))
        },
    decreases weight(desc), 2nat,
{
    broadcast use group_calm;

    reveal(any_register_or_constant);
    match desc {
        Desc::Value(value) => {
            if let Ok((st1, _)) = get_constant(st, value) {
                lemma_any_register(st1, desc);
            }
        },
        _ => lemma_any_register(st, desc),
    }
}

#[verifier::spinoff_prover]
proof fn lemma_operand_register(st: State, desc: Desc)
    requires
        linked(st),
    ensures
        operand_register(st, desc) matches Ok((st1, _)) ==> {
            &&& calm(st, st1)
            &&& has_environment(st1) == (has_environment(st) || desc_uses(scope(st), desc))
        },
    decreases weight(desc), 2nat,
{
    broadcast use group_calm;

    reveal(operand_register);
    lemma_any_register(st, desc);
}

#[verifier::spinoff_prover]
proof fn lemma_operands(st: State, left: Desc, right: Desc)
    requires
        linked(st),
    ensures
        operands(st, left, right) matches Ok((st1, _)) ==> {
            &&& calm(st, st1)
            &&& has_environment(st1) == (has_environment(st) || desc_uses(scope(st), left)
                || desc_uses(scope(st), right))
        },
    decreases weight(left) + weight(right), 3nat,
{
    broadcast use group_calm;

    reveal(operands);
    lemma_any_register_or_constant(st, left);
    if let Ok((st1, _)) = any_register_or_constant(st, left) {
        lemma_any_register_or_constant(st1, right);
    }
}

/// The arguments before the last one, with the last one still to come.
#[verifier::spinoff_prover]
proof fn lemma_push_arguments(st: State, args: Seq<Desc>, i: int, n: int)
    requires
        linked(st),
        0 <= i <= n == args.len() - 1,
    ensures
        push_arguments(st, args, i, n) matches Ok((st1, _)) ==> {
            &&& calm(st, st1)
            &&& (has_environment(st1) || desc_uses(scope(st), args[n])) == (has_environment(st)
                || descs_use(scope(st), args, i))
        },
    decreases weights(args, i), 2nat,
{
    broadcast use group_calm;

    reveal(push_arguments);
    assert(weight(args[i]) >= 1);
    if i < n {
        lemma_discharge(st, args[i], ExprDestination::PushNew);
        if let Ok((st1, _)) = discharge(st, args[i], ExprDestination::PushNew) {
            lemma_push_arguments(st1, args, i + 1, n);
        }
    } else {
        assert(!descs_use(scope(st), args, i + 1));
    }
}

#[verifier::spinoff_prover]
proof fn lemma_expr_function_call(st: State, func: Desc, args: Seq<Desc>, results: VarCount)
    requires
        linked(st),
    ensures
        expr_function_call(st, func, args, results) matches Ok((st1, _)) ==> {
            &&& calm(st, st1)
            &&& has_environment(st1) == (has_environment(st) || desc_uses(scope(st), func)
                || descs_use(scope(st), args, 0))
        },
    decreases weight(func) + weights(args, 0), 3nat,
{
    broadcast use group_calm;

    reveal(expr_function_call);
    let last = args.len() - 1;
    lemma_discharge(st, func, ExprDestination::PushNew);
    if let Ok((st1, _)) = discharge(st, func, ExprDestination::PushNew) {
        if args.len() > 0 {
            lemma_push_arguments(st1, args, 0, last);
            lemma_weights_index(args, 0, last);
            if let Ok((st2, _)) = push_arguments(st1, args, 0, last) {
                match args[last] {
                    Desc::FunctionCall { func, args } => lemma_expr_function_call(
                        st2,
                        *func,
                        args,
                        VarCount::variable(),
                    ),
                    _ => lemma_discharge(st2, args[last], ExprDestination::PushNew),
                }
            }
        }
    }
}

// ---------------------------------------------------------------------------------------------
// Tables

#[verifier::spinoff_prover]
proof fn lemma_read_field(st: State, table: Desc, key: Desc)
    requires
        linked(st),
    ensures
        read_field(st, table, key) matches Ok((st1, d)) ==> {
            &&& calm(st, st1)
            &&& has_environment(st1) == (has_environment(st) || desc_uses(scope(st), table)
                || desc_uses(scope(st), key))
            &&& d is Register
        },
    decreases weight(table) + weight(key), 5nat,
{
    broadcast use group_calm;

    reveal(read_field);
    reveal(get_table);
    if let Ok((st1, _)) = allocate(st) {
        match table {
            Desc::UpValue(_) => lemma_any_register_or_constant(st1, key),
            _ => {
                lemma_any_register(st1, table);
                if let Ok((st2, _)) = any_register(st1, table) {
                    lemma_any_register_or_constant(st2, key);
                }
            },
        }
    }
}

#[verifier::spinoff_prover]
proof fn lemma_write_field(st: State, table: Desc, key: Desc, value: Desc)
    requires
        linked(st),
    ensures
        write_field(st, table, key, value) matches Ok((st1, _)) ==> {
            &&& calm(st, st1)
            &&& has_environment(st1) == (has_environment(st) || desc_uses(scope(st), table)
                || desc_uses(scope(st), key) || desc_uses(scope(st), value))
        },
    decreases weight(table) + weight(key) + weight(value), 5nat,
{
    broadcast use group_calm;

    reveal(write_field);
    reveal(set_table);
    match table {
        Desc::UpValue(_) => {
            lemma_any_register_or_constant(st, key);
            if let Ok((st1, _)) = any_register_or_constant(st, key) {
                lemma_any_register_or_constant(st1, value);
            }
        },
        _ => {
            lemma_any_register(st, table);
            if let Ok((st1, _)) = any_register(st, table) {
                lemma_any_register_or_constant(st1, key);
                if let Ok((st2, _)) = any_register_or_constant(st1, key) {
                    lemma_any_register_or_constant(st2, value);
                }
            }
        },
    }
}

// ---------------------------------------------------------------------------------------------
// Expressions

/// An expression refers to the environment at once or when its value is placed.
pub open spec fn compiled(st: State, outcome: Outcome<Desc>, uses: bool) -> bool {
    outcome matches Ok((st1, d)) ==> {
        &&& calm(st, st1)
        &&& (has_environment(st1) || desc_uses(scope(st), d)) == (has_environment(st) || uses)
    }
}

#[verifier::spinoff_prover]
pub proof fn lemma_expression(st: State, e: Expression)
    requires
        linked(st),
    ensures
        compiled(st, expression(st, e), expression_uses(scope(st), e)),
    decreases expression_size(e), 6nat,
{
    broadcast use group_calm;

    reveal(expression);
    lemma_head_expression(st, *e.head);
    if let Ok((st1, d)) = bounded(head_expression(st, *e.head), head_size(*e.head)) {
        lemma_expression_rest(st1, d, e.tail@, 0);
    }
}

#[verifier::spinoff_prover]
proof fn lemma_expression_rest(
    st: State,
    left: Desc,
    tail: Seq<(BinaryOperator, Expression)>,
    i: int,
)
    requires
        linked(st),
    ensures
        compiled(
            st,
            expression_rest(st, left, tail, i),
            desc_uses(scope(st), left) || tail_uses(scope(st), tail, i),
        ),
    decreases weight(left) + tail_size(tail, i), 5nat,
{
    broadcast use group_calm;

    reveal(expression_rest);
    if 0 <= i < tail.len() {
        let (op, right) = tail[i];
        lemma_binary_operator(st, left, op, right);
        if let Ok((st1, d)) = bounded(
            binary_operator(st, left, op, right),
            1 + weight(left) + expression_size(right),
        ) {
            lemma_expression_rest(st1, d, tail, i + 1);
        }
    }
}

#[verifier::spinoff_prover]
proof fn lemma_head_expression(st: State, head: HeadExpression)
    requires
        linked(st),
    ensures
        compiled(st, head_expression(st, head), head_uses(scope(st), head)),
    decreases head_size(head), 6nat,
{
    broadcast use group_calm;

    reveal(head_expression);
    match head {
        HeadExpression::Simple(s) => lemma_simple_expression(st, s),
        HeadExpression::UnaryOperator(op, e) => {
            lemma_expression(st, e);
            if let Ok((st1, d)) = bounded(expression(st, e), expression_size(e)) {
                lemma_unary_operator(st1, op, d);
            }
        },
    }
}

#[verifier::spinoff_prover]
proof fn lemma_simple_expression(st: State, simple: SimpleExpression)
    requires
        linked(st),
    ensures
        compiled(st, simple_expression(st, simple), simple_uses(scope(st), simple)),
    decreases simple_size(simple), 6nat,
{
    broadcast use group_calm;

    reveal(simple_expression);
    match simple {
        SimpleExpression::TableConstructor(_) => {
            reveal(table_constructor);
        },
        SimpleExpression::Function(f) => {
            reveal(function_expression);
            reveal(closure);
            lemma_new_prototype(st, f);
        },
        SimpleExpression::Suffixed(s) => lemma_suffixed_expression(st, s),
        _ => {},
    }
}

#[verifier::spinoff_prover]
proof fn lemma_suffixed_expression(st: State, suffixed: SuffixedExpression)
    requires
        linked(st),
    ensures
        compiled(st, suffixed_expression(st, suffixed), suffixed_uses(scope(st), suffixed)),
    decreases suffixed_size(suffixed), 6nat,
{
    broadcast use group_calm;

    reveal(suffixed_expression);
    let primary = suffixed.primary;
    lemma_primary_expression(st, primary);
    if let Ok((st1, d)) = bounded(primary_expression(st, primary), primary_size(primary)) {
        lemma_suffixed_rest(st1, d, suffixed.suffixes@, 0);
    }
}

#[verifier::spinoff_prover]
proof fn lemma_suffixed_rest(st: State, desc: Desc, suffixes: Seq<SuffixPart>, i: int)
    requires
        linked(st),
    ensures
        compiled(
            st,
            suffixed_rest(st, desc, suffixes, i),
            desc_uses(scope(st), desc) || suffixes_use(scope(st), suffixes, i),
        ),
    decreases weight(desc) + suffixes_size(suffixes, i), 6nat,
{
    broadcast use group_calm;

    reveal(suffixed_rest);
    if 0 <= i < suffixes.len() {
        lemma_suffix(st, desc, suffixes[i]);
        if let Ok((st1, d)) = bounded(
            suffix(st, desc, suffixes[i]),
            weight(desc) + suffix_size(suffixes[i]),
        ) {
            lemma_suffixed_rest(st1, d, suffixes, i + 1);
        }
    }
}

#[verifier::spinoff_prover]
proof fn lemma_suffix(st: State, desc: Desc, part: SuffixPart)
    requires
        linked(st),
    ensures
        compiled(
            st,
            suffix(st, desc, part),
            desc_uses(scope(st), desc) || suffix_uses(scope(st), part),
        ),
    decreases weight(desc) + suffix_size(part), 5nat,
{
    broadcast use group_calm;

    reveal(suffix);
    match part {
        SuffixPart::Field(field) => {
            lemma_field_key(st, field);
            if let Ok((st1, key)) = bounded(field_key(st, field), field_size(field)) {
                lemma_read_field(st1, desc, key);
            }
        },
        SuffixPart::Call(CallSuffix::Function(args)) => {
            lemma_expressions(st, args@, 0, Seq::empty());
        },
        SuffixPart::Call(CallSuffix::Method(_, _)) => {},
    }
}

#[verifier::spinoff_prover]
proof fn lemma_field_key(st: State, field: FieldSuffix)
    requires
        linked(st),
    ensures
        compiled(st, field_key(st, field), field_uses(scope(st), field)),
    decreases field_size(field), 6nat,
{
    broadcast use group_calm;

    reveal(field_key);
    if let FieldSuffix::Indexed(e) = field {
        lemma_expression(st, e);
    }
}

/// One more descriptor at the end of a list.
proof fn lemma_descs_push(scope: Scope, descs: Seq<Desc>, d: Desc, i: int)
    requires
        0 <= i <= descs.len(),
    ensures
        descs_use(scope, descs.push(d), i) == (descs_use(scope, descs, i) || desc_uses(scope, d)),
    decreases descs.len() - i,
{
    if i < descs.len() {
        lemma_descs_push(scope, descs, d, i + 1);
    } else {
        assert(!descs_use(scope, descs.push(d), i + 1));
    }
}

#[verifier::spinoff_prover]
proof fn lemma_expressions(st: State, es: Seq<Expression>, i: int, done: Seq<Desc>)
    requires
        linked(st),
    ensures
        expressions(st, es, i, done) matches Ok((st1, ds)) ==> {
            &&& calm(st, st1)
            &&& (has_environment(st1) || descs_use(scope(st), ds, 0)) == (has_environment(st)
                || descs_use(scope(st), done, 0) || expressions_use(scope(st), es, i))
        },
    decreases expressions_size(es, i), 6nat,
{
    broadcast use group_calm;

    reveal(expressions);
    if 0 <= i < es.len() {
        lemma_expression(st, es[i]);
        if let Ok((st1, d)) = bounded(expression(st, es[i]), expression_size(es[i])) {
            lemma_descs_push(scope(st), done, d, 0);
            lemma_expressions(st1, es, i + 1, done.push(d));
        }
    }
}

#[verifier::spinoff_prover]
proof fn lemma_primary_expression(st: State, primary: PrimaryExpression)
    requires
        linked(st),
    ensures
        compiled(st, primary_expression(st, primary), primary_uses(scope(st), primary)),
    decreases primary_size(primary), 6nat,
{
    broadcast use group_calm;

    reveal(primary_expression);
    match primary {
        PrimaryExpression::Name(name) => {
            lemma_find_variable(st, name@);
            if let Ok((st1, Variable::Global(name))) = find_variable(st, name@) {
                lemma_get_environment(st1);
                if let Ok((st2, env)) = bounded(get_environment(st1), 1) {
                    lemma_read_field(st2, env, Desc::Value(ValueView::String(name)));
                }
            }
        },
        PrimaryExpression::GroupedExpression(e) => lemma_expression(st, e),
    }
}

#[verifier::spinoff_prover]
proof fn lemma_unary_operator(st: State, op: UnaryOperator, operand: Desc)
    requires
        linked(st),
    ensures
        compiled(st, unary_operator(st, op, operand), desc_uses(scope(st), operand)),
    decreases weight(operand), 4nat,
{
    broadcast use group_calm;

    reveal(unary_operator);
    lemma_operand_register(st, operand);
}

#[verifier::spinoff_prover]
proof fn lemma_binary_operator(st: State, left: Desc, op: BinaryOperator, right: Expression)
    requires
        linked(st),
    ensures
        compiled(
            st,
            binary_operator(st, left, op, right),
            desc_uses(scope(st), left) || expression_uses(scope(st), right),
        ),
    decreases weight(left) + expression_size(right), 5nat,
{
    broadcast use group_calm;

    reveal(binary_operator);
    reveal(simple_operation);
    lemma_expression(st, right);
    if let Ok((st1, d)) = bounded(expression(st, right), expression_size(right)) {
        lemma_operands(st1, left, d);
    }
}

// ---------------------------------------------------------------------------------------------
// Declarations

/// Local variables of the innermost function come into scope, and none goes out of it.
#[verifier::opaque]
pub open spec fn grown(a: State, b: State) -> bool {
    &&& a.len() == b.len()
    &&& forall|k: int| 0 <= k < a.len() - 1 ==> (#[trigger] a[k]).locals == b[k].locals
    &&& a.len() > 0 ==> current(a).locals.len() <= current(b).locals.len() && current(a).locals
        == current(b).locals.take(current(a).locals.len() as int)
    &&& linked(a) ==> linked(b)
}

pub broadcast proof fn lemma_grown_trans(a: State, b: State, c: State)
    requires
        #[trigger] grown(a, b),
        #[trigger] grown(b, c),
    ensures
        grown(a, c),
{
    reveal(grown);
    assert forall|k: int| 0 <= k < a.len() - 1 implies (#[trigger] a[k]).locals == c[k].locals by {
        assert(a[k].locals == b[k].locals);
    }
    if a.len() > 0 {
        let n = current(a).locals.len() as int;
        assert(current(b).locals.take(n) =~= current(c).locals.take(n)) by {
            assert(current(b).locals == current(c).locals.take(current(b).locals.len() as int));
        }
    }
}

pub broadcast proof fn lemma_grown(a: State, b: State)
    requires
        #[trigger] grown(a, b),
        linked(a),
    ensures
        linked(b),
{
    reveal(grown);
}

pub broadcast proof fn lemma_calm_grown(a: State, b: State)
    requires
        #[trigger] calm(a, b),
    ensures
        grown(a, b),
{
    reveal(calm);
    reveal(grown);
    if a.len() > 0 {
        assert(current(a).locals == current(b).locals);
        assert(current(a).locals =~= current(a).locals.take(current(a).locals.len() as int));
    }
}

pub broadcast group group_grown {
    lemma_grown_trans,
    lemma_grown,
    lemma_calm_grown,
}

/// What a name stands for in a function depends on the functions up to it alone.
proof fn lemma_home_prefix(a: State, b: State, name: Seq<u8>, k: int)
    requires
        k < a.len(),
        k < b.len(),
        forall|j: int| 0 <= j <= k ==> (#[trigger] a[j]).locals == b[j].locals,
    ensures
        home(a, name, k) == home(b, name, k),
    decreases k + 1,
{
    if k >= 0 {
        assert(a[k].locals == b[k].locals);
        lemma_home_prefix(a, b, name, k - 1);
    }
}

/// The locals of the innermost function may change.
proof fn lemma_locals(st: State, f: FunctionState)
    requires
        linked(st),
        f.upvalues == current(st).upvalues,
    ensures
        linked(put(st, f)),
        has_environment(put(st, f)) == has_environment(st),
{
    reveal(linked);
    let st1 = put(st, f);
    assert forall|k: int, u: int|
        0 <= k < st1.len() && 0 <= u < st1[k].upvalues.len() implies grounded(
        st1,
        k,
        (#[trigger] st1[k].upvalues[u]).0,
    ) by {
        let name = st[k].upvalues[u].0;
        assert(grounded(st, k, name));
        lemma_home_prefix(st, st1, name, k - 1);
    }
}

proof fn lemma_newest_local_prefix(
    a: Seq<(Seq<u8>, RegisterIndex)>,
    b: Seq<(Seq<u8>, RegisterIndex)>,
    name: Seq<u8>,
    n: int,
)
    requires
        n <= a.len(),
        n <= b.len(),
        forall|i: int| 0 <= i < n ==> a[i] == b[i],
    ensures
        newest_local(a, name, n) == newest_local(b, name, n),
    decreases n,
{
    if 0 < n && a[n - 1].0 != name {
        lemma_newest_local_prefix(a, b, name, n - 1);
    }
}

/// A declaration brings a name into scope.
proof fn lemma_bind(st: State, name: Seq<u8>, register: RegisterIndex)
    requires
        linked(st),
    ensures
        grown(st, bind(st, name, register)),
        scope(bind(st, name, register)) == scope(st).insert(name),
        has_environment(bind(st, name, register)) == has_environment(st),
{
    let st1 = bind(st, name, register);
    let old_locals = current(st).locals;
    let last = st.len() - 1;
    assert(st.len() > 0) by {
        reveal(linked);
    }
    lemma_locals(st, current(st1));
    assert(st1 =~= put(st, current(st1)));
    assert(grown(st, st1)) by {
        reveal(grown);
        assert(old_locals =~= current(st1).locals.take(old_locals.len() as int));
    }
    reveal(scope);
    assert forall|n: Seq<u8>| scope(st1).contains(n) == scope(st).insert(name).contains(n) by {
        if n != name {
            lemma_newest_local_prefix(
                old_locals,
                current(st1).locals,
                n,
                old_locals.len() as int,
            );
            assert(own_local(st1, n, last) == own_local(st, n, last));
            lemma_home_prefix(st, st1, n, last - 1);
        }
    }
    assert(scope(st1) =~= scope(st).insert(name));
}

proof fn lemma_free_locals(st: State, locals: Seq<(Seq<u8>, RegisterIndex)>, i: int)
    requires
        linked(st),
    ensures
        free_locals(st, locals, i) matches Ok((st1, _)) ==> same(st, st1),
    decreases locals.len() - i,
{
    broadcast use group_calm;

    if 0 <= i < locals.len() {
        if let Ok((st1, _)) = free_register(st, locals[i].1) {
            lemma_free_locals(st1, locals, i + 1);
        }
    }
}

/// Ending a scope takes back the declarations in it.
proof fn lemma_end_scope(a: State, st: State)
    requires
        linked(a),
        grown(a, st),
    ensures
        end_scope(st, current(a).locals.len() as int) matches Ok((st1, _)) ==> {
            &&& calm(a, st1)
            &&& has_environment(st1) == has_environment(st)
        },
{
    broadcast use {group_calm, group_grown};

    reveal(end_scope);
    assert(a.len() > 0) by {
        reveal(linked);
    }
    let kept = current(a).locals.len() as int;
    lemma_free_locals(st, current(st).locals, kept);
    if let Ok((st1, _)) = free_locals(st, current(st).locals, kept) {
        let f = FunctionState { locals: current(st1).locals.take(kept), ..current(st1) };
        lemma_locals(st1, f);
        assert(calm(a, put(st1, f))) by {
            reveal(grown);
            reveal(calm);
            assert forall|k: int| 0 <= k < a.len() implies (#[trigger] a[k]).locals
                == put(st1, f)[k].locals by {
                assert(st[k].locals == st1[k].locals);
            }
        }
    }
}

/// The end of a function, whose locals are its parameters.
proof fn lemma_finish(st: State)
    requires
        linked(st),
    ensures
        finish(st) matches Ok((st1, p)) ==> {
            &&& st1.len() == st.len() - 1
            &&& forall|k: int| 0 <= k < st1.len() ==> (#[trigger] st1[k]).locals == st[k].locals
            &&& st1.len() > 0 ==> linked(st1) && has_environment(st1) == has_environment(st)
            &&& st1.len() == 0 ==> (p.upvalues.len() > 0) == has_environment(st)
        },
{
    broadcast use group_calm;

    reveal(finish);
    reveal(end_scope);
    reveal(linked);
    let op = OpCode::Return { start: RegisterIndex(0), count: VarCount::constant(0) };
    let st1 = emit(st, op);
    lemma_free_locals(st1, current(st1).locals, 0);
    if let Ok((st2, _)) = free_locals(st1, current(st1).locals, 0) {
        let f = FunctionState { locals: current(st2).locals.take(0), ..current(st2) };
        lemma_locals(st2, f);
        let st3 = put(st2, f);
        let st4 = st3.drop_last();
        assert(calm(st, st2));
        assert forall|k: int| 0 <= k < st4.len() implies (#[trigger] st4[k]).locals
            == st[k].locals by {
            reveal(calm);
            assert(st[k].locals == st2[k].locals);
        }
        if st4.len() > 0 {
            assert forall|k: int, u: int|
                0 <= k < st4.len() && 0 <= u < st4[k].upvalues.len() implies grounded(
                st4,
                k,
                (#[trigger] st4[k].upvalues[u]).0,
            ) by {
                let name = st3[k].upvalues[u].0;
                assert(grounded(st3, k, name));
                lemma_home_prefix(st3, st4, name, k - 1);
            }
        }
    }
}

/// The parameters of a function are declared in it.
proof fn lemma_parameters(outer: Scope, parameters: Seq<Box<[u8]>>, name: Seq<u8>, n: int)
    requires
        0 <= n <= parameters.len(),
    ensures
        declared(outer, parameters, n).contains(name) == (outer.contains(name) || newest_local(
            parameter_locals(parameters),
            name,
            n,
        ) is Some),
    decreases n,
{
    if n > 0 {
        lemma_parameters(outer, parameters, name, n - 1);
    }
}

/// The beginning of a function.
proof fn lemma_new_function(st: State, parameters: Seq<Box<[u8]>>, has_varargs: bool)
    requires
        st.len() > 0 ==> linked(st),
    ensures
        ({
            let st1 = st.push(new_function(parameters, has_varargs));
            let outer = if st.len() > 0 {
                scope(st)
            } else {
                Set::empty()
            };
            &&& linked(st1)
            &&& scope(st1) == declared(outer, parameters, parameters.len() as int)
            &&& has_environment(st1) == (st.len() > 0 && has_environment(st))
        }),
{
    let st1 = st.push(new_function(parameters, has_varargs));
    let last = st.len() as int;
    let outer = if st.len() > 0 {
        scope(st)
    } else {
        Set::empty()
    };
    reveal(linked);
    assert forall|k: int, u: int|
        0 <= k < st1.len() && 0 <= u < st1[k].upvalues.len() implies grounded(
        st1,
        k,
        (#[trigger] st1[k].upvalues[u]).0,
    ) by {
        let name = st[k].upvalues[u].0;
        assert(grounded(st, k, name));
        lemma_home_prefix(st, st1, name, k - 1);
    }
    reveal(scope);
    assert forall|name: Seq<u8>|
        scope(st1).contains(name) == declared(
            outer,
            parameters,
            parameters.len() as int,
        ).contains(name) by {
        lemma_parameters(outer, parameters, name, parameters.len() as int);
        lemma_home_prefix(st, st1, name, last - 1);
        assert(own_local(st1, name, last) == newest_local(
            parameter_locals(parameters),
            name,
            parameters.len() as int,
        ));
        if last == 0 {
            assert(home(st1, name, -1) == Home::Free);
        }
    }
    assert(scope(st1) =~= declared(outer, parameters, parameters.len() as int));
}

#[verifier::spinoff_prover]
proof fn lemma_compile_function(
    st: State,
    parameters: Seq<Box<[u8]>>,
    has_varargs: bool,
    body: Block,
)
    requires
        linked(st),
    ensures
        compile_function(st, parameters, has_varargs, body) matches Ok((st1, _)) ==> {
            &&& calm(st, st1)
            &&& has_environment(st1) == (has_environment(st) || block_uses(
                declared(scope(st), parameters, parameters.len() as int),
                body,
            ))
        },
    decreases block_size(body), 7nat,
{
    broadcast use group_calm;

    reveal(compile_function);
    let st0 = st.push(new_function(parameters, has_varargs));
    assert(st.len() > 0) by {
        reveal(linked);
    }
    lemma_new_function(st, parameters, has_varargs);
    lemma_block(st0, body);
    if let Ok((st1, _)) = block(st0, body) {
        lemma_finish(st1);
        if let Ok((st2, _)) = finish(st1) {
            assert(calm(st, st2)) by {
                reveal(calm);
                assert forall|k: int| 0 <= k < st.len() implies (#[trigger] st[k]).locals
                    == st2[k].locals by {
                    assert(st0[k].locals == st1[k].locals);
                }
            }
        }
    }
}

#[verifier::spinoff_prover]
proof fn lemma_new_prototype(st: State, f: FunctionDefinition)
    requires
        linked(st),
    ensures
        new_prototype(st, f) matches Ok((st1, _)) ==> {
            &&& calm(st, st1)
            &&& has_environment(st1) == (has_environment(st) || definition_uses(scope(st), f))
        },
    decreases definition_size(f), 6nat,
{
    broadcast use group_calm;

    reveal(new_prototype);
    reveal(add_prototype);
    lemma_compile_function(st, f.parameters@, f.has_varargs, f.body);
    if let Ok((st1, proto)) = compile_function(st, f.parameters@, f.has_varargs, f.body) {
        reveal(linked);
        let prototypes = current(st1).prototypes.push(proto);
        lemma_put(st1, FunctionState { prototypes, ..current(st1) });
    }
}

// ---------------------------------------------------------------------------------------------
// Statements

#[verifier::spinoff_prover]
proof fn lemma_block(st: State, b: Block)
    requires
        linked(st),
    ensures
        block(st, b) matches Ok((st1, _)) ==> {
            &&& calm(st, st1)
            &&& has_environment(st1) == (has_environment(st) || block_uses(scope(st), b))
        },
    decreases block_size(b), 6nat,
{
    broadcast use {group_calm, group_grown};

    reveal(block);
    lemma_statements(st, b.statements@, 0);
    if let Ok((st1, _)) = statements(st, b.statements@, 0) {
        match b.return_statement {
            Some(r) => {
                lemma_return_statement(st1, r);
                if let Ok((st2, _)) = return_statement(st1, r) {
                    lemma_end_scope(st, st2);
                }
            },
            None => lemma_end_scope(st, st1),
        }
    }
}

#[verifier::spinoff_prover]
proof fn lemma_statements(st: State, ss: Seq<Statement>, i: int)
    requires
        linked(st),
    ensures
        statements(st, ss, i) matches Ok((st1, _)) ==> {
            &&& grown(st, st1)
            &&& scope(st1) == scope_at_end(scope(st), ss, i)
            &&& has_environment(st1) == (has_environment(st) || statements_use(scope(st), ss, i))
        },
    decreases statements_size(ss, i), 6nat,
{
    broadcast use {group_calm, group_grown};

    reveal(statements);
    assert(calm(st, st));
    if 0 <= i < ss.len() {
        lemma_statement(st, ss[i]);
        if let Ok((st1, _)) = statement(st, ss[i]) {
            lemma_statements(st1, ss, i + 1);
        }
    }
}

#[verifier::spinoff_prover]
proof fn lemma_statement(st: State, s: Statement)
    requires
        linked(st),
    ensures
        statement(st, s) matches Ok((st1, _)) ==> {
            &&& grown(st, st1)
            &&& scope(st1) == scope_behind(scope(st), s)
            &&& has_environment(st1) == (has_environment(st) || statement_uses(scope(st), s))
        },
    decreases statement_size(s), 6nat,
{
    broadcast use {group_calm, group_grown};

    reveal(statement);
    match s {
        Statement::If(s) => lemma_if_statement(st, s),
        Statement::Do(b) => lemma_block(st, b),
        Statement::Function(s) => lemma_function_statement(st, s),
        Statement::LocalFunction(s) => lemma_local_function(st, s),
        Statement::LocalStatement(s) => {
            reveal(local_statement);
            lemma_local_values(st, scope(st), s.names@, s.values@, 0);
        },
        Statement::FunctionCall(s) => lemma_function_call(st, s),
        Statement::Assignment(s) => {
            reveal(assignment);
            lemma_assignments(st, s.targets@, s.values@, 0);
        },
        _ => {},
    }
}

#[verifier::spinoff_prover]
proof fn lemma_condition(st: State, e: Expression)
    requires
        linked(st),
    ensures
        condition(st, e) matches Ok((st1, _)) ==> {
            &&& calm(st, st1)
            &&& has_environment(st1) == (has_environment(st) || expression_uses(scope(st), e))
        },
    decreases expression_size(e), 7nat,
{
    broadcast use group_calm;

    reveal(condition);
    lemma_expression(st, e);
    match bounded(expression(st, e), expression_size(e)) {
        Ok((st1, Desc::Comparison { left, op, right })) => lemma_operands(st1, *left, *right),
        Ok((st1, Desc::Not(operand))) => lemma_operand_register(st1, *operand),
        Ok((st1, d)) => lemma_operand_register(st1, d),
        Err(_) => {},
    }
}

#[verifier::spinoff_prover]
proof fn lemma_if_arm(st: State, e: Expression, b: Block, next: Option<int>, ends: Seq<int>)
    requires
        linked(st),
    ensures
        if_arm(st, e, b, next, ends) matches Ok((st1, _)) ==> {
            &&& calm(st, st1)
            &&& has_environment(st1) == (has_environment(st) || expression_uses(scope(st), e)
                || block_uses(scope(st), b))
        },
    decreases expression_size(e) + block_size(b), 8nat,
{
    broadcast use group_calm;

    reveal(if_arm);
    if let Ok((st1, _)) = arm_start(st, next) {
        lemma_condition(st1, e);
        if let Ok((st2, _)) = condition(st1, e) {
            lemma_block(jump_placeholder(st2), b);
        }
    }
}

#[verifier::spinoff_prover]
proof fn lemma_if_arms(
    st: State,
    arms: Seq<(Expression, Block)>,
    i: int,
    next: int,
    ends: Seq<int>,
)
    requires
        linked(st),
    ensures
        if_arms(st, arms, i, next, ends) matches Ok((st1, _)) ==> {
            &&& calm(st, st1)
            &&& has_environment(st1) == (has_environment(st) || arms_use(scope(st), arms, i))
        },
    decreases arms_size(arms, i), 8nat,
{
    broadcast use group_calm;

    reveal(if_arms);
    if 0 <= i < arms.len() {
        lemma_if_arm(st, arms[i].0, arms[i].1, Some(next), ends);
        if let Ok((st1, (next, ends))) = if_arm(st, arms[i].0, arms[i].1, Some(next), ends) {
            lemma_if_arms(st1, arms, i + 1, next, ends);
        }
    }
}

#[verifier::spinoff_prover]
proof fn lemma_if_statement(st: State, s: IfStatement)
    requires
        linked(st),
    ensures
        if_statement(st, s) matches Ok((st1, _)) ==> {
            &&& calm(st, st1)
            &&& has_environment(st1) == (has_environment(st) || statement_uses(
                scope(st),
                Statement::If(s),
            ))
        },
    decreases statement_size(Statement::If(s)), 5nat,
{
    broadcast use group_calm;

    reveal(if_statement);
    lemma_if_arm(st, s.if_part.0, s.if_part.1, None, Seq::empty());
    if let Ok((st1, (next, ends))) = if_arm(st, s.if_part.0, s.if_part.1, None, Seq::empty()) {
        lemma_if_arms(st1, s.else_if_parts@, 0, next, ends);
        if let Ok((st2, (next, ends))) = if_arms(st1, s.else_if_parts@, 0, next, ends) {
            if let Some(b) = s.else_part {
                if let Ok((st3, _)) = jump_here(st2, next) {
                    lemma_block(st3, b);
                }
            }
        }
    }
}

#[verifier::spinoff_prover]
proof fn lemma_function_statement(st: State, s: FunctionStatement)
    requires
        linked(st),
    ensures
        function_statement(st, s) matches Ok((st1, _)) ==> {
            &&& calm(st, st1)
            &&& has_environment(st1) == (has_environment(st) || statement_uses(
                scope(st),
                Statement::Function(s),
            ))
        },
    decreases definition_size(s.definition), 8nat,
{
    broadcast use group_calm;

    reveal(function_statement);
    reveal(closure);
    lemma_new_prototype(st, s.definition);
    if let Ok((st1, proto)) = new_prototype(st, s.definition) {
        lemma_get_environment(st1);
        if let Ok((st2, env)) = get_environment(st1) {
            if let Ok((st3, dest)) = closure(st2, proto) {
                let key = Desc::Value(ValueView::String(s.name.name@));
                lemma_write_field(st3, env, key, temporary(dest));
            }
        }
    }
}

#[verifier::spinoff_prover]
proof fn lemma_local_function(st: State, s: FunctionStatement)
    requires
        linked(st),
    ensures
        local_function(st, s) matches Ok((st1, _)) ==> {
            &&& grown(st, st1)
            &&& scope(st1) == scope(st).insert(s.name.name@)
            &&& has_environment(st1) == (has_environment(st) || definition_uses(
                scope(st),
                s.definition,
            ))
        },
    decreases definition_size(s.definition), 8nat,
{
    broadcast use {group_calm, group_grown};

    reveal(local_function);
    reveal(closure);
    lemma_new_prototype(st, s.definition);
    if let Ok((st1, proto)) = new_prototype(st, s.definition) {
        if let Ok((st2, dest)) = closure(st1, proto) {
            lemma_bind(st2, s.name.name@, dest);
        }
    }
}

#[verifier::spinoff_prover]
proof fn lemma_return_statement(st: State, s: ReturnStatement)
    requires
        linked(st),
    ensures
        return_statement(st, s) matches Ok((st1, _)) ==> {
            &&& calm(st, st1)
            &&& has_environment(st1) == (has_environment(st) || expressions_use(
                scope(st),
                s.returns@,
                0,
            ))
        },
    decreases expressions_size(s.returns@, 0), 8nat,
{
    broadcast use group_calm;

    reveal(return_statement);
    assert(same(st, settle(st)));
    lemma_push_returns(settle(st), s.returns@, 0);
}

#[verifier::spinoff_prover]
proof fn lemma_push_returns(st: State, es: Seq<Expression>, i: int)
    requires
        linked(st),
    ensures
        push_returns(st, es, i) matches Ok((st1, _)) ==> {
            &&& calm(st, st1)
            &&& has_environment(st1) == (has_environment(st) || expressions_use(scope(st), es, i))
        },
    decreases expressions_size(es, i), 7nat,
{
    broadcast use group_calm;

    reveal(push_returns);
    if 0 <= i < es.len() {
        lemma_expression(st, es[i]);
        if let Ok((st1, d)) = bounded(expression(st, es[i]), expression_size(es[i])) {
            if i < es.len() - 1 {
                lemma_discharge(st1, d, ExprDestination::PushNew);
                if let Ok((st2, _)) = discharge(st1, d, ExprDestination::PushNew) {
                    lemma_push_returns(st2, es, i + 1);
                }
            } else {
                assert(!expressions_use(scope(st), es, i + 1));
                match d {
                    Desc::FunctionCall { func, args } => lemma_expr_function_call(
                        st1,
                        *func,
                        args,
                        VarCount::variable(),
                    ),
                    _ => lemma_discharge(st1, d, ExprDestination::PushNew),
                }
            }
        }
    }
}

/// Names that are declared one after another.
proof fn lemma_bind_names(
    st: State,
    names: Seq<Box<[u8]>>,
    i: int,
    first: RegisterIndex,
    count: int,
    outer: Scope,
)
    requires
        linked(st),
        0 <= i,
        0 <= count <= names.len() - i,
        scope(st) == declared(outer, names, i),
    ensures
        grown(st, bind_names(st, names, i, first, count)),
        scope(bind_names(st, names, i, first, count)) == declared(outer, names, i + count),
        has_environment(bind_names(st, names, i, first, count)) == has_environment(st),
    decreases count,
{
    broadcast use {group_calm, group_grown};

    assert(calm(st, st));
    if count > 0 {
        lemma_bind_names(st, names, i, first, count - 1, outer);
        lemma_bind(
            bind_names(st, names, i, first, count - 1),
            names[i + count - 1]@,
            RegisterIndex((first.0 + count - 1) as u8),
        );
    }
}

proof fn lemma_local_nils(st: State, outer: Scope, names: Seq<Box<[u8]>>, i: int)
    requires
        linked(st),
        0 <= i,
        scope(st) == declared(outer, names, if i < names.len() {
            i
        } else {
            names.len() as int
        }),
    ensures
        local_nils(st, names, i) matches Ok((st1, _)) ==> {
            &&& grown(st, st1)
            &&& scope(st1) == declared(outer, names, names.len() as int)
            &&& has_environment(st1) == has_environment(st)
        },
    decreases names.len() - i,
{
    broadcast use {group_calm, group_grown};

    assert(calm(st, st));
    if i < names.len() {
        if let Ok((st1, r)) = allocate(st) {
            let st2 = load_nil(st1, r);
            assert(same(st1, st2));
            lemma_bind(st2, names[i]@, r);
            assert(declared(outer, names, i + 1) == declared(outer, names, i).insert(names[i]@));
            lemma_local_nils(bind(st2, names[i]@, r), outer, names, i + 1);
        }
    }
}

#[verifier::spinoff_prover]
proof fn lemma_local_call(
    st: State,
    outer: Scope,
    names: Seq<Box<[u8]>>,
    i: int,
    func: Desc,
    args: Seq<Desc>,
)
    requires
        linked(st),
        0 <= i < names.len(),
        scope(st) == declared(outer, names, i),
    ensures
        local_call(st, names, i, func, args) matches Ok((st1, _)) ==> {
            &&& grown(st, st1)
            &&& scope(st1) == declared(outer, names, names.len() as int)
            &&& has_environment(st1) == (has_environment(st) || desc_uses(scope(st), func)
                || descs_use(scope(st), args, 0))
        },
    decreases weight(func) + weights(args, 0), 4nat,
{
    broadcast use {group_calm, group_grown};

    reveal(local_call);
    let count = names.len() - i;
    let results = VarCount::constant(count);
    lemma_expr_function_call(st, func, args, results);
    if let Ok((st1, _)) = expr_function_call(st, func, args, results) {
        if let Ok((st2, first)) = push_registers(st1, count) {
            lemma_bind_names(st2, names, i, first, count, outer);
        }
    }
}

#[verifier::spinoff_prover]
proof fn lemma_local_values(
    st: State,
    outer: Scope,
    names: Seq<Box<[u8]>>,
    values: Seq<Expression>,
    i: int,
)
    requires
        linked(st),
        0 <= i <= values.len(),
        scope(st) == declared(outer, names, if i < names.len() {
            i
        } else {
            names.len() as int
        }),
    ensures
        local_values(st, names, values, i) matches Ok((st1, _)) ==> {
            &&& grown(st, st1)
            &&& scope(st1) == declared(outer, names, names.len() as int)
            &&& has_environment(st1) == (has_environment(st) || local_values_use(
                outer,
                names,
                values,
                i,
            ))
        },
    decreases expressions_size(values, i), 7nat,
{
    broadcast use {group_calm, group_grown};

    reveal(local_values);
    if i < values.len() {
        lemma_expression(st, values[i]);
        if let Ok((st1, d)) = bounded(expression(st, values[i]), expression_size(values[i])) {
            if i >= names.len() {
                lemma_discharge(st1, d, ExprDestination::Nowhere);
                if let Ok((st2, _)) = discharge(st1, d, ExprDestination::Nowhere) {
                    lemma_local_values(st2, outer, names, values, i + 1);
                }
            } else if i == values.len() - 1 && d is FunctionCall {
                assert(!local_values_use(outer, names, values, i + 1));
                lemma_local_call(st1, outer, names, i, *d->func, d->args);
            } else {
                lemma_discharge(st1, d, ExprDestination::AllocateNew);
                if let Ok((st2, Some(r))) = discharge(st1, d, ExprDestination::AllocateNew) {
                    lemma_bind(st2, names[i]@, r);
                    assert(declared(outer, names, i + 1) == declared(outer, names, i).insert(
                        names[i]@,
                    ));
                    lemma_local_values(bind(st2, names[i]@, r), outer, names, values, i + 1);
                }
            }
        }
    } else {
        lemma_local_nils(st, outer, names, i);
    }
}

#[verifier::spinoff_prover]
proof fn lemma_function_call(st: State, s: FunctionCallStatement)
    requires
        linked(st),
    ensures
        function_call(st, s) matches Ok((st1, _)) ==> {
            &&& calm(st, st1)
            &&& has_environment(st1) == (has_environment(st) || statement_uses(
                scope(st),
                Statement::FunctionCall(s),
            ))
        },
    decreases suffixed_size(s.head) + call_size(s.call), 6nat,
{
    broadcast use group_calm;

    reveal(function_call);
    lemma_suffixed_expression(st, s.head);
    if let Ok((st1, func)) = bounded(suffixed_expression(st, s.head), suffixed_size(s.head)) {
        if let CallSuffix::Function(args) = s.call {
            lemma_expressions(st1, args@, 0, Seq::empty());
            if let Ok((st2, args)) = bounded_list(
                expressions(st1, args@, 0, Seq::empty()),
                expressions_size(args@, 0),
            ) {
                lemma_expr_function_call(st2, func, args, VarCount::constant(0));
            }
        }
    }
}

#[verifier::spinoff_prover]
proof fn lemma_assignments(
    st: State,
    targets: Seq<AssignmentTarget>,
    values: Seq<Expression>,
    i: int,
)
    requires
        linked(st),
        0 <= i,
    ensures
        assignments(st, targets, values, i) matches Ok((st1, _)) ==> {
            &&& calm(st, st1)
            &&& has_environment(st1) == (has_environment(st) || targets_use(scope(st), targets, i)
                || first_use(scope(st), values, i, targets.len() as int))
        },
    decreases targets_size(targets, i) + expressions_size(values, i), 7nat,
{
    broadcast use group_calm;

    reveal(assignments);
    reveal(assigned_value);
    if i < targets.len() {
        if i < values.len() {
            lemma_expression(st, values[i]);
        }
        if let Ok((st1, d)) = bounded(assigned_value(st, values, i), assigned_size(values, i)) {
            lemma_assign(st1, targets[i], d);
            if let Ok((st2, _)) = assign(st1, targets[i], d) {
                lemma_assignments(st2, targets, values, i + 1);
            }
        }
    }
}

#[verifier::spinoff_prover]
proof fn lemma_assign(st: State, target: AssignmentTarget, value: Desc)
    requires
        linked(st),
    ensures
        assign(st, target, value) matches Ok((st1, _)) ==> {
            &&& calm(st, st1)
            &&& has_environment(st1) == (has_environment(st) || target_uses(scope(st), target)
                || desc_uses(scope(st), value))
        },
    decreases target_size(target) + weight(value), 6nat,
{
    broadcast use group_calm;

    reveal(assign);
    match target {
        AssignmentTarget::Name(name) => {
            lemma_find_variable(st, name@);
            match find_variable(st, name@) {
                Ok((st1, Variable::Local(r))) => {
                    lemma_discharge(st1, value, ExprDestination::Register(r));
                },
                Ok((st1, Variable::UpValue(_))) => lemma_any_register(st1, value),
                Ok((st1, Variable::Global(name))) => {
                    lemma_get_environment(st1);
                    if let Ok((st2, env)) = bounded(get_environment(st1), 1) {
                        let key = Desc::Value(ValueView::String(name));
                        lemma_write_field(st2, env, key, value);
                    }
                },
                Err(_) => {},
            }
        },
        AssignmentTarget::Field(table, field) => {
            lemma_suffixed_expression(st, table);
            if let Ok((st1, t)) = bounded(suffixed_expression(st, table), suffixed_size(table)) {
                lemma_field_key(st1, field);
                if let Ok((st2, key)) = bounded(field_key(st1, field), field_size(field)) {
                    lemma_write_field(st2, t, key, value);
                }
            }
        },
    }
}

// ---------------------------------------------------------------------------------------------
// Chunks

/// A chunk has the environment as its upvalue where it refers to it, and only there.
#[verifier::spinoff_prover]
pub proof fn lemma_chunk(chunk: Chunk)
    ensures
        compilation(chunk) matches Ok(p) ==> (p.upvalues.len() > 0 <==> chunk_uses(chunk)),
{
    broadcast use group_calm;

    reveal(compile_function);
    let none = Seq::<FunctionState>::empty();
    let parameters = Seq::<Box<[u8]>>::empty();
    let st = none.push(new_function(parameters, true));
    lemma_new_function(none, parameters, true);
    lemma_block(st, chunk.block);
    if let Ok((st1, _)) = block(st, chunk.block) {
        lemma_finish(st1);
        assert(compile_function(none, parameters, true, chunk.block) == finish(st1));
    }
}

} // verus!
