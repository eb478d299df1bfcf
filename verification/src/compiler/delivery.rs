//! Values get to where they are wanted when the instructions are executed.

use crate::compiler::effects::{group_spares, spares};
use crate::compiler::evaluation::{
    lemma_binary_operator, lemma_closure, lemma_environment, lemma_expression,
    lemma_expression_rest, lemma_expressions, lemma_field_key, lemma_head_expression,
    lemma_primary_expression, lemma_suffix, lemma_suffixed_rest, lemma_unary_operator,
};
use crate::compiler::execution::{lemma_compile_function, lemma_new_prototype};
use crate::compiler::machine::{effect, skipped, Event, Machine, Setting, Val};
use crate::compiler::meaning;
use crate::compiler::meaning::{
    called, calls_from, compared, constant, desc_meaning, desc_meanings, environment, eval, evals,
    field_eval, handed, head_eval, negated, newest, plain, primary_eval, short_circuit, simple_eval,
    suffix_eval, suffixed_eval, suffixes_eval, tail_eval, value, variable, Env, Known, Meaning,
};
use crate::compiler::model::{
    add_prototype, allocate, any_register, any_register_or_constant, binary_operator, closure,
    compile_function, current, discharge, done, emit, env_name, expr_function_call, expression,
    expression_rest, expressions, field_key, find_variable, found_destination, free_register,
    function_expression, get_constant, get_environment, get_table, get_table_op, get_up_table_op,
    head_expression, held, held_operand, here, jump_here, jump_placeholder, landed, load_value,
    new_destination, new_prototype, newest_local, operand_register, operands, place_compared,
    place_comparison, place_not, place_register, place_result, place_right, place_short_circuit,
    place_upvalue, place_value, pop_to, primary_expression, push_arguments, push_registers,
    read_field, release, release_both, set_table, set_table_op, set_up_table_op, settle,
    short_circuit_test, simple_expression, simple_operation, suffix, suffixed_expression,
    suffixed_rest, table_constructor, temporary, unary_operator, write_field, Desc, ExprDestination,
    Outcome, State, Variable,
};
use crate::compiler::names::{home, lemma_find_variable, lemma_same_home, own_local, Home};
use crate::compiler::operators::{
    category, unop_fold, unop_instruction, BinOpCategory, ComparisonBinOp, RegisterOrConstant,
    ShortCircuitBinOp,
};
use crate::compiler::order::{
    evolves, group_state, inv, is_local, lemma_allocate, lemma_constant_position, lemma_emit,
    lemma_emit_pair, lemma_get_constant, lemma_push_registers, lemma_settle, used,
};
use crate::compiler::ownership::{
    holds, holds_list, lemma_fits_push, lemma_keep, lemma_keep_list, lemma_list_push, lemma_owned,
    lemma_owned_list, lemma_release, local_registers, owned, owned_list, rest, spare, steady,
};
use crate::compiler::placing::{
    kept_at, lemma_any_register, lemma_any_register_or_constant, lemma_aside, lemma_close_jump,
    lemma_discharge, lemma_expr_function_call, lemma_fresh, lemma_new_destination,
    lemma_operand_register, lemma_operands, lemma_place_compared, lemma_place_comparison,
    lemma_place_not, lemma_place_register, lemma_place_result, lemma_place_right,
    lemma_place_short_circuit, lemma_place_upvalue, lemma_place_value, lemma_push_arguments,
    lemma_release_both, lemma_rest_empty, number, open_to, operand_at, results_at,
};
use crate::compiler::simulation::{
    agree, arrives, at, compiled_from, env, env_of, fitted, frame, lemma_branch, lemma_env_kept,
    lemma_fitted, lemma_fitted_jump, lemma_go, lemma_go_comparison, lemma_go_nil, lemma_go_pair,
    lemma_meaning_kept, lemma_meanings_kept, lemma_still, means, outside, straight,
};
use crate::compiler::size::{
    expression_size, expressions_size, field_size, head_size, lemma_weights_index, primary_size,
    simple_size, suffix_size, suffixed_size, suffixes_size, tail_size, weight, weights,
};
use crate::compiler::tables::{lemma_get_table, lemma_read_field, lemma_set_table};
use crate::opcode::{OpCode, RegisterIndex, UpValueIndex, VarCount};
use crate::parser::{
    BinaryOperator, CallSuffix, Expression, FieldSuffix, FunctionDefinition, HeadExpression,
    PrimaryExpression, SimpleExpression, SuffixPart, SuffixedExpression, UnaryOperator,
};
use crate::value::ValueView;
use vstd::prelude::*;

verus! {

// ---------------------------------------------------------------------------------------------
// What is to be shown

/// Execution gets from the end of the instructions of `st` to that of `st1`. The registers in
/// `kept` are left alone, and the call that is watched for takes place as often as `calls` says.
pub open spec fn passes(
    x: Setting,
    b: int,
    s0: Machine,
    st: State,
    st1: State,
    kept: Set<int>,
    calls: int,
) -> bool {
    &&& arrives(x, b, s0, st1)
    &&& frame(at(x, b, s0, st), at(x, b, s0, st1), kept)
    &&& at(x, b, s0, st1).seen == (at(x, b, s0, st).seen + calls)
}

/// In addition, a register holds what is meant.
pub open spec fn delivers(
    x: Setting,
    b: int,
    s0: Machine,
    st: State,
    st1: State,
    kept: Set<int>,
    known: Known,
    r: Option<RegisterIndex>,
) -> bool {
    &&& passes(x, b, s0, st, st1, kept, known.calls)
    &&& r matches Some(r) ==> at(x, b, s0, st1).get(r) == value(x, known.meaning)
}

/// What a descriptor means at the end of the instructions.
pub open spec fn meant(x: Setting, b: int, s0: Machine, st: State, d: Desc) -> Known {
    let s = at(x, b, s0, st);
    desc_meaning(x, env(st, s), s, d)
}

/// The registers of local variables stay in use.
pub proof fn lemma_locals_in(st: State, o: Set<int>)
    requires
        inv(st),
        o.subset_of(spare(current(st))),
    ensures
        local_registers(current(st)).subset_of(rest(st, o)),
{
    broadcast use group_state;

    assert forall|r: int| local_registers(current(st)).contains(r) implies rest(
        st,
        o,
    ).contains(r) by {
        let k = choose|k: int|
            0 <= k < current(st).locals.len() && (#[trigger] current(st).locals[k]).1.0 == r;
        assert(used(st).contains(current(st).locals[k].1.0 as int));
        assert(!spare(current(st)).contains(r));
    }
}

/// A descriptor that is not touched keeps its meaning.
pub proof fn lemma_meant(
    x: Setting,
    b: int,
    s0: Machine,
    st: State,
    st1: State,
    kept: Set<int>,
    d: Desc,
)
    requires
        inv(st),
        holds(st, d),
        current(st1).locals == current(st).locals,
        frame(at(x, b, s0, st), at(x, b, s0, st1), kept),
        owned(d).subset_of(kept),
        local_registers(current(st)).subset_of(kept),
    ensures
        meant(x, b, s0, st1, d) == meant(x, b, s0, st, d),
        env(st1, at(x, b, s0, st1)) == env(st, at(x, b, s0, st)),
{
    let s = at(x, b, s0, st);
    let s1 = at(x, b, s0, st1);
    lemma_env_kept(st, st1, s, s1, kept);
    lemma_meaning_kept(x, env(st, s), current(st), s, s1, d);
}

// ---------------------------------------------------------------------------------------------
// Steps without instructions

proof fn sim_new_destination(x: Setting, b: int, s0: Machine, st: State, dest: ExprDestination)
    requires
        inv(st),
        arrives(x, b, s0, st),
        open_to(st, Set::empty(), dest),
    ensures
        new_destination(st, dest) matches Ok((st1, _)) ==> {
            &&& arrives(x, b, s0, st1)
            &&& at(x, b, s0, st1) == at(x, b, s0, st)
        },
{
    broadcast use group_state;

    lemma_new_destination(st, dest);
    if let Ok((st1, _)) = new_destination(st, dest) {
        lemma_still(x, b, s0, st, st1);
    }
}

pub proof fn sim_release(x: Setting, b: int, s0: Machine, st: State, d: Desc)
    requires
        inv(st),
        arrives(x, b, s0, st),
    ensures
        release(st, d) matches Ok((st1, _)) ==> {
            &&& arrives(x, b, s0, st1)
            &&& at(x, b, s0, st1) == at(x, b, s0, st)
            &&& current(st1).opcodes == current(st).opcodes
            &&& current(st1).landing == current(st).landing
            &&& st1.len() == st.len()
        },
{
    broadcast use group_state;

    reveal(free_register);
    if let Ok((st1, _)) = release(st, d) {
        lemma_still(x, b, s0, st, st1);
    }
}

proof fn sim_release_both(x: Setting, b: int, s0: Machine, st: State, d1: Desc, d2: Desc)
    requires
        inv(st),
        arrives(x, b, s0, st),
    ensures
        release_both(st, d1, d2) matches Ok((st1, _)) ==> {
            &&& arrives(x, b, s0, st1)
            &&& at(x, b, s0, st1) == at(x, b, s0, st)
        },
{
    broadcast use group_state;

    reveal(free_register);
    sim_release(x, b, s0, st, d1);
    if let Ok((st2, _)) = release_both(st, d1, d2) {
        lemma_still(x, b, s0, st, st2);
    }
}

pub proof fn sim_allocate(x: Setting, b: int, s0: Machine, st: State)
    requires
        inv(st),
        arrives(x, b, s0, st),
    ensures
        allocate(st) matches Ok((st1, _)) ==> {
            &&& arrives(x, b, s0, st1)
            &&& at(x, b, s0, st1) == at(x, b, s0, st)
        },
{
    broadcast use group_state;

    lemma_allocate(st);
    if let Ok((st1, _)) = allocate(st) {
        lemma_still(x, b, s0, st, st1);
    }
}

/// A constant has its place.
proof fn sim_get_constant(x: Setting, b: int, s0: Machine, st: State, v: ValueView)
    requires
        inv(st),
        arrives(x, b, s0, st),
    ensures
        get_constant(st, v) matches Ok((st1, c)) ==> {
            &&& arrives(x, b, s0, st1)
            &&& at(x, b, s0, st1) == at(x, b, s0, st)
            &&& fitted(x, st1) ==> x.constants[c.0 as int] == v
        },
{
    broadcast use group_state;

    lemma_get_constant(st, v);
    if let Ok((st1, c)) = get_constant(st, v) {
        reveal(get_constant);
        lemma_constant_position(current(st).constants, v, 0);
        lemma_still(x, b, s0, st, st1);
        reveal(fitted);
        assert(current(st1).constants[c.0 as int] == v);
    }
}

// ---------------------------------------------------------------------------------------------
// Placing values

#[verifier::spinoff_prover]
proof fn sim_place_register(
    x: Setting,
    b: int,
    s0: Machine,
    st: State,
    source: RegisterIndex,
    is_temporary: bool,
    dest: ExprDestination,
)
    requires
        inv(st),
        arrives(x, b, s0, st),
        holds(st, Desc::Register { register: source, is_temporary }),
        open_to(st, owned(Desc::Register { register: source, is_temporary }), dest),
    ensures
        place_register(st, source, is_temporary, dest) matches Ok((st1, r)) ==> delivers(
            x,
            b,
            s0,
            st,
            st1,
            kept_at(st, owned(Desc::Register { register: source, is_temporary }), dest),
            meant(x, b, s0, st, Desc::Register { register: source, is_temporary }),
            r,
        ),
{
    broadcast use {group_state, group_spares};

    reveal(place_register);
    let d = Desc::Register { register: source, is_temporary };
    let o = owned(d);
    if !(is_temporary && dest == ExprDestination::AllocateNew) {
        lemma_release(st, d);
        sim_release(x, b, s0, st, d);
        let st1 = release(st, d)->Ok_0.0;
        lemma_rest_empty(st1);
        lemma_new_destination(st1, dest);
        sim_new_destination(x, b, s0, st1, dest);
        if let Ok((st2, Some(r))) = new_destination(st1, dest) {
            assert(!kept_at(st, o, dest).contains(r.0 as int));
            if r != source {
                lemma_go(x, b, s0, st2, OpCode::Move { dest: r, source });
            }
            reveal(arrives);
        }
    }
}

#[verifier::spinoff_prover]
proof fn sim_place_upvalue(
    x: Setting,
    b: int,
    s0: Machine,
    st: State,
    source: UpValueIndex,
    dest: ExprDestination,
)
    requires
        inv(st),
        arrives(x, b, s0, st),
        open_to(st, Set::empty(), dest),
    ensures
        place_upvalue(st, source, dest) matches Ok((st1, r)) ==> delivers(
            x,
            b,
            s0,
            st,
            st1,
            kept_at(st, Set::empty(), dest),
            meant(x, b, s0, st, Desc::UpValue(source)),
            r,
        ),
{
    broadcast use {group_state, group_spares};

    reveal(place_upvalue);
    lemma_new_destination(st, dest);
    sim_new_destination(x, b, s0, st, dest);
    if let Ok((st1, Some(r))) = new_destination(st, dest) {
        assert(!kept_at(st, Set::empty(), dest).contains(r.0 as int));
        lemma_go(x, b, s0, st1, OpCode::GetUpValue { source, dest: r });
        reveal(arrives);
    }
}

#[verifier::spinoff_prover]
proof fn sim_load_value(
    x: Setting,
    b: int,
    s0: Machine,
    st: State,
    v: ValueView,
    dest: RegisterIndex,
)
    requires
        inv(st),
        arrives(x, b, s0, st),
    ensures
        load_value(st, v, dest) matches Ok((st1, _)) ==> arrives(x, b, s0, st1) && (fitted(x, st1)
            ==> at(x, b, s0, st1) == at(x, b, s0, st).set(dest, (x.constant)(v))),
{
    broadcast use {group_state, group_spares, lemma_fitted};

    match v {
        ValueView::Nil => lemma_go_nil(x, b, s0, st, dest),
        ValueView::Boolean(value) => {
            lemma_go(x, b, s0, st, OpCode::LoadBool { dest, value, skip_next: false });
        },
        _ => {
            lemma_get_constant(st, v);
            sim_get_constant(x, b, s0, st, v);
            if let Ok((st1, constant)) = get_constant(st, v) {
                let op = OpCode::LoadConstant { dest, constant };
                lemma_go(x, b, s0, st1, op);
                if fitted(x, emit(st1, op)) {
                    reveal(fitted);
                }
            }
        },
    }
}

#[verifier::spinoff_prover]
proof fn sim_place_value(
    x: Setting,
    b: int,
    s0: Machine,
    st: State,
    v: ValueView,
    dest: ExprDestination,
)
    requires
        inv(st),
        arrives(x, b, s0, st),
        open_to(st, Set::empty(), dest),
    ensures
        place_value(st, v, dest) matches Ok((st1, r)) ==> (fitted(x, st1) ==> delivers(
            x,
            b,
            s0,
            st,
            st1,
            kept_at(st, Set::empty(), dest),
            constant(v),
            r,
        )),
{
    broadcast use {group_state, group_spares};

    reveal(place_value);
    lemma_new_destination(st, dest);
    sim_new_destination(x, b, s0, st, dest);
    if let Ok((st1, Some(r))) = new_destination(st, dest) {
        assert(!kept_at(st, Set::empty(), dest).contains(r.0 as int));
        sim_load_value(x, b, s0, st1, v, r);
        reveal(arrives);
    }
}

/// Placing the value of an expression puts what it means where it is wanted.
#[verifier::spinoff_prover]
pub proof fn sim_discharge(
    x: Setting,
    b: int,
    s0: Machine,
    st: State,
    desc: Desc,
    dest: ExprDestination,
)
    requires
        inv(st),
        means(x),
        arrives(x, b, s0, st),
        holds(st, desc),
        open_to(st, owned(desc), dest),
    ensures
        discharge(st, desc, dest) matches Ok((st1, r)) ==> (fitted(x, st1) ==> delivers(
            x,
            b,
            s0,
            st,
            st1,
            kept_at(st, owned(desc), dest),
            meant(x, b, s0, st, desc),
            r,
        )),
    decreases weight(desc), 0nat,
{
    broadcast use {group_state, group_spares, lemma_fitted};

    reveal(discharge);
    let o = owned(desc);
    let known = meant(x, b, s0, st, desc);
    let kept = kept_at(st, o, dest);
    let outcome = match desc {
        Desc::Register { register, is_temporary } => {
            lemma_place_register(st, register, is_temporary, dest);
            sim_place_register(x, b, s0, st, register, is_temporary, dest);
            place_register(st, register, is_temporary, dest)
        },
        Desc::UpValue(source) => {
            lemma_place_upvalue(st, source, dest);
            sim_place_upvalue(x, b, s0, st, source, dest);
            place_upvalue(st, source, dest)
        },
        Desc::Value(value) => {
            lemma_place_value(st, value, dest);
            sim_place_value(x, b, s0, st, value, dest);
            place_value(st, value, dest)
        },
        Desc::Not(operand) => {
            lemma_place_not(st, *operand, dest);
            sim_place_not(x, b, s0, st, *operand, dest);
            place_not(st, *operand, dest)
        },
        Desc::FunctionCall { func, args } => {
            let one = VarCount::constant(1);
            lemma_expr_function_call(st, *func, args, one);
            sim_expr_function_call(x, b, s0, st, *func, args, one);
            match expr_function_call(st, *func, args, one) {
                Ok((st1, source)) => {
                    lemma_place_result(st, o, st1, source, dest);
                    sim_place_result(x, b, s0, st, o, st1, source, dest);
                    let outcome = place_result(st1, source, dest);
                    if let Ok((st2, r)) = outcome {
                        if fitted(x, st2) {
                            assert(evolves(st1, st2));
                            assert(fitted(x, st1));
                            assert(at(x, b, s0, st1).registers[source.0 + 0] == value(
                                x,
                                known.meaning,
                            ));
                            assert(kept.subset_of(rest(st, o)));
                        }
                    }
                    outcome
                },
                Err(h) => Err(h),
            }
        },
        Desc::Comparison { left, op, right } => {
            lemma_place_compared(st, *left, op, *right, dest);
            sim_place_compared(x, b, s0, st, *left, op, *right, dest);
            place_compared(st, *left, op, *right, dest)
        },
        Desc::ShortCircuitBinOp { left, op, right } => {
            lemma_place_short_circuit(st, *left, op, right, dest);
            sim_place_short_circuit(x, b, s0, st, *left, op, right, dest);
            place_short_circuit(st, *left, op, right, dest)
        },
    };
    assert(discharge(st, desc, dest) == landed(outcome, dest));
    if let Ok((st1, r)) = outcome {
        if dest == ExprDestination::PushNew {
            lemma_settle(st1);
            if fitted(x, settle(st1)) {
                lemma_still(x, b, s0, st1, settle(st1));
            }
        }
    }
}

/// The first result of a call gets to where it is wanted.
#[verifier::spinoff_prover]
proof fn sim_place_result(
    x: Setting,
    b: int,
    s0: Machine,
    st: State,
    o: Set<int>,
    st1: State,
    source: RegisterIndex,
    dest: ExprDestination,
)
    requires
        inv(st),
        results_at(st, o, st1, source),
        open_to(st, o, dest),
    ensures
        arrives(x, b, s0, st1) ==> (place_result(st1, source, dest) matches Ok((st2, r)) ==> {
            &&& passes(x, b, s0, st1, st2, kept_at(st, o, dest), 0)
            &&& r matches Some(r) ==> at(x, b, s0, st2).get(r) == at(x, b, s0, st1).get(source)
        }),
        place_result(st1, source, dest) matches Ok((st2, _)) ==> evolves(st1, st2),
{
    broadcast use {group_state, group_spares};

    reveal(place_result);
    match dest {
        ExprDestination::Register(r) => {
            let op = OpCode::Move { dest: r, source };
            assert(used(st1).contains(r.0 as int));
            lemma_emit(st1, op);
            if arrives(x, b, s0, st1) {
                lemma_go(x, b, s0, st1, op);
                reveal(arrives);
            }
        },
        ExprDestination::AllocateNew | ExprDestination::PushNew => {
            lemma_push_registers(st1, 1);
            if let Ok((st2, _)) = push_registers(st1, 1) {
                if arrives(x, b, s0, st1) {
                    lemma_still(x, b, s0, st1, st2);
                }
            }
        },
        ExprDestination::Nowhere => {},
    }
}

#[verifier::spinoff_prover]
proof fn sim_place_not(
    x: Setting,
    b: int,
    s0: Machine,
    st: State,
    operand: Desc,
    dest: ExprDestination,
)
    requires
        inv(st),
        means(x),
        arrives(x, b, s0, st),
        holds(st, operand),
        open_to(st, owned(operand), dest),
    ensures
        place_not(st, operand, dest) matches Ok((st1, r)) ==> (fitted(x, st1) ==> delivers(
            x,
            b,
            s0,
            st,
            st1,
            kept_at(st, owned(operand), dest),
            negated(x, meant(x, b, s0, st, operand)),
            r,
        )),
    decreases weight(operand), 4nat,
{
    broadcast use {group_state, group_spares, lemma_fitted};

    reveal(place_not);
    let o = owned(operand);
    lemma_rest_empty(st);
    lemma_owned(current(st), operand);
    lemma_new_destination(st, dest);
    sim_new_destination(x, b, s0, st, dest);
    match new_destination(st, dest) {
        Ok((st1, Some(r))) => {
            lemma_keep(st, st1, operand);
            lemma_operand_register(st1, operand);
            sim_operand_register(x, b, s0, st1, operand);
            if let Ok((st2, source)) = operand_register(st1, operand) {
                let op = OpCode::Not { dest: r, source };
                let kept = kept_at(st, o, dest);
                let st3 = emit(st2, op);
                lemma_emit(st2, op);
                assert(kept.subset_of(rest(st1, o)));
                assert(!kept.contains(r.0 as int));
                if fitted(x, st3) {
                    lemma_go(x, b, s0, st2, op);
                    reveal(arrives);
                }
            }
        },
        Ok((st1, None)) => {
            lemma_discharge(st1, operand, ExprDestination::Nowhere);
            sim_discharge(x, b, s0, st1, operand, ExprDestination::Nowhere);
        },
        Err(_) => {},
    }
}

#[verifier::spinoff_prover]
proof fn sim_place_compared(
    x: Setting,
    b: int,
    s0: Machine,
    st: State,
    left: Desc,
    op: ComparisonBinOp,
    right: Desc,
    dest: ExprDestination,
)
    requires
        inv(st),
        means(x),
        arrives(x, b, s0, st),
        holds(st, left),
        holds(st, right),
        owned(left).disjoint(owned(right)),
        open_to(st, owned(left).union(owned(right)), dest),
    ensures
        place_compared(st, left, op, right, dest) matches Ok((st1, r)) ==> (fitted(x, st1)
            ==> delivers(
            x,
            b,
            s0,
            st,
            st1,
            kept_at(st, owned(left).union(owned(right)), dest),
            compared(x, op, meant(x, b, s0, st, left), meant(x, b, s0, st, right)),
            r,
        )),
    decreases weight(left) + weight(right), 4nat,
{
    broadcast use {group_state, group_spares, lemma_fitted};

    reveal(place_compared);
    let o = owned(left).union(owned(right));
    lemma_operands(st, left, right);
    sim_operands(x, b, s0, st, left, right);
    if let Ok((st1, (l, r))) = operands(st, left, right) {
        lemma_rest_empty(st1);
        lemma_new_destination(st1, dest);
        if let Ok((st2, d)) = new_destination(st1, dest) {
            let kept = kept_at(st, o, dest);
            let compare = OpCode::Compare { op, left: l, right: r };
            let st3 = place_comparison(st2, compare, d);
            lemma_place_comparison(st2, op, l, r, d, Set::empty());
            if fitted(x, st3) {
                sim_new_destination(x, b, s0, st1, dest);
                reveal(arrives);
                match d {
                    Some(dest) => {
                        assert(!kept.contains(dest.0 as int));
                        lemma_go_comparison(x, b, s0, st2, compare, dest);
                    },
                    None => {
                        reveal(place_comparison);
                        lemma_go_pair(x, b, s0, st2, compare);
                    },
                }
            }
        }
    }
}

#[verifier::spinoff_prover]
proof fn sim_place_short_circuit(
    x: Setting,
    b: int,
    s0: Machine,
    st: State,
    left: Desc,
    op: ShortCircuitBinOp,
    right: Expression,
    dest: ExprDestination,
)
    requires
        inv(st),
        means(x),
        arrives(x, b, s0, st),
        holds(st, left),
        open_to(st, owned(left), dest),
    ensures
        place_short_circuit(st, left, op, right, dest) matches Ok((st1, r)) ==> (fitted(x, st1)
            ==> delivers(
            x,
            b,
            s0,
            st,
            st1,
            kept_at(st, owned(left), dest),
            short_circuit(
                x,
                op,
                meant(x, b, s0, st, left),
                eval(x, env(st, at(x, b, s0, st)), right),
            ),
            r,
        )),
    decreases weight(left) + expression_size(right), 4nat,
{
    broadcast use {group_state, group_spares, lemma_fitted};

    reveal(place_short_circuit);
    let o = owned(left);
    let s = at(x, b, s0, st);
    lemma_owned(current(st), left);
    lemma_operand_register(st, left);
    sim_operand_register(x, b, s0, st, left);
    if let Ok((st1, value)) = operand_register(st, left) {
        lemma_rest_empty(st1);
        lemma_new_destination(st1, dest);
        if let Ok((st2, d)) = new_destination(st1, dest) {
            let test = short_circuit_test(op, value, d);
            let st3 = emit(st2, test);
            let st4 = jump_placeholder(st3);
            let kept = kept_at(st, o, dest);
            let found = found_destination(d);
            lemma_emit_pair(st2, test, OpCode::Jump { offset: 0 });
            lemma_place_right(st4, right, found);
            if let Ok((st5, ())) = place_right(st4, right, found) {
                assert(current(st4).opcodes[here(st3)] == current(st5).opcodes[here(st3)]);
                lemma_close_jump(st2, st5, here(st3));
                if let Ok((st6, ())) = jump_here(st5, here(st3)) {
                    if fitted(x, st6) {
                        lemma_fitted_jump(x, st5, here(st3));
                        sim_new_destination(x, b, s0, st1, dest);
                        let s2 = at(x, b, s0, st2);
                        let s4 = effect(x, test, s2);
                        lemma_go_pair(x, b, s0, st2, test);
                        lemma_rest_empty(st4);
                        sim_place_right(x, here(st4), s4, st4, right, found);
                        lemma_branch(x, b, s0, st2, test, st5);
                        reveal(arrives);
                        assert(kept.subset_of(kept_at(st4, Set::empty(), found)));
                        lemma_locals_in(st, o);
                        if let Some(r) = d {
                            assert(!kept.contains(r.0 as int));
                        }
                        if skipped(x, test, s2) == 1 {
                            assert(s4 == s2);
                            lemma_env_kept(st, st4, s, s4, rest(st, o));
                        }
                    }
                }
            }
        }
    }
}

#[verifier::spinoff_prover]
proof fn sim_place_right(
    x: Setting,
    b: int,
    s0: Machine,
    st: State,
    right: Expression,
    dest: ExprDestination,
)
    requires
        inv(st),
        means(x),
        arrives(x, b, s0, st),
        dest is Register || dest is Nowhere,
        open_to(st, Set::empty(), dest),
    ensures
        place_right(st, right, dest) matches Ok((st1, _)) ==> (fitted(x, st1) ==> delivers(
            x,
            b,
            s0,
            st,
            st1,
            kept_at(st, Set::empty(), dest),
            eval(x, env(st, at(x, b, s0, st)), right),
            match dest {
                ExprDestination::Register(r) => Some(r),
                _ => None,
            },
        )),
    decreases expression_size(right), 7nat,
{
    broadcast use {group_state, group_spares, lemma_fitted};

    reveal(place_right);
    lemma_rest_empty(st);
    lemma_expression(st, right);
    sim_expression(x, b, s0, st, right);
    if let Ok((st1, d)) = expression(st, right) {
        lemma_discharge(st1, d, dest);
        assert(rest(st1, owned(d)) =~= used(st));
        if let Ok((st2, _)) = discharge(st1, d, dest) {
            if fitted(x, st2) {
                sim_discharge(x, b, s0, st1, d, dest);
                assert(kept_at(st, Set::empty(), dest).subset_of(used(st)));
                assert(kept_at(st, Set::empty(), dest).subset_of(kept_at(st1, owned(d), dest)));
            }
        }
    }
}

// ---------------------------------------------------------------------------------------------
// Operands

#[verifier::spinoff_prover]
pub proof fn sim_any_register(x: Setting, b: int, s0: Machine, st: State, desc: Desc)
    requires
        inv(st),
        means(x),
        arrives(x, b, s0, st),
        holds(st, desc),
    ensures
        any_register(st, desc) matches Ok((st1, r)) ==> (fitted(x, st1) ==> delivers(
            x,
            b,
            s0,
            st,
            st1,
            rest(st, owned(desc)),
            meant(x, b, s0, st, desc),
            Some(r),
        )),
    decreases weight(desc), 1nat,
{
    broadcast use {group_state, group_spares, lemma_fitted};

    reveal(any_register);
    if !(desc is Register) {
        sim_discharge(x, b, s0, st, desc, ExprDestination::AllocateNew);
    }
}

#[verifier::spinoff_prover]
proof fn sim_any_register_or_constant(x: Setting, b: int, s0: Machine, st: State, desc: Desc)
    requires
        inv(st),
        means(x),
        arrives(x, b, s0, st),
        holds(st, desc),
    ensures
        any_register_or_constant(st, desc) matches Ok((_, RegisterOrConstant::Register(r)))
            ==> held(desc, r) matches Desc::Register { register, is_temporary: _ } && register == r,
        any_register_or_constant(st, desc) matches Ok((st1, operand)) ==> (fitted(x, st1) ==> {
            &&& passes(
                x,
                b,
                s0,
                st,
                st1,
                rest(st, owned(desc)),
                meant(x, b, s0, st, desc).calls,
            )
            &&& at(x, b, s0, st1).operand(x, operand) == value(
                x,
                meant(x, b, s0, st, desc).meaning,
            )
        }),
    decreases weight(desc), 2nat,
{
    broadcast use {group_state, group_spares, lemma_fitted};

    reveal(any_register_or_constant);
    reveal(any_register);
    match desc {
        Desc::Value(v) => {
            lemma_get_constant(st, v);
            sim_get_constant(x, b, s0, st, v);
            if let Ok((st1, c)) = get_constant(st, v) {
                if c.0 > u8::MAX {
                    lemma_any_register(st1, desc);
                    sim_any_register(x, b, s0, st1, desc);
                    assert(rest(st1, owned(desc)) == rest(st, owned(desc)));
                }
            }
        },
        _ => sim_any_register(x, b, s0, st, desc),
    }
}

#[verifier::spinoff_prover]
pub proof fn sim_operand_register(x: Setting, b: int, s0: Machine, st: State, desc: Desc)
    requires
        inv(st),
        means(x),
        arrives(x, b, s0, st),
        holds(st, desc),
    ensures
        operand_register(st, desc) matches Ok((st1, r)) ==> (fitted(x, st1) ==> delivers(
            x,
            b,
            s0,
            st,
            st1,
            rest(st, owned(desc)),
            meant(x, b, s0, st, desc),
            Some(r),
        )),
    decreases weight(desc), 2nat,
{
    broadcast use {group_state, group_spares, lemma_fitted};

    reveal(operand_register);
    lemma_any_register(st, desc);
    sim_any_register(x, b, s0, st, desc);
    if let Ok((st1, r)) = any_register(st, desc) {
        let d = held(desc, r);
        lemma_release(st1, d);
        let st2 = release(st1, d)->Ok_0.0;
        if fitted(x, st2) {
            sim_release(x, b, s0, st1, d);
        }
    }
}

#[verifier::spinoff_prover]
pub proof fn sim_operands(x: Setting, b: int, s0: Machine, st: State, left: Desc, right: Desc)
    requires
        inv(st),
        means(x),
        arrives(x, b, s0, st),
        holds(st, left),
        holds(st, right),
        owned(left).disjoint(owned(right)),
    ensures
        operands(st, left, right) matches Ok((st1, (l, r))) ==> (fitted(x, st1) ==> {
            &&& passes(
                x,
                b,
                s0,
                st,
                st1,
                rest(st, owned(left).union(owned(right))),
                meant(x, b, s0, st, left).calls + meant(x, b, s0, st, right).calls,
            )
            &&& at(x, b, s0, st1).operand(x, l) == value(x, meant(x, b, s0, st, left).meaning)
            &&& at(x, b, s0, st1).operand(x, r) == value(x, meant(x, b, s0, st, right).meaning)
        }),
    decreases weight(left) + weight(right), 3nat,
{
    broadcast use {group_state, group_spares, lemma_fitted};

    reveal(operands);
    let o = owned(left).union(owned(right));
    lemma_owned(current(st), left);
    lemma_owned(current(st), right);
    lemma_any_register_or_constant(st, left);
    sim_any_register_or_constant(x, b, s0, st, left);
    if let Ok((st1, l)) = any_register_or_constant(st, left) {
        let hl = held_operand(left, l);
        lemma_aside(st, owned(left), st1, hl, right);
        lemma_any_register_or_constant(st1, right);
        if let Ok((st2, r)) = any_register_or_constant(st1, right) {
            let hr = held_operand(right, r);
            lemma_aside(st1, owned(right), st2, hr, hl);
            lemma_release_both(st2, hl, hr);
            let st3 = release_both(st2, hl, hr)->Ok_0.0;
            if fitted(x, st3) {
                lemma_locals_in(st, owned(left));
                lemma_meant(x, b, s0, st, st1, rest(st, owned(left)), right);
                sim_any_register_or_constant(x, b, s0, st1, right);
                lemma_owned(current(st1), right);
                lemma_locals_in(st1, owned(right));
                sim_release_both(x, b, s0, st2, hl, hr);
                assert(rest(st, o).subset_of(rest(st, owned(left))));
                assert(rest(st, o).subset_of(rest(st1, owned(right))));
                assert(at(x, b, s0, st2).operand(x, l) == at(x, b, s0, st1).operand(x, l)) by {
                    if let RegisterOrConstant::Register(q) = l {
                        lemma_held_kept(st, left, st1, q, rest(st1, owned(right)));
                    }
                }
            }
        }
    }
}

/// The register that holds an operand is its own or that of a local variable.
proof fn lemma_held_kept(st: State, desc: Desc, st1: State, r: RegisterIndex, kept: Set<int>)
    requires
        operand_at(st, desc, st1, RegisterOrConstant::Register(r)),
        held(desc, r) matches Desc::Register { register, is_temporary: _ } && register == r,
        owned(held(desc, r)).subset_of(kept),
        local_registers(current(st1)).subset_of(kept),
    ensures
        kept.contains(r.0 as int),
{
    let h = held(desc, r);
    assert(holds(st1, h));
    if h->is_temporary {
        assert(owned(h).contains(r.0 as int));
    } else {
        assert(is_local(current(st1), r.0 as int));
        assert(local_registers(current(st1)).contains(r.0 as int));
    }
}

// ---------------------------------------------------------------------------------------------
// Calls

/// How often the expressions from the `i`th to before the `n`th make the call.
pub open spec fn calls_between(all: Seq<Known>, i: int, n: int) -> int
    decreases n - i,
{
    if i < n {
        all[i].calls + calls_between(all, i + 1, n)
    } else {
        0
    }
}

proof fn lemma_calls_between(all: Seq<Known>, i: int, n: int)
    requires
        0 <= i <= n <= all.len(),
    ensures
        calls_from(all, i) == (calls_between(all, i, n) + calls_from(all, n)),
    decreases n - i,
{
    if i < n {
        lemma_calls_between(all, i + 1, n);
    }
}

/// The meanings of a list are those of its members.
pub proof fn lemma_meanings(x: Setting, e: Env, s: Machine, ds: Seq<Desc>, i: int)
    requires
        0 <= i <= ds.len(),
    ensures
        desc_meanings(x, e, s, ds, i).len() == ds.len() - i,
        forall|j: int|
            i <= j < ds.len() ==> #[trigger] desc_meanings(x, e, s, ds, i)[j - i] == desc_meaning(
                x,
                e,
                s,
                ds[j],
            ),
    decreases ds.len() - i,
{
    if i < ds.len() {
        lemma_meanings(x, e, s, ds, i + 1);
        assert forall|j: int|
            i <= j < ds.len() implies #[trigger] desc_meanings(x, e, s, ds, i)[j - i]
            == desc_meaning(x, e, s, ds[j]) by {
            if j > i {
                assert(desc_meanings(x, e, s, ds, i)[j - i] == desc_meanings(
                    x,
                    e,
                    s,
                    ds,
                    i + 1,
                )[j - (i + 1)]);
            }
        }
    }
}

/// These descriptors have these meanings, from the `i`th on.
pub open spec fn all_meant(
    x: Setting,
    b: int,
    s0: Machine,
    st: State,
    ds: Seq<Desc>,
    all: Seq<Known>,
    i: int,
) -> bool {
    &&& all.len() == ds.len()
    &&& forall|j: int| i <= j < ds.len() ==> #[trigger] all[j] == meant(x, b, s0, st, ds[j])
}

/// A list of descriptors that is not touched keeps its meanings.
proof fn lemma_all_meant(
    x: Setting,
    b: int,
    s0: Machine,
    st: State,
    st1: State,
    kept: Set<int>,
    ds: Seq<Desc>,
    all: Seq<Known>,
    i: int,
)
    requires
        inv(st),
        0 <= i <= ds.len(),
        holds_list(st, ds, i),
        current(st1).locals == current(st).locals,
        frame(at(x, b, s0, st), at(x, b, s0, st1), kept),
        owned_list(ds, i).subset_of(kept),
        local_registers(current(st)).subset_of(kept),
        all_meant(x, b, s0, st, ds, all, i),
    ensures
        all_meant(x, b, s0, st1, ds, all, i),
        env(st1, at(x, b, s0, st1)) == env(st, at(x, b, s0, st)),
{
    let s = at(x, b, s0, st);
    let s1 = at(x, b, s0, st1);
    let e = env(st, s);
    lemma_env_kept(st, st1, s, s1, kept);
    lemma_meanings_kept(x, e, current(st), s, s1, ds, i);
    lemma_meanings(x, e, s, ds, i);
    lemma_meanings(x, e, s1, ds, i);
    assert forall|j: int| i <= j < ds.len() implies #[trigger] all[j] == meant(
        x,
        b,
        s0,
        st1,
        ds[j],
    ) by {
        assert(desc_meanings(x, e, s, ds, i)[j - i] == desc_meanings(x, e, s1, ds, i)[j - i]);
    }
}

/// Arguments lie one behind another at the top of the stack.
#[verifier::spinoff_prover]
proof fn sim_push_arguments(
    x: Setting,
    b: int,
    s0: Machine,
    st: State,
    args: Seq<Desc>,
    all: Seq<Known>,
    i: int,
    n: int,
)
    requires
        inv(st),
        means(x),
        arrives(x, b, s0, st),
        0 <= i <= n <= args.len(),
        holds_list(st, args, i),
        steady(st, owned_list(args, i)),
        all_meant(x, b, s0, st, args, all, i),
    ensures
        push_arguments(st, args, i, n) matches Ok((st1, _)) ==> (fitted(x, st1) ==> {
            let top = current(st).registers.top;
            &&& passes(
                x,
                b,
                s0,
                st,
                st1,
                rest(st, owned_list(args, i)),
                calls_between(all, i, n),
            )
            &&& forall|j: int|
                i <= j < n ==> at(x, b, s0, st1).registers[top + (j - i)] == value(
                    x,
                    (#[trigger] all[j]).meaning,
                )
            &&& all_meant(x, b, s0, st1, args, all, n)
        }),
    decreases weights(args, i), 2nat,
{
    broadcast use {group_state, group_spares, lemma_fitted};

    reveal(push_arguments);
    let top = current(st).registers.top;
    let kept = rest(st, owned_list(args, i));
    lemma_owned_list(current(st), args, i);
    if i < n {
        assert(weight(args[i]) >= 1);
        assert(owned_list(args, i) == owned(args[i]).union(owned_list(args, i + 1)));
        assert(holds(st, args[i]));
        let push = ExprDestination::PushNew;
        lemma_discharge(st, args[i], push);
        if let Ok((st1, r)) = discharge(st, args[i], push) {
            assert(steady(st, owned(args[i])));
            assert(number(r) == top);
            assert(owned(args[i]).disjoint(owned_list(args, i + 1)));
            assert forall|y: int| #[trigger] owned_list(args, i + 1).contains(y) implies used(
                st1,
            ).contains(y) && y < top by {
                assert(owned_list(args, i).contains(y));
                assert(spare(current(st)).contains(y));
                assert(rest(st, owned(args[i])).contains(y));
            }
            lemma_keep_list(st, st1, args, i + 1);
            lemma_push_arguments(st1, args, i + 1, n);
            assert(kept.subset_of(rest(st, owned(args[i]))));
            assert(kept.subset_of(rest(st1, owned_list(args, i + 1))));
            if let Ok((st2, ())) = push_arguments(st1, args, i + 1, n) {
                if fitted(x, st2) {
                    sim_discharge(x, b, s0, st, args[i], push);
                    lemma_locals_in(st, owned(args[i]));
                    assert(owned_list(args, i + 1).subset_of(rest(st, owned(args[i])))) by {
                        assert forall|y: int| owned_list(args, i + 1).contains(y) implies rest(
                            st,
                            owned(args[i]),
                        ).contains(y) by {
                            assert(owned_list(args, i).contains(y));
                            assert(spare(current(st)).contains(y));
                        }
                    }
                    assert(all[i] == meant(x, b, s0, st, args[i]));
                    lemma_all_meant(
                        x,
                        b,
                        s0,
                        st,
                        st1,
                        rest(st, owned(args[i])),
                        args,
                        all,
                        i + 1,
                    );
                    sim_push_arguments(x, b, s0, st1, args, all, i + 1, n);
                    assert(rest(st1, owned_list(args, i + 1)).contains(top));
                    let s2 = at(x, b, s0, st2);
                    assert forall|j: int| i <= j < n implies s2.registers[top + (j - i)] == value(
                        x,
                        (#[trigger] all[j]).meaning,
                    ) by {
                        if j > i {
                            assert(current(st1).registers.top + (j - (i + 1)) == top + (j - i));
                        }
                    }
                }
            }
        }
    }
}

/// The results of a call are where they are said to be.
pub open spec fn results_in(
    x: Setting,
    s: Machine,
    first: RegisterIndex,
    count: VarCount,
    results: Seq<Val>,
) -> bool {
    if count == VarCount::variable() {
        s.open_at == first.0 && s.open == results
    } else {
        forall|j: int|
            0 <= j < count.0 - 1 && first.0 + j < 256 ==> #[trigger] s.registers[first.0 + j]
                == x.result(results, j)
    }
}

/// A call has been made.
pub open spec fn made(
    x: Setting,
    b: int,
    s0: Machine,
    st: State,
    st1: State,
    kept: Set<int>,
    func: Known,
    args: Seq<Known>,
    count: VarCount,
    first: RegisterIndex,
) -> bool {
    let s = at(x, b, s0, st);
    let s1 = at(x, b, s0, st1);
    let known = called(x, func, args);
    &&& arrives(x, b, s0, st1)
    &&& s1.registers.len() == s.registers.len()
    &&& agree(s, s1, kept)
    &&& s1.cells == s.cells
    &&& s1.seen == (s.seen + known.calls)
    &&& s1.events == (if count == VarCount::constant(0) {
        s.events.push(
            Event::Call { func: value(x, func.meaning), args: handed(x, args) },
        )
    } else {
        s.events
    })
    &&& known.meaning matches Meaning::Results(results) && results_in(x, s1, first, count, results)
}

/// The call instruction, with the function and its arguments in place.
#[verifier::spinoff_prover]
proof fn sim_called(
    x: Setting,
    b: int,
    s0: Machine,
    st: State,
    st1: State,
    kept: Set<int>,
    func: Known,
    args: Seq<Known>,
    calls: int,
    f: RegisterIndex,
    given: VarCount,
    count: VarCount,
)
    requires
        inv(st1),
        passes(x, b, s0, st, st1, kept, calls),
        calls == (func.calls + calls_from(args, 0)),
        forall|i: int| #[trigger] kept.contains(i) ==> 0 <= i < f.0,
        at(x, b, s0, st1).get(f) == value(x, func.meaning),
        at(x, b, s0, st1).values(f.0 + 1, given) == handed(x, args),
    ensures
        made(
            x,
            b,
            s0,
            st,
            crate::compiler::model::called(st1, f, given, count),
            kept,
            func,
            args,
            count,
            f,
        ),
{
    broadcast use group_state;

    let op = OpCode::Call { func: f, args: given, returns: count };
    let st2 = emit(st1, op);
    lemma_go(x, b, s0, st1, op);
    lemma_still(x, b, s0, st2, pop_to(st2, f.0 as int));
    reveal(arrives);
}

/// A call yields the results that are meant: the function is given the values of all arguments,
/// and all results of the last one where that is a call.
#[verifier::spinoff_prover]
pub proof fn sim_expr_function_call(
    x: Setting,
    b: int,
    s0: Machine,
    st: State,
    func: Desc,
    args: Seq<Desc>,
    count: VarCount,
)
    requires
        inv(st),
        means(x),
        arrives(x, b, s0, st),
        holds(st, func),
        holds_list(st, args, 0),
        owned(func).disjoint(owned_list(args, 0)),
    ensures
        expr_function_call(st, func, args, count) matches Ok((st1, r)) ==> (fitted(x, st1) ==> made(
            x,
            b,
            s0,
            st,
            st1,
            rest(st, owned(func).union(owned_list(args, 0))),
            meant(x, b, s0, st, func),
            desc_meanings(x, env(st, at(x, b, s0, st)), at(x, b, s0, st), args, 0),
            count,
            r,
        )),
    decreases weight(func) + weights(args, 0), 3nat,
{
    broadcast use {group_state, group_spares, lemma_fitted};

    reveal(expr_function_call);
    let o = owned(func).union(owned_list(args, 0));
    let s = at(x, b, s0, st);
    let e = env(st, s);
    let fk = meant(x, b, s0, st, func);
    let all = desc_meanings(x, e, s, args, 0);
    let push = ExprDestination::PushNew;
    let kept = rest(st, o);
    lemma_meanings(x, e, s, args, 0);
    lemma_owned(current(st), func);
    lemma_owned_list(current(st), args, 0);
    lemma_discharge(st, func, push);
    lemma_expr_function_call(st, func, args, count);
    if let Ok((st1, Some(f))) = discharge(st, func, push) {
        let n = args.len() as int;
        assert forall|i: int| #[trigger] rest(st, o).contains(i) implies 0 <= i < f.0 by {
            assert(rest(st, owned(func)).contains(i));
            assert(used(st1).contains(i));
        }
        assert(kept.subset_of(rest(st, owned(func))));
        lemma_locals_in(st, owned(func));
        if n == 0 {
            let st2 = crate::compiler::model::called(st1, f, VarCount::constant(0), count);
            if fitted(x, st2) {
                lemma_fitted_called(x, st1, f, VarCount::constant(0), count);
                sim_discharge(x, b, s0, st, func, push);
                reveal(arrives);
                assert(at(x, b, s0, st1).values(f.0 + 1, VarCount::constant(0)) =~= handed(x, all));
                sim_called(
                    x,
                    b,
                    s0,
                    st,
                    st1,
                    kept,
                    fk,
                    all,
                    fk.calls,
                    f,
                    VarCount::constant(0),
                    count,
                );
            }
        } else if n <= u8::MAX {
            assert(owned_list(args, 0).subset_of(used(st1)));
            lemma_keep_list(st, st1, args, 0);
            assert(!owned_list(args, 0).contains(f.0 as int)) by {
                if owned_list(args, 0).contains(f.0 as int) {
                    assert(rest(st, owned(func)).contains(f.0 as int));
                }
            }
            lemma_push_arguments(st1, args, 0, n - 1);
            assert(kept.subset_of(rest(st1, owned_list(args, 0))));
            if let Ok((st2, ())) = push_arguments(st1, args, 0, n - 1) {
                let last = args[n - 1];
                let before = calls_between(all, 0, n - 1);
                assert(owned_list(args, n) =~= Set::<int>::empty());
                assert(owned_list(args, n - 1) =~= owned(last));
                assert(holds(st2, last));
                assert(kept.subset_of(rest(st2, owned(last))));
                lemma_weights_index(args, 0, n - 1);
                lemma_calls_between(all, 0, n - 1);
                assert(0 == calls_from(all, n));
                assert(owned_list(args, 0).subset_of(rest(st, owned(func)))) by {
                    assert forall|y: int| owned_list(args, 0).contains(y) implies rest(
                        st,
                        owned(func),
                    ).contains(y) by {
                        assert(spare(current(st)).contains(y));
                    }
                }
                // The function and the arguments before the last one.
                if fitted(x, st2) {
                    assert(fitted(x, st1));
                    sim_discharge(x, b, s0, st, func, push);
                    assert(all_meant(x, b, s0, st, args, all, 0)) by {
                        assert forall|j: int| 0 <= j < args.len() implies #[trigger] all[j]
                            == meant(x, b, s0, st, args[j]) by {
                            assert(all[j - 0] == desc_meaning(x, e, s, args[j]));
                        }
                    }
                    lemma_all_meant(x, b, s0, st, st1, rest(st, owned(func)), args, all, 0);
                    sim_push_arguments(x, b, s0, st1, args, all, 0, n - 1);
                    assert(rest(st1, owned_list(args, 0)).contains(f.0 as int));
                    assert(at(x, b, s0, st2).get(f) == value(x, fk.meaning));
                    assert(all[n - 1] == meant(x, b, s0, st2, last));
                }
                match last {
                    Desc::FunctionCall { func: last_func, args: last_args } => {
                        let any = VarCount::variable();
                        lemma_expr_function_call(st2, *last_func, last_args, any);
                        if let Ok((st3, r)) = expr_function_call(
                            st2,
                            *last_func,
                            last_args,
                            any,
                        ) {
                            assert(r.0 == f.0 + n);
                            let st4 = crate::compiler::model::called(st3, f, any, count);
                            if fitted(x, st4) {
                                lemma_fitted_called(x, st3, f, any, count);
                                assert(fitted(x, st2));
                                sim_expr_function_call(
                                    x,
                                    b,
                                    s0,
                                    st2,
                                    *last_func,
                                    last_args,
                                    any,
                                );
                                let s2 = at(x, b, s0, st2);
                                let s3 = at(x, b, s0, st3);
                                let held = rest(st2, owned(last));
                                assert(owned(last) == owned(*last_func).union(
                                    owned_list(last_args, 0),
                                ));
                                assert forall|j: int| f.0 <= j < f.0 + n implies #[trigger]
                                    held.contains(j) by {
                                    assert(used(st2).contains(j));
                                    assert(!owned(last).contains(j)) by {
                                        if owned(last).contains(j) {
                                            assert(owned_list(args, 0).contains(j));
                                            assert(used(st).contains(j));
                                            assert(rest(st, owned(func)).contains(j));
                                            assert(used(st1).contains(j));
                                        }
                                    }
                                }
                                assert forall|j: int| 0 <= j < n - 1 implies #[trigger]
                                    s3.registers[f.0 + 1 + j] == value(x, all[j].meaning) by {
                                    assert(held.contains(f.0 + 1 + j));
                                    assert(current(st1).registers.top + (j - 0) == f.0 + 1 + j);
                                }
                                assert(held.contains(f.0 as int));
                                reveal(arrives);
                                assert(s3.values(f.0 + 1, any) =~= handed(x, all));
                                sim_called(
                                    x,
                                    b,
                                    s0,
                                    st,
                                    st3,
                                    kept,
                                    fk,
                                    all,
                                    fk.calls + calls_from(all, 0),
                                    f,
                                    any,
                                    count,
                                );
                            }
                        }
                    },
                    _ => {
                        lemma_discharge(st2, last, push);
                        if let Ok((st3, r)) = discharge(st2, last, push) {
                            assert(number(r) == f.0 + n);
                            let given = VarCount::constant(n);
                            let st4 = crate::compiler::model::called(st3, f, given, count);
                            if n < u8::MAX && fitted(x, st4) {
                                lemma_fitted_called(x, st3, f, given, count);
                                assert(fitted(x, st2));
                                sim_discharge(x, b, s0, st2, last, push);
                                let s3 = at(x, b, s0, st3);
                                let held = rest(st2, owned(last));
                                assert forall|j: int| f.0 <= j < f.0 + n implies #[trigger]
                                    held.contains(j) by {
                                    assert(used(st2).contains(j));
                                    assert(!owned(last).contains(j)) by {
                                        if owned(last).contains(j) {
                                            assert(owned_list(args, 0).contains(j));
                                            assert(used(st).contains(j));
                                            assert(rest(st, owned(func)).contains(j));
                                            assert(used(st1).contains(j));
                                        }
                                    }
                                }
                                assert forall|j: int| 0 <= j < n - 1 implies #[trigger]
                                    s3.registers[f.0 + 1 + j] == value(x, all[j].meaning) by {
                                    assert(held.contains(f.0 + 1 + j));
                                    assert(current(st1).registers.top + (j - 0) == f.0 + 1 + j);
                                }
                                assert(held.contains(f.0 as int));
                                assert(!(all[n - 1].meaning is Results));
                                reveal(arrives);
                                assert(s3.values(f.0 + 1, given) =~= handed(x, all));
                                sim_called(
                                    x,
                                    b,
                                    s0,
                                    st,
                                    st3,
                                    kept,
                                    fk,
                                    all,
                                    fk.calls + calls_from(all, 0),
                                    f,
                                    given,
                                    count,
                                );
                            }
                        }
                    },
                }
            }
        }
    }
}

/// A call instruction changes nothing that the setting speaks of.
proof fn lemma_fitted_called(
    x: Setting,
    st: State,
    f: RegisterIndex,
    given: VarCount,
    count: VarCount,
)
    requires
        st.len() > 0,
        fitted(x, crate::compiler::model::called(st, f, given, count)),
    ensures
        fitted(x, st),
{
    reveal(fitted);
    let st1 = crate::compiler::model::called(st, f, given, count);
    assert forall|name: Seq<u8>| #[trigger] (x.outer)(name) == outside(st, name) by {
        assert((x.outer)(name) == outside(st1, name));
        lemma_same_home(st, st1, name, st.len() - 2);
    }
}

// ---------------------------------------------------------------------------------------------
// Tables

/// The instruction that reads a field.
#[verifier::spinoff_prover]
proof fn sim_read_field(
    x: Setting,
    b: int,
    s0: Machine,
    st: State,
    table: Desc,
    key: Desc,
    tk: Known,
    kk: Known,
    seen: int,
)
    requires
        inv(st),
        means(x),
        arrives(x, b, s0, st),
        holds(st, table),
        holds(st, key),
        owned(table).disjoint(owned(key)),
        tk.meaning == meant(x, b, s0, st, table).meaning,
        kk.meaning == meant(x, b, s0, st, key).meaning,
        (at(x, b, s0, st).seen + meant(x, b, s0, st, table).calls + meant(
            x,
            b,
            s0,
            st,
            key,
        ).calls) == (seen + tk.calls + kk.calls),
    ensures
        evaluates(
            x,
            b,
            s0,
            st,
            owned(table).union(owned(key)),
            read_field(st, table, key),
            meaning::field(x, tk, kk),
            seen,
        ),
    decreases weight(table) + weight(key), 5nat,
{
    broadcast use {group_state, group_spares, lemma_fitted};

    reveal(read_field);
    reveal(get_table);
    let o = owned(table).union(owned(key));
    lemma_owned(current(st), table);
    lemma_owned(current(st), key);
    lemma_get_table(st, table, key);
    lemma_read_field(st, table, key);
    lemma_rest_empty(st);
    lemma_allocate(st);
    sim_allocate(x, b, s0, st);
    lemma_locals_in(st, o);
    if let Ok((st1, dest)) = allocate(st) {
        let d = temporary(dest);
        let kept = rest(st, o);
        assert(spares(st, st1, rest(st, Set::empty())));
        lemma_fresh(st, Set::empty(), st1, dest);
        lemma_keep(st, st1, table);
        lemma_keep(st, st1, key);
        lemma_owned(current(st1), table);
        lemma_owned(current(st1), key);
        match table {
            Desc::UpValue(t) => {
                lemma_any_register_or_constant(st1, key);
                sim_any_register_or_constant(x, b, s0, st1, key);
                if let Ok((st2, k)) = any_register_or_constant(st1, key) {
                    let op = get_up_table_op(dest, t, k);
                    let st3 = emit(st2, op);
                    lemma_emit(st2, op);
                    assert(kept.subset_of(rest(st1, owned(key))));
                    lemma_locals_in(st1, owned(key));
                    if let Ok((st4, _)) = read_field(st, table, key) {
                        if fitted(x, st4) {
                            lemma_get_released(x, st3, table, held_operand(key, k));
                            lemma_go(x, b, s0, st2, op);
                            reveal(arrives);
                            sim_release_both(x, b, s0, st3, table, held_operand(key, k));
                            lemma_env_kept(st, st4, at(x, b, s0, st), at(x, b, s0, st4), kept);
                        }
                    }
                }
            },
            _ => {
                lemma_any_register(st1, table);
                sim_any_register(x, b, s0, st1, table);
                if let Ok((st2, t)) = any_register(st1, table) {
                    let ht = held(table, t);
                    lemma_aside(st1, owned(table), st2, ht, key);
                    lemma_aside(st1, owned(table), st2, ht, d);
                    lemma_any_register_or_constant(st2, key);
                    if let Ok((st3, k)) = any_register_or_constant(st2, key) {
                        let hk = held_operand(key, k);
                        lemma_aside(st2, owned(key), st3, hk, ht);
                        let op = get_table_op(dest, t, k);
                        let st4 = emit(st3, op);
                        lemma_emit(st3, op);
                        assert(kept.subset_of(rest(st1, owned(table))));
                        assert(kept.subset_of(rest(st2, owned(key))));
                        if let Ok((st5, _)) = read_field(st, table, key) {
                            if fitted(x, st5) {
                                lemma_get_released(x, st4, ht, hk);
                                lemma_locals_in(st1, owned(table));
                                lemma_meant(x, b, s0, st1, st2, rest(st1, owned(table)), key);
                                lemma_owned(current(st2), key);
                                lemma_locals_in(st2, owned(key));
                                sim_any_register_or_constant(x, b, s0, st2, key);
                                lemma_holder_kept(st2, ht, t, rest(st2, owned(key)));
                                lemma_go(x, b, s0, st3, op);
                                reveal(arrives);
                                sim_release_both(x, b, s0, st4, ht, hk);
                                lemma_env_kept(st, st5, at(x, b, s0, st), at(x, b, s0, st5), kept);
                            }
                        }
                    }
                }
            },
        }
    }
}

/// A register that holds a value is its own or that of a local variable.
proof fn lemma_holder_kept(st: State, d: Desc, r: RegisterIndex, kept: Set<int>)
    requires
        holds(st, d),
        d matches Desc::Register { register, is_temporary: _ } && register == r,
        owned(d).subset_of(kept),
        local_registers(current(st)).subset_of(kept),
    ensures
        kept.contains(r.0 as int),
{
    if d->is_temporary {
        assert(owned(d).contains(r.0 as int));
    } else {
        assert(is_local(current(st), r.0 as int));
        assert(local_registers(current(st)).contains(r.0 as int));
    }
}

/// Giving registers back changes nothing that the setting speaks of.
proof fn lemma_get_released(x: Setting, st: State, d1: Desc, d2: Desc)
    requires
        st.len() > 0,
        release_both(st, d1, d2) matches Ok((st1, _)) && fitted(x, st1),
    ensures
        fitted(x, st),
{
    reveal(fitted);
    reveal(free_register);
    let st1 = release_both(st, d1, d2)->Ok_0.0;
    assert forall|name: Seq<u8>| #[trigger] (x.outer)(name) == outside(st, name) by {
        assert((x.outer)(name) == outside(st1, name));
        lemma_same_home(st, st1, name, st.len() - 2);
    }
}

/// A field is written.
pub open spec fn writes_field(
    x: Setting,
    b: int,
    s0: Machine,
    st: State,
    st1: State,
    kept: Set<int>,
    table: Val,
    key: Val,
    value: Val,
    calls: int,
) -> bool {
    let s = at(x, b, s0, st);
    let s1 = at(x, b, s0, st1);
    &&& arrives(x, b, s0, st1)
    &&& s1.registers.len() == s.registers.len()
    &&& agree(s, s1, kept)
    &&& s1.cells == s.cells
    &&& s1.seen == (s.seen + calls)
    &&& s1.events == s.events.push(Event::Write { table, key, value })
}

#[verifier::spinoff_prover]
pub proof fn sim_write_field(
    x: Setting,
    b: int,
    s0: Machine,
    st: State,
    table: Desc,
    key: Desc,
    content: Desc,
)
    requires
        inv(st),
        means(x),
        arrives(x, b, s0, st),
        holds(st, table),
        holds(st, key),
        holds(st, content),
        owned(table).disjoint(owned(key)),
        owned(table).disjoint(owned(content)),
        owned(key).disjoint(owned(content)),
    ensures
        write_field(st, table, key, content) matches Ok((st1, _)) ==> (fitted(x, st1)
            ==> writes_field(
            x,
            b,
            s0,
            st,
            st1,
            rest(st, owned(table).union(owned(key)).union(owned(content))),
            value(x, meant(x, b, s0, st, table).meaning),
            value(x, meant(x, b, s0, st, key).meaning),
            value(x, meant(x, b, s0, st, content).meaning),
            meant(x, b, s0, st, table).calls + meant(x, b, s0, st, key).calls + meant(
                x,
                b,
                s0,
                st,
                content,
            ).calls,
        )),
    decreases weight(table) + weight(key) + weight(content), 5nat,
{
    broadcast use {group_state, group_spares, lemma_fitted};

    reveal(write_field);
    reveal(set_table);
    let o = owned(table).union(owned(key)).union(owned(content));
    let kept = rest(st, o);
    lemma_owned(current(st), table);
    lemma_owned(current(st), key);
    lemma_owned(current(st), content);
    lemma_set_table(st, table, key, content);
    match table {
        Desc::UpValue(t) => {
            lemma_any_register_or_constant(st, key);
            sim_any_register_or_constant(x, b, s0, st, key);
            if let Ok((st1, k)) = any_register_or_constant(st, key) {
                let hk = held_operand(key, k);
                lemma_aside(st, owned(key), st1, hk, table);
                lemma_aside(st, owned(key), st1, hk, content);
                lemma_any_register_or_constant(st1, content);
                if let Ok((st2, v)) = any_register_or_constant(st1, content) {
                    let hv = held_operand(content, v);
                    lemma_aside(st1, owned(content), st2, hv, hk);
                    let op = set_up_table_op(t, k, v);
                    let st3 = emit(st2, op);
                    lemma_emit(st2, op);
                    assert(kept.subset_of(rest(st, owned(key))));
                    assert(kept.subset_of(rest(st1, owned(content))));
                    if let Ok((st4, _)) = write_field(st, table, key, content) {
                        if fitted(x, st4) {
                            lemma_set_released(x, b, s0, st3, table, hk, hv);
                            lemma_locals_in(st, owned(key));
                            lemma_meant(x, b, s0, st, st1, rest(st, owned(key)), content);
                            sim_any_register_or_constant(x, b, s0, st1, content);
                            lemma_owned(current(st1), content);
                            lemma_locals_in(st1, owned(content));
                            if let RegisterOrConstant::Register(q) = k {
                                lemma_held_kept(st, key, st1, q, rest(st1, owned(content)));
                            }
                            lemma_go(x, b, s0, st2, op);
                            reveal(arrives);
                            lemma_set_released(x, b, s0, st3, table, hk, hv);
                        }
                    }
                }
            }
        },
        _ => {
            lemma_any_register(st, table);
            sim_any_register(x, b, s0, st, table);
            if let Ok((st1, t)) = any_register(st, table) {
                let ht = held(table, t);
                lemma_aside(st, owned(table), st1, ht, key);
                lemma_aside(st, owned(table), st1, ht, content);
                lemma_any_register_or_constant(st1, key);
                if let Ok((st2, k)) = any_register_or_constant(st1, key) {
                    let hk = held_operand(key, k);
                    lemma_aside(st1, owned(key), st2, hk, ht);
                    lemma_aside(st1, owned(key), st2, hk, content);
                    lemma_any_register_or_constant(st2, content);
                    if let Ok((st3, v)) = any_register_or_constant(st2, content) {
                        let hv = held_operand(content, v);
                        lemma_aside(st2, owned(content), st3, hv, ht);
                        lemma_aside(st2, owned(content), st3, hv, hk);
                        let op = set_table_op(t, k, v);
                        let st4 = emit(st3, op);
                        lemma_emit(st3, op);
                        assert(kept.subset_of(rest(st, owned(table))));
                        assert(kept.subset_of(rest(st1, owned(key))));
                        assert(kept.subset_of(rest(st2, owned(content))));
                        if let Ok((st5, _)) = write_field(st, table, key, content) {
                            if fitted(x, st5) {
                                lemma_set_released(x, b, s0, st4, ht, hk, hv);
                                assert(fitted(x, st2));
                                assert(fitted(x, st1));
                                lemma_locals_in(st, owned(table));
                                lemma_meant(x, b, s0, st, st1, rest(st, owned(table)), key);
                                lemma_meant(x, b, s0, st, st1, rest(st, owned(table)), content);
                                lemma_owned(current(st1), key);
                                lemma_owned(current(st1), content);
                                lemma_locals_in(st1, owned(key));
                                sim_any_register_or_constant(x, b, s0, st1, key);
                                lemma_holder_kept(st1, ht, t, rest(st1, owned(key)));
                                lemma_meant(x, b, s0, st1, st2, rest(st1, owned(key)), content);
                                lemma_owned(current(st2), content);
                                lemma_locals_in(st2, owned(content));
                                sim_any_register_or_constant(x, b, s0, st2, content);
                                lemma_holder_kept(st2, ht, t, rest(st2, owned(content)));
                                if let RegisterOrConstant::Register(q) = k {
                                    lemma_held_kept(st1, key, st2, q, rest(st2, owned(content)));
                                }
                                lemma_go(x, b, s0, st3, op);
                                reveal(arrives);
                                lemma_set_released(x, b, s0, st4, ht, hk, hv);
                            }
                        }
                    }
                }
            }
        },
    }
}

/// Giving back a table, a key and a value.
proof fn lemma_set_released(
    x: Setting,
    b: int,
    s0: Machine,
    st: State,
    d1: Desc,
    d2: Desc,
    d3: Desc,
)
    requires
        inv(st),
        release_both(st, d1, d2) matches Ok((st1, _)) && (release(st1, d3) matches Ok((st2, _))
            && fitted(x, st2)),
    ensures
        fitted(x, st),
        arrives(x, b, s0, st) ==> {
            let st1 = release_both(st, d1, d2)->Ok_0.0;
            let st2 = release(st1, d3)->Ok_0.0;
            arrives(x, b, s0, st2) && at(x, b, s0, st2) == at(x, b, s0, st)
        },
{
    broadcast use group_state;

    reveal(fitted);
    reveal(free_register);
    let st1 = release_both(st, d1, d2)->Ok_0.0;
    let st2 = release(st1, d3)->Ok_0.0;
    assert forall|name: Seq<u8>| #[trigger] (x.outer)(name) == outside(st, name) by {
        assert((x.outer)(name) == outside(st2, name));
        lemma_same_home(st, st2, name, st.len() - 2);
    }
    if arrives(x, b, s0, st) {
        lemma_still(x, b, s0, st, st2);
    }
}

// ---------------------------------------------------------------------------------------------
// Names

/// The newest local of a name, with its value.
proof fn lemma_newest(
    locals: Seq<(Seq<u8>, RegisterIndex)>,
    s: Machine,
    name: Seq<u8>,
    n: int,
)
    requires
        0 <= n <= locals.len(),
    ensures
        newest(env_of(locals, s).locals, name, n) == match newest_local(locals, name, n) {
            Some(r) => Some(s.get(r)),
            None => None,
        },
    decreases n,
{
    if n > 0 {
        lemma_newest(locals, s, name, n - 1);
    }
}

proof fn lemma_env_home(st: State, k: int)
    requires
        0 <= k < st.len(),
    ensures
        home(st, env_name(), k) != Home::Free,
    decreases k,
{
    if k > 0 {
        lemma_env_home(st, k - 1);
    }
}

/// A name stands for the variable that it is meant to stand for.
#[verifier::spinoff_prover]
pub proof fn sim_find_variable(x: Setting, b: int, s0: Machine, st: State, name: Seq<u8>)
    requires
        inv(st),
        arrives(x, b, s0, st),
    ensures
        find_variable(st, name) matches Ok((st1, v)) ==> (fitted(x, st1) ==> {
            let s = at(x, b, s0, st);
            &&& arrives(x, b, s0, st1)
            &&& at(x, b, s0, st1) == s
            &&& env(st1, s) == env(st, s)
            &&& variable(x, env(st, s), name) == match v {
                Variable::Local(r) => Some(s.get(r)),
                Variable::UpValue(u) => Some(s.upvalue(x, u.0 as int)),
                Variable::Global(_) => None,
            }
            &&& v matches Variable::UpValue(u) ==> x.upvalues[u.0 as int].0 == name && newest(
                env(st, s).locals,
                name,
                env(st, s).locals.len() as int,
            ) is None && (x.outer)(name)
        }),
{
    broadcast use {group_state, lemma_fitted};

    let s = at(x, b, s0, st);
    let last = st.len() - 1;
    lemma_find_variable(st, name);
    lemma_newest(current(st).locals, s, name, current(st).locals.len() as int);
    if let Ok((st1, v)) = find_variable(st, name) {
        lemma_still(x, b, s0, st, st1);
        if fitted(x, st1) {
            assert(fitted(x, st));
            assert((x.outer)(name) == outside(st, name)) by {
                reveal(fitted);
            }
            assert(own_local(st, name, last) == newest_local(
                current(st).locals,
                name,
                current(st).locals.len() as int,
            ));
            assert(home(st, name, -1) == Home::Free);
            if last > 0 && name == env_name() {
                lemma_env_home(st, last - 1);
            }
            if let Variable::UpValue(u) = v {
                assert(x.upvalues[u.0 as int] == current(st1).upvalues[u.0 as int]) by {
                    reveal(fitted);
                }
            }
        }
    }
}

/// The environment is what it is meant to be.
#[verifier::spinoff_prover]
pub proof fn sim_get_environment(x: Setting, b: int, s0: Machine, st: State)
    requires
        inv(st),
        arrives(x, b, s0, st),
    ensures
        get_environment(st) matches Ok((st1, d)) ==> (fitted(x, st1) ==> {
            let s = at(x, b, s0, st);
            &&& arrives(x, b, s0, st1)
            &&& at(x, b, s0, st1) == s
            &&& env(st1, s) == env(st, s)
            &&& meant(x, b, s0, st1, d) == plain(environment(x, env(st, s)), 0)
        }),
{
    reveal(get_environment);
    sim_find_variable(x, b, s0, st, env_name());
}

// ---------------------------------------------------------------------------------------------
// Expressions

/// A descriptor stands for what is meant. What was called before it was compiled, and what will be
/// called when its value is placed, is what is called in all.
pub open spec fn stands(
    x: Setting,
    b: int,
    s0: Machine,
    st: State,
    d: Desc,
    known: Known,
    seen: int,
) -> bool {
    &&& meant(x, b, s0, st, d).meaning == known.meaning
    &&& (at(x, b, s0, st).seen + meant(x, b, s0, st, d).calls) == (seen + known.calls)
}

/// An expression has been compiled in place of what owned `o`.
pub open spec fn evaluates(
    x: Setting,
    b: int,
    s0: Machine,
    st: State,
    o: Set<int>,
    outcome: Outcome<Desc>,
    known: Known,
    seen: int,
) -> bool {
    outcome matches Ok((st1, d)) ==> (fitted(x, st1) ==> {
        &&& arrives(x, b, s0, st1)
        &&& frame(at(x, b, s0, st), at(x, b, s0, st1), rest(st, o))
        &&& env(st1, at(x, b, s0, st1)) == env(st, at(x, b, s0, st))
        &&& stands(x, b, s0, st1, d, known, seen)
    })
}


#[verifier::spinoff_prover]
pub proof fn sim_expression(x: Setting, b: int, s0: Machine, st: State, e: Expression)
    requires
        inv(st),
        means(x),
        arrives(x, b, s0, st),
    ensures
        evaluates(
            x,
            b,
            s0,
            st,
            Set::empty(),
            expression(st, e),
            eval(x, env(st, at(x, b, s0, st)), e),
            at(x, b, s0, st).seen,
        ),
    decreases expression_size(e), 6nat,
{
    broadcast use {group_state, group_spares, lemma_fitted};

    reveal(expression);
    let s = at(x, b, s0, st);
    let hk = head_eval(x, env(st, s), *e.head);
    lemma_head_expression(st, *e.head);
    sim_head_expression(x, b, s0, st, *e.head);
    if let Ok((st1, d)) = head_expression(st, *e.head) {
        lemma_expression_rest(st1, d, e.tail@, 0);
        if let Ok((st2, _)) = expression_rest(st1, d, e.tail@, 0) {
            if fitted(x, st2) {
                sim_expression_rest(x, b, s0, st1, d, hk, e.tail@, 0, s.seen);
                assert(rest(st1, owned(d)) =~= rest(st, Set::empty()));
            }
        }
    }
}

#[verifier::spinoff_prover]
proof fn sim_expression_rest(
    x: Setting,
    b: int,
    s0: Machine,
    st: State,
    left: Desc,
    known: Known,
    tail: Seq<(BinaryOperator, Expression)>,
    i: int,
    seen: int,
)
    requires
        inv(st),
        means(x),
        arrives(x, b, s0, st),
        holds(st, left),
        0 <= i <= tail.len(),
        stands(x, b, s0, st, left, known, seen),
    ensures
        evaluates(
            x,
            b,
            s0,
            st,
            owned(left),
            expression_rest(st, left, tail, i),
            tail_eval(x, env(st, at(x, b, s0, st)), known, tail, i),
            seen,
        ),
    decreases weight(left) + tail_size(tail, i), 5nat,
{
    broadcast use {group_state, group_spares, lemma_fitted};

    reveal(expression_rest);
    let e = env(st, at(x, b, s0, st));
    if i < tail.len() {
        let (op, right) = tail[i];
        lemma_binary_operator(st, left, op, right);
        sim_binary_operator(x, b, s0, st, left, known, op, right, seen);
        if let Ok((st1, d)) = binary_operator(st, left, op, right) {
            let k = meaning::binary(x, op, known, eval(x, e, right));
            lemma_expression_rest(st1, d, tail, i + 1);
            if let Ok((st2, _)) = expression_rest(st1, d, tail, i + 1) {
                if fitted(x, st2) {
                    sim_expression_rest(x, b, s0, st1, d, k, tail, i + 1, seen);
                    assert(rest(st1, owned(d)) =~= rest(st, owned(left)));
                }
            }
        }
    }
}

#[verifier::spinoff_prover]
proof fn sim_head_expression(x: Setting, b: int, s0: Machine, st: State, head: HeadExpression)
    requires
        inv(st),
        means(x),
        arrives(x, b, s0, st),
    ensures
        evaluates(
            x,
            b,
            s0,
            st,
            Set::empty(),
            head_expression(st, head),
            head_eval(x, env(st, at(x, b, s0, st)), head),
            at(x, b, s0, st).seen,
        ),
    decreases head_size(head), 6nat,
{
    broadcast use {group_state, group_spares, lemma_fitted};

    reveal(head_expression);
    let s = at(x, b, s0, st);
    match head {
        HeadExpression::Simple(simple) => sim_simple_expression(x, b, s0, st, simple),
        HeadExpression::UnaryOperator(op, e) => {
            lemma_expression(st, e);
            sim_expression(x, b, s0, st, e);
            if let Ok((st1, d)) = expression(st, e) {
                lemma_unary_operator(st1, op, d);
                if let Ok((st2, _)) = unary_operator(st1, op, d) {
                    if fitted(x, st2) {
                        sim_unary_operator(x, b, s0, st1, op, d, eval(x, env(st, s), e), s.seen);
                        assert(rest(st1, owned(d)) =~= rest(st, Set::empty()));
                    }
                }
            }
        },
    }
}

/// A new register holds the result of an instruction.
#[verifier::spinoff_prover]
pub proof fn sim_result(
    x: Setting,
    b: int,
    s0: Machine,
    st: State,
    st1: State,
    dest: RegisterIndex,
    op: OpCode,
    v: Val,
)
    requires
        inv(st),
        arrives(x, b, s0, st),
        allocate(st) == done(st1, dest),
        straight(op),
        effect(x, op, at(x, b, s0, st)) == at(x, b, s0, st).set(dest, v),
    ensures
        arrives(x, b, s0, emit(st1, op)),
        frame(at(x, b, s0, st), at(x, b, s0, emit(st1, op)), used(st)),
        at(x, b, s0, emit(st1, op)).seen == at(x, b, s0, st).seen,
        env(emit(st1, op), at(x, b, s0, emit(st1, op))) == env(st, at(x, b, s0, st)),
        meant(x, b, s0, emit(st1, op), temporary(dest)) == plain(v, 0),
{
    broadcast use group_state;

    lemma_allocate(st);
    sim_allocate(x, b, s0, st);
    lemma_go(x, b, s0, st1, op);
    reveal(arrives);
    lemma_rest_empty(st);
    lemma_locals_in(st, Set::empty());
    lemma_env_kept(st, emit(st1, op), at(x, b, s0, st), at(x, b, s0, emit(st1, op)), used(st));
}

#[verifier::spinoff_prover]
proof fn sim_simple_expression(x: Setting, b: int, s0: Machine, st: State, e: SimpleExpression)
    requires
        inv(st),
        means(x),
        arrives(x, b, s0, st),
    ensures
        evaluates(
            x,
            b,
            s0,
            st,
            Set::empty(),
            simple_expression(st, e),
            simple_eval(x, env(st, at(x, b, s0, st)), e),
            at(x, b, s0, st).seen,
        ),
    decreases simple_size(e), 6nat,
{
    broadcast use {group_state, group_spares, lemma_fitted};

    reveal(simple_expression);
    lemma_rest_empty(st);
    match e {
        SimpleExpression::TableConstructor(t) => {
            reveal(table_constructor);
            if let Ok((st1, dest)) = allocate(st) {
                sim_result(x, b, s0, st, st1, dest, OpCode::NewTable { dest }, x.table);
            }
        },
        SimpleExpression::Function(f) => {
            reveal(function_expression);
            lemma_new_prototype(st, f);
            if let Ok((st1, proto)) = new_prototype(st, f) {
                lemma_closure(st1, proto);
                if let Ok((st2, dest)) = closure(st1, proto) {
                    if fitted(x, st2) {
                        sim_closure(x, b, s0, st, f);
                    }
                }
            }
        },
        SimpleExpression::Suffixed(s) => sim_suffixed_expression(x, b, s0, st, s),
        _ => {},
    }
}

/// The closure of a function that was compiled from its definition.
#[verifier::spinoff_prover]
pub proof fn sim_closure(x: Setting, b: int, s0: Machine, st: State, f: FunctionDefinition)
    requires
        inv(st),
        means(x),
        arrives(x, b, s0, st),
    ensures
        new_prototype(st, f) matches Ok((st1, proto)) ==> {
            &&& arrives(x, b, s0, st1)
            &&& at(x, b, s0, st1) == at(x, b, s0, st)
            &&& fitted(x, st1) ==> (x.closure)(x.prototypes[proto.0 as int]) == (x.function)(f)
        },
        new_prototype(st, f) matches Ok((st1, proto)) ==> (closure(st1, proto) matches Ok(
            (st2, dest),
        ) ==> (fitted(x, st2) ==> {
            &&& arrives(x, b, s0, st2)
            &&& frame(at(x, b, s0, st), at(x, b, s0, st2), used(st))
            &&& at(x, b, s0, st2).seen == at(x, b, s0, st).seen
            &&& env(st2, at(x, b, s0, st2)) == env(st, at(x, b, s0, st))
            &&& meant(x, b, s0, st2, temporary(dest)) == plain((x.function)(f), 0)
        })),
{
    broadcast use {group_state, group_spares, lemma_fitted};

    reveal(new_prototype);
    reveal(add_prototype);
    lemma_new_prototype(st, f);
    lemma_compile_function(st, f.parameters@, f.has_varargs, f.body);
    if let Ok((st1, proto)) = new_prototype(st, f) {
        lemma_still(x, b, s0, st, st1);
        let p = compile_function(st, f.parameters@, f.has_varargs, f.body)->Ok_0.1;
        assert(compiled_from(p, f));
        assert(current(st1).prototypes[proto.0 as int] == p);
        if fitted(x, st1) {
            assert(x.prototypes[proto.0 as int] == p) by {
                reveal(fitted);
            }
            assert((x.closure)(p) == (x.function)(f));
        }
        lemma_closure(st1, proto);
        reveal(closure);
        if let Ok((st2, dest)) = allocate(st1) {
            let op = OpCode::Closure { proto, dest };
            if fitted(x, emit(st2, op)) {
                assert(fitted(x, st1));
                sim_result(x, b, s0, st1, st2, dest, op, (x.function)(f));
            }
        }
    }
}

#[verifier::spinoff_prover]
pub proof fn sim_suffixed_expression(
    x: Setting,
    b: int,
    s0: Machine,
    st: State,
    suffixed: SuffixedExpression,
)
    requires
        inv(st),
        means(x),
        arrives(x, b, s0, st),
    ensures
        evaluates(
            x,
            b,
            s0,
            st,
            Set::empty(),
            suffixed_expression(st, suffixed),
            suffixed_eval(x, env(st, at(x, b, s0, st)), suffixed),
            at(x, b, s0, st).seen,
        ),
    decreases suffixed_size(suffixed), 6nat,
{
    broadcast use {group_state, group_spares, lemma_fitted};

    reveal(suffixed_expression);
    let s = at(x, b, s0, st);
    let k = primary_eval(x, env(st, s), suffixed.primary);
    lemma_primary_expression(st, suffixed.primary);
    sim_primary_expression(x, b, s0, st, suffixed.primary);
    if let Ok((st1, d)) = primary_expression(st, suffixed.primary) {
        lemma_suffixed_rest(st1, d, suffixed.suffixes@, 0);
        if let Ok((st2, _)) = suffixed_rest(st1, d, suffixed.suffixes@, 0) {
            if fitted(x, st2) {
                sim_suffixed_rest(x, b, s0, st1, d, k, suffixed.suffixes@, 0, s.seen);
                assert(rest(st1, owned(d)) =~= rest(st, Set::empty()));
            }
        }
    }
}

#[verifier::spinoff_prover]
proof fn sim_suffixed_rest(
    x: Setting,
    b: int,
    s0: Machine,
    st: State,
    desc: Desc,
    known: Known,
    suffixes: Seq<SuffixPart>,
    i: int,
    seen: int,
)
    requires
        inv(st),
        means(x),
        arrives(x, b, s0, st),
        holds(st, desc),
        0 <= i <= suffixes.len(),
        stands(x, b, s0, st, desc, known, seen),
    ensures
        evaluates(
            x,
            b,
            s0,
            st,
            owned(desc),
            suffixed_rest(st, desc, suffixes, i),
            suffixes_eval(x, env(st, at(x, b, s0, st)), known, suffixes, i),
            seen,
        ),
    decreases weight(desc) + suffixes_size(suffixes, i), 6nat,
{
    broadcast use {group_state, group_spares, lemma_fitted};

    reveal(suffixed_rest);
    let e = env(st, at(x, b, s0, st));
    if i < suffixes.len() {
        lemma_suffix(st, desc, suffixes[i]);
        sim_suffix(x, b, s0, st, desc, known, suffixes[i], seen);
        if let Ok((st1, d)) = suffix(st, desc, suffixes[i]) {
            let k = suffix_eval(x, e, known, suffixes[i]);
            lemma_suffixed_rest(st1, d, suffixes, i + 1);
            if let Ok((st2, _)) = suffixed_rest(st1, d, suffixes, i + 1) {
                if fitted(x, st2) {
                    sim_suffixed_rest(x, b, s0, st1, d, k, suffixes, i + 1, seen);
                    assert(rest(st1, owned(d)) =~= rest(st, owned(desc)));
                }
            }
        }
    }
}

#[verifier::spinoff_prover]
proof fn sim_suffix(
    x: Setting,
    b: int,
    s0: Machine,
    st: State,
    desc: Desc,
    known: Known,
    part: SuffixPart,
    seen: int,
)
    requires
        inv(st),
        means(x),
        arrives(x, b, s0, st),
        holds(st, desc),
        stands(x, b, s0, st, desc, known, seen),
    ensures
        evaluates(
            x,
            b,
            s0,
            st,
            owned(desc),
            suffix(st, desc, part),
            suffix_eval(x, env(st, at(x, b, s0, st)), known, part),
            seen,
        ),
    decreases weight(desc) + suffix_size(part), 5nat,
{
    broadcast use {group_state, group_spares, lemma_fitted};

    reveal(suffix);
    let s = at(x, b, s0, st);
    let e = env(st, s);
    lemma_owned(current(st), desc);
    lemma_rest_empty(st);
    lemma_locals_in(st, Set::empty());
    match part {
        SuffixPart::Field(field) => {
            lemma_field_key(st, field);
            sim_field_key(x, b, s0, st, field);
            if let Ok((st1, key)) = field_key(st, field) {
                lemma_aside(st, Set::empty(), st1, key, desc);
                lemma_read_field(st1, desc, key);
                if let Ok((st2, d)) = read_field(st1, desc, key) {
                    if fitted(x, st2) {
                        lemma_meant(x, b, s0, st, st1, used(st), desc);
                        sim_read_field(
                            x,
                            b,
                            s0,
                            st1,
                            desc,
                            key,
                            known,
                            field_eval(x, e, field),
                            seen,
                        );
                        assert(rest(st1, owned(desc).union(owned(key))) =~= rest(st, owned(desc)));
                    }
                }
            }
        },
        SuffixPart::Call(CallSuffix::Function(args)) => {
            let none = Seq::<Desc>::empty();
            let nothing = Seq::<Known>::empty();
            lemma_expressions(st, args@, 0, none);
            assert(owned_list(none, 0) =~= Set::<int>::empty());
            if let Ok((st1, ds)) = expressions(st, args@, 0, none) {
                if fitted(x, st1) {
                    assert(0 == calls_from(nothing, 0));
                    sim_expressions(x, b, s0, st, args@, 0, none, nothing, s.seen);
                    let all = evals(x, e, args@, 0);
                    assert(nothing + all =~= all);
                    lemma_meant(x, b, s0, st, st1, used(st), desc);
                    lemma_meanings(x, e, at(x, b, s0, st1), ds, 0);
                    lemma_call_meant(x, b, s0, st1, desc, known, ds, all, s.seen, seen);
                    assert(rest(st, owned(desc)).subset_of(used(st)));
                }
            }
        },
        SuffixPart::Call(CallSuffix::Method(_, _)) => {},
    }
}

/// The same meanings.
pub open spec fn alike(a: Seq<Known>, b: Seq<Known>) -> bool {
    &&& a.len() == b.len()
    &&& forall|j: int| 0 <= j < a.len() ==> (#[trigger] a[j]).meaning == b[j].meaning
}

pub proof fn lemma_alike(x: Setting, a: Seq<Known>, b: Seq<Known>)
    requires
        alike(a, b),
    ensures
        handed(x, a) == handed(x, b),
{
    if a.len() > 0 {
        assert(a[a.len() - 1].meaning == b[a.len() - 1].meaning);
    }
    assert(handed(x, a) =~= handed(x, b));
}

/// A call of what is meant with what is meant.
pub proof fn lemma_call_meant(
    x: Setting,
    b: int,
    s0: Machine,
    st: State,
    func: Desc,
    known: Known,
    args: Seq<Desc>,
    all: Seq<Known>,
    before: int,
    seen: int,
)
    requires
        meant(x, b, s0, st, func).meaning == known.meaning,
        (before + meant(x, b, s0, st, func).calls) == (seen + known.calls),
        alike(
            desc_meanings(x, env(st, at(x, b, s0, st)), at(x, b, s0, st), args, 0),
            all,
        ),
        (at(x, b, s0, st).seen + calls_from(
            desc_meanings(x, env(st, at(x, b, s0, st)), at(x, b, s0, st), args, 0),
            0,
        )) == (before + calls_from(all, 0)),
    ensures
        stands(
            x,
            b,
            s0,
            st,
            Desc::FunctionCall { func: Box::new(func), args },
            called(x, known, all),
            seen,
        ),
{
    let s = at(x, b, s0, st);
    lemma_alike(x, desc_meanings(x, env(st, s), s, args, 0), all);
}

#[verifier::spinoff_prover]
pub proof fn sim_field_key(x: Setting, b: int, s0: Machine, st: State, field: FieldSuffix)
    requires
        inv(st),
        means(x),
        arrives(x, b, s0, st),
    ensures
        evaluates(
            x,
            b,
            s0,
            st,
            Set::empty(),
            field_key(st, field),
            field_eval(x, env(st, at(x, b, s0, st)), field),
            at(x, b, s0, st).seen,
        ),
    decreases field_size(field), 6nat,
{
    broadcast use {group_state, group_spares, lemma_fitted};

    reveal(field_key);
    if let FieldSuffix::Indexed(e) = field {
        sim_expression(x, b, s0, st, e);
    }
}

proof fn lemma_calls_from_push(all: Seq<Known>, k: Known, i: int)
    requires
        0 <= i <= all.len(),
    ensures
        calls_from(all.push(k), i) == (calls_from(all, i) + k.calls),
    decreases all.len() - i,
{
    if i < all.len() {
        lemma_calls_from_push(all, k, i + 1);
    } else {
        assert(0 == calls_from(all.push(k), i + 1));
    }
}

#[verifier::spinoff_prover]
pub proof fn sim_expressions(
    x: Setting,
    b: int,
    s0: Machine,
    st: State,
    es: Seq<Expression>,
    i: int,
    done: Seq<Desc>,
    all: Seq<Known>,
    seen: int,
)
    requires
        inv(st),
        means(x),
        arrives(x, b, s0, st),
        0 <= i <= es.len(),
        holds_list(st, done, 0),
        alike(desc_meanings(x, env(st, at(x, b, s0, st)), at(x, b, s0, st), done, 0), all),
        (at(x, b, s0, st).seen + calls_from(
            desc_meanings(x, env(st, at(x, b, s0, st)), at(x, b, s0, st), done, 0),
            0,
        )) == (seen + calls_from(all, 0)),
    ensures
        expressions(st, es, i, done) matches Ok((st1, ds)) ==> (fitted(x, st1) ==> {
            let s = at(x, b, s0, st);
            let s1 = at(x, b, s0, st1);
            let whole = all + evals(x, env(st, s), es, i);
            &&& arrives(x, b, s0, st1)
            &&& frame(s, s1, used(st))
            &&& env(st1, s1) == env(st, s)
            &&& alike(desc_meanings(x, env(st1, s1), s1, ds, 0), whole)
            &&& (s1.seen + calls_from(desc_meanings(x, env(st1, s1), s1, ds, 0), 0)) == (seen
                + calls_from(whole, 0))
        }),
    decreases expressions_size(es, i), 6nat,
{
    broadcast use {group_state, group_spares, lemma_fitted};

    reveal(expressions);
    let s = at(x, b, s0, st);
    let e = env(st, s);
    lemma_rest_empty(st);
    lemma_locals_in(st, Set::empty());
    lemma_owned_list(current(st), done, 0);
    if i < es.len() {
        lemma_expression(st, es[i]);
        sim_expression(x, b, s0, st, es[i]);
        if let Ok((st1, d)) = expression(st, es[i]) {
            lemma_keep_list(st, st1, done, 0);
            lemma_list_push(done, d, 0);
            lemma_fits_push(current(st1), done, d, 0);
            assert(owned_list(done, 0).disjoint(owned(d)));
            let k = eval(x, e, es[i]);
            lemma_expressions(st1, es, i + 1, done.push(d));
            if let Ok((st2, ds)) = expressions(st1, es, i + 1, done.push(d)) {
                if fitted(x, st2) {
                    let s1 = at(x, b, s0, st1);
                    let was = desc_meanings(x, e, s, done, 0);
                    let is = desc_meanings(x, e, s1, done.push(d), 0);
                    let dk = meant(x, b, s0, st1, d);
                    lemma_meanings_kept(x, e, current(st), s, s1, done, 0);
                    lemma_meanings(x, e, s1, done, 0);
                    lemma_meanings(x, e, s1, done.push(d), 0);
                    assert(is =~= was.push(dk)) by {
                        assert forall|j: int| 0 <= j < is.len() implies #[trigger] is[j]
                            == was.push(dk)[j] by {
                            assert(is[j - 0] == desc_meaning(x, e, s1, done.push(d)[j]));
                            if j < done.len() {
                                assert(was[j - 0] == desc_meaning(x, e, s1, done[j]));
                            }
                        }
                    }
                    lemma_calls_from_push(was, dk, 0);
                    lemma_calls_from_push(all, k, 0);
                    sim_expressions(x, b, s0, st1, es, i + 1, done.push(d), all.push(k), seen);
                    assert(all.push(k) + evals(x, e, es, i + 1) =~= all + evals(x, e, es, i));
                    assert(used(st).subset_of(used(st1)));
                }
            }
        }
    } else {
        assert(all + evals(x, e, es, i) =~= all);
    }
}

#[verifier::spinoff_prover]
proof fn sim_primary_expression(
    x: Setting,
    b: int,
    s0: Machine,
    st: State,
    primary: PrimaryExpression,
)
    requires
        inv(st),
        means(x),
        arrives(x, b, s0, st),
    ensures
        evaluates(
            x,
            b,
            s0,
            st,
            Set::empty(),
            primary_expression(st, primary),
            primary_eval(x, env(st, at(x, b, s0, st)), primary),
            at(x, b, s0, st).seen,
        ),
    decreases primary_size(primary), 6nat,
{
    broadcast use {group_state, group_spares, lemma_fitted};

    reveal(primary_expression);
    let s = at(x, b, s0, st);
    match primary {
        PrimaryExpression::Name(name) => {
            lemma_find_variable(st, name@);
            sim_find_variable(x, b, s0, st, name@);
            if let Ok((st1, Variable::Global(n))) = find_variable(st, name@) {
                lemma_environment(st1);
                if let Ok((st2, env)) = get_environment(st1) {
                    let key = Desc::Value(ValueView::String(n));
                    lemma_read_field(st2, env, key);
                    assert(owned(env).union(owned(key)) =~= Set::<int>::empty());
                    lemma_rest_empty(st);
                    lemma_rest_empty(st2);
                    if let Ok((st3, _)) = read_field(st2, env, key) {
                        if fitted(x, st3) {
                            assert(fitted(x, st1));
                            sim_get_environment(x, b, s0, st1);
                            sim_read_field(
                                x,
                                b,
                                s0,
                                st2,
                                env,
                                key,
                                meant(x, b, s0, st2, env),
                                meant(x, b, s0, st2, key),
                                s.seen,
                            );
                        }
                    }
                }
            }
        },
        PrimaryExpression::GroupedExpression(e) => sim_expression(x, b, s0, st, e),
    }
}

#[verifier::spinoff_prover]
proof fn sim_unary_operator(
    x: Setting,
    b: int,
    s0: Machine,
    st: State,
    op: UnaryOperator,
    operand: Desc,
    known: Known,
    seen: int,
)
    requires
        inv(st),
        means(x),
        arrives(x, b, s0, st),
        holds(st, operand),
        stands(x, b, s0, st, operand, known, seen),
    ensures
        evaluates(
            x,
            b,
            s0,
            st,
            owned(operand),
            unary_operator(st, op, operand),
            meaning::unary(x, op, known),
            seen,
        ),
    decreases weight(operand), 4nat,
{
    broadcast use {group_state, group_spares, lemma_fitted};

    reveal(unary_operator);
    let o = owned(operand);
    let s = at(x, b, s0, st);
    lemma_owned(current(st), operand);
    lemma_locals_in(st, o);
    let folded = match operand {
        Desc::Value(v) => unop_fold(op, v),
        _ => None,
    };
    if folded is None && op != UnaryOperator::Not {
        lemma_operand_register(st, operand);
        sim_operand_register(x, b, s0, st, operand);
        if let Ok((st1, source)) = operand_register(st, operand) {
            lemma_allocate(st1);
            if let Ok((st2, dest)) = allocate(st1) {
                let instruction = unop_instruction(op, dest, source);
                lemma_emit(st2, instruction);
                let st3 = emit(st2, instruction);
                if fitted(x, st3) {
                    let v = (x.unary)(op, value(x, known.meaning));
                    sim_result(x, b, s0, st1, st2, dest, instruction, v);
                    lemma_env_kept(st, st1, s, at(x, b, s0, st1), rest(st, o));
                }
            }
        }
    }
}

#[verifier::spinoff_prover]
proof fn sim_binary_operator(
    x: Setting,
    b: int,
    s0: Machine,
    st: State,
    left: Desc,
    known: Known,
    op: BinaryOperator,
    right: Expression,
    seen: int,
)
    requires
        inv(st),
        means(x),
        arrives(x, b, s0, st),
        holds(st, left),
        stands(x, b, s0, st, left, known, seen),
    ensures
        evaluates(
            x,
            b,
            s0,
            st,
            owned(left),
            binary_operator(st, left, op, right),
            meaning::binary(x, op, known, eval(x, env(st, at(x, b, s0, st)), right)),
            seen,
        ),
    decreases weight(left) + expression_size(right), 5nat,
{
    broadcast use {group_state, group_spares, lemma_fitted};

    reveal(binary_operator);
    let o = owned(left);
    let s = at(x, b, s0, st);
    let e = env(st, s);
    let rk = eval(x, e, right);
    lemma_owned(current(st), left);
    lemma_rest_empty(st);
    lemma_locals_in(st, Set::empty());
    assert(rest(st, o).subset_of(used(st)));
    if !(category(op) is ShortCircuit) {
        lemma_expression(st, right);
        sim_expression(x, b, s0, st, right);
        if let Ok((st1, r)) = expression(st, right) {
            lemma_aside(st, Set::empty(), st1, r, left);
            lemma_owned(current(st1), left);
            lemma_owned(current(st1), r);
            if fitted(x, st1) {
                lemma_meant(x, b, s0, st, st1, used(st), left);
            }
            if let BinOpCategory::Simple(op) = category(op) {
                reveal(simple_operation);
                lemma_operands(st1, left, r);
                sim_operands_if(x, b, s0, st1, left, r);
                if let Ok((st2, (lo, ro))) = operands(st1, left, r) {
                    lemma_allocate(st2);
                    if let Ok((st3, dest)) = allocate(st2) {
                        let instruction = OpCode::Simple { op, dest, left: lo, right: ro };
                        let st4 = emit(st3, instruction);
                        lemma_emit(st3, instruction);
                        if fitted(x, st4) {
                            assert(fitted(x, st1));
                            let v = (x.simple)(
                                op,
                                value(x, known.meaning),
                                value(x, rk.meaning),
                            );
                            let both = owned(left).union(owned(r));
                            sim_result(x, b, s0, st2, st3, dest, instruction, v);
                            lemma_locals_in(st1, both);
                            lemma_env_kept(
                                st1,
                                st2,
                                at(x, b, s0, st1),
                                at(x, b, s0, st2),
                                rest(st1, both),
                            );
                            assert(rest(st1, both) =~= rest(st, o));
                        }
                    }
                }
            }
        }
    }
}

/// As `sim_operands`, where execution gets there.
proof fn sim_operands_if(x: Setting, b: int, s0: Machine, st: State, left: Desc, right: Desc)
    requires
        inv(st),
        means(x),
        holds(st, left),
        holds(st, right),
        owned(left).disjoint(owned(right)),
    ensures
        arrives(x, b, s0, st) ==> (operands(st, left, right) matches Ok((st1, (l, r))) ==> (fitted(
            x,
            st1,
        ) ==> {
            &&& passes(
                x,
                b,
                s0,
                st,
                st1,
                rest(st, owned(left).union(owned(right))),
                meant(x, b, s0, st, left).calls + meant(x, b, s0, st, right).calls,
            )
            &&& at(x, b, s0, st1).operand(x, l) == value(x, meant(x, b, s0, st, left).meaning)
            &&& at(x, b, s0, st1).operand(x, r) == value(x, meant(x, b, s0, st, right).meaning)
        })),
    decreases weight(left) + weight(right), 4nat,
{
    if arrives(x, b, s0, st) {
        sim_operands(x, b, s0, st, left, right);
    }
}

} // verus!
