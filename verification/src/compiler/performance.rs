//! Statements do what they mean when the instructions are executed.

use crate::compiler::delivery::{
    lemma_alike, lemma_call_meant, lemma_locals_in, lemma_meant, meant, sim_allocate,
    sim_any_register, sim_closure, sim_discharge, sim_expr_function_call, sim_expression,
    sim_expressions, sim_field_key, sim_find_variable, sim_get_environment, sim_operand_register,
    sim_operands, sim_release, sim_result, sim_suffixed_expression, sim_write_field, stands,
};
use crate::compiler::effects::group_spares;
use crate::compiler::evaluation::{
    lemma_closure, lemma_environment, lemma_expression, lemma_expressions, lemma_field_key,
    lemma_local, lemma_suffixed_expression,
};
use crate::compiler::execution::{
    all_pending, between_arms, lemma_assign, lemma_assigned_value, lemma_assignments, lemma_block,
    lemma_condition, lemma_if_arm, lemma_if_arms, lemma_local_call, lemma_local_function,
    lemma_local_values, lemma_new_prototype, lemma_one_closed, lemma_push_returns,
    lemma_return_statement, lemma_statement, lemma_statements, lemma_still_pending, pending,
    stacked,
};
use crate::compiler::machine::{
    effect, lemma_run_on, lemma_run_returned, lemma_run_same, lemma_walk_close, lemma_walk_on,
    lemma_walk_run, lemma_walk_same, run, skipped, walk, Flow, Machine, Setting, Val, Way,
};
use crate::compiler::meaning::{
    assign_all, assign_to, calls_from, condition_holds, constant, declare_all, declare_values,
    desc_meanings, environment, eval, evals, exec_arm, exec_arms, exec_block, exec_call,
    exec_statement, exec_statements, handed, newest_at, suffixed_eval, value, variable, Course, Env,
    Known, Progress, Store,
};
use crate::compiler::model;
use crate::compiler::model::{
    allocate, any_register, assign, assigned_value, assignment, assignments, bind, bind_names,
    block, closure, compile_function, condition, current, discharge, emit, end_scope,
    expr_function_call, expression, expressions, field_key, find_variable, finish, free_locals,
    free_register, function_call, function_statement, get_environment, held, here, if_arm, if_arms,
    if_statement, jump_here, jump_placeholder, jumps_here, load_nil, local_call, local_function,
    local_nils, local_statement, local_values, new_function, new_prototype, newest_local,
    operand_register, operands, pop_to, push_registers, push_returns, release, return_statement,
    settle, statements, suffixed_expression, temporary, write_field, Desc, ExprDestination, State,
    Variable,
};
use crate::compiler::names::{home, lemma_find_variable};
use crate::compiler::order::{
    evolves, group_state, inv, is_local, lemma_allocate, lemma_emit, lemma_emit_pair, lemma_height,
    lemma_load_nil, lemma_push_registers, lemma_settle, lengthens, used,
};
use crate::compiler::ownership::{
    holds, lemma_keep, lemma_owned, lemma_release, local_registers, owned, owned_list, rest, spare,
};
use crate::compiler::placing::{
    kept_at, lemma_any_register, lemma_aside, lemma_discharge, lemma_expr_function_call,
    lemma_fresh, lemma_operand_register, lemma_operands, lemma_rest_empty, number,
};
use crate::compiler::register_allocator::{height, REGISTERS};
use crate::compiler::scope::{
    clean, lemma_bind_clean, lemma_clean, lemma_end_scope, lemma_new_function,
};
use crate::compiler::simulation::{
    arrives, at, entry, env, env_of, fitted, flow, frame, lemma_env_kept, lemma_fitted,
    lemma_fitted_jump, lemma_go, lemma_go_nil, lemma_still, means, outside,
};
use crate::compiler::size::{
    arms_size, block_size, expression_size, expressions_size, statement_size, statements_size,
};
use crate::compiler::tables::lemma_write_field;
use crate::opcode::{OpCode, RegisterIndex, VarCount};
use crate::parser::{
    AssignmentTarget, Block, CallSuffix, Expression, FunctionCallStatement, FunctionStatement,
    IfStatement, ReturnStatement, Statement,
};
use crate::value::ValueView;
use vstd::prelude::*;

verus! {

// ---------------------------------------------------------------------------------------------
// What is to be shown

/// The variables and what has happened.
pub open spec fn store(st: State, s: Machine) -> Store {
    Store { env: env(st, s), events: s.events, seen: s.seen }
}

/// What is left when the function has been left.
pub open spec fn same_outside(s: Machine, store: Store) -> bool {
    &&& s.cells == store.env.cells
    &&& s.events == store.events
    &&& s.seen == store.seen
}

/// Execution takes the course that is meant.
pub open spec fn follows(x: Setting, b: int, s0: Machine, st: State, course: Course) -> bool {
    match course {
        Course::Goes(s) => arrives(x, b, s0, st) && store(st, at(x, b, s0, st)) == s,
        Course::Returns(_, s) => flow(x, b, s0, st) matches Flow::Returned(_, s1) && same_outside(
            s1,
            s,
        ),
    }
}

/// A function that has been left stays left.
proof fn lemma_returned(x: Setting, b: int, s0: Machine, st: State, st1: State)
    requires
        flow(x, b, s0, st) is Returned,
        0 <= b,
        evolves(st, st1),
    ensures
        flow(x, b, s0, st1) == flow(x, b, s0, st),
{
    broadcast use group_state;

    reveal(flow);
    let a = current(st).opcodes;
    let c = current(st1).opcodes;
    assert(b < a.len());
    assert forall|i: int| b <= i < a.len() - 1 implies a[i] == c[i] by {
        assert(a[i] == c[i] || i == a.len() - 1);
    }
    assert(a[a.len() - 1] == c[a.len() - 1] || lengthens(a[a.len() - 1], c[a.len() - 1]));
    lemma_run_returned(x, a, c, b, s0);
}

// ---------------------------------------------------------------------------------------------
// Blocks

pub proof fn lemma_free_locals_code(st: State, locals: Seq<(Seq<u8>, RegisterIndex)>, i: int)
    requires
        st.len() > 0,
    ensures
        free_locals(st, locals, i) matches Ok((st1, _)) ==> {
            &&& st1.len() == st.len()
            &&& current(st1).opcodes == current(st).opcodes
            &&& current(st1).landing == current(st).landing
            &&& current(st1).locals == current(st).locals
        },
    decreases locals.len() - i,
{
    reveal(free_register);
    if 0 <= i < locals.len() {
        if let Ok((st1, _)) = free_register(st, locals[i].1) {
            lemma_free_locals_code(st1, locals, i + 1);
        }
    }
}

/// The end of a scope takes the locals out of it and does nothing else.
proof fn sim_end_scope(x: Setting, b: int, s0: Machine, st: State, kept: int, course: Course)
    requires
        st.len() > 0,
        0 <= kept,
        follows(x, b, s0, st, course),
    ensures
        end_scope(st, kept) matches Ok((st1, _)) ==> follows(
            x,
            b,
            s0,
            st1,
            match course {
                Course::Goes(s) => Course::Goes(s.leave(kept)),
                c => c,
            },
        ),
{
    reveal(end_scope);
    lemma_free_locals_code(st, current(st).locals, kept);
    if let Ok((st1, _)) = end_scope(st, kept) {
        match course {
            Course::Goes(s) => {
                lemma_still(x, b, s0, st, st1);
                let s1 = at(x, b, s0, st1);
                assert(env(st1, s1).locals =~= s.env.locals.take(kept));
                assert(store(st1, s1) =~= s.leave(kept));
            },
            _ => {
                reveal(flow);
            },
        }
    }
}

#[verifier::spinoff_prover]
pub proof fn sim_block(x: Setting, b: int, s0: Machine, st: State, blk: Block)
    requires
        inv(st),
        clean(st),
        means(x),
        arrives(x, b, s0, st),
    ensures
        block(st, blk) matches Ok((st1, _)) ==> (fitted(x, st1) ==> follows(
            x,
            b,
            s0,
            st1,
            exec_block(x, store(st, at(x, b, s0, st)), blk),
        )),
    decreases block_size(blk), 6nat,
{
    broadcast use {group_state, group_spares, lemma_fitted};

    reveal(block);
    let first_local = current(st).locals.len() as int;
    let s = store(st, at(x, b, s0, st));
    assert(s.env.locals.len() == first_local);
    assert(0 <= b) by {
        reveal(arrives);
    }
    lemma_statements(st, blk.statements@, 0);
    lemma_block(st, blk);
    if let Ok((st1, ())) = statements(st, blk.statements@, 0) {
        match blk.return_statement {
            Some(r) => {
                lemma_return_statement(st1, r);
                if let Ok((st2, ())) = return_statement(st1, r) {
                    lemma_end_scope(st, st2, first_local);
                    if let Ok((st3, ())) = end_scope(st2, first_local) {
                        if fitted(x, st3) {
                            lemma_fitted_scope(x, st2, first_local);
                            sim_statements(x, b, s0, st, blk.statements@, 0);
                            let course = exec_statements(x, s, blk.statements@, 0);
                            match course {
                                Course::Goes(s1) => {
                                    sim_return_statement(x, b, s0, st1, r);
                                },
                                _ => lemma_returned(x, b, s0, st1, st2),
                            }
                            let whole = exec_block(x, s, blk);
                            assert(follows(x, b, s0, st2, whole));
                            sim_end_scope(x, b, s0, st2, first_local, whole);
                        }
                    }
                }
            },
            None => {
                lemma_end_scope(st, st1, first_local);
                if let Ok((st2, ())) = end_scope(st1, first_local) {
                    if fitted(x, st2) {
                        lemma_fitted_scope(x, st1, first_local);
                        sim_statements(x, b, s0, st, blk.statements@, 0);
                        sim_end_scope(
                            x,
                            b,
                            s0,
                            st1,
                            first_local,
                            exec_statements(x, s, blk.statements@, 0),
                        );
                    }
                }
            },
        }
    }
}

/// The end of a scope changes nothing that the setting speaks of.
proof fn lemma_fitted_scope(x: Setting, st: State, kept: int)
    requires
        st.len() > 0,
        end_scope(st, kept) matches Ok((st1, _)) && fitted(x, st1),
    ensures
        fitted(x, st),
{
    reveal(end_scope);
    reveal(fitted);
    lemma_free_locals_below(st, current(st).locals, kept);
    let st1 = end_scope(st, kept)->Ok_0.0;
    assert forall|name: Seq<u8>| #[trigger] (x.outer)(name) == outside(st, name) by {
        assert((x.outer)(name) == outside(st1, name));
        lemma_home_prefix(st, st1, name, st.len() - 2);
    }
}

pub proof fn lemma_free_locals_below(st: State, locals: Seq<(Seq<u8>, RegisterIndex)>, i: int)
    requires
        st.len() > 0,
    ensures
        free_locals(st, locals, i) matches Ok((st1, _)) ==> {
            &&& st1.len() == st.len()
            &&& forall|k: int| 0 <= k < st.len() - 1 ==> #[trigger] st1[k] == st[k]
            &&& current(st1).constants == current(st).constants
            &&& current(st1).upvalues == current(st).upvalues
            &&& current(st1).prototypes == current(st).prototypes
        },
    decreases locals.len() - i,
{
    reveal(free_register);
    if 0 <= i < locals.len() {
        if let Ok((st1, _)) = free_register(st, locals[i].1) {
            lemma_free_locals_below(st1, locals, i + 1);
        }
    }
}

/// What a name stands for in a function depends on the functions up to it alone.
proof fn lemma_home_prefix(a: State, b: State, name: Seq<u8>, k: int)
    requires
        k < a.len(),
        k < b.len(),
        forall|j: int| 0 <= j <= k ==> (#[trigger] a[j]).locals == b[j].locals,
    ensures
        home(a, name, k) == home(b, name, k),
    decreases k + 1,
{
    if k >= 0 {
        assert(a[k].locals == b[k].locals);
        lemma_home_prefix(a, b, name, k - 1);
    }
}

#[verifier::spinoff_prover]
proof fn sim_statements(x: Setting, b: int, s0: Machine, st: State, ss: Seq<Statement>, i: int)
    requires
        inv(st),
        clean(st),
        means(x),
        arrives(x, b, s0, st),
        0 <= i <= ss.len(),
    ensures
        statements(st, ss, i) matches Ok((st1, _)) ==> (fitted(x, st1) ==> follows(
            x,
            b,
            s0,
            st1,
            exec_statements(x, store(st, at(x, b, s0, st)), ss, i),
        )),
    decreases statements_size(ss, i), 6nat,
{
    broadcast use {group_state, group_spares, lemma_fitted};

    reveal(statements);
    assert(0 <= b) by {
        reveal(arrives);
    }
    if i < ss.len() {
        lemma_statement(st, ss[i]);
        sim_statement(x, b, s0, st, ss[i]);
        if let Ok((st1, ())) = model::statement(st, ss[i]) {
            lemma_statements(st1, ss, i + 1);
            if let Ok((st2, ())) = statements(st1, ss, i + 1) {
                if fitted(x, st2) {
                    match exec_statement(x, store(st, at(x, b, s0, st)), ss[i]) {
                        Course::Goes(_) => sim_statements(x, b, s0, st1, ss, i + 1),
                        _ => lemma_returned(x, b, s0, st1, st2),
                    }
                }
            }
        }
    }
}

#[verifier::spinoff_prover]
pub proof fn sim_statement(x: Setting, b: int, s0: Machine, st: State, statement: Statement)
    requires
        inv(st),
        clean(st),
        means(x),
        arrives(x, b, s0, st),
    ensures
        model::statement(st, statement) matches Ok((st1, _)) ==> (fitted(x, st1) ==> follows(
            x,
            b,
            s0,
            st1,
            exec_statement(x, store(st, at(x, b, s0, st)), statement),
        )),
    decreases statement_size(statement), 6nat,
{
    reveal(model::statement);
    match statement {
        Statement::If(s) => sim_if_statement(x, b, s0, st, s),
        Statement::Do(blk) => sim_block(x, b, s0, st, blk),
        Statement::Function(s) => sim_function_statement(x, b, s0, st, s),
        Statement::LocalFunction(s) => sim_local_function(x, b, s0, st, s),
        Statement::LocalStatement(s) => {
            reveal(local_statement);
            sim_local_values(x, b, s0, st, s.names@, s.values@, 0);
        },
        Statement::FunctionCall(s) => sim_function_call(x, b, s0, st, s),
        Statement::Assignment(s) => {
            reveal(assignment);
            sim_assignments(x, b, s0, st, s.targets@, s.values@, 0);
        },
        _ => {},
    }
}

// ---------------------------------------------------------------------------------------------
// Functions

#[verifier::spinoff_prover]
proof fn sim_function_statement(x: Setting, b: int, s0: Machine, st: State, s: FunctionStatement)
    requires
        inv(st),
        clean(st),
        means(x),
        arrives(x, b, s0, st),
    ensures
        function_statement(st, s) matches Ok((st1, _)) ==> (fitted(x, st1) ==> follows(
            x,
            b,
            s0,
            st1,
            exec_statement(x, store(st, at(x, b, s0, st)), Statement::Function(s)),
        )),
{
    broadcast use {group_state, group_spares, lemma_fitted};

    reveal(function_statement);
    lemma_new_prototype(st, s.definition);
    sim_closure(x, b, s0, st, s.definition);
    if let Ok((st1, proto)) = new_prototype(st, s.definition) {
        lemma_environment(st1);
        if let Ok((st2, d)) = get_environment(st1) {
            lemma_rest_empty(st2);
            lemma_closure(st2, proto);
            if let Ok((st3, dest)) = closure(st2, proto) {
                let key = Desc::Value(ValueView::String(s.name.name@));
                let content = temporary(dest);
                lemma_aside(st2, Set::empty(), st3, content, d);
                lemma_write_field(st3, d, key, content);
                if let Ok((st4, ())) = write_field(st3, d, key, content) {
                    if fitted(x, st4) {
                        assert(fitted(x, st3));
                        assert(fitted(x, st2));
                        assert(fitted(x, st1));
                        let m = at(x, b, s0, st);
                        sim_get_environment(x, b, s0, st1);
                        reveal(closure);
                        if let Ok((st5, dest)) = allocate(st2) {
                            let op = OpCode::Closure { proto, dest };
                            sim_result(x, b, s0, st2, st5, dest, op, (x.function)(s.definition));
                        }
                        lemma_locals_in(st2, Set::empty());
                        lemma_meant(x, b, s0, st2, st3, used(st2), d);
                        sim_write_field(x, b, s0, st3, d, key, content);
                        let o = owned(d).union(owned(key)).union(owned(content));
                        assert(used(st4) =~= used(st));
                        lemma_locals_in(st, Set::empty());
                        lemma_rest_empty(st);
                        assert(used(st).subset_of(rest(st3, o))) by {
                            assert(used(st4) == rest(st3, o));
                        }
                        let m4 = at(x, b, s0, st4);
                        assert(frame(m, Machine { events: m.events, ..m4 }, used(st)));
                        lemma_env_kept(
                            st,
                            st4,
                            m,
                            Machine { events: m.events, ..m4 },
                            used(st),
                        );
                        assert(env(st4, m4).locals =~= env(st, m).locals);
                        assert(store(st4, m4) =~= store(st, m).write(
                            environment(x, env(st, m)),
                            (x.constant)(ValueView::String(s.name.name@)),
                            (x.function)(s.definition),
                        ));
                    }
                }
            }
        }
    }
}

#[verifier::spinoff_prover]
proof fn sim_local_function(x: Setting, b: int, s0: Machine, st: State, s: FunctionStatement)
    requires
        inv(st),
        clean(st),
        means(x),
        arrives(x, b, s0, st),
    ensures
        local_function(st, s) matches Ok((st1, _)) ==> (fitted(x, st1) ==> follows(
            x,
            b,
            s0,
            st1,
            exec_statement(x, store(st, at(x, b, s0, st)), Statement::LocalFunction(s)),
        )),
{
    broadcast use {group_state, group_spares, lemma_fitted};

    reveal(local_function);
    lemma_local_function(st, s);
    lemma_new_prototype(st, s.definition);
    sim_closure(x, b, s0, st, s.definition);
    if let Ok((st1, proto)) = new_prototype(st, s.definition) {
        lemma_closure(st1, proto);
        if let Ok((st2, dest)) = closure(st1, proto) {
            let st3 = bind(st2, s.name.name@, dest);
            if fitted(x, st3) {
                lemma_fitted_bind(x, st2, s.name.name@, dest);
                sim_bind(x, b, s0, st2, s.name.name@, dest);
            }
        }
    }
}

/// A declaration changes nothing that the setting speaks of.
proof fn lemma_fitted_bind(x: Setting, st: State, name: Seq<u8>, r: RegisterIndex)
    requires
        st.len() > 0,
        fitted(x, bind(st, name, r)),
    ensures
        fitted(x, st),
{
    reveal(fitted);
    let st1 = bind(st, name, r);
    assert forall|name: Seq<u8>| #[trigger] (x.outer)(name) == outside(st, name) by {
        assert((x.outer)(name) == outside(st1, name));
        lemma_home_prefix(st, st1, name, st.len() - 2);
    }
}

/// A declaration gives a name the value of a register.
proof fn sim_bind(x: Setting, b: int, s0: Machine, st: State, name: Seq<u8>, r: RegisterIndex)
    requires
        st.len() > 0,
        arrives(x, b, s0, st),
    ensures
        arrives(x, b, s0, bind(st, name, r)),
        at(x, b, s0, bind(st, name, r)) == at(x, b, s0, st),
        store(bind(st, name, r), at(x, b, s0, st)) == store(st, at(x, b, s0, st)).declare(
            name,
            at(x, b, s0, st).get(r),
        ),
{
    let st1 = bind(st, name, r);
    let s = at(x, b, s0, st);
    lemma_still(x, b, s0, st, st1);
    assert(env(st1, s).locals =~= env(st, s).locals.push((name, s.get(r))));
    assert(store(st1, s) =~= store(st, s).declare(name, s.get(r)));
}

// ---------------------------------------------------------------------------------------------
// Return

/// Each value that is returned lies directly behind the one before, from `start` on.
pub open spec fn in_place(st: State, es: Seq<Expression>, i: int, start: int) -> bool
    decreases es.len() - i,
{
    0 <= i < es.len() ==> (expression(st, es[i]) matches Ok((st1, d)) ==> if i < es.len() - 1 {
        discharge(st1, d, ExprDestination::PushNew) matches Ok((st2, r)) ==> number(r) == start + i
            && in_place(st2, es, i + 1, start)
    } else {
        match d {
            Desc::FunctionCall { func, args } => expr_function_call(
                st1,
                *func,
                args,
                VarCount::variable(),
            ) matches Ok((_, r)) ==> r.0 == start + i,
            _ => discharge(st1, d, ExprDestination::PushNew) matches Ok((_, r)) ==> number(r)
                == start + i,
        }
    })
}

/// The values that are returned.
#[verifier::spinoff_prover]
proof fn sim_push_returns(
    x: Setting,
    b: int,
    s0: Machine,
    st: State,
    kept: Set<int>,
    start: RegisterIndex,
    es: Seq<Expression>,
    i: int,
    before: Seq<Known>,
)
    requires
        inv(st),
        means(x),
        arrives(x, b, s0, st),
        stacked(st, kept, start.0 as int),
        local_registers(current(st)).subset_of(kept),
        0 <= i < es.len(),
        before.len() == i,
    ensures
        push_returns(st, es, i) matches Ok((st1, count)) ==> (fitted(x, st1) ==> {
            let s = at(x, b, s0, st);
            let s1 = at(x, b, s0, st1);
            let all = evals(x, env(st, s), es, i);
            &&& arrives(x, b, s0, st1)
            &&& s1.cells == s.cells
            &&& s1.events == s.events
            &&& s1.seen == (s.seen + calls_from(all, 0))
            &&& in_place(st, es, i, start.0 as int) && (forall|j: int|
                0 <= j < i ==> used(st).contains(start.0 + j) && s.registers[start.0 + j] == value(
                    x,
                    (#[trigger] before[j]).meaning,
                )) ==> s1.values(start.0 as int, count) == handed(x, before + all)
        }),
    decreases expressions_size(es, i), 7nat,
{
    broadcast use {group_state, group_spares, lemma_fitted};

    reveal(push_returns);
    let s = at(x, b, s0, st);
    let e = env(st, s);
    let k = eval(x, e, es[i]);
    let push = ExprDestination::PushNew;
    let first = start.0 as int;
    lemma_rest_empty(st);
    lemma_locals_in(st, Set::empty());
    lemma_expression(st, es[i]);
    sim_expression(x, b, s0, st, es[i]);
    if let Ok((st1, d)) = expression(st, es[i]) {
        assert(rest(st1, owned(d)) =~= used(st));
        lemma_owned(current(st1), d);
        let good = in_place(st, es, i, first) && (forall|j: int|
            0 <= j < i ==> used(st).contains(first + j) && s.registers[first + j] == value(
                x,
                (#[trigger] before[j]).meaning,
            ));
        if i < es.len() - 1 {
            lemma_discharge(st1, d, push);
            if let Ok((st2, r)) = discharge(st1, d, push) {
                assert(number(r) >= first) by {
                    if first > 0 {
                        assert(used(st).contains(first - 1));
                        assert(used(st2).contains(first - 1));
                    }
                }
                assert(stacked(st2, kept, first));
                assert(local_registers(current(st2)) =~= local_registers(current(st)));
                lemma_push_returns(st2, kept, start, es, i + 1);
                if let Ok((st3, count)) = push_returns(st2, es, i + 1) {
                    if fitted(x, st3) {
                        sim_discharge(x, b, s0, st1, d, push);
                        let s2 = at(x, b, s0, st2);
                        assert(frame(s, s2, used(st)));
                        lemma_env_kept(st, st2, s, s2, used(st));
                        let more = before.push(k);
                        sim_push_returns(x, b, s0, st2, kept, start, es, i + 1, more);
                        let all = evals(x, e, es, i);
                        let left = evals(x, e, es, i + 1);
                        assert(all == seq![k] + left);
                        lemma_calls_from_front(k, left);
                        assert(more + left =~= before + all);
                        if good {
                            assert(number(r) == first + i);
                            assert forall|j: int| 0 <= j < i + 1 implies used(st2).contains(
                                first + j,
                            ) && s2.registers[first + j] == value(
                                x,
                                (#[trigger] more[j]).meaning,
                            ) by {
                                if j < i {
                                    assert(more[j] == before[j]);
                                    assert(used(st).contains(first + j));
                                }
                            }
                        }
                    }
                }
            }
        } else {
            let all = evals(x, e, es, i);
            let whole = before + all;
            assert(evals(x, e, es, i + 1) =~= Seq::<Known>::empty());
            assert(all =~= seq![k]);
            lemma_calls_from_front(k, Seq::<Known>::empty());
            assert(seq![k] + Seq::<Known>::empty() =~= seq![k]);
            assert(0 == calls_from(Seq::<Known>::empty(), 0));
            match d {
                Desc::FunctionCall { func, args } => {
                    let any = VarCount::variable();
                    lemma_expr_function_call(st1, *func, args, any);
                    if let Ok((st2, r)) = expr_function_call(st1, *func, args, any) {
                        if fitted(x, st2) {
                            sim_expr_function_call(x, b, s0, st1, *func, args, any);
                            let s2 = at(x, b, s0, st2);
                            assert(owned(d) == owned(*func).union(owned_list(args, 0)));
                            if good {
                                reveal(arrives);
                                assert forall|j: int| 0 <= j < i implies #[trigger]
                                    s2.registers[first + j] == value(x, before[j].meaning) by {
                                    assert(before[j] == before[j]);
                                    assert(used(st).contains(first + j));
                                }
                                assert(whole.last() == k);
                                assert(s2.values(first, any) =~= handed(x, whole));
                            }
                        }
                    }
                },
                _ => {
                    lemma_discharge(st1, d, push);
                    if let Ok((st2, r)) = discharge(st1, d, push) {
                        if fitted(x, st2) && es.len() < u8::MAX {
                            sim_discharge(x, b, s0, st1, d, push);
                            let s2 = at(x, b, s0, st2);
                            let count = VarCount::constant(es.len() as int);
                            if good {
                                reveal(arrives);
                                assert forall|j: int| 0 <= j < i implies #[trigger]
                                    s2.registers[first + j] == value(x, before[j].meaning) by {
                                    assert(before[j] == before[j]);
                                    assert(used(st).contains(first + j));
                                }
                                assert(s2.registers[first + i] == value(x, k.meaning));
                                assert(whole.last() == k);
                                assert(!(k.meaning is Results));
                                assert(s2.values(first, count) =~= handed(x, whole));
                            }
                        }
                    }
                },
            }
        }
    }
}

proof fn lemma_calls_from_front(k: Known, all: Seq<Known>)
    ensures
        calls_from(seq![k] + all, 0) == (k.calls + calls_from(all, 0)),
{
    lemma_calls_from_shift(k, all, 0);
}

proof fn lemma_calls_from_shift(k: Known, all: Seq<Known>, i: int)
    requires
        0 <= i <= all.len(),
    ensures
        calls_from(seq![k] + all, i + 1) == calls_from(all, i),
    decreases all.len() - i,
{
    if i < all.len() {
        assert((seq![k] + all)[i + 1] == all[i]);
        lemma_calls_from_shift(k, all, i + 1);
    }
}

/// A return leaves the function with the values that are meant, where each of them lies directly
/// behind the one before.
#[verifier::spinoff_prover]
pub proof fn sim_return_statement(x: Setting, b: int, s0: Machine, st: State, s: ReturnStatement)
    requires
        inv(st),
        clean(st),
        means(x),
        arrives(x, b, s0, st),
    ensures
        return_statement(st, s) matches Ok((st1, _)) ==> (fitted(x, st1) ==> {
            let m = at(x, b, s0, st);
            let all = evals(x, env(st, m), s.returns@, 0);
            &&& flow(x, b, s0, st1) matches Flow::Returned(values, m1)
            &&& m1.cells == m.cells
            &&& m1.events == m.events
            &&& m1.seen == (m.seen + calls_from(all, 0))
            &&& in_place(settle(st), s.returns@, 0, height(used(st), REGISTERS as int)) ==> values
                == handed(x, all)
        }),
{
    broadcast use {group_state, group_spares, lemma_fitted};

    reveal(return_statement);
    let m = at(x, b, s0, st);
    let es = s.returns@;
    lemma_return_statement(st, s);
    if es.len() == 0 {
        let op = OpCode::Return { start: RegisterIndex(0), count: VarCount::constant(0) };
        lemma_go_return(x, b, s0, st, op);
        let all = evals(x, env(st, m), es, 0);
        assert(all =~= Seq::<Known>::empty());
        assert(0 == calls_from(all, 0));
        assert(m.values(0, VarCount::constant(0)) =~= handed(x, all));
    } else {
        let st1 = settle(st);
        lemma_settle(st);
        lemma_height(used(st), REGISTERS as int);
        if current(st1).registers.top <= u8::MAX {
            let start = RegisterIndex(current(st1).registers.top as u8);
            assert(stacked(st1, used(st), start.0 as int));
            lemma_push_returns(st1, used(st), start, es, 0);
            if let Ok((st2, count)) = push_returns(st1, es, 0) {
                let op = OpCode::Return { start, count };
                let st3 = emit(st2, op);
                let st4 = pop_to(st3, start.0 as int);
                if fitted(x, st4) {
                    assert(fitted(x, st2)) by {
                        reveal(fitted);
                        assert forall|name: Seq<u8>| #[trigger]
                            (x.outer)(name) == outside(st2, name) by {
                            assert((x.outer)(name) == outside(st4, name));
                            lemma_home_prefix(st2, st4, name, st2.len() - 2);
                        }
                    }
                    lemma_still(x, b, s0, st, st1);
                    lemma_locals_in(st, Set::empty());
                    lemma_rest_empty(st);
                    assert(local_registers(current(st1)) =~= local_registers(current(st)));
                    let none = Seq::<Known>::empty();
                    sim_push_returns(x, b, s0, st1, used(st), start, es, 0, none);
                    let all = evals(x, env(st, m), es, 0);
                    assert(none + all =~= all);
                    lemma_go_return(x, b, s0, st2, op);
                    assert(flow(x, b, s0, st4) == flow(x, b, s0, st3)) by {
                        reveal(flow);
                    }
                }
            }
        }
    }
}

/// A return leaves the function.
proof fn lemma_go_return(x: Setting, b: int, s0: Machine, st: State, op: OpCode)
    requires
        inv(st),
        arrives(x, b, s0, st),
        op is Return,
    ensures
        flow(x, b, s0, emit(st, op)) == Flow::Returned(
            at(x, b, s0, st).values(op->start.0 as int, op->Return_count),
            at(x, b, s0, st),
        ),
{
    broadcast use group_state;

    reveal(arrives);
    reveal(flow);
    let code = current(st).opcodes;
    let more = current(emit(st, op)).opcodes;
    let n = code.len() as int;
    lemma_run_same(x, code, more, b, n, s0);
    lemma_run_on(x, more, b, n, n + 1, s0);
}

// ---------------------------------------------------------------------------------------------
// Local variables

proof fn sim_local_nils(x: Setting, b: int, s0: Machine, st: State, names: Seq<Box<[u8]>>, i: int)
    requires
        inv(st),
        clean(st),
        arrives(x, b, s0, st),
        0 <= i,
    ensures
        local_nils(st, names, i) matches Ok((st1, _)) ==> (fitted(x, st1) ==> {
            &&& arrives(x, b, s0, st1)
            &&& store(st1, at(x, b, s0, st1)) == declare_all(
                x,
                store(st, at(x, b, s0, st)),
                names,
                i,
                Seq::empty(),
                0,
            )
        }),
    decreases names.len() - i,
{
    sim_local_nils_from(x, b, s0, st, names, i, 0);
}

/// As `sim_local_nils`, behind values that there were.
proof fn sim_local_nils_from(
    x: Setting,
    b: int,
    s0: Machine,
    st: State,
    names: Seq<Box<[u8]>>,
    i: int,
    j: int,
)
    requires
        inv(st),
        clean(st),
        arrives(x, b, s0, st),
        0 <= i,
        0 <= j,
    ensures
        local_nils(st, names, i) matches Ok((st1, _)) ==> (fitted(x, st1) ==> {
            &&& arrives(x, b, s0, st1)
            &&& store(st1, at(x, b, s0, st1)) == declare_all(
                x,
                store(st, at(x, b, s0, st)),
                names,
                i,
                Seq::empty(),
                j,
            )
        }),
    decreases names.len() - i,
{
    broadcast use {group_state, lemma_fitted};

    if i < names.len() {
        lemma_allocate(st);
        sim_allocate(x, b, s0, st);
        if let Ok((st1, r)) = allocate(st) {
            lemma_load_nil(st1, r);
            lemma_go_nil(x, b, s0, st1, r);
            let st2 = load_nil(st1, r);
            assert(local_registers(current(st2)) =~= local_registers(current(st)));
            assert(!local_registers(current(st)).contains(r.0 as int));
            lemma_bind_clean(st2, names[i]@, r);
            let s = at(x, b, s0, st);
            let s2 = at(x, b, s0, st2);
            reveal(arrives);
            lemma_env_kept(st, st2, s, s2, used(st));
            assert(store(st2, s2) =~= store(st, s));
            sim_bind(x, b, s0, st2, names[i]@, r);
            sim_local_nils_from(x, b, s0, bind(st2, names[i]@, r), names, i + 1, j + 1);
        }
    }
}

/// Names that are bound to results one after another.
proof fn sim_bind_names(
    x: Setting,
    b: int,
    s0: Machine,
    st: State,
    names: Seq<Box<[u8]>>,
    i: int,
    first: RegisterIndex,
    count: int,
    values: Seq<Val>,
)
    requires
        st.len() > 0,
        arrives(x, b, s0, st),
        0 <= i,
        0 <= count,
        i + count <= names.len(),
        first.0 + count <= 256,
        forall|j: int|
            0 <= j < count ==> #[trigger] at(x, b, s0, st).registers[first.0 + j] == x.result(
                values,
                j,
            ),
    ensures
        ({
            let st1 = bind_names(st, names, i, first, count);
            let s = at(x, b, s0, st);
            &&& st1.len() == st.len()
            &&& arrives(x, b, s0, st1)
            &&& at(x, b, s0, st1) == s
            &&& declare_all(x, store(st1, s), names, i + count, values, count) == declare_all(
                x,
                store(st, s),
                names,
                i,
                values,
                0,
            )
        }),
    decreases count,
{
    if count > 0 {
        sim_bind_names(x, b, s0, st, names, i, first, count - 1, values);
        let st1 = bind_names(st, names, i, first, count - 1);
        let r = RegisterIndex((first.0 + count - 1) as u8);
        sim_bind(x, b, s0, st1, names[i + count - 1]@, r);
        assert(at(x, b, s0, st).registers[first.0 + (count - 1)] == x.result(values, count - 1));
    }
}

#[verifier::spinoff_prover]
proof fn sim_local_values(
    x: Setting,
    b: int,
    s0: Machine,
    st: State,
    names: Seq<Box<[u8]>>,
    values: Seq<Expression>,
    i: int,
)
    requires
        inv(st),
        clean(st),
        means(x),
        arrives(x, b, s0, st),
        0 <= i <= values.len(),
    ensures
        local_values(st, names, values, i) matches Ok((st1, _)) ==> (fitted(x, st1) ==> {
            &&& arrives(x, b, s0, st1)
            &&& store(st1, at(x, b, s0, st1)) == declare_values(
                x,
                store(st, at(x, b, s0, st)),
                names,
                values,
                i,
            )
        }),
    decreases expressions_size(values, i), 7nat,
{
    broadcast use {group_state, group_spares, lemma_fitted};

    reveal(local_values);
    let s = at(x, b, s0, st);
    lemma_local_values(st, names, values, i);
    if i < values.len() {
        let k = eval(x, env(st, s), values[i]);
        lemma_rest_empty(st);
        lemma_locals_in(st, Set::empty());
        lemma_expression(st, values[i]);
        sim_expression(x, b, s0, st, values[i]);
        if let Ok((st1, d)) = expression(st, values[i]) {
            assert(rest(st1, owned(d)) =~= used(st));
            assert(local_registers(current(st1)) =~= local_registers(current(st)));
            if i >= names.len() {
                let nowhere = ExprDestination::Nowhere;
                lemma_discharge(st1, d, nowhere);
                if let Ok((st2, _)) = discharge(st1, d, nowhere) {
                    lemma_clean(st, st2);
                    lemma_local_values(st2, names, values, i + 1);
                    if let Ok((st3, _)) = local_values(st2, names, values, i + 1) {
                        if fitted(x, st3) {
                            sim_discharge(x, b, s0, st1, d, nowhere);
                            let s2 = at(x, b, s0, st2);
                            lemma_env_kept(st, st2, s, s2, used(st));
                            assert(store(st2, s2) =~= store(st, s).after(k.calls));
                            sim_local_values(x, b, s0, st2, names, values, i + 1);
                        }
                    }
                }
            } else if i == values.len() - 1 && d is FunctionCall {
                lemma_local_call(st1, names, i, *d->func, d->args);
                if let Ok((st2, _)) = local_call(st1, names, i, *d->func, d->args) {
                    if fitted(x, st2) {
                        sim_local_call(x, b, s0, st, st1, names, i, d, k);
                    }
                }
            } else {
                let anywhere = ExprDestination::AllocateNew;
                lemma_owned(current(st1), d);
                lemma_discharge(st1, d, anywhere);
                if let Ok((st2, Some(r))) = discharge(st1, d, anywhere) {
                    assert(local_registers(current(st2)) =~= local_registers(current(st)));
                    lemma_fresh(st1, owned(d), st2, r);
                    lemma_bind_clean(st2, names[i]@, r);
                    let st3 = bind(st2, names[i]@, r);
                    lemma_local_values(st3, names, values, i + 1);
                    if let Ok((st4, _)) = local_values(st3, names, values, i + 1) {
                        if fitted(x, st4) {
                            sim_discharge(x, b, s0, st1, d, anywhere);
                            let s2 = at(x, b, s0, st2);
                            lemma_env_kept(st, st2, s, s2, used(st));
                            assert(store(st2, s2) =~= store(st, s).after(k.calls));
                            sim_bind(x, b, s0, st2, names[i]@, r);
                            assert(!(k.meaning is Results && i == values.len() - 1));
                            sim_local_values(x, b, s0, st3, names, values, i + 1);
                        }
                    }
                }
            }
        }
    } else {
        sim_local_nils(x, b, s0, st, names, i);
    }
}

/// The results of a call become local variables.
#[verifier::spinoff_prover]
proof fn sim_local_call(
    x: Setting,
    b: int,
    s0: Machine,
    st: State,
    st1: State,
    names: Seq<Box<[u8]>>,
    i: int,
    d: Desc,
    known: Known,
)
    requires
        inv(st),
        clean(st),
        inv(st1),
        means(x),
        arrives(x, b, s0, st1),
        frame(at(x, b, s0, st), at(x, b, s0, st1), used(st)),
        env(st1, at(x, b, s0, st1)) == env(st, at(x, b, s0, st)),
        stands(x, b, s0, st1, d, known, at(x, b, s0, st).seen),
        d is FunctionCall,
        holds(st1, d),
        rest(st1, owned(d)) == used(st),
        current(st1).locals == current(st).locals,
        0 <= i < names.len(),
        local_call(st1, names, i, *d->func, d->args) matches Ok((st2, _)) && fitted(x, st2),
    ensures
        known.meaning is Results,
        ({
            let st2 = local_call(st1, names, i, *d->func, d->args)->Ok_0.0;
            &&& arrives(x, b, s0, st2)
            &&& store(st2, at(x, b, s0, st2)) == declare_all(
                x,
                store(st, at(x, b, s0, st)).after(known.calls),
                names,
                i,
                known.meaning->Results_0,
                0,
            )
        }),
{
    broadcast use {group_state, group_spares, lemma_fitted};

    reveal(local_call);
    let func = *d->func;
    let args = d->args;
    let count = names.len() - i;
    let some = VarCount::constant(count);
    let s = at(x, b, s0, st);
    assert(owned(d) == owned(func).union(owned_list(args, 0)));
    lemma_expr_function_call(st1, func, args, some);
    if let Ok((st2, r)) = expr_function_call(st1, func, args, some) {
        lemma_push_registers(st2, count);
        if let Ok((st3, first)) = push_registers(st2, count) {
            let st4 = bind_names(st3, names, i, first, count);
            assert(fitted(x, st3)) by {
                lemma_bind_names_below(st3, names, i, first, count);
                reveal(fitted);
                assert forall|name: Seq<u8>| #[trigger] (x.outer)(name) == outside(st3, name) by {
                    assert((x.outer)(name) == outside(st4, name));
                    lemma_home_prefix(st3, st4, name, st3.len() - 2);
                }
            }
            sim_expr_function_call(x, b, s0, st1, func, args, some);
            lemma_still(x, b, s0, st2, st3);
            let s3 = at(x, b, s0, st3);
            lemma_locals_in(st, Set::empty());
            lemma_rest_empty(st);
            lemma_env_kept(st, st3, s, s3, used(st));
            assert(store(st3, s3) =~= store(st, s).after(known.calls));
            let results = known.meaning->Results_0;
            reveal(push_registers);
            assert forall|j: int| 0 <= j < count implies #[trigger] s3.registers[first.0 + j]
                == x.result(results, j) by {
                assert(first.0 + j < 256);
            }
            sim_bind_names(x, b, s0, st3, names, i, first, count, results);
        }
    }
}

proof fn lemma_bind_names_below(
    st: State,
    names: Seq<Box<[u8]>>,
    i: int,
    first: RegisterIndex,
    count: int,
)
    requires
        st.len() > 0,
    ensures
        ({
            let st1 = bind_names(st, names, i, first, count);
            &&& st1.len() == st.len()
            &&& forall|k: int| 0 <= k < st.len() - 1 ==> #[trigger] st1[k] == st[k]
            &&& current(st1).constants == current(st).constants
            &&& current(st1).upvalues == current(st).upvalues
            &&& current(st1).prototypes == current(st).prototypes
        }),
    decreases count,
{
    if count > 0 {
        lemma_bind_names_below(st, names, i, first, count - 1);
    }
}

// ---------------------------------------------------------------------------------------------
// Calls and assignments

#[verifier::spinoff_prover]
proof fn sim_function_call(x: Setting, b: int, s0: Machine, st: State, s: FunctionCallStatement)
    requires
        inv(st),
        clean(st),
        means(x),
        arrives(x, b, s0, st),
    ensures
        function_call(st, s) matches Ok((st1, _)) ==> (fitted(x, st1) ==> {
            &&& arrives(x, b, s0, st1)
            &&& store(st1, at(x, b, s0, st1)) == exec_call(x, store(st, at(x, b, s0, st)), s)
        }),
{
    broadcast use {group_state, group_spares, lemma_fitted};

    reveal(function_call);
    let m = at(x, b, s0, st);
    let e = env(st, m);
    lemma_rest_empty(st);
    lemma_locals_in(st, Set::empty());
    lemma_suffixed_expression(st, s.head);
    sim_suffixed_expression(x, b, s0, st, s.head);
    if let Ok((st1, func)) = suffixed_expression(st, s.head) {
        if let CallSuffix::Function(args) = s.call {
            let none = Seq::<Desc>::empty();
            let nothing = Seq::<Known>::empty();
            let zero = VarCount::constant(0);
            lemma_rest_empty(st1);
            lemma_locals_in(st1, Set::empty());
            assert(owned_list(none, 0) =~= Set::<int>::empty());
            lemma_owned(current(st1), func);
            lemma_expressions(st1, args@, 0, none);
            if let Ok((st2, ds)) = expressions(st1, args@, 0, none) {
                lemma_keep(st1, st2, func);
                lemma_expr_function_call(st2, func, ds, zero);
                if let Ok((st3, _)) = expr_function_call(st2, func, ds, zero) {
                    if fitted(x, st3) {
                        let m1 = at(x, b, s0, st1);
                        assert(0 == calls_from(nothing, 0));
                        sim_expressions(x, b, s0, st1, args@, 0, none, nothing, m1.seen);
                        let all = evals(x, e, args@, 0);
                        assert(nothing + all =~= all);
                        let known = suffixed_eval(x, e, s.head);
                        lemma_meant(x, b, s0, st1, st2, used(st1), func);
                        let m2 = at(x, b, s0, st2);
                        let found = desc_meanings(x, e, m2, ds, 0);
                        lemma_call_meant(x, b, s0, st2, func, known, ds, all, m1.seen, m.seen);
                        lemma_alike(x, found, all);
                        sim_expr_function_call(x, b, s0, st2, func, ds, zero);
                        let m3 = at(x, b, s0, st3);
                        assert(used(st3) =~= used(st));
                        let kept = rest(st2, owned(func).union(owned_list(ds, 0)));
                        assert(kept =~= used(st));
                        let m4 = Machine { events: m.events, ..m3 };
                        assert(frame(m, m4, used(st)));
                        lemma_env_kept(st, st3, m, m4, used(st));
                        assert(env(st3, m3).locals =~= env(st, m).locals);
                        assert(store(st3, m3) =~= exec_call(x, store(st, m), s));
                    }
                }
            }
        }
    }
}

#[verifier::spinoff_prover]
proof fn sim_assignments(
    x: Setting,
    b: int,
    s0: Machine,
    st: State,
    targets: Seq<AssignmentTarget>,
    values: Seq<Expression>,
    i: int,
)
    requires
        inv(st),
        clean(st),
        means(x),
        arrives(x, b, s0, st),
        0 <= i <= targets.len(),
    ensures
        assignments(st, targets, values, i) matches Ok((st1, _)) ==> (fitted(x, st1) ==> {
            &&& arrives(x, b, s0, st1)
            &&& store(st1, at(x, b, s0, st1)) == assign_all(
                x,
                store(st, at(x, b, s0, st)),
                targets,
                values,
                i,
            )
        }),
    decreases targets.len() - i,
{
    broadcast use {group_state, group_spares, lemma_fitted};

    reveal(assignments);
    reveal(assigned_value);
    if i < targets.len() {
        let m = at(x, b, s0, st);
        let nil = Desc::Value(ValueView::Nil);
        lemma_rest_empty(st);
        lemma_assigned_value(st, values, i);
        if let Ok((st1, d)) = assigned_value(st, values, i) {
            lemma_assign(st1, targets[i], d);
            if let Ok((st2, ())) = assign(st1, targets[i], d) {
                assert(used(st2) =~= used(st));
                lemma_clean(st, st2);
                lemma_assignments(st2, targets, values, i + 1);
                if let Ok((st3, ())) = assignments(st2, targets, values, i + 1) {
                    if fitted(x, st3) {
                        let known = if i < values.len() {
                            eval(x, env(st, m), values[i])
                        } else {
                            constant(ValueView::Nil)
                        };
                        if i < values.len() {
                            sim_expression(x, b, s0, st, values[i]);
                        }
                        sim_assign(x, b, s0, st1, targets[i], d);
                        let m1 = at(x, b, s0, st1);
                        let k = meant(x, b, s0, st1, d);
                        assert(store(st1, m1).after(k.calls) == store(st, m).after(known.calls));
                        sim_assignments(x, b, s0, st2, targets, values, i + 1);
                    }
                }
            }
        }
    }
}

/// The newest local of a name, and its place.
proof fn lemma_newest_at(
    locals: Seq<(Seq<u8>, RegisterIndex)>,
    s: Machine,
    name: Seq<u8>,
    n: int,
)
    requires
        0 <= n <= locals.len(),
    ensures
        match newest_at(env_of(locals, s).locals, name, n) {
            Some(i) => 0 <= i < n && locals[i].0 == name && newest_local(locals, name, n) == Some(
                locals[i].1,
            ),
            None => newest_local(locals, name, n) is None,
        },
    decreases n,
{
    if n > 0 {
        lemma_newest_at(locals, s, name, n - 1);
    }
}

/// An assignment changes the variable or the field that is meant, and nothing else.
#[verifier::spinoff_prover]
pub proof fn sim_assign(
    x: Setting,
    b: int,
    s0: Machine,
    st: State,
    target: AssignmentTarget,
    content: Desc,
)
    requires
        inv(st),
        means(x),
        arrives(x, b, s0, st),
        holds(st, content),
    ensures
        assign(st, target, content) matches Ok((st1, _)) ==> (fitted(x, st1) ==> {
            let m = at(x, b, s0, st);
            let k = meant(x, b, s0, st, content);
            &&& arrives(x, b, s0, st1)
            &&& store(st1, at(x, b, s0, st1)) == assign_to(
                x,
                store(st, m).after(k.calls),
                target,
                value(x, k.meaning),
            )
        }),
{
    broadcast use {group_state, group_spares, lemma_fitted};

    reveal(assign);
    let o = owned(content);
    let m = at(x, b, s0, st);
    let k = meant(x, b, s0, st, content);
    let v = value(x, k.meaning);
    let s = store(st, m).after(k.calls);
    lemma_owned(current(st), content);
    lemma_assign(st, target, content);
    lemma_locals_in(st, o);
    match target {
        AssignmentTarget::Name(name) => {
            lemma_find_variable(st, name@);
            let locals = current(st).locals;
            lemma_newest_at(locals, m, name@, locals.len() as int);
            match find_variable(st, name@) {
                Ok((st1, Variable::Local(r))) => {
                    let to = ExprDestination::Register(r);
                    lemma_keep(st, st1, content);
                    lemma_local(st1, r);
                    assert(!o.contains(r.0 as int)) by {
                        assert(is_local(current(st), r.0 as int));
                        assert(local_registers(current(st)).contains(r.0 as int));
                        assert(!spare(current(st)).contains(r.0 as int));
                    }
                    lemma_discharge(st1, content, to);
                    if let Ok((st2, _)) = discharge(st1, content, to) {
                        if fitted(x, st2) {
                            sim_find_variable(x, b, s0, st, name@);
                            sim_discharge(x, b, s0, st1, content, to);
                            let m2 = at(x, b, s0, st2);
                            let i = newest_at(s.env.locals, name@, s.env.locals.len() as int)->0;
                            assert(locals[i].1 == r);
                            assert(m2.get(r) == v);
                            assert forall|j: int| 0 <= j < locals.len() && j != i implies m2.get(
                                (#[trigger] locals[j]).1,
                            ) == m.get(locals[j].1) by {
                                let q = locals[j].1;
                                assert(locals[j].1 != locals[i].1);
                                assert(is_local(current(st), q.0 as int));
                                assert(local_registers(current(st)).contains(q.0 as int));
                                assert(rest(st1, o).contains(q.0 as int));
                                assert(kept_at(st1, o, to).contains(q.0 as int));
                            }
                            assert(env(st2, m2).locals =~= s.env.locals.update(i, (name@, v)));
                            assert(store(st2, m2) =~= assign_to(x, s, target, v));
                        }
                    }
                },
                Ok((st1, Variable::UpValue(dest))) => {
                    lemma_keep(st, st1, content);
                    lemma_any_register(st1, content);
                    if let Ok((st2, source)) = any_register(st1, content) {
                        let op = OpCode::SetUpValue { source, dest };
                        let d = held(content, source);
                        lemma_emit(st2, op);
                        let st3 = emit(st2, op);
                        lemma_keep(st2, st3, d);
                        lemma_release(st3, d);
                        let st4 = release(st3, d)->Ok_0.0;
                        if fitted(x, st4) {
                            sim_find_variable(x, b, s0, st, name@);
                            sim_any_register(x, b, s0, st1, content);
                            lemma_go(x, b, s0, st2, op);
                            sim_release(x, b, s0, st3, d);
                            let m2 = at(x, b, s0, st2);
                            let m4 = at(x, b, s0, st4);
                            lemma_env_kept(st, st2, m, m2, rest(st1, o));
                            assert(env(st4, m4).locals =~= env(st2, m2).locals);
                            assert(m4.cells =~= m.cells.insert(name@, v));
                            assert(store(st4, m4) =~= assign_to(x, s, target, v));
                        }
                    }
                },
                Ok((st1, Variable::Global(n))) => {
                    lemma_environment(st1);
                    if let Ok((st2, d)) = get_environment(st1) {
                        let key = Desc::Value(ValueView::String(n));
                        lemma_keep(st, st2, content);
                        lemma_write_field(st2, d, key, content);
                        assert(owned(d).union(owned(key)).union(o) =~= o);
                        if let Ok((st3, ())) = write_field(st2, d, key, content) {
                            if fitted(x, st3) {
                                sim_find_variable(x, b, s0, st, name@);
                                sim_get_environment(x, b, s0, st1);
                                sim_write_field(x, b, s0, st2, d, key, content);
                                let m3 = at(x, b, s0, st3);
                                let m4 = Machine { events: m.events, ..m3 };
                                assert(rest(st2, o) =~= rest(st, o));
                                assert(frame(m, m4, rest(st, o)));
                                lemma_env_kept(st, st3, m, m4, rest(st, o));
                                assert(env(st3, m3).locals =~= env(st, m).locals);
                                assert(variable(x, env(st, m), name@) is None);
                                assert(store(st3, m3) =~= assign_to(x, s, target, v));
                            }
                        }
                    }
                },
                Err(_) => {},
            }
        },
        AssignmentTarget::Field(table, field) => {
            lemma_rest_empty(st);
            lemma_locals_in(st, Set::empty());
            lemma_suffixed_expression(st, table);
            if let Ok((st1, t)) = suffixed_expression(st, table) {
                lemma_aside(st, Set::empty(), st1, t, content);
                lemma_rest_empty(st1);
                lemma_locals_in(st1, Set::empty());
                lemma_field_key(st1, field);
                if let Ok((st2, key)) = field_key(st1, field) {
                    lemma_aside(st1, Set::empty(), st2, key, content);
                    lemma_aside(st1, Set::empty(), st2, key, t);
                    lemma_write_field(st2, t, key, content);
                    if let Ok((st3, ())) = write_field(st2, t, key, content) {
                        if fitted(x, st3) {
                            sim_suffixed_expression(x, b, s0, st, table);
                            lemma_meant(x, b, s0, st, st1, used(st), content);
                            sim_field_key(x, b, s0, st1, field);
                            lemma_meant(x, b, s0, st1, st2, used(st1), content);
                            lemma_meant(x, b, s0, st1, st2, used(st1), t);
                            sim_write_field(x, b, s0, st2, t, key, content);
                            let m3 = at(x, b, s0, st3);
                            let m4 = Machine { events: m.events, ..m3 };
                            let all = owned(t).union(owned(key)).union(owned(content));
                            assert(used(st3) =~= rest(st, o));
                            assert(rest(st2, all) =~= rest(st, o));
                            assert(frame(m, m4, rest(st, o)));
                            lemma_env_kept(st, st3, m, m4, rest(st, o));
                            assert(env(st3, m3).locals =~= env(st, m).locals);
                            assert(store(st3, m3) =~= assign_to(x, s, target, v));
                        }
                    }
                }
            }
        },
    }
}

// ---------------------------------------------------------------------------------------------
// Conditions

/// What the test of a condition does: it skips the jump behind it exactly where the condition
/// holds.
pub open spec fn tests(
    x: Setting,
    b: int,
    s0: Machine,
    st: State,
    st1: State,
    known: Known,
) -> bool {
    let m = at(x, b, s0, st);
    let code = current(st1).opcodes;
    let t = here(st1) - 1;
    &&& st1.len() == st.len()
    &&& b <= t
    &&& run(x, code, b, t, s0) matches Flow::At(s)
    &&& s.registers.len() == 256
    &&& frame(m, s, used(st))
    &&& s.seen == (m.seen + known.calls)
    &&& effect(x, code[t], s) == s
    &&& !(code[t] is Return)
    &&& skipped(x, code[t], s) == (if condition_holds(x, known.meaning) {
        1int
    } else {
        0int
    })
}

/// A test behind the instructions so far.
proof fn lemma_go_test(x: Setting, b: int, s0: Machine, st: State, op: OpCode)
    requires
        inv(st),
        arrives(x, b, s0, st),
        op is Test || op is Compare,
    ensures
        ({
            let code = current(emit(st, op)).opcodes;
            let s = at(x, b, s0, st);
            &&& b <= here(st)
            &&& here(emit(st, op)) == here(st) + 1
            &&& code[here(st)] == op
            &&& run(x, code, b, here(st), s0) == Flow::At(s)
            &&& s.registers.len() == 256
            &&& effect(x, op, s) == s
        }),
{
    broadcast use group_state;

    reveal(arrives);
    reveal(flow);
    let code = current(st).opcodes;
    let more = current(emit(st, op)).opcodes;
    lemma_run_same(x, code, more, b, code.len() as int, s0);
}

#[verifier::spinoff_prover]
pub proof fn sim_condition(x: Setting, b: int, s0: Machine, st: State, e: Expression)
    requires
        inv(st),
        means(x),
        arrives(x, b, s0, st),
    ensures
        condition(st, e) matches Ok((st1, _)) ==> (fitted(x, jump_placeholder(st1)) ==> tests(
            x,
            b,
            s0,
            st,
            st1,
            eval(x, env(st, at(x, b, s0, st)), e),
        )),
{
    broadcast use {group_state, group_spares, lemma_fitted};

    reveal(condition);
    let m = at(x, b, s0, st);
    lemma_rest_empty(st);
    lemma_expression(st, e);
    sim_expression(x, b, s0, st, e);
    let jump = OpCode::Jump { offset: 0 };
    match expression(st, e) {
        Ok((st1, Desc::Comparison { left, op, right })) => {
            let d = Desc::Comparison { left, op, right };
            lemma_operands(st1, *left, *right);
            if let Ok((st2, (l, r))) = operands(st1, *left, *right) {
                let test = OpCode::Compare { op, left: l, right: r };
                lemma_emit_pair(st2, test, jump);
                if fitted(x, jump_placeholder(emit(st2, test))) {
                    sim_operands(x, b, s0, st1, *left, *right);
                    lemma_go_test(x, b, s0, st2, test);
                    assert(owned(d) == owned(*left).union(owned(*right)));
                    assert(rest(st1, owned(d)) =~= used(st));
                }
            }
        },
        Ok((st1, Desc::Not(operand))) => {
            let d = Desc::Not(operand);
            lemma_operand_register(st1, *operand);
            if let Ok((st2, value)) = operand_register(st1, *operand) {
                let test = OpCode::Test { value, is_true: false };
                lemma_emit_pair(st2, test, jump);
                if fitted(x, jump_placeholder(emit(st2, test))) {
                    sim_operand_register(x, b, s0, st1, *operand);
                    lemma_go_test(x, b, s0, st2, test);
                    assert(rest(st1, owned(d)) =~= used(st));
                }
            }
        },
        Ok((st1, d)) => {
            lemma_operand_register(st1, d);
            if let Ok((st2, value)) = operand_register(st1, d) {
                let test = OpCode::Test { value, is_true: true };
                lemma_emit_pair(st2, test, jump);
                if fitted(x, jump_placeholder(emit(st2, test))) {
                    sim_operand_register(x, b, s0, st1, d);
                    lemma_go_test(x, b, s0, st2, test);
                    assert(rest(st1, owned(d)) =~= used(st));
                }
            }
        },
        Err(_) => {},
    }
}

// ---------------------------------------------------------------------------------------------
// Arms

/// The places where execution leaves an `if` that is not completed yet.
pub open spec fn exits(ends: Seq<int>) -> Set<int> {
    Set::new(|i: int| ends.contains(i))
}

/// How execution that begins at `b` goes through the instructions, up to a jump that is not
/// completed yet.
#[verifier::opaque]
pub open spec fn way(x: Setting, b: int, s0: Machine, st: State, ends: Seq<int>) -> Way {
    walk(x, current(st).opcodes, b, here(st), exits(ends), s0)
}

/// Execution has come to the place that `progress` says: where no arm has been taken yet, to
/// `next`, or to the end of the instructions where there is no `next`.
pub open spec fn shows(
    x: Setting,
    b: int,
    s0: Machine,
    st: State,
    progress: Progress,
    next: Option<int>,
    ends: Seq<int>,
) -> bool {
    let way = way(
        x,
        b,
        s0,
        st,
        match next {
            Some(j) => ends.push(j),
            None => ends,
        },
    );
    match progress {
        Progress::Open(s) => match next {
            Some(j) => way matches Way::Exit(k, m) && k == j && m.registers.len() == 256 && store(
                st,
                m,
            ) == s,
            None => way matches Way::At(m) && m.registers.len() == 256 && store(st, m) == s,
        },
        Progress::Taken(Course::Goes(s)) => way matches Way::Exit(k, m) && ends.contains(k)
            && m.registers.len() == 256 && store(st, m) == s,
        Progress::Taken(Course::Returns(_, s)) => way matches Way::Returned(_, m) && same_outside(
            m,
            s,
        ),
    }
}

/// A condition, its jump, and a block with a jump behind it.
#[verifier::spinoff_prover]
proof fn sim_arm(x: Setting, b: int, s0: Machine, st: State, e: Expression, blk: Block)
    requires
        inv(st),
        clean(st),
        means(x),
        arrives(x, b, s0, st),
    ensures
        condition(st, e) matches Ok((st1, _)) ==> (block(jump_placeholder(st1), blk) matches Ok(
            (st2, _),
        ) ==> (fitted(x, jump_placeholder(st2)) ==> shows(
            x,
            b,
            s0,
            jump_placeholder(st2),
            exec_arm(x, store(st, at(x, b, s0, st)), e, blk),
            Some(here(st1)),
            seq![here(st2)],
        ))),
    decreases expression_size(e) + block_size(blk), 7nat,
{
    broadcast use {group_state, group_spares, lemma_fitted};

    let m = at(x, b, s0, st);
    assert(0 <= b) by {
        reveal(arrives);
    }
    lemma_condition(st, e);
    lemma_locals_in(st, Set::empty());
    lemma_rest_empty(st);
    if let Ok((st1, ())) = condition(st, e) {
        let st2 = jump_placeholder(st1);
        let next = here(st1);
        lemma_clean(st, st2);
        lemma_block(st2, blk);
        if let Ok((st3, ())) = block(st2, blk) {
            let st4 = jump_placeholder(st3);
            let end = here(st3);
            lemma_emit(st3, OpCode::Jump { offset: 0 });
            if fitted(x, st4) {
                assert(fitted(x, st3));
                assert(fitted(x, st2));
                let known = eval(x, env(st, m), e);
                let t = next - 1;
                let code1 = current(st1).opcodes;
                let code2 = current(st2).opcodes;
                let code3 = current(st3).opcodes;
                let code4 = current(st4).opcodes;
                sim_condition(x, b, s0, st, e);
                let s = run(x, code1, b, t, s0)->At_0;
                lemma_env_kept(st, st2, m, s, used(st));
                assert(store(st2, s) =~= store(st, m).after(known.calls));
                assert(st1.len() > 0);
                assert(code2 =~= code1.push(OpCode::Jump { offset: 0 }));
                assert forall|i: int| 0 <= i < next + 1 implies code2[i] == #[trigger] code4[i] by {
                    assert(code2[i] == code3[i]);
                }
                assert(arrives(x, next + 1, s, st2) && at(x, next + 1, s, st2) == s) by {
                    reveal(arrives);
                    reveal(flow);
                }
                sim_block(x, next + 1, s, st2, blk);
                let ends = exits(seq![end].push(next));
                assert(seq![end].push(next) =~= seq![end, next]);
                assert forall|i: int| #[trigger] ends.contains(i) == (i == end || i == next) by {
                    let both = seq![end].push(next);
                    assert(both[0] == end && both[1] == next);
                }
                reveal(way);
                reveal(flow);
                let n = here(st4);
                assert forall|i: int| b <= i < t implies code1[i] == code4[i] by {
                    assert(code2[i] == code4[i]);
                }
                lemma_run_same(x, code1, code4, b, t, s0);
                lemma_walk_run(x, code4, b, t, ends, s0);
                lemma_walk_on(x, code4, b, t, n, ends, s0);
                assert(code4[t] == code1[t]) by {
                    assert(code2[t] == code4[t]);
                }
                if condition_holds(x, known.meaning) {
                    assert(walk(x, code4, t, n, ends, s) == walk(x, code4, next + 1, n, ends, s));
                    lemma_run_same(x, code3, code4, next + 1, end, s);
                    lemma_walk_run(x, code4, next + 1, end, ends, s);
                    assert(!(flow(x, next + 1, s, st3) is Lost)) by {
                        reveal(arrives);
                    }
                    lemma_walk_on(x, code4, next + 1, end, n, ends, s);
                    match exec_block(x, store(st2, s), blk) {
                        Course::Goes(_) => {
                            let m3 = at(x, next + 1, s, st3);
                            assert(walk(x, code4, end, n, ends, m3) == Way::Exit(end, m3));
                            assert(m3.registers.len() == 256) by {
                                reveal(arrives);
                            }
                            assert(seq![end][0] == end);
                            assert(flow(x, next + 1, s, st3) == Flow::At(m3)) by {
                                reveal(arrives);
                            }
                            assert(walk(x, code4, next + 1, end, ends, s) == Way::At(m3));
                        },
                        _ => {},
                    }
                } else {
                    assert(walk(x, code4, t, n, ends, s) == walk(x, code4, next, n, ends, s));
                    assert(walk(x, code4, next, n, ends, s) == Way::Exit(next, s));
                }
            }
        }
    }
}

/// The jump past an arm is completed.
proof fn lemma_shows_closed(
    x: Setting,
    b: int,
    s0: Machine,
    st: State,
    progress: Progress,
    next: int,
    ends: Seq<int>,
)
    requires
        st.len() > 0,
        0 <= b <= here(st),
        shows(x, b, s0, st, progress, Some(next), ends),
        !ends.contains(next),
        jump_here(st, next) is Ok,
    ensures
        shows(x, b, s0, jump_here(st, next)->Ok_0.0, progress, None, ends),
{
    reveal(jump_here);
    reveal(way);
    let st1 = jump_here(st, next)->Ok_0.0;
    let all = exits(ends.push(next));
    assert(ends.push(next)[ends.len() as int] == next);
    assert forall|i: int| #[trigger]
        all.remove(next).contains(i) == exits(ends).contains(i) by {
        if ends.contains(i) {
            let k = choose|k: int| 0 <= k < ends.len() && ends[k] == i;
            assert(ends.push(next)[k] == i);
        }
    }
    assert(all.remove(next) =~= exits(ends));
    lemma_walk_close(x, current(st).opcodes, current(st1).opcodes, b, all, next, s0);
}

/// Execution goes on from where the jump past the arms so far leads to.
#[verifier::spinoff_prover]
proof fn lemma_way_on(
    x: Setting,
    b: int,
    s0: Machine,
    st: State,
    st1: State,
    ends: Seq<int>,
    more: Seq<int>,
)
    requires
        inv(st),
        evolves(st, st1),
        current(st).landing == here(st),
        0 <= b <= here(st),
        forall|i: int| 0 <= i < ends.len() ==> #[trigger] ends[i] < here(st),
        forall|i: int| 0 <= i < more.len() ==> #[trigger] more[i] >= here(st),
        !(way(x, b, s0, st, ends) is Lost),
    ensures
        way(x, b, s0, st1, ends + more) == match way(x, b, s0, st, ends) {
            Way::At(m) => way(x, here(st), m, st1, more),
            w => w,
        },
{
    broadcast use group_state;

    reveal(way);
    let code = current(st).opcodes;
    let code1 = current(st1).opcodes;
    let n = here(st);
    let all = exits(ends + more);
    assert forall|i: int| #[trigger] all.contains(i) == (exits(ends).contains(i) || exits(
        more,
    ).contains(i)) by {
        if ends.contains(i) {
            let k = choose|k: int| 0 <= k < ends.len() && ends[k] == i;
            assert((ends + more)[k] == i);
        }
        if more.contains(i) {
            let k = choose|k: int| 0 <= k < more.len() && more[k] == i;
            assert((ends + more)[ends.len() + k] == i);
        }
    }
    assert forall|i: int| 0 <= i < n implies code[i] == #[trigger] code1[i] by {
        assert(code[i] == code1[i] || current(st).landing < n);
    }
    lemma_walk_same(x, code, code1, b, n, exits(ends), all, s0);
    lemma_walk_on(x, code1, b, n, here(st1), all, s0);
    if let Way::At(m) = way(x, b, s0, st, ends) {
        lemma_walk_same(x, code1, code1, n, here(st1), all, exits(more), m);
    }
}

/// Jumps that stay pending lie before the end of the instructions.
proof fn lemma_below_here(a: State, st: State, ends: Seq<int>)
    requires
        all_pending(a, st, ends),
    ensures
        forall|i: int| 0 <= i < ends.len() ==> #[trigger] ends[i] < here(st),
{
    assert forall|i: int| 0 <= i < ends.len() implies #[trigger] ends[i] < here(st) by {
        assert(pending(a, st, ends[i]));
    }
}

/// The next arm.
#[verifier::spinoff_prover]
proof fn sim_next_arm(
    x: Setting,
    b: int,
    s0: Machine,
    a: State,
    st: State,
    e: Expression,
    blk: Block,
    next: int,
    ends: Seq<int>,
    progress: Progress,
)
    requires
        between_arms(a, st, next, ends),
        means(x),
        0 <= b <= here(a),
        shows(x, b, s0, st, progress, Some(next), ends),
    ensures
        if_arm(st, e, blk, Some(next), ends) matches Ok((st1, (next1, ends1))) ==> (fitted(x, st1)
            ==> fitted(x, st) && shows(
            x,
            b,
            s0,
            st1,
            match progress {
                Progress::Open(s) => exec_arm(x, s, e, blk),
                p => p,
            },
            Some(next1),
            ends1,
        )),
    decreases expression_size(e) + block_size(blk), 8nat,
{
    broadcast use {group_state, group_spares, lemma_fitted};

    reveal(if_arm);
    lemma_one_closed(a, st, next, ends);
    lemma_if_arm(a, st, e, blk, Some(next), ends);
    if let Ok((st1, ())) = jump_here(st, next) {
        lemma_clean(st, st1);
        lemma_condition(st1, e);
        if let Ok((st2, ())) = condition(st1, e) {
            let st3 = jump_placeholder(st2);
            lemma_clean(st1, st3);
            lemma_block(st3, blk);
            if let Ok((st4, ())) = block(st3, blk) {
                let st5 = jump_placeholder(st4);
                let end = here(st4);
                lemma_emit(st4, OpCode::Jump { offset: 0 });
                if fitted(x, st5) {
                    assert(evolves(st1, st5));
                    lemma_fitted_jump(x, st, next);
                    lemma_shows_closed(x, b, s0, st, progress, next, ends);
                    let n = here(st1);
                    assert(current(st1).landing == n) by {
                        reveal(jump_here);
                    }
                    let more = seq![end].push(here(st2));
                    lemma_below_here(a, st1, ends);
                    lemma_way_on(x, b, s0, st1, st5, ends, more);
                    assert(ends.push(end).push(here(st2)) =~= ends + more);
                    assert(ends.push(end)[ends.len() as int] == end);
                    match progress {
                        Progress::Open(_) => {
                            let m = way(x, b, s0, st1, ends)->At_0;
                            assert(arrives(x, n, m, st1) && at(x, n, m, st1) == m) by {
                                reveal(arrives);
                                reveal(flow);
                            }
                            sim_arm(x, n, m, st1, e, blk);
                        },
                        Progress::Taken(Course::Goes(_)) => {
                            let k = way(x, b, s0, st1, ends)->Exit_0;
                            let i = choose|i: int| 0 <= i < ends.len() && ends[i] == k;
                            assert(ends.push(end)[i] == k);
                        },
                        _ => {},
                    }
                }
            }
        }
    }
}

#[verifier::spinoff_prover]
proof fn sim_if_arms(
    x: Setting,
    b: int,
    s0: Machine,
    a: State,
    st: State,
    arms: Seq<(Expression, Block)>,
    i: int,
    next: int,
    ends: Seq<int>,
    progress: Progress,
)
    requires
        between_arms(a, st, next, ends),
        means(x),
        0 <= b <= here(a),
        shows(x, b, s0, st, progress, Some(next), ends),
        0 <= i <= arms.len(),
    ensures
        if_arms(st, arms, i, next, ends) matches Ok((st1, (next1, ends1))) ==> (fitted(x, st1)
            ==> fitted(x, st) && shows(
            x,
            b,
            s0,
            st1,
            match progress {
                Progress::Open(s) => exec_arms(x, s, arms, i),
                p => p,
            },
            Some(next1),
            ends1,
        )),
    decreases arms_size(arms, i), 8nat,
{
    reveal(if_arms);
    if i < arms.len() {
        lemma_if_arm(a, st, arms[i].0, arms[i].1, Some(next), ends);
        if let Ok((st1, (next1, ends1))) = if_arm(st, arms[i].0, arms[i].1, Some(next), ends) {
            lemma_if_arms(a, st1, arms, i + 1, next1, ends1);
            let after = match progress {
                Progress::Open(s) => exec_arm(x, s, arms[i].0, arms[i].1),
                p => p,
            };
            if let Ok((st2, _)) = if_arms(st1, arms, i + 1, next1, ends1) {
                if fitted(x, st2) {
                    if fitted(x, st1) {
                        sim_next_arm(
                            x,
                            b,
                            s0,
                            a,
                            st,
                            arms[i].0,
                            arms[i].1,
                            next,
                            ends,
                            progress,
                        );
                        sim_if_arms(x, b, s0, a, st1, arms, i + 1, next1, ends1, after);
                    } else {
                        lemma_fitted_arms(x, a, st1, arms, i + 1, next1, ends1);
                    }
                }
            }
        }
    }
}

/// Arms change nothing of what the setting has already.
#[verifier::spinoff_prover]
proof fn lemma_fitted_arms(
    x: Setting,
    a: State,
    st: State,
    arms: Seq<(Expression, Block)>,
    i: int,
    next: int,
    ends: Seq<int>,
)
    requires
        between_arms(a, st, next, ends),
        0 <= i <= arms.len(),
        if_arms(st, arms, i, next, ends) matches Ok((st1, _)) && fitted(x, st1),
    ensures
        fitted(x, st),
    decreases arms_size(arms, i), 8nat,
{
    broadcast use {group_state, lemma_fitted};

    reveal(if_arms);
    if i < arms.len() {
        lemma_if_arm(a, st, arms[i].0, arms[i].1, Some(next), ends);
        if let Ok((st1, (next1, ends1))) = if_arm(st, arms[i].0, arms[i].1, Some(next), ends) {
            lemma_fitted_arms(x, a, st1, arms, i + 1, next1, ends1);
            lemma_fitted_arm(x, a, st, arms[i].0, arms[i].1, next, ends);
        }
    }
}

#[verifier::spinoff_prover]
proof fn lemma_fitted_arm(
    x: Setting,
    a: State,
    st: State,
    e: Expression,
    blk: Block,
    next: int,
    ends: Seq<int>,
)
    requires
        between_arms(a, st, next, ends),
        if_arm(st, e, blk, Some(next), ends) matches Ok((st1, _)) && fitted(x, st1),
    ensures
        fitted(x, st),
{
    broadcast use {group_state, lemma_fitted};

    reveal(if_arm);
    lemma_one_closed(a, st, next, ends);
    if let Ok((st1, ())) = jump_here(st, next) {
        lemma_clean(st, st1);
        lemma_condition(st1, e);
        if let Ok((st2, ())) = condition(st1, e) {
            let st3 = jump_placeholder(st2);
            lemma_clean(st1, st3);
            lemma_block(st3, blk);
            if let Ok((st4, ())) = block(st3, blk) {
                lemma_emit(st4, OpCode::Jump { offset: 0 });
                assert(evolves(st1, jump_placeholder(st4)));
                lemma_fitted_jump(x, st, next);
            }
        }
    }
}

/// The first arm.
#[verifier::spinoff_prover]
proof fn sim_first_arm(x: Setting, b: int, s0: Machine, st: State, e: Expression, blk: Block)
    requires
        inv(st),
        clean(st),
        means(x),
        arrives(x, b, s0, st),
    ensures
        if_arm(st, e, blk, None, Seq::empty()) matches Ok((st1, (next, ends))) ==> (fitted(x, st1)
            ==> shows(
            x,
            b,
            s0,
            st1,
            exec_arm(x, store(st, at(x, b, s0, st)), e, blk),
            Some(next),
            ends,
        )),
    decreases expression_size(e) + block_size(blk), 8nat,
{
    broadcast use {group_state, group_spares, lemma_fitted};

    reveal(if_arm);
    lemma_if_arm(st, st, e, blk, None, Seq::empty());
    sim_arm(x, b, s0, st, e, blk);
    if let Ok((st1, ())) = condition(st, e) {
        if let Ok((st2, ())) = block(jump_placeholder(st1), blk) {
            let none = Seq::<int>::empty();
            assert(none.push(here(st2)) =~= seq![here(st2)]);
        }
    }
}

/// All jumps to the end are completed.
#[verifier::spinoff_prover]
proof fn lemma_all_closed(x: Setting, b: int, s0: Machine, st: State, jumps: Seq<int>, i: int)
    requires
        st.len() > 0,
        0 <= b <= here(st),
        0 <= i <= jumps.len(),
        jumps.no_duplicates(),
    ensures
        jumps_here(st, jumps, i) matches Ok((st1, _)) ==> {
            &&& st1.len() == st.len()
            &&& here(st1) == here(st)
            &&& current(st1).locals == current(st).locals
            &&& fitted(x, st1) ==> fitted(x, st)
            &&& flow(x, b, s0, st1) == match way(x, b, s0, st, jumps.skip(i)) {
                Way::At(m) => Flow::At(m),
                Way::Exit(_, m) => Flow::At(m),
                Way::Returned(v, m) => Flow::Returned(v, m),
                Way::Lost => Flow::Lost,
            }
        },
    decreases jumps.len() - i,
{
    reveal(way);
    let rest = jumps.skip(i);
    if i < jumps.len() {
        if let Ok((st1, ())) = jump_here(st, jumps[i]) {
            reveal(jump_here);
            let j = jumps[i];
            lemma_all_closed(x, b, s0, st1, jumps, i + 1);
            assert(rest[0] == j);
            assert forall|k: int| #[trigger]
                exits(rest).remove(j).contains(k) == exits(jumps.skip(i + 1)).contains(k) by {
                let later = jumps.skip(i + 1);
                if rest.contains(k) && k != j {
                    let l = choose|l: int| 0 <= l < rest.len() && rest[l] == k;
                    assert(later[l - 1] == k);
                }
                if later.contains(k) {
                    let l = choose|l: int| 0 <= l < later.len() && later[l] == k;
                    assert(rest[l + 1] == k);
                    assert(jumps[i + 1 + l] == k);
                }
            }
            assert(exits(rest).remove(j) =~= exits(jumps.skip(i + 1)));
            let code = current(st).opcodes;
            let code1 = current(st1).opcodes;
            lemma_walk_close(x, code, code1, b, exits(rest), j, s0);
            if let Ok((st2, _)) = jumps_here(st1, jumps, i + 1) {
                if fitted(x, st2) {
                    lemma_fitted_jump(x, st, j);
                }
            }
        }
    } else {
        reveal(flow);
        assert forall|k: int| !(#[trigger] exits(rest).contains(k)) by {}
        lemma_walk_run(x, current(st).opcodes, b, here(st), exits(rest), s0);
    }
}

#[verifier::spinoff_prover]
proof fn sim_if_statement(x: Setting, b: int, s0: Machine, st: State, s: IfStatement)
    requires
        inv(st),
        clean(st),
        means(x),
        arrives(x, b, s0, st),
    ensures
        if_statement(st, s) matches Ok((st1, _)) ==> (fitted(x, st1) ==> follows(
            x,
            b,
            s0,
            st1,
            exec_statement(x, store(st, at(x, b, s0, st)), Statement::If(s)),
        )),
    decreases statement_size(Statement::If(s)), 5nat,
{
    broadcast use {group_state, group_spares, lemma_fitted};

    reveal(if_statement);
    let none = Seq::<int>::empty();
    let m0 = store(st, at(x, b, s0, st));
    assert(0 <= b <= here(st)) by {
        reveal(arrives);
    }
    lemma_if_arm(st, st, s.if_part.0, s.if_part.1, None, none);
    if let Ok((st1, (next1, ends1))) = if_arm(st, s.if_part.0, s.if_part.1, None, none) {
        lemma_if_arms(st, st1, s.else_if_parts@, 0, next1, ends1);
        if let Ok((st2, (next, ends))) = if_arms(st1, s.else_if_parts@, 0, next1, ends1) {
            let first = exec_arm(x, m0, s.if_part.0, s.if_part.1);
            let all = match first {
                Progress::Open(s1) => exec_arms(x, s1, s.else_if_parts@, 0),
                p => p,
            };
            if fitted(x, st2) {
                lemma_fitted_arms(x, st, st1, s.else_if_parts@, 0, next1, ends1);
                sim_first_arm(x, b, s0, st, s.if_part.0, s.if_part.1);
                sim_if_arms(x, b, s0, st, st1, s.else_if_parts@, 0, next1, ends1, first);
            }
            match s.else_part {
                Some(blk) => {
                    lemma_one_closed(st, st2, next, ends);
                    if let Ok((st3, ())) = jump_here(st2, next) {
                        lemma_clean(st2, st3);
                        lemma_block(st3, blk);
                        if let Ok((st4, ())) = block(st3, blk) {
                            lemma_still_pending(st, st3, st4, ends);
                            assert(ends.skip(0) =~= ends);
                            lemma_all_closed(x, b, s0, st4, ends, 0);
                            if let Ok((st5, ())) = jumps_here(st4, ends, 0) {
                                if fitted(x, st5) {
                                    lemma_fitted_jump(x, st2, next);
                                    sim_else(x, b, s0, st, st2, blk, next, ends, all);
                                    assert(b < here(st5));
                                    assert(entry(current(st5), b));
                                    reveal(arrives);
                                }
                            }
                        }
                    }
                },
                None => {
                    let jumps = ends.push(next);
                    assert(jumps.no_duplicates()) by {
                        assert forall|i: int| 0 <= i < ends.len() implies #[trigger] ends[i]
                            != next by {
                            assert(ends.contains(ends[i]));
                        }
                    }
                    assert(jumps.skip(0) =~= jumps);
                    lemma_all_closed(x, b, s0, st2, jumps, 0);
                    if let Ok((st3, ())) = jumps_here(st2, jumps, 0) {
                        if fitted(x, st3) {
                            assert(pending(st, st2, next));
                            assert(b < here(st3));
                            assert(entry(current(st3), b));
                            reveal(arrives);
                        }
                    }
                },
            }
        }
    }
}

/// The block that is left where no arm is taken.
#[verifier::spinoff_prover]
proof fn sim_else(
    x: Setting,
    b: int,
    s0: Machine,
    a: State,
    st: State,
    blk: Block,
    next: int,
    ends: Seq<int>,
    progress: Progress,
)
    requires
        between_arms(a, st, next, ends),
        means(x),
        0 <= b <= here(a),
        shows(x, b, s0, st, progress, Some(next), ends),
        jump_here(st, next) matches Ok((st1, _)) && (block(st1, blk) matches Ok((st2, _))
            && fitted(x, st2)),
    ensures
        ({
            let st2 = block(jump_here(st, next)->Ok_0.0, blk)->Ok_0.0;
            let way = way(x, b, s0, st2, ends);
            let course = match progress {
                Progress::Taken(c) => c,
                Progress::Open(s) => exec_block(x, s, blk),
            };
            &&& here(a) < here(st2)
            &&& match course {
                Course::Goes(s) => {
                    &&& way is At || way is Exit
                    &&& ({
                        let m = match way {
                            Way::At(m) => m,
                            w => w->Exit_1,
                        };
                        m.registers.len() == 256 && store(st2, m) == s
                    })
                },
                Course::Returns(_, s) => way matches Way::Returned(_, m) && same_outside(m, s),
            }
        }),
    decreases block_size(blk), 7nat,
{
    broadcast use {group_state, group_spares, lemma_fitted};

    lemma_one_closed(a, st, next, ends);
    let st1 = jump_here(st, next)->Ok_0.0;
    lemma_clean(st, st1);
    lemma_block(st1, blk);
    let st2 = block(st1, blk)->Ok_0.0;
    assert(pending(a, st, next));
    lemma_shows_closed(x, b, s0, st, progress, next, ends);
    let n = here(st1);
    assert(current(st1).landing == n && n == here(st)) by {
        reveal(jump_here);
    }
    let nothing = Seq::<int>::empty();
    lemma_below_here(a, st1, ends);
    lemma_way_on(x, b, s0, st1, st2, ends, nothing);
    assert(ends + nothing =~= ends);
    if let Progress::Open(_) = progress {
        let m = way(x, b, s0, st1, ends)->At_0;
        assert(arrives(x, n, m, st1) && at(x, n, m, st1) == m) by {
            reveal(arrives);
            reveal(flow);
        }
        sim_block(x, n, m, st1, blk);
        reveal(way);
        reveal(flow);
        reveal(arrives);
        assert forall|k: int| !(#[trigger] exits(nothing).contains(k)) by {}
        lemma_walk_run(x, current(st2).opcodes, n, here(st2), exits(nothing), m);
    }
}

// ---------------------------------------------------------------------------------------------
// Functions that have been compiled

/// The setting of a function that is compiled inside `st`.
pub open spec fn set_for(
    x: Setting,
    st: State,
    parameters: Seq<Box<[u8]>>,
    has_varargs: bool,
    body: Block,
) -> bool {
    block(st.push(new_function(parameters, has_varargs)), body) matches Ok((st1, _)) && fitted(
        x,
        st1,
    )
}

/// The variables of a function when it is entered.
pub open spec fn entered(parameters: Seq<Box<[u8]>>, m: Machine) -> Store {
    Store {
        env: Env {
            locals: Seq::new(parameters.len(), |i: int| (parameters[i]@, m.registers[i])),
            cells: m.cells,
        },
        events: m.events,
        seen: m.seen,
    }
}

/// What a body means for the function as a whole: where it comes to its end, nothing is returned.
pub open spec fn leaves(flow: Flow, course: Course) -> bool {
    match course {
        Course::Goes(s) => flow matches Flow::Returned(values, m) && values.len() == 0
            && same_outside(m, s),
        Course::Returns(_, s) => flow matches Flow::Returned(_, m) && same_outside(m, s),
    }
}

#[verifier::spinoff_prover]
pub proof fn sim_compile_function(
    x: Setting,
    st: State,
    parameters: Seq<Box<[u8]>>,
    has_varargs: bool,
    body: Block,
    m: Machine,
)
    requires
        st.len() == 0 || inv(st),
        means(x),
        set_for(x, st, parameters, has_varargs, body),
        m.registers.len() == 256,
    ensures
        compile_function(st, parameters, has_varargs, body) matches Ok((_, p)) ==> leaves(
            run(x, p.opcodes, 0, p.opcodes.len() as int, m),
            exec_block(x, entered(parameters, m), body),
        ),
{
    broadcast use {group_state, group_spares};

    reveal(compile_function);
    reveal(finish);
    if parameters.len() <= u8::MAX {
        let f = new_function(parameters, has_varargs);
        let a = st.push(f);
        lemma_new_function(st, parameters, has_varargs);
        assert(current(a) == f);
        lemma_block(a, body);
        let st1 = block(a, body)->Ok_0.0;
        assert(arrives(x, 0, m, a) && at(x, 0, m, a) == m) by {
            reveal(arrives);
            reveal(flow);
        }
        assert(store(a, m).env.locals =~= entered(parameters, m).env.locals);
        assert(store(a, m) =~= entered(parameters, m));
        sim_block(x, 0, m, a, body);
        let op = OpCode::Return { start: RegisterIndex(0), count: VarCount::constant(0) };
        let st2 = emit(st1, op);
        lemma_emit(st1, op);
        lemma_free_locals_code(st2, current(st2).locals, 0);
        reveal(end_scope);
        match exec_block(x, entered(parameters, m), body) {
            Course::Goes(_) => lemma_go_return(x, 0, m, st1, op),
            _ => lemma_returned(x, 0, m, st1, st2),
        }
        reveal(flow);
    }
}

} // verus!
