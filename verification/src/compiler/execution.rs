//! Compiling statements keeps the state in order: between statements exactly the registers of
//! the local variables are in use.

use crate::compiler::effects::{group_spares, lemma_spares_emit, only, spares};
use crate::compiler::error::CompilerError;
use crate::compiler::evaluation::{
    evaluated, lemma_closure, lemma_environment, lemma_expression, lemma_expressions,
    lemma_field_key, lemma_leaf, lemma_local, lemma_suffixed_expression,
};
use crate::compiler::model::{
    any_register, assign, assigned_size, assigned_value, assignment, assignments, bind, bind_names,
    block, closure, compile_function, condition, current, discharge, emit, expr_function_call,
    expression, expressions, field_key, find_variable, finish, function_call, function_statement,
    get_environment, held, here, if_arm, if_arms, if_statement, jump_here, jump_placeholder,
    jumps_here, local_call, local_function, local_statement, local_values, new_function,
    new_prototype, operand_register, operands, pop_to, push_registers, push_returns, release,
    return_statement, settle, statement, statements, suffixed_expression, temporary, write_field,
    Desc, ExprDestination, Outcome, State, Variable,
};
use crate::compiler::names::{lemma_find_variable, own_local};
use crate::compiler::order::{
    evolves, group_state, inner_ok, inv, is_local, lemma_emit, lemma_emit_pair, lemma_height,
    lemma_pop_to, lemma_push_registers, lemma_settle, limits, over, proto_ok, quiet, register_fits,
    step, upvalue_fits, upvalues_ok, used,
};
use crate::compiler::ownership::{
    consumes, holds, holds_list, lemma_keep, lemma_owned, lemma_release, local_registers, owned,
    owned_list, rest, sound, spare,
};
use crate::compiler::placing::{
    kept_at, lemma_any_register, lemma_aside, lemma_close_jump, lemma_discharge,
    lemma_expr_function_call, lemma_fresh, lemma_operand_register, lemma_operands, lemma_rest_empty,
    number,
};
use crate::compiler::register_allocator::REGISTERS;
use crate::compiler::scope::{
    clean, lemma_add_prototype, lemma_bind_clean, lemma_bind_names, lemma_clean, lemma_end_scope,
    lemma_finish, lemma_leave, lemma_local_nils, lemma_new_function,
};
use crate::compiler::size::{
    arms_size, block_size, call_size, definition_size, expression_size, expressions_size,
    lemma_expressions_index, lemma_expressions_len, statement_size, statements_size, suffixed_size,
    target_size, targets_size, weight, weights,
};
use crate::compiler::support::{
    arms_supported, block_supported, call_supported, definition_supported, desc_supported,
    descs_supported, expression_supported, expressions_supported, first_supported,
    function_statement_supported, statement_supported, statements_supported, suffixed_supported,
    target_supported, targets_supported,
};
use crate::compiler::tables::lemma_write_field;
use crate::function::UpValueDescriptor;
use crate::opcode::{OpCode, RegisterIndex, VarCount};
use crate::parser::{
    AssignmentStatement, AssignmentTarget, Block, CallSuffix, Expression, FunctionCallStatement,
    FunctionDefinition, FunctionStatement, IfStatement, LocalStatement, ReturnStatement, Statement,
};
use crate::value::ValueView;
use vstd::prelude::*;

verus! {

/// A statement has been compiled: exactly the registers of the local variables are in use
/// again.
pub open spec fn executed(st: State, outcome: Outcome<()>, supported: bool, n: nat) -> bool {
    match outcome {
        Ok((st1, ())) => inv(st1) && evolves(st, st1) && clean(st1) && supported,
        Err(h) => sound(h, supported, n),
    }
}

/// As `executed`, with the same local variables as before.
pub open spec fn restored(st: State, outcome: Outcome<()>, supported: bool, n: nat) -> bool {
    match outcome {
        Ok((st1, ())) => step(st, st1) && clean(st1) && supported,
        Err(h) => sound(h, supported, n),
    }
}

// ---------------------------------------------------------------------------------------------
// Blocks

#[verifier::spinoff_prover]
pub proof fn lemma_block(st: State, b: Block)
    requires
        inv(st),
        clean(st),
    ensures
        restored(st, block(st, b), block_supported(b), block_size(b)),
    decreases block_size(b), 6nat,
{
    broadcast use {group_state, group_spares};

    reveal(block);
    let first_local = current(st).locals.len() as int;
    lemma_statements(st, b.statements@, 0);
    if let Ok((st1, ())) = statements(st, b.statements@, 0) {
        match b.return_statement {
            Some(r) => {
                lemma_return_statement(st1, r);
                if let Ok((st2, ())) = return_statement(st1, r) {
                    lemma_end_scope(st, st2, first_local);
                }
            },
            None => lemma_end_scope(st, st1, first_local),
        }
    }
}

#[verifier::spinoff_prover]
pub proof fn lemma_statements(st: State, ss: Seq<Statement>, i: int)
    requires
        inv(st),
        clean(st),
        0 <= i <= ss.len(),
    ensures
        executed(st, statements(st, ss, i), statements_supported(ss, i), statements_size(ss, i)),
    decreases statements_size(ss, i), 6nat,
{
    broadcast use {group_state, group_spares};

    reveal(statements);
    if i < ss.len() {
        lemma_statement(st, ss[i]);
        if let Ok((st1, ())) = statement(st, ss[i]) {
            lemma_statements(st1, ss, i + 1);
        }
    }
}

#[verifier::spinoff_prover]
pub proof fn lemma_statement(st: State, s: Statement)
    requires
        inv(st),
        clean(st),
    ensures
        executed(st, statement(st, s), statement_supported(s), statement_size(s)),
    decreases statement_size(s), 6nat,
{
    broadcast use {group_state, group_spares};

    reveal(statement);
    match s {
        Statement::If(s) => lemma_if_statement(st, s),
        Statement::Do(b) => lemma_block(st, b),
        Statement::Function(s) => lemma_function_statement(st, s),
        Statement::LocalFunction(s) => lemma_local_function(st, s),
        Statement::LocalStatement(s) => lemma_local_statement(st, s),
        Statement::FunctionCall(s) => lemma_function_call(st, s),
        Statement::Assignment(s) => lemma_assignment(st, s),
        _ => {},
    }
}

// ---------------------------------------------------------------------------------------------
// Conditions

/// A placeholder that was written behind `a` waits for its target.
pub open spec fn pending(a: State, st: State, jump: int) -> bool {
    &&& here(a) <= jump < here(st)
    &&& current(st).opcodes[jump] == (OpCode::Jump { offset: 0 })
}

/// Different placeholders wait for their targets.
pub open spec fn all_pending(a: State, st: State, jumps: Seq<int>) -> bool {
    &&& forall|i: int| 0 <= i < jumps.len() ==> pending(a, st, #[trigger] jumps[i])
    &&& jumps.no_duplicates()
}

pub proof fn lemma_still_pending(a: State, st: State, st1: State, jumps: Seq<int>)
    requires
        all_pending(a, st, jumps),
        evolves(st, st1),
    ensures
        all_pending(a, st1, jumps),
{
    broadcast use {group_state, group_spares};

    assert forall|i: int| 0 <= i < jumps.len() implies pending(a, st1, #[trigger] jumps[i]) by {
        assert(pending(a, st, jumps[i]));
        assert(current(st).opcodes[jumps[i]] == current(st1).opcodes[jumps[i]]);
    }
}

/// One placeholder gets its target; the others wait on.
pub proof fn lemma_one_closed(a: State, st: State, jump: int, jumps: Seq<int>)
    requires
        inv(st),
        evolves(a, st),
        pending(a, st, jump),
        all_pending(a, st, jumps),
        !jumps.contains(jump),
    ensures
        match jump_here(st, jump) {
            Ok((st1, ())) => {
                &&& inv(st1)
                &&& evolves(a, st1)
                &&& current(st1).locals == current(st).locals
                &&& current(st1).registers == current(st).registers
                &&& here(st1) == here(st)
                &&& all_pending(a, st1, jumps)
            },
            Err(h) => over(h, CompilerError::OpCodes, 1),
        },
{
    lemma_close_jump(a, st, jump);
    if let Ok((st1, ())) = jump_here(st, jump) {
        assert forall|i: int| 0 <= i < jumps.len() implies pending(a, st1, #[trigger] jumps[i]) by {
            assert(pending(a, st, jumps[i]));
            assert(jumps.contains(jumps[i]));
            assert(current(st).opcodes[jumps[i]] == current(st1).opcodes[jumps[i]]);
        }
    }
}

/// All placeholders get their target.
pub proof fn lemma_jumps_here(a: State, st: State, jumps: Seq<int>, i: int)
    requires
        inv(st),
        evolves(a, st),
        0 <= i <= jumps.len(),
        all_pending(a, st, jumps.skip(i)),
    ensures
        match jumps_here(st, jumps, i) {
            Ok((st1, ())) => {
                &&& inv(st1)
                &&& evolves(a, st1)
                &&& current(st1).locals == current(st).locals
                &&& current(st1).registers == current(st).registers
            },
            Err(h) => over(h, CompilerError::OpCodes, 1),
        },
    decreases jumps.len() - i,
{
    if i < jumps.len() {
        let left = jumps.skip(i);
        let after = jumps.skip(i + 1);
        assert(left[0] == jumps[i]);
        assert(pending(a, st, left[0]));
        assert forall|k: int| 0 <= k < after.len() implies pending(a, st, #[trigger] after[k])
            && after[k] != jumps[i] by {
            assert(after[k] == left[k + 1]);
            assert(left[0] != left[k + 1]);
        }
        assert(after.no_duplicates()) by {
            assert forall|k: int, m: int|
                0 <= k < after.len() && 0 <= m < after.len() && k != m implies after[k]
                != after[m] by {
                assert(after[k] == left[k + 1]);
                assert(after[m] == left[m + 1]);
            }
        }
        lemma_one_closed(a, st, jumps[i], after);
        if let Ok((st1, ())) = jump_here(st, jumps[i]) {
            lemma_jumps_here(a, st1, jumps, i + 1);
        }
    }
}

/// A test and the jump behind it.
#[verifier::spinoff_prover]
pub proof fn lemma_condition(st: State, e: Expression)
    requires
        inv(st),
    ensures
        match condition(st, e) {
            Ok((st1, ())) => {
                let st2 = jump_placeholder(st1);
                &&& step(st, st2)
                &&& used(st2) == used(st)
                &&& pending(st, st2, here(st1))
                &&& here(st2) == here(st1) + 1
                &&& expression_supported(e)
            },
            Err(h) => sound(h, expression_supported(e), expression_size(e)),
        },
    decreases expression_size(e), 7nat,
{
    broadcast use {group_state, group_spares};

    reveal(condition);
    lemma_rest_empty(st);
    lemma_expression(st, e);
    let jump = OpCode::Jump { offset: 0 };
    match expression(st, e) {
        Ok((st1, Desc::Comparison { left, op, right })) => {
            lemma_operands(st1, *left, *right);
            if let Ok((st2, (l, r))) = operands(st1, *left, *right) {
                lemma_emit_pair(st2, OpCode::Compare { op, left: l, right: r }, jump);
                assert(used(st2) =~= used(st));
            }
        },
        Ok((st1, Desc::Not(operand))) => {
            lemma_operand_register(st1, *operand);
            if let Ok((st2, value)) = operand_register(st1, *operand) {
                lemma_emit_pair(st2, OpCode::Test { value, is_true: false }, jump);
                assert(used(st2) =~= used(st));
            }
        },
        Ok((st1, d)) => {
            lemma_operand_register(st1, d);
            if let Ok((st2, value)) = operand_register(st1, d) {
                lemma_emit_pair(st2, OpCode::Test { value, is_true: true }, jump);
                assert(used(st2) =~= used(st));
            }
        },
        Err(_) => {},
    }
}

/// The jumps of an `if` between two arms: to the next arm, and to the end.
pub open spec fn between_arms(a: State, st: State, next: int, ends: Seq<int>) -> bool {
    &&& inv(st)
    &&& evolves(a, st)
    &&& current(st).locals == current(a).locals
    &&& clean(st)
    &&& pending(a, st, next)
    &&& all_pending(a, st, ends)
    &&& !ends.contains(next)
}

/// One arm, once the jump of the arm before has been completed.
#[verifier::spinoff_prover]
pub proof fn lemma_arm(a: State, st: State, e: Expression, b: Block, ends: Seq<int>)
    requires
        inv(st),
        evolves(a, st),
        current(st).locals == current(a).locals,
        clean(st),
        all_pending(a, st, ends),
    ensures
        match condition(st, e) {
            Ok((st1, ())) => match block(jump_placeholder(st1), b) {
                Ok((st2, ())) => {
                    &&& between_arms(
                        a,
                        jump_placeholder(st2),
                        here(st1),
                        ends.push(here(st2)),
                    )
                    &&& expression_supported(e)
                    &&& block_supported(b)
                },
                Err(h) => sound(
                    h,
                    expression_supported(e) && block_supported(b),
                    expression_size(e) + block_size(b),
                ),
            },
            Err(h) => sound(
                h,
                expression_supported(e) && block_supported(b),
                expression_size(e) + block_size(b),
            ),
        },
    decreases expression_size(e) + block_size(b), 7nat,
{
    broadcast use {group_state, group_spares};

    lemma_condition(st, e);
    if let Ok((st1, ())) = condition(st, e) {
        let st2 = jump_placeholder(st1);
        let next = here(st1);
        lemma_clean(st, st2);
        lemma_block(st2, b);
        if let Ok((st3, ())) = block(st2, b) {
            let st4 = jump_placeholder(st3);
            let end = here(st3);
            lemma_emit(st3, OpCode::Jump { offset: 0 });
            lemma_clean(st3, st4);
            lemma_still_pending(a, st, st4, ends);
            assert(current(st2).opcodes[next] == current(st4).opcodes[next]);
            assert forall|i: int| 0 <= i < ends.len() implies #[trigger] ends[i] < here(st) by {
                assert(pending(a, st, ends[i]));
            }
            let all = ends.push(end);
            assert forall|i: int| 0 <= i < all.len() implies pending(a, st4, #[trigger] all[i]) by {
                if i < ends.len() {
                    assert(pending(a, st4, ends[i]));
                }
            }
            assert(all.no_duplicates());
            assert(!all.contains(next));
        }
    }
}

#[verifier::spinoff_prover]
pub proof fn lemma_if_arm(
    a: State,
    st: State,
    e: Expression,
    b: Block,
    next: Option<int>,
    ends: Seq<int>,
)
    requires
        match next {
            Some(jump) => between_arms(a, st, jump, ends),
            None => a == st && inv(st) && clean(st) && ends.len() == 0,
        },
    ensures
        match if_arm(st, e, b, next, ends) {
            Ok((st1, (next, ends))) => {
                &&& between_arms(a, st1, next, ends)
                &&& expression_supported(e)
                &&& block_supported(b)
            },
            Err(h) => sound(
                h,
                expression_supported(e) && block_supported(b),
                expression_size(e) + block_size(b),
            ),
        },
    decreases expression_size(e) + block_size(b), 8nat,
{
    broadcast use {group_state, group_spares};

    reveal(if_arm);
    match next {
        Some(jump) => {
            lemma_one_closed(a, st, jump, ends);
            if let Ok((st1, ())) = jump_here(st, jump) {
                lemma_clean(st, st1);
                lemma_arm(a, st1, e, b, ends);
            }
        },
        None => lemma_arm(a, st, e, b, ends),
    }
}

#[verifier::spinoff_prover]
pub proof fn lemma_if_arms(
    a: State,
    st: State,
    arms: Seq<(Expression, Block)>,
    i: int,
    next: int,
    ends: Seq<int>,
)
    requires
        between_arms(a, st, next, ends),
        0 <= i <= arms.len(),
    ensures
        match if_arms(st, arms, i, next, ends) {
            Ok((st1, (next, ends))) => between_arms(a, st1, next, ends) && arms_supported(arms, i),
            Err(h) => sound(h, arms_supported(arms, i), arms_size(arms, i)),
        },
    decreases arms_size(arms, i), 8nat,
{
    reveal(if_arms);
    if i < arms.len() {
        lemma_if_arm(a, st, arms[i].0, arms[i].1, Some(next), ends);
        if let Ok((st1, (next, ends))) = if_arm(st, arms[i].0, arms[i].1, Some(next), ends) {
            lemma_if_arms(a, st1, arms, i + 1, next, ends);
        }
    }
}

#[verifier::spinoff_prover]
pub proof fn lemma_if_statement(st: State, s: IfStatement)
    requires
        inv(st),
        clean(st),
    ensures
        restored(
            st,
            if_statement(st, s),
            statement_supported(Statement::If(s)),
            statement_size(Statement::If(s)),
        ),
    decreases statement_size(Statement::If(s)), 5nat,
{
    broadcast use {group_state, group_spares};

    reveal(if_statement);
    let none = Seq::<int>::empty();
    lemma_if_arm(st, st, s.if_part.0, s.if_part.1, None, none);
    if let Ok((st1, (next, ends))) = if_arm(st, s.if_part.0, s.if_part.1, None, none) {
        lemma_if_arms(st, st1, s.else_if_parts@, 0, next, ends);
        if let Ok((st2, (next, ends))) = if_arms(st1, s.else_if_parts@, 0, next, ends) {
            match s.else_part {
                Some(b) => {
                    lemma_one_closed(st, st2, next, ends);
                    if let Ok((st3, ())) = jump_here(st2, next) {
                        lemma_clean(st2, st3);
                        lemma_block(st3, b);
                        if let Ok((st4, ())) = block(st3, b) {
                            lemma_still_pending(st, st3, st4, ends);
                            assert(ends.skip(0) =~= ends);
                            lemma_jumps_here(st, st4, ends, 0);
                            if let Ok((st5, ())) = jumps_here(st4, ends, 0) {
                                lemma_clean(st4, st5);
                            }
                        }
                    }
                },
                None => {
                    let all = ends.push(next);
                    assert forall|i: int| 0 <= i < all.len() implies pending(
                        st,
                        st2,
                        #[trigger] all[i],
                    ) by {
                        if i < ends.len() {
                            assert(pending(st, st2, ends[i]));
                        }
                    }
                    assert(all.no_duplicates()) by {
                        assert forall|i: int| 0 <= i < ends.len() implies #[trigger] ends[i]
                            != next by {
                            assert(ends.contains(ends[i]));
                        }
                    }
                    assert(all.skip(0) =~= all);
                    lemma_jumps_here(st, st2, all, 0);
                    if let Ok((st3, ())) = jumps_here(st2, all, 0) {
                        lemma_clean(st2, st3);
                    }
                },
            }
        }
    }
}

// ---------------------------------------------------------------------------------------------
// Functions

#[verifier::spinoff_prover]
pub proof fn lemma_function_statement(st: State, s: FunctionStatement)
    requires
        inv(st),
        clean(st),
    ensures
        restored(
            st,
            function_statement(st, s),
            function_statement_supported(s),
            definition_size(s.definition),
        ),
    decreases definition_size(s.definition), 8nat,
{
    broadcast use {group_state, group_spares};

    reveal(function_statement);
    if s.name.fields@.len() == 0 && s.name.method is None {
        lemma_new_prototype(st, s.definition);
        if let Ok((st1, proto)) = new_prototype(st, s.definition) {
            lemma_environment(st1);
            if let Ok((st2, env)) = get_environment(st1) {
                lemma_rest_empty(st2);
                lemma_closure(st2, proto);
                if let Ok((st3, dest)) = closure(st2, proto) {
                    let key = Desc::Value(ValueView::String(s.name.name@));
                    let value = temporary(dest);
                    lemma_aside(st2, Set::empty(), st3, value, env);
                    lemma_write_field(st3, env, key, value);
                    if let Ok((st4, ())) = write_field(st3, env, key, value) {
                        assert(used(st4) =~= used(st));
                        lemma_clean(st, st4);
                    }
                }
            }
        }
    }
}

#[verifier::spinoff_prover]
pub proof fn lemma_local_function(st: State, s: FunctionStatement)
    requires
        inv(st),
        clean(st),
    ensures
        executed(
            st,
            local_function(st, s),
            function_statement_supported(s),
            definition_size(s.definition),
        ),
    decreases definition_size(s.definition), 8nat,
{
    broadcast use {group_state, group_spares};

    reveal(local_function);
    if s.name.fields@.len() == 0 && s.name.method is None {
        lemma_new_prototype(st, s.definition);
        if let Ok((st1, proto)) = new_prototype(st, s.definition) {
            lemma_rest_empty(st1);
            lemma_closure(st1, proto);
            if let Ok((st2, dest)) = closure(st1, proto) {
                lemma_clean(st, st1);
                assert(local_registers(current(st2)) =~= local_registers(current(st1)));
                assert(used(st2) =~= local_registers(current(st2)).insert(dest.0 as int));
                lemma_bind_clean(st2, s.name.name@, dest);
            }
        }
    }
}

#[verifier::spinoff_prover]
pub proof fn lemma_new_prototype(st: State, f: FunctionDefinition)
    requires
        inv(st),
    ensures
        match new_prototype(st, f) {
            Ok((st1, proto)) => {
                &&& quiet(st, st1)
                &&& current(st1).opcodes == current(st).opcodes
                &&& proto.0 < current(st1).prototypes.len()
                &&& definition_supported(f)
            },
            Err(h) => sound(h, definition_supported(f), definition_size(f)),
        },
    decreases definition_size(f), 6nat,
{
    broadcast use {group_state, group_spares};

    reveal(new_prototype);
    lemma_compile_function(st, f.parameters@, f.has_varargs, f.body);
    if let Ok((st1, p)) = compile_function(st, f.parameters@, f.has_varargs, f.body) {
        lemma_add_prototype(st1, p);
    }
}

/// A function is compiled to a well-formed one. It changes those around it only by the variables
/// that they hand down to it.
#[verifier::spinoff_prover]
pub proof fn lemma_compile_function(
    st: State,
    parameters: Seq<Box<[u8]>>,
    has_varargs: bool,
    body: Block,
)
    requires
        st.len() == 0 || inv(st),
    ensures
        match compile_function(st, parameters, has_varargs, body) {
            Ok((st1, p)) => {
                &&& block_supported(body)
                &&& proto_ok(p)
                &&& p.fixed_params == parameters.len()
                &&& !p.has_varargs
                &&& st.len() > 0 ==> {
                    &&& quiet(st, st1)
                    &&& current(st1).opcodes == current(st).opcodes
                    &&& inner_ok(
                        p,
                        current(st1).registers.size,
                        current(st1).upvalues.len() as int,
                    )
                }
                &&& st.len() == 0 ==> {
                    &&& p.upvalues.len() <= 1
                    &&& p.upvalues.len() == 1 ==> p.upvalues[0] == UpValueDescriptor::Environment
                }
            },
            Err(h) => sound(h, block_supported(body), parameters.len() + block_size(body)),
        },
    decreases block_size(body), 7nat,
{
    broadcast use {group_state, group_spares};

    reveal(compile_function);
    if parameters.len() <= u8::MAX {
        let f = new_function(parameters, has_varargs);
        let a = st.push(f);
        lemma_new_function(st, parameters, has_varargs);
        assert(current(a) == f);
        lemma_block(a, body);
        if let Ok((st1, ())) = block(a, body) {
            lemma_finish(st1);
            if st.len() > 0 {
                lemma_leave(st, f, st1);
                let p = finish(st1)->Ok_0.1;
                let out = st1.drop_last();
                assert forall|i: int| 0 <= i < p.upvalues.len() implies upvalue_fits(
                    #[trigger] p.upvalues[i],
                    current(out).registers.size,
                    current(out).upvalues.len() as int,
                ) by {
                    assert(p.upvalues[i] == current(st1).upvalues[i].1);
                }
            } else {
                reveal(inv);
                assert(upvalues_ok(st1, 0));
            }
        }
    }
}

// ---------------------------------------------------------------------------------------------
// Return

/// The registers in use are those of `kept`, which lie below `start`, and others from `start` on.
pub open spec fn stacked(st: State, kept: Set<int>, start: int) -> bool {
    &&& kept.subset_of(used(st))
    &&& forall|r: int| #[trigger] kept.contains(r) ==> r < start
    &&& start > 0 ==> kept.contains(start - 1)
    &&& forall|r: int| #[trigger] used(st).contains(r) ==> kept.contains(r) || r >= start
}

#[verifier::spinoff_prover]
pub proof fn lemma_push_returns(
    st: State,
    kept: Set<int>,
    start: RegisterIndex,
    es: Seq<Expression>,
    i: int,
)
    requires
        inv(st),
        stacked(st, kept, start.0 as int),
        0 <= i < es.len(),
    ensures
        match push_returns(st, es, i) {
            Ok((st1, count)) => {
                &&& step(st, st1)
                &&& stacked(st1, kept, start.0 as int)
                &&& register_fits(start, limits(current(st1)))
                &&& start.0 <= current(st1).registers.top
                &&& expressions_supported(es, i)
            },
            Err(h) => sound(h, expressions_supported(es, i), expressions_size(es, 0)),
        },
    decreases expressions_size(es, i), 7nat,
{
    broadcast use {group_state, group_spares};

    reveal(push_returns);
    lemma_expressions_len(es, 0);
    lemma_expressions_index(es, 0, i);
    lemma_rest_empty(st);
    lemma_expression(st, es[i]);
    if let Ok((st1, d)) = expression(st, es[i]) {
        assert(rest(st1, owned(d)) =~= used(st));
        assert(i == es.len() - 1 ==> expressions_supported(es, i + 1));
        if i < es.len() - 1 || !(d is FunctionCall) {
            lemma_discharge(st1, d, ExprDestination::PushNew);
            if let Ok((st2, r)) = discharge(st1, d, ExprDestination::PushNew) {
                assert(number(r) >= start.0) by {
                    if start.0 > 0 {
                        assert(used(st).contains(start.0 - 1));
                        assert(used(st2).contains(start.0 - 1));
                    }
                }
                assert(used(st2).contains(number(r)));
                assert(stacked(st2, kept, start.0 as int));
                if i < es.len() - 1 {
                    lemma_push_returns(st2, kept, start, es, i + 1);
                }
            }
        } else if let Desc::FunctionCall { func, args } = d {
            lemma_expr_function_call(st1, *func, args, VarCount::variable());
            if let Ok((st2, r)) = expr_function_call(st1, *func, args, VarCount::variable()) {
                assert(used(st2) =~= used(st));
                assert(start.0 <= r.0) by {
                    if start.0 > 0 {
                        assert(used(st2).contains(start.0 - 1));
                    }
                }
            }
        }
    }
}

#[verifier::spinoff_prover]
pub proof fn lemma_return_statement(st: State, s: ReturnStatement)
    requires
        inv(st),
        clean(st),
    ensures
        restored(
            st,
            return_statement(st, s),
            expressions_supported(s.returns@, 0),
            expressions_size(s.returns@, 0),
        ),
        return_statement(st, s) matches Ok((st1, ())) ==> current(st1).opcodes.last() == (
        if s.returns@.len() == 0 {
            OpCode::Return { start: RegisterIndex(0), count: VarCount::constant(0) }
        } else {
            OpCode::Return {
                start: RegisterIndex(current(settle(st)).registers.top as u8),
                count: push_returns(settle(st), s.returns@, 0)->Ok_0.1,
            }
        }),
    decreases expressions_size(s.returns@, 0), 8nat,
{
    broadcast use {group_state, group_spares};

    reveal(return_statement);
    if s.returns@.len() == 0 {
        let op = OpCode::Return { start: RegisterIndex(0), count: VarCount::constant(0) };
        lemma_emit(st, op);
        lemma_clean(st, emit(st, op));
    } else {
        let st1 = settle(st);
        lemma_settle(st);
        lemma_height(used(st), REGISTERS as int);
        if current(st1).registers.top <= u8::MAX {
            let start = RegisterIndex(current(st1).registers.top as u8);
            assert(stacked(st1, used(st), start.0 as int));
            lemma_push_returns(st1, used(st), start, s.returns@, 0);
            if let Ok((st2, count)) = push_returns(st1, s.returns@, 0) {
                let op = OpCode::Return { start, count };
                let st3 = emit(st2, op);
                lemma_emit(st2, op);
                assert forall|i: int| #[trigger] is_local(current(st3), i) implies i < start.0 by {
                    assert(is_local(current(st), i));
                    assert(local_registers(current(st)).contains(i));
                    assert(used(st).contains(i));
                }
                lemma_pop_to(st3, start.0 as int);
                let st4 = pop_to(st3, start.0 as int);
                assert(used(st4) =~= used(st));
                lemma_clean(st, st4);
            }
        }
    }
}

// ---------------------------------------------------------------------------------------------
// Local variables

#[verifier::spinoff_prover]
pub proof fn lemma_local_call(
    st: State,
    names: Seq<Box<[u8]>>,
    i: int,
    func: Desc,
    args: Seq<Desc>,
)
    requires
        inv(st),
        0 <= i < names.len(),
        holds(st, func),
        holds_list(st, args, 0),
        owned(func).disjoint(owned_list(args, 0)),
        rest(st, owned(func).union(owned_list(args, 0))) == local_registers(current(st)),
    ensures
        executed(
            st,
            local_call(st, names, i, func, args),
            desc_supported(func) && descs_supported(args, 0),
            (names.len() - i) as nat + weight(func) + weights(args, 0),
        ),
    decreases weight(func) + weights(args, 0), 4nat,
{
    broadcast use {group_state, group_spares};

    reveal(local_call);
    let count = names.len() - i;
    if count < u8::MAX {
        lemma_expr_function_call(st, func, args, VarCount::constant(count));
        if let Ok((st1, _)) = expr_function_call(st, func, args, VarCount::constant(count)) {
            lemma_push_registers(st1, count);
            if let Ok((st2, first)) = push_registers(st1, count) {
                assert(local_registers(current(st2)) =~= local_registers(current(st)));
                assert forall|r: int| first.0 <= r < first.0 + count implies !#[trigger] is_local(
                    current(st2),
                    r,
                ) by {
                    if is_local(current(st2), r) {
                        assert(local_registers(current(st2)).contains(r));
                        assert(used(st1).contains(r));
                    }
                }
                lemma_bind_names(st2, names, i, first, count);
                let st3 = bind_names(st2, names, i, first, count);
                assert(used(st3) =~= local_registers(current(st3)));
            }
        }
    }
}

#[verifier::spinoff_prover]
pub proof fn lemma_local_statement(st: State, s: LocalStatement)
    requires
        inv(st),
        clean(st),
    ensures
        executed(
            st,
            local_statement(st, s),
            expressions_supported(s.values@, 0),
            1 + s.names@.len() + expressions_size(s.values@, 0),
        ),
    decreases expressions_size(s.values@, 0), 8nat,
{
    reveal(local_statement);
    lemma_local_values(st, s.names@, s.values@, 0);
}

#[verifier::spinoff_prover]
pub proof fn lemma_local_values(
    st: State,
    names: Seq<Box<[u8]>>,
    values: Seq<Expression>,
    i: int,
)
    requires
        inv(st),
        clean(st),
        0 <= i <= values.len(),
    ensures
        executed(
            st,
            local_values(st, names, values, i),
            expressions_supported(values, i),
            1 + names.len() + expressions_size(values, i),
        ),
    decreases expressions_size(values, i), 7nat,
{
    broadcast use {group_state, group_spares};

    reveal(local_values);
    if i < values.len() {
        lemma_rest_empty(st);
        lemma_expression(st, values[i]);
        if let Ok((st1, d)) = expression(st, values[i]) {
            assert(rest(st1, owned(d)) =~= used(st));
            assert(local_registers(current(st1)) =~= local_registers(current(st)));
            if i >= names.len() {
                lemma_discharge(st1, d, ExprDestination::Nowhere);
                if let Ok((st2, _)) = discharge(st1, d, ExprDestination::Nowhere) {
                    lemma_clean(st, st2);
                    lemma_local_values(st2, names, values, i + 1);
                }
            } else if i == values.len() - 1 && d is FunctionCall {
                assert(expressions_supported(values, i + 1));
                lemma_local_call(st1, names, i, *d->func, d->args);
            } else {
                lemma_owned(current(st1), d);
                lemma_discharge(st1, d, ExprDestination::AllocateNew);
                if let Ok((st2, Some(r))) = discharge(st1, d, ExprDestination::AllocateNew) {
                    assert(local_registers(current(st2)) =~= local_registers(current(st)));
                    lemma_fresh(st1, owned(d), st2, r);
                    lemma_bind_clean(st2, names[i]@, r);
                    lemma_local_values(bind(st2, names[i]@, r), names, values, i + 1);
                }
            }
        }
    } else {
        lemma_local_nils(st, names, values.len() as int);
    }
}

// ---------------------------------------------------------------------------------------------
// Calls and assignments

#[verifier::spinoff_prover]
pub proof fn lemma_function_call(st: State, s: FunctionCallStatement)
    requires
        inv(st),
        clean(st),
    ensures
        restored(
            st,
            function_call(st, s),
            suffixed_supported(s.head) && call_supported(s.call),
            suffixed_size(s.head) + call_size(s.call),
        ),
    decreases suffixed_size(s.head) + call_size(s.call), 6nat,
{
    broadcast use {group_state, group_spares};

    reveal(function_call);
    lemma_rest_empty(st);
    lemma_suffixed_expression(st, s.head);
    if let Ok((st1, func)) = suffixed_expression(st, s.head) {
        if let CallSuffix::Function(args) = s.call {
            let none = Seq::<Desc>::empty();
            lemma_rest_empty(st1);
            assert(owned_list(none, 0) =~= Set::<int>::empty());
            lemma_owned(current(st1), func);
            lemma_expressions(st1, args@, 0, none);
            if let Ok((st2, ds)) = expressions(st1, args@, 0, none) {
                lemma_keep(st1, st2, func);
                lemma_expr_function_call(st2, func, ds, VarCount::constant(0));
                if let Ok((st3, _)) = expr_function_call(st2, func, ds, VarCount::constant(0)) {
                    assert(used(st3) =~= used(st));
                    lemma_clean(st, st3);
                }
            }
        }
    }
}

#[verifier::spinoff_prover]
pub proof fn lemma_assignment(st: State, s: AssignmentStatement)
    requires
        inv(st),
        clean(st),
    ensures
        restored(
            st,
            assignment(st, s),
            targets_supported(s.targets@, 0) && first_supported(
                s.values@,
                0,
                s.targets@.len() as int,
            ),
            targets_size(s.targets@, 0) + expressions_size(s.values@, 0),
        ),
    decreases targets_size(s.targets@, 0) + expressions_size(s.values@, 0), 8nat,
{
    reveal(assignment);
    lemma_assignments(st, s.targets@, s.values@, 0);
}

#[verifier::spinoff_prover]
pub proof fn lemma_assigned_value(st: State, values: Seq<Expression>, i: int)
    requires
        inv(st),
        0 <= i,
    ensures
        evaluated(
            st,
            Set::empty(),
            assigned_value(st, values, i),
            assigned_size(values, i),
            i < values.len() ==> expression_supported(values[i]),
        ),
    decreases expressions_size(values, i), 6nat,
{
    broadcast use {group_state, group_spares};

    reveal(assigned_value);
    if i < values.len() {
        lemma_expression(st, values[i]);
    } else {
        lemma_leaf(st, st, Desc::Value(ValueView::Nil));
    }
}

#[verifier::spinoff_prover]
pub proof fn lemma_assignments(
    st: State,
    targets: Seq<AssignmentTarget>,
    values: Seq<Expression>,
    i: int,
)
    requires
        inv(st),
        clean(st),
        0 <= i <= targets.len(),
    ensures
        restored(
            st,
            assignments(st, targets, values, i),
            targets_supported(targets, i) && first_supported(values, i, targets.len() as int),
            targets_size(targets, i) + expressions_size(values, i),
        ),
    decreases targets_size(targets, i) + expressions_size(values, i), 7nat,
{
    broadcast use {group_state, group_spares};

    reveal(assignments);
    if i < targets.len() {
        lemma_rest_empty(st);
        lemma_assigned_value(st, values, i);
        if let Ok((st1, d)) = assigned_value(st, values, i) {
            lemma_assign(st1, targets[i], d);
            if let Ok((st2, ())) = assign(st1, targets[i], d) {
                assert(used(st2) =~= used(st));
                lemma_clean(st, st2);
                lemma_assignments(st2, targets, values, i + 1);
            }
        }
    }
}

/// The local variable that an assignment changes, if it is one.
pub open spec fn assigned(st: State, target: AssignmentTarget) -> Set<int> {
    match target {
        AssignmentTarget::Name(name) => match own_local(st, name@, st.len() - 1) {
            Some(r) => only(r),
            None => Set::empty(),
        },
        AssignmentTarget::Field(_, _) => Set::empty(),
    }
}

/// An assignment gives back what the value held, and changes nothing else that is in use but the
/// variable itself.
#[verifier::spinoff_prover]
pub proof fn lemma_assign(st: State, target: AssignmentTarget, value: Desc)
    requires
        inv(st),
        holds(st, value),
    ensures
        match assign(st, target, value) {
            Ok((st1, ())) => {
                &&& consumes(st, owned(value), st1)
                &&& spares(st, st1, rest(st, owned(value)).difference(assigned(st, target)))
                &&& target_supported(target)
                &&& desc_supported(value)
            },
            Err(h) => sound(
                h,
                target_supported(target) && desc_supported(value),
                target_size(target) + weight(value),
            ),
        },
    decreases target_size(target) + weight(value), 6nat,
{
    broadcast use {group_state, group_spares};

    reveal(assign);
    let o = owned(value);
    let kept = rest(st, o).difference(assigned(st, target));
    assert(kept.subset_of(rest(st, o)));
    lemma_owned(current(st), value);
    match target {
        AssignmentTarget::Name(name) => {
            lemma_find_variable(st, name@);
            match find_variable(st, name@) {
                Ok((st1, Variable::Local(r))) => {
                    lemma_keep(st, st1, value);
                    lemma_local(st1, r);
                    assert(!o.contains(r.0 as int)) by {
                        assert(is_local(current(st), r.0 as int));
                        assert(local_registers(current(st)).contains(r.0 as int));
                        assert(!spare(current(st)).contains(r.0 as int));
                    }
                    lemma_discharge(st1, value, ExprDestination::Register(r));
                    assert(spares(st, st1, kept));
                    assert(kept.subset_of(kept_at(st1, o, ExprDestination::Register(r))));
                },
                Ok((st1, Variable::UpValue(dest))) => {
                    lemma_keep(st, st1, value);
                    lemma_any_register(st1, value);
                    if let Ok((st2, source)) = any_register(st1, value) {
                        let op = OpCode::SetUpValue { source, dest };
                        let d = held(value, source);
                        lemma_emit(st2, op);
                        lemma_spares_emit(st2, op, kept);
                        let st3 = emit(st2, op);
                        lemma_keep(st2, st3, d);
                        lemma_release(st3, d);
                        let st4 = release(st3, d)->Ok_0.0;
                        assert(used(st4) =~= rest(st, o));
                        assert(spares(st, st1, kept));
                        assert(kept.subset_of(rest(st1, o)));
                        assert(spares(st3, st4, kept));
                    }
                },
                Ok((st1, Variable::Global(name))) => {
                    lemma_environment(st1);
                    if let Ok((st2, env)) = get_environment(st1) {
                        let key = Desc::Value(ValueView::String(name));
                        lemma_keep(st, st2, value);
                        lemma_write_field(st2, env, key, value);
                        assert(owned(env).union(owned(key)).union(o) =~= o);
                        assert(spares(st, st2, kept));
                        assert(kept.subset_of(rest(st2, o)));
                    }
                },
                Err(_) => {},
            }
        },
        AssignmentTarget::Field(table, field) => {
            lemma_rest_empty(st);
            lemma_suffixed_expression(st, table);
            if let Ok((st1, t)) = suffixed_expression(st, table) {
                lemma_aside(st, Set::empty(), st1, t, value);
                lemma_rest_empty(st1);
                lemma_field_key(st1, field);
                if let Ok((st2, k)) = field_key(st1, field) {
                    lemma_aside(st1, Set::empty(), st2, k, value);
                    lemma_aside(st1, Set::empty(), st2, k, t);
                    lemma_write_field(st2, t, k, value);
                    if let Ok((st3, ())) = write_field(st2, t, k, value) {
                        assert(used(st3) =~= rest(st, o));
                        assert(kept.subset_of(rest(st, Set::empty())));
                        assert(kept.subset_of(rest(st1, Set::empty())));
                        assert(kept.subset_of(
                            rest(st2, owned(t).union(owned(k)).union(owned(value))),
                        ));
                    }
                }
            }
        },
    }
}

} // verus!
