//! Placing values keeps the state in order: what an expression held is given back, and nothing
//! else is; the value ends where it was wanted.

use crate::compiler::effects::{
    group_spares, lemma_spares_emit, lemma_spares_jump, lemma_spares_nil, others, spares, writes,
};
use crate::compiler::error::CompilerError;
use crate::compiler::evaluation::lemma_expression;
use crate::compiler::model::{
    any_register, any_register_or_constant, called, current, discharge, emit, expr_function_call,
    expression, found_destination, get_constant, held, held_operand, here, is_leaf, jump_here,
    jump_placeholder, landed, load_value, new_destination, operand_register, operands,
    place_compared, place_comparison, place_not, place_register, place_result, place_right,
    place_short_circuit, place_upvalue, place_value, pop_to, push_arguments, push_registers,
    release, release_both, settle, short_circuit_test, temporary, Desc, ExprDestination, Outcome,
    State,
};
use crate::compiler::operators::{ComparisonBinOp, RegisterOrConstant, ShortCircuitBinOp};
use crate::compiler::order::{
    code_grows, evolves, group_state, inv, is_local, lemma_allocate, lemma_emit,
    lemma_emit_comparison, lemma_emit_pair, lemma_get_constant, lemma_height_is, lemma_jump_here,
    lemma_load_nil, lemma_pop_to, lemma_push_registers, lemma_settle, lengthens, limits,
    operand_fits, over, quiet, register_fits, settled, step, used, waits,
};
use crate::compiler::ownership::{
    gives_back, holds, holds_list, lemma_keep, lemma_keep_list, lemma_owned, lemma_owned_list,
    lemma_release, lemma_steady, local_registers, owned, owned_list, rest, sound, spare, steady,
    yields,
};
use crate::compiler::size::{
    expression_size, lemma_weights_index, lemma_weights_len, weight, weights,
};
use crate::compiler::support::{desc_supported, descs_supported, expression_supported};
use crate::opcode::{OpCode, RegisterIndex, UpValueIndex, VarCount};
use crate::parser::Expression;
use crate::value::ValueView;
use vstd::prelude::*;

verus! {

// ---------------------------------------------------------------------------------------------
// What is to be shown

/// A destination that is a register is in use, and not given back.
pub open spec fn open_to(st: State, o: Set<int>, dest: ExprDestination) -> bool {
    dest matches ExprDestination::Register(x) ==> used(st).contains(x.0 as int) && !o.contains(
        x.0 as int,
    )
}

/// `o` is given back, and one register is taken that was not in use or belonged to `o`.
pub open spec fn fresh(st: State, o: Set<int>, st1: State, r: RegisterIndex) -> bool {
    &&& used(st1) == rest(st, o).insert(r.0 as int)
    &&& !rest(st, o).contains(r.0 as int)
}

/// The number of a register, where there is one.
pub open spec fn number(r: Option<RegisterIndex>) -> int {
    match r {
        Some(r) => r.0 as int,
        None => -1,
    }
}

/// No register in use lies above this one.
pub open spec fn highest(st: State, r: RegisterIndex) -> bool {
    forall|i: int| #[trigger] used(st).contains(i) ==> i <= r.0
}

/// What is not changed when a value is placed: everything that stays in use but the destination.
pub open spec fn kept_at(st: State, o: Set<int>, dest: ExprDestination) -> Set<int> {
    match dest {
        ExprDestination::Register(x) => rest(st, o).remove(x.0 as int),
        _ => rest(st, o),
    }
}

/// A value has been placed: `o` is given back, and the value is where it was wanted. A value that
/// was wanted at the top of the stack is the highest one, directly above what was there before.
/// Nothing else that is in use is changed.
pub open spec fn set_down(
    st: State,
    o: Set<int>,
    dest: ExprDestination,
    st1: State,
    r: Option<RegisterIndex>,
) -> bool {
    &&& step(st, st1)
    &&& spares(st, st1, kept_at(st, o, dest))
    &&& match dest {
        ExprDestination::Register(x) => r == Some(x) && used(st1) == rest(st, o),
        ExprDestination::Nowhere => r is None && used(st1) == rest(st, o),
        _ => r is Some && fresh(st, o, st1, r->0),
    }
    &&& dest == ExprDestination::PushNew ==> {
        &&& highest(st1, r->0)
        &&& steady(st, o) ==> number(r) == current(st).registers.top
    }
}

/// As `set_down`, with the top of the stack directly above a value that was wanted there.
pub open spec fn placed(
    st: State,
    o: Set<int>,
    dest: ExprDestination,
    st1: State,
    r: Option<RegisterIndex>,
) -> bool {
    &&& set_down(st, o, dest, st1, r)
    &&& dest == ExprDestination::PushNew ==> settled(st1) && current(st1).registers.top == number(r)
        + 1
}

/// The registers of `k` values from `first` on.
pub open spec fn span(first: int, k: int) -> Set<int> {
    Set::new(|r: int| first <= r < first + k)
}

// ---------------------------------------------------------------------------------------------
// Steps without recursion

pub proof fn lemma_rest_empty(st: State)
    ensures
        rest(st, Set::empty()) == used(st),
{
    assert(rest(st, Set::empty()) =~= used(st));
}

/// A descriptor is not touched by the placing of another one.
pub proof fn lemma_aside(st: State, o: Set<int>, st1: State, d: Desc, other: Desc)
    requires
        inv(st),
        yields(st, o, st1, d),
        holds(st, other),
        owned(other).disjoint(o),
    ensures
        holds(st1, other),
        owned(other).subset_of(rest(st, o)),
        owned(other).disjoint(owned(d)),
{
    broadcast use {group_state, group_spares};

    lemma_owned(current(st), other);
    assert(owned(other).subset_of(rest(st, o)));
    lemma_keep(st, st1, other);
}

/// A descriptor is not touched when something else is given back.
pub proof fn lemma_aside_back(st: State, o: Set<int>, st1: State, other: Desc)
    requires
        inv(st),
        gives_back(st, o, st1),
        holds(st, other),
        owned(other).disjoint(o),
    ensures
        holds(st1, other),
{
    broadcast use {group_state, group_spares};

    lemma_owned(current(st), other);
    assert(owned(other).subset_of(rest(st, o)));
    lemma_keep(st, st1, other);
}

/// A fresh register makes a temporary descriptor.
pub proof fn lemma_fresh(st: State, o: Set<int>, st1: State, r: RegisterIndex)
    requires
        inv(st),
        step(st, st1),
        spares(st, st1, rest(st, o)),
        o.subset_of(spare(current(st))),
        fresh(st, o, st1, r),
    ensures
        yields(st, o, st1, temporary(r)),
        !is_local(current(st1), r.0 as int),
{
    broadcast use {group_state, group_spares};

    let d = temporary(r);
    assert(!is_local(current(st1), r.0 as int)) by {
        if is_local(current(st1), r.0 as int) {
            assert(is_local(current(st), r.0 as int));
            assert(local_registers(current(st)).contains(r.0 as int));
            assert(!spare(current(st)).contains(r.0 as int));
            let i = choose|i: int|
                0 <= i < current(st).locals.len() && (#[trigger] current(st).locals[i]).1.0 == r.0;
            assert(used(st).contains(current(st).locals[i].1.0 as int));
            assert(rest(st, o).contains(r.0 as int));
        }
    }
    assert(used(st1) =~= rest(st, o).union(owned(d)));
}

pub proof fn lemma_new_destination(st: State, dest: ExprDestination)
    requires
        inv(st),
        open_to(st, Set::empty(), dest),
    ensures
        match new_destination(st, dest) {
            Ok((st1, r)) => {
                &&& set_down(st, Set::empty(), dest, st1, r)
                &&& r is Some ==> used(st1).contains(number(r))
                &&& current(st1).opcodes == current(st).opcodes
                &&& dest == ExprDestination::PushNew ==> number(r) == current(st).registers.top
                &&& dest is Register || dest is Nowhere ==> st1 == st
            },
            Err(h) => over(h, CompilerError::Registers, 1),
        },
{
    broadcast use {group_state, group_spares};

    reveal(new_destination);
    lemma_rest_empty(st);
    match dest {
        ExprDestination::AllocateNew => lemma_allocate(st),
        ExprDestination::PushNew => lemma_push_registers(st, 1),
        _ => {},
    }
}

pub proof fn lemma_landed(
    st: State,
    o: Set<int>,
    dest: ExprDestination,
    outcome: Outcome<Option<RegisterIndex>>,
    supported: bool,
    n: nat,
)
    requires
        inv(st),
        match outcome {
            Ok((st1, r)) => set_down(st, o, dest, st1, r),
            Err(h) => sound(h, supported, n),
        },
    ensures
        match landed(outcome, dest) {
            Ok((st1, r)) => placed(st, o, dest, st1, r),
            Err(h) => sound(h, supported, n),
        },
{
    broadcast use {group_state, group_spares};

    if let Ok((st1, r)) = outcome {
        if dest == ExprDestination::PushNew {
            let top: int = number(r) + 1;
            assert(used(st1).contains(number(r)));
            lemma_height_is(used(st1), top);
            lemma_settle(st1);
            assert(spares(st1, settle(st1), kept_at(st, o, dest)));
        }
    }
}

pub proof fn lemma_place_register(
    st: State,
    source: RegisterIndex,
    is_temporary: bool,
    dest: ExprDestination,
)
    requires
        inv(st),
        holds(st, Desc::Register { register: source, is_temporary }),
        open_to(st, owned(Desc::Register { register: source, is_temporary }), dest),
    ensures
        match place_register(st, source, is_temporary, dest) {
            Ok((st1, r)) => set_down(
                st,
                owned(Desc::Register { register: source, is_temporary }),
                dest,
                st1,
                r,
            ),
            Err(h) => sound(h, true, 1),
        },
{
    broadcast use {group_state, group_spares};

    reveal(place_register);
    let d = Desc::Register { register: source, is_temporary };
    let o = owned(d);
    if is_temporary && dest == ExprDestination::AllocateNew {
        assert(used(st) =~= rest(st, o).insert(source.0 as int));
    } else {
        lemma_release(st, d);
        let st1 = release(st, d)->Ok_0.0;
        lemma_rest_empty(st1);
        lemma_new_destination(st1, dest);
        if steady(st, o) {
            lemma_steady(st, o, st1);
        }
        let kept = kept_at(st, o, dest);
        assert(kept.subset_of(rest(st, o)));
        if let Ok((st2, r)) = new_destination(st1, dest) {
            assert(spares(st1, st2, kept));
        }
        if let Ok((st2, Some(r))) = new_destination(st1, dest) {
            assert(used(st).contains(source.0 as int));
            if r != source {
                let op = OpCode::Move { dest: r, source };
                lemma_emit(st2, op);
                lemma_spares_emit(st2, op, kept);
            }
        }
    }
}

pub proof fn lemma_place_upvalue(st: State, source: UpValueIndex, dest: ExprDestination)
    requires
        inv(st),
        source.0 < current(st).upvalues.len(),
        open_to(st, Set::empty(), dest),
    ensures
        match place_upvalue(st, source, dest) {
            Ok((st1, r)) => set_down(st, Set::empty(), dest, st1, r),
            Err(h) => sound(h, true, 1),
        },
{
    broadcast use {group_state, group_spares};

    reveal(place_upvalue);
    lemma_new_destination(st, dest);
    if let Ok((st1, Some(r))) = new_destination(st, dest) {
        let op = OpCode::GetUpValue { source, dest: r };
        lemma_emit(st1, op);
        lemma_spares_emit(st1, op, kept_at(st, Set::empty(), dest));
    }
}

pub proof fn lemma_load_value(st: State, value: ValueView, dest: RegisterIndex)
    requires
        inv(st),
        used(st).contains(dest.0 as int),
    ensures
        match load_value(st, value, dest) {
            Ok((st1, ())) => quiet(st, st1) && spares(st, st1, others(dest)),
            Err(h) => sound(h, true, 1),
        },
{
    broadcast use {group_state, group_spares};

    match value {
        ValueView::Nil => {
            lemma_load_nil(st, dest);
            lemma_spares_nil(st, dest);
        },
        ValueView::Boolean(b) => {
            let op = OpCode::LoadBool { dest, value: b, skip_next: false };
            lemma_emit(st, op);
            lemma_spares_emit(st, op, others(dest));
        },
        _ => {
            lemma_get_constant(st, value);
            if let Ok((st1, constant)) = get_constant(st, value) {
                let op = OpCode::LoadConstant { dest, constant };
                lemma_emit(st1, op);
                lemma_spares_emit(st1, op, others(dest));
                assert(spares(st, st1, others(dest)));
            }
        },
    }
}

pub proof fn lemma_place_value(st: State, value: ValueView, dest: ExprDestination)
    requires
        inv(st),
        open_to(st, Set::empty(), dest),
    ensures
        match place_value(st, value, dest) {
            Ok((st1, r)) => set_down(st, Set::empty(), dest, st1, r),
            Err(h) => sound(h, true, 1),
        },
{
    broadcast use {group_state, group_spares};

    reveal(place_value);
    lemma_new_destination(st, dest);
    if let Ok((st1, Some(r))) = new_destination(st, dest) {
        lemma_load_value(st1, value, r);
        assert(kept_at(st, Set::empty(), dest).subset_of(others(r)));
    }
}

/// The results of a call lie at the top of the stack, not in use.
pub open spec fn results_at(st: State, o: Set<int>, st1: State, source: RegisterIndex) -> bool {
    &&& gives_back(st, o, st1)
    &&& current(st1).registers.top == source.0
    &&& steady(st, o) ==> source.0 == current(st).registers.top
    &&& register_fits(source, limits(current(st1)))
}

pub proof fn lemma_place_result(
    st: State,
    o: Set<int>,
    st1: State,
    source: RegisterIndex,
    dest: ExprDestination,
)
    requires
        inv(st),
        results_at(st, o, st1, source),
        open_to(st, o, dest),
    ensures
        match place_result(st1, source, dest) {
            Ok((st2, r)) => set_down(st, o, dest, st2, r),
            Err(h) => sound(h, true, 1),
        },
{
    broadcast use {group_state, group_spares};

    reveal(place_result);
    match dest {
        ExprDestination::Register(x) => {
            let op = OpCode::Move { dest: x, source };
            let kept = kept_at(st, o, dest);
            assert(used(st1).contains(x.0 as int));
            lemma_emit(st1, op);
            lemma_spares_emit(st1, op, kept);
            assert(kept.subset_of(rest(st, o)));
        },
        ExprDestination::AllocateNew | ExprDestination::PushNew => {
            lemma_push_registers(st1, 1);
            if let Ok((st2, _)) = push_registers(st1, 1) {
                assert(spares(st1, st2, rest(st, o)));
            }
        },
        ExprDestination::Nowhere => {},
    }
}

pub proof fn lemma_place_comparison(
    st: State,
    op: ComparisonBinOp,
    left: RegisterOrConstant,
    right: RegisterOrConstant,
    dest: Option<RegisterIndex>,
    kept: Set<int>,
)
    requires
        inv(st),
        operand_fits(left, limits(current(st))),
        operand_fits(right, limits(current(st))),
        dest is Some ==> register_fits(dest->0, limits(current(st))),
        match dest {
            Some(r) => !kept.contains(r.0 as int),
            None => true,
        },
    ensures
        quiet(st, place_comparison(st, OpCode::Compare { op, left, right }, dest)),
        spares(st, place_comparison(st, OpCode::Compare { op, left, right }, dest), kept),
{
    broadcast use group_state;

    reveal(place_comparison);
    reveal(spares);
    match dest {
        Some(r) => lemma_emit_comparison(st, OpCode::Compare { op, left, right }, r),
        None => lemma_emit_pair(
            st,
            OpCode::Compare { op, left, right },
            OpCode::Jump { offset: 0 },
        ),
    }
}

/// Completing a placeholder that was written behind `a`.
pub proof fn lemma_close_jump(a: State, st: State, jump: int)
    requires
        inv(st),
        evolves(a, st),
        here(a) <= jump < here(st),
        current(st).opcodes[jump] == (OpCode::Jump { offset: 0 }),
    ensures
        match jump_here(st, jump) {
            Ok((st1, ())) => {
                &&& inv(st1)
                &&& evolves(a, st1)
                &&& current(st1).locals == current(st).locals
                &&& current(st1).registers == current(st).registers
                &&& here(st1) == here(st)
                &&& current(st1).opcodes[jump] is Jump
                &&& forall|i: int|
                    0 <= i < here(st) && i != jump ==> #[trigger] current(st1).opcodes[i]
                        == current(st).opcodes[i]
            },
            Err(h) => over(h, CompilerError::OpCodes, 1),
        },
{
    broadcast use group_state;

    lemma_jump_here(st, jump);
    reveal(evolves);
    if let Ok((st1, ())) = jump_here(st, jump) {
        assert forall|k: int| 0 <= k < a.len() - 1 implies waits(
            #[trigger] a[k],
            st1[k],
        ) by {
            assert(st1[k] == st[k]);
        }
        assert(code_grows(current(a), current(st1))) by {
            let f = current(a);
            let g = current(st1);
            assert forall|i: int| 0 <= i < f.opcodes.len() implies #[trigger] f.opcodes[i]
                == g.opcodes[i] || {
                &&& i == f.opcodes.len() - 1
                &&& f.landing < f.opcodes.len()
                &&& lengthens(f.opcodes[i], g.opcodes[i])
            } by {
                assert(current(st).opcodes[i] == g.opcodes[i]);
            }
        }
    }
}

/// Giving back two descriptors without operands.
pub proof fn lemma_release_both(st: State, first: Desc, second: Desc)
    requires
        inv(st),
        holds(st, first),
        holds(st, second),
        is_leaf(first),
        is_leaf(second),
        owned(first).disjoint(owned(second)),
    ensures
        match release_both(st, first, second) {
            Ok((st1, ())) => {
                &&& gives_back(st, owned(first).union(owned(second)), st1)
                &&& settled(st1) || current(st1).registers == current(st).registers
            },
            Err(_) => false,
        },
{
    broadcast use {group_state, group_spares};

    lemma_release(st, first);
    let st1 = release(st, first)->Ok_0.0;
    lemma_aside_back(st, owned(first), st1, second);
    lemma_release(st1, second);
    let st2 = release(st1, second)->Ok_0.0;
    let o = owned(first).union(owned(second));
    assert(used(st2) =~= rest(st, o));
    assert(spares(st, st1, rest(st, o)));
    assert(spares(st1, st2, rest(st, o)));
}

// ---------------------------------------------------------------------------------------------
// Placing expressions

/// Placing the value of an expression gives back what it held, and puts the value where it was
/// wanted.
#[verifier::spinoff_prover]
pub proof fn lemma_discharge(st: State, desc: Desc, dest: ExprDestination)
    requires
        inv(st),
        holds(st, desc),
        open_to(st, owned(desc), dest),
    ensures
        match discharge(st, desc, dest) {
            Ok((st1, r)) => placed(st, owned(desc), dest, st1, r) && desc_supported(desc),
            Err(h) => sound(h, desc_supported(desc), weight(desc)),
        },
    decreases weight(desc), 0nat,
{
    broadcast use {group_state, group_spares};

    reveal(discharge);
    let o = owned(desc);
    let supported = desc_supported(desc);
    let outcome = match desc {
        Desc::Register { register, is_temporary } => {
            lemma_place_register(st, register, is_temporary, dest);
            place_register(st, register, is_temporary, dest)
        },
        Desc::UpValue(source) => {
            lemma_place_upvalue(st, source, dest);
            place_upvalue(st, source, dest)
        },
        Desc::Value(value) => {
            lemma_place_value(st, value, dest);
            place_value(st, value, dest)
        },
        Desc::Not(operand) => {
            lemma_place_not(st, *operand, dest);
            place_not(st, *operand, dest)
        },
        Desc::FunctionCall { func, args } => {
            lemma_expr_function_call(st, *func, args, VarCount::constant(1));
            match expr_function_call(st, *func, args, VarCount::constant(1)) {
                Ok((st1, source)) => {
                    lemma_place_result(st, o, st1, source, dest);
                    place_result(st1, source, dest)
                },
                Err(h) => Err(h),
            }
        },
        Desc::Comparison { left, op, right } => {
            lemma_place_compared(st, *left, op, *right, dest);
            place_compared(st, *left, op, *right, dest)
        },
        Desc::ShortCircuitBinOp { left, op, right } => {
            lemma_place_short_circuit(st, *left, op, right, dest);
            place_short_circuit(st, *left, op, right, dest)
        },
    };
    assert(discharge(st, desc, dest) == landed(outcome, dest));
    lemma_landed(st, o, dest, outcome, supported, weight(desc));
}

#[verifier::spinoff_prover]
pub proof fn lemma_place_not(st: State, operand: Desc, dest: ExprDestination)
    requires
        inv(st),
        holds(st, operand),
        open_to(st, owned(operand), dest),
    ensures
        match place_not(st, operand, dest) {
            Ok((st1, r)) => set_down(st, owned(operand), dest, st1, r) && desc_supported(operand),
            Err(h) => sound(h, desc_supported(operand), weight(operand)),
        },
    decreases weight(operand), 4nat,
{
    broadcast use {group_state, group_spares};

    reveal(place_not);
    let o = owned(operand);
    lemma_rest_empty(st);
    lemma_owned(current(st), operand);
    lemma_new_destination(st, dest);
    match new_destination(st, dest) {
        Ok((st1, Some(r))) => {
            lemma_keep(st, st1, operand);
            lemma_operand_register(st1, operand);
            if let Ok((st2, source)) = operand_register(st1, operand) {
                let op = OpCode::Not { dest: r, source };
                let kept = kept_at(st, o, dest);
                assert(used(st1).contains(r.0 as int));
                lemma_emit(st2, op);
                lemma_spares_emit(st2, op, kept);
                assert(spares(st, st1, kept));
                assert(kept.subset_of(rest(st1, o)));
                match dest {
                    ExprDestination::Register(x) => {},
                    _ => {
                        assert(used(st2) =~= rest(st, o).insert(r.0 as int));
                    },
                }
            }
        },
        Ok((st1, None)) => lemma_discharge(st1, operand, ExprDestination::Nowhere),
        Err(_) => {},
    }
}

#[verifier::spinoff_prover]
pub proof fn lemma_place_compared(
    st: State,
    left: Desc,
    op: ComparisonBinOp,
    right: Desc,
    dest: ExprDestination,
)
    requires
        inv(st),
        holds(st, left),
        holds(st, right),
        owned(left).disjoint(owned(right)),
        open_to(st, owned(left).union(owned(right)), dest),
    ensures
        match place_compared(st, left, op, right, dest) {
            Ok((st1, r)) => {
                &&& set_down(st, owned(left).union(owned(right)), dest, st1, r)
                &&& desc_supported(left)
                &&& desc_supported(right)
            },
            Err(h) => sound(
                h,
                desc_supported(left) && desc_supported(right),
                weight(left) + weight(right),
            ),
        },
    decreases weight(left) + weight(right), 4nat,
{
    broadcast use {group_state, group_spares};

    reveal(place_compared);
    let o = owned(left).union(owned(right));
    lemma_operands(st, left, right);
    if let Ok((st1, (l, r))) = operands(st, left, right) {
        lemma_rest_empty(st1);
        lemma_new_destination(st1, dest);
        if steady(st, o) {
            lemma_steady(st, o, st1);
        }
        if let Ok((st2, d)) = new_destination(st1, dest) {
            let kept = kept_at(st, o, dest);
            lemma_place_comparison(st2, op, l, r, d, kept);
            assert(kept.subset_of(rest(st, o)));
            assert(spares(st1, st2, kept));
        }
    }
}

#[verifier::spinoff_prover]
pub proof fn lemma_place_short_circuit(
    st: State,
    left: Desc,
    op: ShortCircuitBinOp,
    right: Expression,
    dest: ExprDestination,
)
    requires
        inv(st),
        holds(st, left),
        open_to(st, owned(left), dest),
    ensures
        match place_short_circuit(st, left, op, right, dest) {
            Ok((st1, r)) => {
                &&& set_down(st, owned(left), dest, st1, r)
                &&& desc_supported(left)
                &&& expression_supported(right)
            },
            Err(h) => sound(
                h,
                desc_supported(left) && expression_supported(right),
                weight(left) + expression_size(right),
            ),
        },
    decreases weight(left) + expression_size(right), 4nat,
{
    broadcast use {group_state, group_spares};

    reveal(place_short_circuit);
    let o = owned(left);
    lemma_operand_register(st, left);
    if let Ok((st1, value)) = operand_register(st, left) {
        lemma_rest_empty(st1);
        lemma_new_destination(st1, dest);
        if steady(st, o) {
            lemma_steady(st, o, st1);
        }
        if let Ok((st2, d)) = new_destination(st1, dest) {
            let test = short_circuit_test(op, value, d);
            let st3 = emit(st2, test);
            let st4 = jump_placeholder(st3);
            let kept = kept_at(st, o, dest);
            lemma_emit_pair(st2, test, OpCode::Jump { offset: 0 });
            lemma_spares_pair(st2, test, kept);
            assert(kept.subset_of(rest(st, o)));
            assert(spares(st1, st2, kept));
            lemma_place_right(st4, right, found_destination(d));
            if let Ok((st5, ())) = place_right(st4, right, found_destination(d)) {
                assert(current(st4).opcodes[here(st3)] == current(st5).opcodes[here(st3)]);
                assert(kept.subset_of(kept_at(st4, Set::empty(), found_destination(d))));
                lemma_close_jump(st2, st5, here(st3));
                if let Ok((st6, ())) = jump_here(st5, here(st3)) {
                    lemma_spares_jump(st, st5, st6, here(st3), kept);
                }
            }
        }
    }
}

#[verifier::spinoff_prover]
pub proof fn lemma_place_right(st: State, right: Expression, dest: ExprDestination)
    requires
        inv(st),
        dest is Register || dest is Nowhere,
        open_to(st, Set::empty(), dest),
    ensures
        match place_right(st, right, dest) {
            Ok((st1, ())) => {
                &&& step(st, st1)
                &&& used(st1) == used(st)
                &&& spares(st, st1, kept_at(st, Set::empty(), dest))
                &&& expression_supported(right)
            },
            Err(h) => sound(h, expression_supported(right), expression_size(right)),
        },
    decreases expression_size(right), 7nat,
{
    broadcast use {group_state, group_spares};

    reveal(place_right);
    lemma_rest_empty(st);
    lemma_expression(st, right);
    if let Ok((st1, d)) = expression(st, right) {
        lemma_discharge(st1, d, dest);
        assert(rest(st1, owned(d)) =~= used(st));
        assert(kept_at(st, Set::empty(), dest).subset_of(rest(st, Set::empty())));
    }
}

/// The register of a descriptor, or a fresh one.
#[verifier::spinoff_prover]
pub proof fn lemma_any_register(st: State, desc: Desc)
    requires
        inv(st),
        holds(st, desc),
    ensures
        match any_register(st, desc) {
            Ok((st1, r)) => {
                &&& yields(st, owned(desc), st1, held(desc, r))
                &&& held(desc, r) matches Desc::Register { register, is_temporary: _ } && register
                    == r
                &&& desc is Register ==> st1 == st
                &&& used(st1).contains(r.0 as int)
                &&& desc_supported(desc)
            },
            Err(h) => sound(h, desc_supported(desc), weight(desc)),
        },
    decreases weight(desc), 1nat,
{
    broadcast use {group_state, group_spares};

    reveal(any_register);
    lemma_owned(current(st), desc);
    if desc is Register {
        assert(used(st) =~= rest(st, owned(desc)).union(owned(desc)));
        assert(spares(st, st, rest(st, owned(desc))));
    } else {
        lemma_discharge(st, desc, ExprDestination::AllocateNew);
        if let Ok((st1, Some(r))) = discharge(st, desc, ExprDestination::AllocateNew) {
            lemma_fresh(st, owned(desc), st1, r);
        }
    }
}

/// An operand, and what holds it now. Where nothing is to be given back for it, no register was
/// taken.
pub open spec fn operand_at(
    st: State,
    desc: Desc,
    st1: State,
    operand: RegisterOrConstant,
) -> bool {
    &&& yields(st, owned(desc), st1, held_operand(desc, operand))
    &&& is_leaf(held_operand(desc, operand))
    &&& operand_fits(operand, limits(current(st1)))
    &&& owned(held_operand(desc, operand)) == Set::<int>::empty() ==> quiet(st, st1)
    &&& desc is Register ==> quiet(st, st1)
}

#[verifier::spinoff_prover]
pub proof fn lemma_any_register_or_constant(st: State, desc: Desc)
    requires
        inv(st),
        holds(st, desc),
    ensures
        match any_register_or_constant(st, desc) {
            Ok((st1, operand)) => operand_at(st, desc, st1, operand) && desc_supported(desc),
            Err(h) => sound(h, desc_supported(desc), weight(desc)),
        },
    decreases weight(desc), 2nat,
{
    broadcast use {group_state, group_spares};

    reveal(any_register_or_constant);
    match desc {
        Desc::Value(value) => {
            lemma_get_constant(st, value);
            if let Ok((st1, c)) = get_constant(st, value) {
                assert(used(st1) =~= rest(st, owned(desc)).union(owned(desc)));
                assert(spares(st, st1, rest(st, owned(desc))));
                if c.0 > u8::MAX {
                    lemma_any_register(st1, desc);
                    if let Ok((st2, r)) = any_register(st1, desc) {
                        assert(owned(held(desc, r)).contains(r.0 as int));
                    }
                }
            }
        },
        _ => {
            lemma_any_register(st, desc);
            if let Ok((st1, r)) = any_register(st, desc) {
                if !(desc is Register) {
                    assert(owned(held(desc, r)).contains(r.0 as int));
                }
            }
        },
    }
}

#[verifier::spinoff_prover]
pub proof fn lemma_operand_register(st: State, desc: Desc)
    requires
        inv(st),
        holds(st, desc),
    ensures
        match operand_register(st, desc) {
            Ok((st1, r)) => {
                &&& gives_back(st, owned(desc), st1)
                &&& settled(st1) || current(st1).registers == current(st).registers
                &&& register_fits(r, limits(current(st1)))
                &&& desc_supported(desc)
            },
            Err(h) => sound(h, desc_supported(desc), weight(desc)),
        },
    decreases weight(desc), 2nat,
{
    broadcast use {group_state, group_spares};

    reveal(operand_register);
    lemma_any_register(st, desc);
    if let Ok((st1, r)) = any_register(st, desc) {
        let d = held(desc, r);
        lemma_release(st1, d);
        let st2 = release(st1, d)->Ok_0.0;
        assert(used(st2) =~= rest(st, owned(desc)));
        assert(spares(st1, st2, rest(st, owned(desc))));
        if !(desc is Register) {
            assert(owned(d).contains(r.0 as int));
            assert(current(st2).registers != current(st1).registers || settled(st2));
            assert(!used(st2).contains(r.0 as int));
        }
    }
}

#[verifier::spinoff_prover]
pub proof fn lemma_operands(st: State, left: Desc, right: Desc)
    requires
        inv(st),
        holds(st, left),
        holds(st, right),
        owned(left).disjoint(owned(right)),
    ensures
        match operands(st, left, right) {
            Ok((st1, (l, r))) => {
                &&& gives_back(st, owned(left).union(owned(right)), st1)
                &&& settled(st1) || current(st1).registers == current(st).registers
                &&& operand_fits(l, limits(current(st1)))
                &&& operand_fits(r, limits(current(st1)))
                &&& desc_supported(left)
                &&& desc_supported(right)
            },
            Err(h) => sound(
                h,
                desc_supported(left) && desc_supported(right),
                weight(left) + weight(right),
            ),
        },
    decreases weight(left) + weight(right), 3nat,
{
    broadcast use {group_state, group_spares};

    reveal(operands);
    lemma_any_register_or_constant(st, left);
    if let Ok((st1, l)) = any_register_or_constant(st, left) {
        let hl = held_operand(left, l);
        lemma_aside(st, owned(left), st1, hl, right);
        lemma_any_register_or_constant(st1, right);
        if let Ok((st2, r)) = any_register_or_constant(st1, right) {
            let hr = held_operand(right, r);
            lemma_aside(st1, owned(right), st2, hr, hl);
            lemma_release_both(st2, hl, hr);
            let st3 = release_both(st2, hl, hr)->Ok_0.0;
            let o = owned(left).union(owned(right));
            assert(used(st3) =~= rest(st, o));
            assert(rest(st, o).subset_of(rest(st, owned(left))));
            assert(rest(st, o).subset_of(rest(st1, owned(right))));
            assert(rest(st, o).subset_of(rest(st2, owned(hl).union(owned(hr)))));
            if current(st3).registers == current(st2).registers && !settled(st3) {
                assert(used(st3) == used(st2));
                assert(owned(hl) =~= Set::<int>::empty());
                assert(owned(hr) =~= Set::<int>::empty());
            }
        }
    }
}

/// Arguments go one directly behind another.
#[verifier::spinoff_prover]
pub proof fn lemma_push_arguments(st: State, args: Seq<Desc>, i: int, n: int)
    requires
        inv(st),
        0 <= i <= n <= args.len(),
        holds_list(st, args, i),
        steady(st, owned_list(args, i)),
    ensures
        match push_arguments(st, args, i, n) {
            Ok((st1, ())) => {
                let top = current(st).registers.top;
                &&& step(st, st1)
                &&& holds_list(st1, args, n)
                &&& steady(st1, owned_list(args, n))
                &&& current(st1).registers.top == top + (n - i)
                &&& used(st1) == rest(st, owned_list(args, i)).union(span(top, n - i)).union(
                    owned_list(args, n),
                )
                &&& owned_list(args, n).subset_of(owned_list(args, i))
                &&& spares(st, st1, rest(st, owned_list(args, i)))
                &&& descs_supported(args, i) == descs_supported(args, n)
            },
            Err(h) => sound(h, descs_supported(args, i), weights(args, i)),
        },
    decreases weights(args, i), 2nat,
{
    broadcast use {group_state, group_spares};

    reveal(push_arguments);
    let top = current(st).registers.top;
    lemma_owned_list(current(st), args, i);
    if i < n {
        assert(weight(args[i]) >= 1);
        assert(owned_list(args, i) == owned(args[i]).union(owned_list(args, i + 1)));
        assert(holds(st, args[i]));
        lemma_discharge(st, args[i], ExprDestination::PushNew);
        if let Ok((st1, r)) = discharge(st, args[i], ExprDestination::PushNew) {
            assert(steady(st, owned(args[i])));
            assert(number(r) == top);
            assert(owned(args[i]).disjoint(owned_list(args, i + 1)));
            assert forall|x: int| #[trigger] owned_list(args, i + 1).contains(x) implies used(
                st1,
            ).contains(x) && x < top by {
                assert(owned_list(args, i).contains(x));
                assert(spare(current(st)).contains(x));
                assert(rest(st, owned(args[i])).contains(x));
            }
            lemma_keep_list(st, st1, args, i + 1);
            lemma_push_arguments(st1, args, i + 1, n);
            let kept = rest(st, owned_list(args, i));
            assert(kept.subset_of(rest(st, owned(args[i]))));
            assert(kept.subset_of(rest(st1, owned_list(args, i + 1))));
            if let Ok((st2, ())) = push_arguments(st1, args, i + 1, n) {
                assert(used(st2) =~= rest(st, owned_list(args, i)).union(span(top, n - i)).union(
                    owned_list(args, n),
                ));
            }
        }
    } else {
        assert(used(st) =~= rest(st, owned_list(args, i)).union(span(top, 0)).union(
            owned_list(args, i),
        ));
        assert(spares(st, st, rest(st, owned_list(args, i))));
    }
}

/// The call itself gives back the function and everything behind it.
#[verifier::spinoff_prover]
proof fn lemma_called(
    st: State,
    o: Set<int>,
    st1: State,
    func: RegisterIndex,
    args: VarCount,
    results: VarCount,
)
    requires
        inv(st),
        step(st, st1),
        spares(st, st1, rest(st, o)),
        o.subset_of(spare(current(st))),
        used(st1).contains(func.0 as int),
        args != VarCount::variable() ==> used(st1).contains(func.0 + (args.0 - 1)),
        forall|i: int| #[trigger] rest(st, o).contains(i) ==> i < func.0,
        rest(st, o).subset_of(used(st1)),
        forall|i: int| #[trigger]
            used(st1).contains(i) && i < func.0 ==> rest(st, o).contains(i),
        steady(st, o) ==> func.0 == current(st).registers.top,
    ensures
        results_at(st, o, called(st1, func, args, results), func),
{
    broadcast use {group_state, group_spares};

    let op = OpCode::Call { func, args, returns: results };
    lemma_emit(st1, op);
    lemma_spares_emit(st1, op, rest(st, o));
    let st2 = emit(st1, op);
    assert forall|i: int| #[trigger] is_local(current(st2), i) implies i < func.0 by {
        assert(is_local(current(st), i));
        assert(local_registers(current(st)).contains(i));
        let k = choose|k: int|
            0 <= k < current(st).locals.len() && (#[trigger] current(st).locals[k]).1.0 == i;
        assert(used(st).contains(current(st).locals[k].1.0 as int));
        assert(!spare(current(st)).contains(i));
        assert(rest(st, o).contains(i));
    }
    lemma_pop_to(st2, func.0 as int);
    assert(used(pop_to(st2, func.0 as int)) =~= rest(st, o));
    assert(spares(st2, pop_to(st2, func.0 as int), rest(st, o)));
}

/// A call gives back what the function and the arguments held, and has its results at the top of
/// the stack.
#[verifier::spinoff_prover]
pub proof fn lemma_expr_function_call(st: State, func: Desc, args: Seq<Desc>, results: VarCount)
    requires
        inv(st),
        holds(st, func),
        holds_list(st, args, 0),
        owned(func).disjoint(owned_list(args, 0)),
    ensures
        match expr_function_call(st, func, args, results) {
            Ok((st1, r)) => {
                &&& results_at(st, owned(func).union(owned_list(args, 0)), st1, r)
                &&& desc_supported(func)
                &&& descs_supported(args, 0)
            },
            Err(h) => sound(
                h,
                desc_supported(func) && descs_supported(args, 0),
                weight(func) + weights(args, 0),
            ),
        },
    decreases weight(func) + weights(args, 0), 3nat,
{
    broadcast use {group_state, group_spares};

    reveal(expr_function_call);
    lemma_weights_len(args, 0);
    let o = owned(func).union(owned_list(args, 0));
    lemma_owned(current(st), func);
    lemma_owned_list(current(st), args, 0);
    lemma_discharge(st, func, ExprDestination::PushNew);
    if let Ok((st1, Some(f))) = discharge(st, func, ExprDestination::PushNew) {
        let n = args.len() as int;
        assert(steady(st, o) ==> steady(st, owned(func)));
        assert forall|i: int| #[trigger] rest(st, o).contains(i) implies i < f.0 by {
            assert(rest(st, owned(func)).contains(i));
            assert(used(st1).contains(i));
        }
        let kept = rest(st, o);
        assert(kept.subset_of(rest(st, owned(func))));
        if n > u8::MAX {
        } else if n == 0 {
            lemma_called(st, o, st1, f, VarCount::constant(0), results);
        } else {
            assert(owned_list(args, 0).subset_of(used(st1)));
            lemma_keep_list(st, st1, args, 0);
            assert(!owned_list(args, 0).contains(f.0 as int)) by {
                if owned_list(args, 0).contains(f.0 as int) {
                    assert(rest(st, owned(func)).contains(f.0 as int));
                }
            }
            lemma_push_arguments(st1, args, 0, n - 1);
            assert(kept.subset_of(rest(st1, owned_list(args, 0))));
            if let Ok((st2, ())) = push_arguments(st1, args, 0, n - 1) {
                let last = args[n - 1];
                assert(owned_list(args, n) =~= Set::<int>::empty());
                assert(owned_list(args, n - 1) =~= owned(last));
                assert(holds(st2, last));
                assert(kept.subset_of(rest(st2, owned(last))));
                lemma_weights_index(args, 0, n - 1);
                assert(descs_supported(args, n));
                assert(descs_supported(args, n - 1) == desc_supported(last));
                match last {
                    Desc::FunctionCall { func: last_func, args: last_args } => {
                        lemma_expr_function_call(st2, *last_func, last_args, VarCount::variable());
                        if let Ok((st3, _)) = expr_function_call(
                            st2,
                            *last_func,
                            last_args,
                            VarCount::variable(),
                        ) {
                            assert(used(st3) =~= rest(st, o).union(span(f.0 as int, n)));
                            lemma_called(st, o, st3, f, VarCount::variable(), results);
                        }
                    },
                    _ => {
                        lemma_discharge(st2, last, ExprDestination::PushNew);
                        if let Ok((st3, r)) = discharge(st2, last, ExprDestination::PushNew) {
                            assert(number(r) == f.0 + n);
                            assert(used(st3) =~= rest(st, o).union(span(f.0 as int, n + 1)));
                            if n < u8::MAX {
                                lemma_called(st, o, st3, f, VarCount::constant(n), results);
                            }
                        }
                    },
                }
            }
        }
    }
}

/// A test and the jump behind it change at most the destination.
proof fn lemma_spares_pair(st: State, test: OpCode, kept: Set<int>)
    requires
        st.len() > 0,
        writes(test).disjoint(kept),
    ensures
        spares(st, jump_placeholder(emit(st, test)), kept),
{
    reveal(spares);
}

} // verus!
