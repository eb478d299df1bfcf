//! Which instructions code is compiled to, by the form of what is written.

use crate::compiler::effects::group_spares;
use crate::compiler::evaluation::{lemma_closure, lemma_expression};
use crate::compiler::execution::{
    lemma_block, lemma_compile_function, lemma_new_prototype, lemma_push_returns,
    lemma_return_statement, stacked,
};
use crate::compiler::model::{
    add_prototype, allocate, any_register, any_register_or_constant, binary_operator, block,
    closure, compile_function, condition, current, discharge, emit, end_scope, expr_function_call,
    expression, expression_rest, field_key, find_variable, finish, found_destination, free_locals,
    free_register, function_expression, get_environment, get_table, head_expression, held, here,
    is_leaf, jump_here, jump_placeholder, landed, load_nil, local_function, new_destination,
    new_function, new_prototype, operand_register, operands, place_register, place_right,
    place_short_circuit, place_upvalue, place_value, primary_expression, push_arguments,
    push_registers, push_returns, read_field, release, return_statement, set_table, settle,
    short_circuit_test, simple_expression, simple_operation, suffix, suffixed_expression,
    suffixed_rest, table_constructor, unary_operator, write_field, Desc, ExprDestination, State,
    Variable,
};
use crate::compiler::operators::{category, BinOpCategory, ShortCircuitBinOp, SimpleBinOp};
use crate::compiler::order::{
    group_state, inv, lemma_allocate, lemma_emit_pair, lemma_get_constant, lemma_height,
    lemma_settle, used,
};
use crate::compiler::ownership::{
    holds, holds_list, lemma_keep, lemma_keep_list, lemma_owned, lemma_owned_list, lemma_release,
    local_registers, owned, owned_list, rest,
};
use crate::compiler::performance::{lemma_free_locals_below, lemma_free_locals_code};
use crate::compiler::placing::{
    lemma_any_register, lemma_any_register_or_constant, lemma_aside, lemma_discharge,
    lemma_expr_function_call, lemma_new_destination, lemma_operand_register, lemma_operands,
    lemma_place_right, lemma_push_arguments, lemma_rest_empty, number, open_to,
};
use crate::compiler::register_allocator::{height, REGISTERS};
use crate::compiler::scope::{clean, lemma_new_function};
use crate::compiler::size::{lemma_weights_index, weight, weights};
use crate::compiler::tables::lemma_get_table;
use crate::function::ProtoView;
use crate::opcode::{OpCode, RegisterIndex, VarCount};
use crate::parser::{
    BinaryOperator, Block, Expression, FunctionDefinition, FunctionStatement, HeadExpression,
    PrimaryExpression, ReturnStatement, SimpleExpression, SuffixPart, SuffixedExpression,
    UnaryOperator,
};
use crate::value::{Value, ValueView};
use vstd::prelude::*;

verus! {

// ---------------------------------------------------------------------------------------------
// Calls

/// Whether an expression is a call, and nothing is done with its results.
pub open spec fn ends_in_call(e: Expression) -> bool
    decreases e,
{
    e.tail@.len() == 0 && match *e.head {
        HeadExpression::Simple(SimpleExpression::Suffixed(s)) => last_calls(s),
        _ => false,
    }
}

/// Whether the last thing that is done is a call.
pub open spec fn last_calls(s: SuffixedExpression) -> bool
    decreases s,
{
    if s.suffixes@.len() > 0 {
        s.suffixes@.last() is Call
    } else {
        match s.primary {
            PrimaryExpression::GroupedExpression(e) => ends_in_call(e),
            PrimaryExpression::Name(_) => false,
        }
    }
}

/// The number of values that a list of expressions is handed over as.
pub open spec fn handed_over(es: Seq<Expression>) -> VarCount {
    if es.len() > 0 && ends_in_call(es.last()) {
        VarCount::variable()
    } else {
        VarCount::constant(es.len() as int)
    }
}

#[verifier::spinoff_prover]
proof fn lemma_read_field_form(st: State, table: Desc, key: Desc)
    ensures
        read_field(st, table, key) matches Ok((_, d)) ==> d is Register,
{
    reveal(read_field);
}

#[verifier::spinoff_prover]
proof fn lemma_binary_form(st: State, left: Desc, op: BinaryOperator, right: Expression)
    ensures
        binary_operator(st, left, op, right) matches Ok((_, d)) ==> !(d is FunctionCall),
{
    reveal(binary_operator);
    if let BinOpCategory::Simple(op) = category(op) {
        if let Ok((st1, right)) = expression(st, right) {
            lemma_simple_form(st1, left, op, right);
        }
    }
}

#[verifier::spinoff_prover]
proof fn lemma_simple_form(st: State, left: Desc, op: SimpleBinOp, right: Desc)
    ensures
        simple_operation(st, left, op, right) matches Ok((_, d)) ==> d is Register,
{
    reveal(simple_operation);
}

#[verifier::spinoff_prover]
proof fn lemma_rest_form(
    st: State,
    left: Desc,
    tail: Seq<(BinaryOperator, Expression)>,
    i: int,
)
    requires
        0 <= i <= tail.len(),
    ensures
        expression_rest(st, left, tail, i) matches Ok((_, d)) ==> (d is FunctionCall) == (i
            == tail.len() && left is FunctionCall),
    decreases tail.len() - i,
{
    reveal(expression_rest);
    if i < tail.len() {
        lemma_binary_form(st, left, tail[i].0, tail[i].1);
        if let Ok((st1, d)) = binary_operator(st, left, tail[i].0, tail[i].1) {
            lemma_rest_form(st1, d, tail, i + 1);
        }
    }
}

#[verifier::spinoff_prover]
proof fn lemma_suffix_form(st: State, desc: Desc, part: SuffixPart)
    ensures
        suffix(st, desc, part) matches Ok((_, d)) ==> (d is FunctionCall) == (part is Call),
{
    reveal(suffix);
    if let SuffixPart::Field(field) = part {
        if let Ok((st1, key)) = field_key(st, field) {
            lemma_read_field_form(st1, desc, key);
        }
    }
}

#[verifier::spinoff_prover]
proof fn lemma_suffixes_form(st: State, desc: Desc, suffixes: Seq<SuffixPart>, i: int)
    requires
        0 <= i <= suffixes.len(),
    ensures
        suffixed_rest(st, desc, suffixes, i) matches Ok((_, d)) ==> (d is FunctionCall) == (if i
            < suffixes.len() {
            suffixes.last() is Call
        } else {
            desc is FunctionCall
        }),
    decreases suffixes.len() - i,
{
    reveal(suffixed_rest);
    if i < suffixes.len() {
        lemma_suffix_form(st, desc, suffixes[i]);
        if let Ok((st1, d)) = suffix(st, desc, suffixes[i]) {
            lemma_suffixes_form(st1, d, suffixes, i + 1);
        }
    }
}

#[verifier::spinoff_prover]
proof fn lemma_primary_form(st: State, primary: PrimaryExpression)
    ensures
        primary_expression(st, primary) matches Ok((_, d)) ==> (d is FunctionCall)
            == match primary {
            PrimaryExpression::GroupedExpression(e) => ends_in_call(e),
            PrimaryExpression::Name(_) => false,
        },
    decreases primary,
{
    reveal(primary_expression);
    match primary {
        PrimaryExpression::GroupedExpression(e) => law_call_form(st, e),
        PrimaryExpression::Name(name) => {
            if let Ok((st1, Variable::Global(name))) = find_variable(st, name@) {
                if let Ok((st2, d)) = get_environment(st1) {
                    lemma_read_field_form(st2, d, Desc::Value(ValueView::String(name)));
                }
            }
        },
    }
}

#[verifier::spinoff_prover]
proof fn lemma_suffixed_form(st: State, s: SuffixedExpression)
    ensures
        suffixed_expression(st, s) matches Ok((_, d)) ==> (d is FunctionCall) == last_calls(s),
    decreases s,
{
    reveal(suffixed_expression);
    lemma_primary_form(st, s.primary);
    if let Ok((st1, d)) = primary_expression(st, s.primary) {
        lemma_suffixes_form(st1, d, s.suffixes@, 0);
    }
}

#[verifier::spinoff_prover]
proof fn lemma_simple_expression_form(st: State, e: SimpleExpression)
    ensures
        simple_expression(st, e) matches Ok((_, d)) ==> (d is FunctionCall) == match e {
            SimpleExpression::Suffixed(s) => last_calls(s),
            _ => false,
        },
    decreases e,
{
    reveal(simple_expression);
    match e {
        SimpleExpression::Suffixed(s) => lemma_suffixed_form(st, s),
        SimpleExpression::Function(f) => lemma_function_form(st, f),
        SimpleExpression::TableConstructor(t) => {
            reveal(table_constructor);
        },
        _ => {},
    }
}

#[verifier::spinoff_prover]
proof fn lemma_function_form(st: State, f: FunctionDefinition)
    ensures
        function_expression(st, f) matches Ok((_, d)) ==> d is Register,
{
    reveal(function_expression);
}

#[verifier::spinoff_prover]
proof fn lemma_unary_form(st: State, op: UnaryOperator, operand: Desc)
    ensures
        unary_operator(st, op, operand) matches Ok((_, d)) ==> !(d is FunctionCall),
{
    reveal(unary_operator);
}

#[verifier::spinoff_prover]
proof fn lemma_head_form(st: State, head: HeadExpression)
    ensures
        head_expression(st, head) matches Ok((_, d)) ==> (d is FunctionCall) == match head {
            HeadExpression::Simple(SimpleExpression::Suffixed(s)) => last_calls(s),
            _ => false,
        },
    decreases head,
{
    reveal(head_expression);
    match head {
        HeadExpression::Simple(s) => lemma_simple_expression_form(st, s),
        HeadExpression::UnaryOperator(op, e) => {
            if let Ok((st1, d)) = expression(st, e) {
                lemma_unary_form(st1, op, d);
            }
        },
    }
}

/// An expression becomes a call that is still to be made exactly where it is written as one.
#[verifier::spinoff_prover]
pub proof fn law_call_form(st: State, e: Expression)
    ensures
        expression(st, e) matches Ok((_, d)) ==> (d is FunctionCall) == ends_in_call(e),
    decreases e,
{
    reveal(expression);
    lemma_head_form(st, *e.head);
    if let Ok((st1, d)) = head_expression(st, *e.head) {
        lemma_rest_form(st1, d, e.tail@, 0);
    }
}

#[verifier::spinoff_prover]
proof fn lemma_call_last(st: State, func: Desc, args: Seq<Desc>, results: VarCount)
    requires
        inv(st),
        holds(st, func),
        holds_list(st, args, 0),
        owned(func).disjoint(owned_list(args, 0)),
    ensures
        expr_function_call(st, func, args, results) matches Ok((st1, r)) ==> {
            &&& current(st1).opcodes.last() == (OpCode::Call {
                func: r,
                args: if args.len() > 0 && args.last() is FunctionCall {
                    VarCount::variable()
                } else {
                    VarCount::constant(args.len() as int)
                },
                returns: results,
            })
            &&& here(st1) > 0
            &&& args.len() > 0 && args.last() is FunctionCall ==> {
                &&& here(st1) > 1
                &&& current(st1).opcodes[here(st1) - 2] is Call
                &&& current(st1).opcodes[here(st1) - 2]->Call_returns == VarCount::variable()
            }
        },
    decreases weight(func) + weights(args, 0),
{
    broadcast use {group_state, group_spares};

    reveal(expr_function_call);
    let push = ExprDestination::PushNew;
    let n = args.len() as int;
    lemma_owned(current(st), func);
    lemma_owned_list(current(st), args, 0);
    lemma_discharge(st, func, push);
    if let Ok((st1, Some(f))) = discharge(st, func, push) {
        if 0 < n <= u8::MAX {
            assert(owned_list(args, 0).subset_of(used(st1)));
            lemma_keep_list(st, st1, args, 0);
            assert(!owned_list(args, 0).contains(f.0 as int)) by {
                if owned_list(args, 0).contains(f.0 as int) {
                    assert(rest(st, owned(func)).contains(f.0 as int));
                }
            }
            lemma_push_arguments(st1, args, 0, n - 1);
            if let Ok((st2, ())) = push_arguments(st1, args, 0, n - 1) {
                let last = args[n - 1];
                assert(owned_list(args, n) =~= Set::<int>::empty());
                assert(owned_list(args, n - 1) =~= owned(last));
                assert(holds(st2, last));
                lemma_weights_index(args, 0, n - 1);
                match last {
                    Desc::FunctionCall { func: g, args: given } => {
                        lemma_call_last(st2, *g, given, VarCount::variable());
                        lemma_expr_function_call(st2, *g, given, VarCount::variable());
                    },
                    _ => lemma_discharge(st2, last, push),
                }
            }
        }
    }
}

/// A call instruction takes as many arguments as are written down, or a variable number where the
/// last one is a call; the instruction before it is then that call, of which all results are
/// wanted. It yields as many results as are wanted of it.
pub proof fn law_call_instruction(st: State, func: Desc, args: Seq<Desc>, results: VarCount)
    requires
        inv(st),
        holds(st, func),
        holds_list(st, args, 0),
        owned(func).disjoint(owned_list(args, 0)),
    ensures
        expr_function_call(st, func, args, results) matches Ok((st1, r)) ==> {
            let code = current(st1).opcodes;
            let open = args.len() > 0 && args.last() is FunctionCall;
            &&& code.last() matches OpCode::Call { func: f, args: given, returns: wanted }
            &&& f == r
            &&& wanted == results
            &&& given == (if open {
                VarCount::variable()
            } else {
                VarCount::constant(args.len() as int)
            })
            &&& open ==> code.len() > 1 && (code[code.len() - 2] matches OpCode::Call {
                func: _,
                args: _,
                returns: all,
            } && all == VarCount::variable())
        },
{
    lemma_call_last(st, func, args, results);
}

/// How many values are returned, by the form of the last one.
#[verifier::spinoff_prover]
proof fn lemma_returned_count(
    st: State,
    kept: Set<int>,
    start: RegisterIndex,
    es: Seq<Expression>,
    i: int,
)
    requires
        inv(st),
        stacked(st, kept, start.0 as int),
        local_registers(current(st)).subset_of(kept),
        0 <= i < es.len(),
    ensures
        push_returns(st, es, i) matches Ok((st1, count)) ==> {
            &&& count == handed_over(es)
            &&& ends_in_call(es.last()) || es.len() < u8::MAX
            &&& ends_in_call(es.last()) ==> {
                &&& here(st1) > 0
                &&& current(st1).opcodes.last() is Call
                &&& current(st1).opcodes.last()->Call_returns == VarCount::variable()
            }
        },
    decreases es.len() - i,
{
    broadcast use {group_state, group_spares};

    reveal(push_returns);
    let push = ExprDestination::PushNew;
    let first = start.0 as int;
    lemma_rest_empty(st);
    lemma_expression(st, es[i]);
    law_call_form(st, es[i]);
    if let Ok((st1, d)) = expression(st, es[i]) {
        assert(rest(st1, owned(d)) =~= used(st));
        lemma_owned(current(st1), d);
        if i < es.len() - 1 {
            lemma_discharge(st1, d, push);
            if let Ok((st2, r)) = discharge(st1, d, push) {
                assert(number(r) >= first) by {
                    if first > 0 {
                        assert(used(st).contains(first - 1));
                        assert(used(st2).contains(first - 1));
                    }
                }
                assert(stacked(st2, kept, first));
                assert(local_registers(current(st2)) =~= local_registers(current(st)));
                lemma_returned_count(st2, kept, start, es, i + 1);
            }
        } else {
            if let Desc::FunctionCall { func, args } = d {
                lemma_call_last(st1, *func, args, VarCount::variable());
            }
        }
    }
}

/// A return statement returns as many values as are written down, fewer than 255, or a variable
/// number where the last one is a call, and only there: the instruction before it is then that
/// call, of which all results are wanted.
#[verifier::spinoff_prover]
pub proof fn law_return_instruction(st: State, s: ReturnStatement)
    requires
        inv(st),
        clean(st),
    ensures
        return_statement(st, s) matches Ok((st1, _)) ==> {
            let code = current(st1).opcodes;
            let es = s.returns@;
            &&& code.last() matches OpCode::Return { start, count }
            &&& count == handed_over(es)
            &&& es.len() > 0 ==> start.0 == height(used(st), REGISTERS as int)
            &&& es.len() > 0 && !ends_in_call(es.last()) ==> es.len() < u8::MAX
            &&& es.len() > 0 && ends_in_call(es.last()) ==> code.len() > 1 && (code[code.len()
                - 2] matches OpCode::Call { func: _, args: _, returns: all } && all
                == VarCount::variable())
        },
{
    broadcast use {group_state, group_spares};

    reveal(return_statement);
    let es = s.returns@;
    lemma_return_statement(st, s);
    if es.len() > 0 {
        let st1 = settle(st);
        lemma_settle(st);
        lemma_height(used(st), REGISTERS as int);
        if current(st1).registers.top <= u8::MAX {
            let start = RegisterIndex(current(st1).registers.top as u8);
            assert(stacked(st1, used(st), start.0 as int));
            assert(local_registers(current(st1)) =~= local_registers(current(st)));
            lemma_push_returns(st1, used(st), start, es, 0);
            lemma_returned_count(st1, used(st), start, es, 0);
        }
    }
}

// ---------------------------------------------------------------------------------------------
// Functions

/// The compiled form of a definition.
pub open spec fn compiled(st: State, f: FunctionDefinition) -> Option<ProtoView> {
    match compile_function(st, f.parameters@, f.has_varargs, f.body) {
        Ok((_, p)) => Some(p),
        Err(_) => None,
    }
}

/// The last instruction creates a closure of this definition in a register.
pub open spec fn closes(st: State, st1: State, f: FunctionDefinition, to: RegisterIndex) -> bool {
    &&& current(st1).opcodes.last() matches OpCode::Closure { proto, dest }
    &&& dest == to
    &&& proto.0 < current(st1).prototypes.len()
    &&& Some(current(st1).prototypes[proto.0 as int]) == compiled(st, f)
}

#[verifier::spinoff_prover]
proof fn lemma_prototype(st: State, f: FunctionDefinition)
    requires
        inv(st),
    ensures
        new_prototype(st, f) matches Ok((st1, proto)) ==> {
            &&& proto.0 < current(st1).prototypes.len()
            &&& Some(current(st1).prototypes[proto.0 as int]) == compiled(st, f)
        },
{
    broadcast use {group_state, group_spares};

    reveal(new_prototype);
    reveal(add_prototype);
    lemma_compile_function(st, f.parameters@, f.has_varargs, f.body);
}

/// A function expression is compiled to an instruction that creates a closure of the compiled form
/// of this definition, and stands for the register of that closure.
#[verifier::spinoff_prover]
pub proof fn law_function_instruction(st: State, f: FunctionDefinition)
    requires
        inv(st),
    ensures
        function_expression(st, f) matches Ok((st1, d)) ==> (d matches Desc::Register {
            register,
            is_temporary,
        } && is_temporary && closes(st, st1, f, register)),
{
    broadcast use {group_state, group_spares};

    reveal(function_expression);
    lemma_new_prototype(st, f);
    lemma_prototype(st, f);
    if let Ok((st1, proto)) = new_prototype(st, f) {
        lemma_closure(st1, proto);
        reveal(closure);
        lemma_allocate(st1);
    }
}

/// So is a local function, whose register becomes that of a new local variable.
#[verifier::spinoff_prover]
pub proof fn law_local_function_instruction(st: State, s: FunctionStatement)
    requires
        inv(st),
        clean(st),
    ensures
        local_function(st, s) matches Ok((st1, _)) ==> {
            let locals = current(st1).locals;
            &&& locals.len() == current(st).locals.len() + 1
            &&& locals.last().0 == s.name.name@
            &&& closes(st, st1, s.definition, locals.last().1)
        },
{
    broadcast use {group_state, group_spares};

    reveal(local_function);
    lemma_new_prototype(st, s.definition);
    lemma_prototype(st, s.definition);
    if let Ok((st1, proto)) = new_prototype(st, s.definition) {
        lemma_closure(st1, proto);
        reveal(closure);
        lemma_allocate(st1);
    }
}

// ---------------------------------------------------------------------------------------------
// Tests

/// The test of a comparison compares what the left operand has become with what the right one has
/// become, in this order and with the operator that is written down.
#[verifier::spinoff_prover]
pub proof fn law_comparison_operands(st: State, e: Expression)
    requires
        inv(st),
    ensures
        expression(st, e) matches Ok((st1, Desc::Comparison { left, op, right })) ==> (condition(
            st,
            e,
        ) matches Ok((st2, _)) ==> {
            &&& any_register_or_constant(st1, *left) matches Ok((st3, l))
            &&& any_register_or_constant(st3, *right) matches Ok((_, r))
            &&& current(st2).opcodes.last() == (OpCode::Compare { op, left: l, right: r })
        }),
{
    broadcast use {group_state, group_spares};

    reveal(condition);
    lemma_rest_empty(st);
    lemma_expression(st, e);
    if let Ok((st1, Desc::Comparison { left, op: _, right })) = expression(st, e) {
        lemma_operands(st1, *left, *right);
        lemma_operands_form(st1, *left, *right);
    }
}

#[verifier::spinoff_prover]
proof fn lemma_operands_form(st: State, left: Desc, right: Desc)
    ensures
        operands(st, left, right) matches Ok((_, (l, r))) ==> {
            &&& any_register_or_constant(st, left) matches Ok((st1, k))
            &&& k == l
            &&& any_register_or_constant(st1, right) matches Ok((_, k))
            &&& k == r
        },
{
    reveal(operands);
}

/// A test of the left operand of `and` for truth, of `or` for falsehood. It skips the instruction
/// behind it where it succeeds, and otherwise leaves the operand where it is wanted.
pub open spec fn tests_for(test: OpCode, op: ShortCircuitBinOp, to: Option<RegisterIndex>) -> bool {
    let truth = op == ShortCircuitBinOp::And;
    match test {
        OpCode::Test { value, is_true } => is_true == truth && (to matches Some(r) ==> value == r),
        OpCode::TestSet { dest, value: _, is_true } => is_true == truth && to == Some(dest),
        _ => false,
    }
}

/// The left operand of `and` is tested for truth, that of `or` for falsehood, and behind the test
/// stands a jump over the instructions of the right operand, to the end. The result is the place
/// of the test.
#[verifier::spinoff_prover]
pub proof fn law_short_circuit_instructions(
    st: State,
    left: Desc,
    op: ShortCircuitBinOp,
    right: Expression,
    dest: ExprDestination,
) -> (t: int)
    requires
        inv(st),
        holds(st, left),
        open_to(st, owned(left), dest),
    ensures
        ({
            let desc = Desc::ShortCircuitBinOp { left: Box::new(left), op, right };
            discharge(st, desc, dest) matches Ok((st1, to)) ==> {
                let code = current(st1).opcodes;
                &&& here(st) <= t < here(st1) - 1
                &&& tests_for(code[t], op, to)
                &&& code[t + 1] == (OpCode::Jump { offset: (here(st1) - (t + 1) - 1) as i16 })
            }
        }),
{
    reveal(discharge);
    let desc = Desc::ShortCircuitBinOp { left: Box::new(left), op, right };
    let t = lemma_short_circuit_code(st, left, op, right, dest);
    let out = place_short_circuit(st, left, op, right, dest);
    assert(discharge(st, desc, dest) == landed(out, dest));
    if let Ok((st1, _)) = out {
        assert(current(settle(st1)).opcodes == current(st1).opcodes);
    }
    t
}

proof fn lemma_jump_code(st: State, jump: int)
    requires
        st.len() > 0,
    ensures
        jump_here(st, jump) matches Ok((st1, _)) ==> {
            &&& st1.len() == st.len()
            &&& current(st1).opcodes == current(st).opcodes.update(
                jump,
                OpCode::Jump { offset: (here(st) - jump - 1) as i16 },
            )
        },
{
    reveal(jump_here);
}

#[verifier::spinoff_prover]
proof fn lemma_short_circuit_code(
    st: State,
    left: Desc,
    op: ShortCircuitBinOp,
    right: Expression,
    dest: ExprDestination,
) -> (t: int)
    requires
        inv(st),
        holds(st, left),
        open_to(st, owned(left), dest),
    ensures
        place_short_circuit(st, left, op, right, dest) matches Ok((st1, to)) ==> {
            let code = current(st1).opcodes;
            &&& st1.len() > 0
            &&& here(st) <= t < here(st1) - 1
            &&& tests_for(code[t], op, to)
            &&& code[t + 1] == (OpCode::Jump { offset: (here(st1) - (t + 1) - 1) as i16 })
        },
{
    broadcast use {group_state, group_spares};

    reveal(place_short_circuit);
    let o = owned(left);
    lemma_operand_register(st, left);
    let mut t = 0int;
    if let Ok((st1, value)) = operand_register(st, left) {
        lemma_rest_empty(st1);
        lemma_new_destination(st1, dest);
        if let Ok((st2, d)) = new_destination(st1, dest) {
            let test = short_circuit_test(op, value, d);
            let st3 = emit(st2, test);
            let st4 = jump_placeholder(st3);
            lemma_emit_pair(st2, test, OpCode::Jump { offset: 0 });
            lemma_place_right(st4, right, found_destination(d));
            t = here(st2);
            if let Ok((st5, ())) = place_right(st4, right, found_destination(d)) {
                assert(current(st4).opcodes[t] == current(st5).opcodes[t]);
                assert(current(st4).opcodes[t + 1] == current(st5).opcodes[t + 1]);
                lemma_jump_code(st5, here(st3));
            }
        }
    }
    t
}

/// The operands of an operation are evaluated in the order in which they are written down.
pub proof fn law_operands_in_order(st: State, left: Desc, right: Desc)
    ensures
        operands(st, left, right) matches Ok((_, (l, r))) ==> {
            &&& any_register_or_constant(st, left) matches Ok((st1, first))
            &&& any_register_or_constant(st1, right) matches Ok((_, second))
            &&& l == first
            &&& r == second
        },
{
    lemma_operands_form(st, left, right);
}

/// The instruction of an arithmetic or bitwise operator takes what the left operand has become and
/// what the right one has become, in this order and with the operator that is written down, and
/// its result is the temporary register that it writes.
#[verifier::spinoff_prover]
pub proof fn law_operation_instruction(st: State, left: Desc, op: SimpleBinOp, right: Desc)
    requires
        inv(st),
        holds(st, left),
        holds(st, right),
        owned(left).disjoint(owned(right)),
    ensures
        simple_operation(st, left, op, right) matches Ok((st1, d)) ==> {
            &&& any_register_or_constant(st, left) matches Ok((st2, l))
            &&& any_register_or_constant(st2, right) matches Ok((_, r))
            &&& d matches Desc::Register { register, is_temporary }
            &&& is_temporary
            &&& current(st1).opcodes.last() == (OpCode::Simple {
                op,
                dest: register,
                left: l,
                right: r,
            })
        },
{
    broadcast use {group_state, group_spares};

    reveal(simple_operation);
    lemma_operands(st, left, right);
    lemma_operands_form(st, left, right);
    if let Ok((st1, _)) = operands(st, left, right) {
        lemma_allocate(st1);
    }
}

/// To read a field, the table is evaluated first, then the key.
#[verifier::spinoff_prover]
pub proof fn law_field_read_in_order(st: State, table: Desc, key: Desc)
    ensures
        read_field(st, table, key) is Ok ==> {
            &&& allocate(st) matches Ok((st1, _))
            &&& table is UpValue || any_register(st1, table) is Ok
            &&& any_register_or_constant(
                if table is UpValue {
                    st1
                } else {
                    any_register(st1, table)->Ok_0.0
                },
                key,
            ) is Ok
        },
{
    reveal(read_field);
    lemma_read_in_order(st, table, key);
}

#[verifier::spinoff_prover]
proof fn lemma_read_in_order(st: State, table: Desc, key: Desc)
    ensures
        get_table(st, table, key) is Ok ==> {
            &&& allocate(st) matches Ok((st1, _))
            &&& table is UpValue || any_register(st1, table) is Ok
            &&& any_register_or_constant(
                if table is UpValue {
                    st1
                } else {
                    any_register(st1, table)->Ok_0.0
                },
                key,
            ) is Ok
        },
{
    reveal(get_table);
}

/// To write a field, the table is evaluated first, then the key, then the value.
#[verifier::spinoff_prover]
pub proof fn law_field_write_in_order(st: State, table: Desc, key: Desc, content: Desc)
    ensures
        write_field(st, table, key, content) is Ok ==> {
            let st1 = if table is UpValue {
                st
            } else {
                any_register(st, table)->Ok_0.0
            };
            &&& table is UpValue || any_register(st, table) is Ok
            &&& any_register_or_constant(st1, key) matches Ok((st2, _))
            &&& any_register_or_constant(st2, content) is Ok
        },
{
    reveal(write_field);
    lemma_write_in_order(st, table, key, content);
}

#[verifier::spinoff_prover]
proof fn lemma_write_in_order(st: State, table: Desc, key: Desc, content: Desc)
    ensures
        set_table(st, table, key, content) is Ok ==> {
            let st1 = if table is UpValue {
                st
            } else {
                any_register(st, table)->Ok_0.0
            };
            &&& table is UpValue || any_register(st, table) is Ok
            &&& any_register_or_constant(st1, key) matches Ok((st2, _))
            &&& any_register_or_constant(st2, content) is Ok
        },
{
    reveal(set_table);
}

/// What a leaf is placed with: a register with a move unless it is where it is wanted, an upvalue
/// or a constant with the one instruction that loads it. A temporary register stays where it is
/// where any register will do. What is wanted nowhere takes no instruction.
#[verifier::spinoff_prover]
pub proof fn law_leaf_instruction(st: State, desc: Desc, dest: ExprDestination)
    requires
        inv(st),
        holds(st, desc),
        open_to(st, owned(desc), dest),
        is_leaf(desc),
    ensures
        discharge(st, desc, dest) matches Ok((st1, to)) ==> {
            let code = current(st).opcodes;
            let code1 = current(st1).opcodes;
            match to {
                None => code1 == code,
                Some(r) => match desc {
                    Desc::Register { register, is_temporary } => {
                        &&& is_temporary && dest == ExprDestination::AllocateNew ==> r == register
                        &&& code1 == (if r == register {
                            code
                        } else {
                            code.push(OpCode::Move { dest: r, source: register })
                        })
                    },
                    Desc::UpValue(u) => code1 == code.push(
                        OpCode::GetUpValue { source: u, dest: r },
                    ),
                    Desc::Value(ValueView::Boolean(value)) => code1 == code.push(
                        OpCode::LoadBool { dest: r, value, skip_next: false },
                    ),
                    Desc::Value(ValueView::Nil) => {
                        ||| code1.len() == code.len()
                        ||| code1 == code.push(OpCode::LoadNil { dest: r, count: 1 })
                    },
                    Desc::Value(v) => {
                        &&& code1.len() == code.len() + 1
                        &&& code1.last() matches OpCode::LoadConstant { dest: to, constant }
                        &&& to == r
                        &&& constant.0 < current(st1).constants.len()
                        &&& current(st1).constants[constant.0 as int] == v
                    },
                    _ => true,
                },
            }
        },
{
    broadcast use {group_state, group_spares};

    reveal(discharge);
    reveal(place_register);
    reveal(place_upvalue);
    reveal(place_value);
    reveal(load_nil);
    lemma_owned(current(st), desc);
    match desc {
        Desc::Register { register, is_temporary } => {
            lemma_release(st, desc);
            if let Ok((st1, ())) = release(st, desc) {
                lemma_released_code(st, desc);
                lemma_destination_code(st1, dest);
            }
        },
        Desc::UpValue(_) => lemma_destination_code(st, dest),
        Desc::Value(v) => {
            lemma_destination_code(st, dest);
            lemma_new_destination(st, dest);
            if let Ok((st1, Some(r))) = new_destination(st, dest) {
                lemma_get_constant(st1, v);
            }
        },
        _ => {},
    }
}

proof fn lemma_released_code(st: State, desc: Desc)
    requires
        st.len() > 0,
    ensures
        release(st, desc) matches Ok((st1, _)) ==> {
            &&& st1.len() == st.len()
            &&& current(st1).opcodes == current(st).opcodes
        },
{
    reveal(free_register);
}

proof fn lemma_destination_code(st: State, dest: ExprDestination)
    requires
        st.len() > 0,
    ensures
        new_destination(st, dest) matches Ok((st1, _)) ==> {
            &&& st1.len() == st.len()
            &&& current(st1).opcodes == current(st).opcodes
        },
{
    reveal(new_destination);
    reveal(allocate);
    reveal(push_registers);
}

/// A field is read with one instruction into the temporary register that stands for it, by the key
/// that the operand has become: directly from an upvalue, and from a register otherwise.
#[verifier::spinoff_prover]
pub proof fn law_field_read_instruction(st: State, table: Desc, key: Desc)
    requires
        inv(st),
        holds(st, table),
        holds(st, key),
        owned(table).disjoint(owned(key)),
    ensures
        read_field(st, table, key) matches Ok((st1, d)) ==> {
            &&& d matches Desc::Register { register, is_temporary }
            &&& is_temporary
            &&& match table {
                Desc::UpValue(t) => match current(st1).opcodes.last() {
                    OpCode::GetUpTableC { dest, table: from, key: _ } => dest == register && from
                        == t && key is Value,
                    OpCode::GetUpTableR { dest, table: from, key: _ } => dest == register && from
                        == t,
                    _ => false,
                },
                _ => match current(st1).opcodes.last() {
                    OpCode::GetTableC { dest, table: _, key: _ } => dest == register
                        && key is Value,
                    OpCode::GetTableR { dest, table: _, key: _ } => dest == register,
                    _ => false,
                },
            }
        },
{
    broadcast use {group_state, group_spares};

    reveal(read_field);
    lemma_get_table(st, table, key);
    lemma_read_last(st, table, key);
    if let Ok((st1, (_, t, k))) = get_table(st, table, key) {
        lemma_released_code(st1, t);
        if let Ok((st2, ())) = release(st1, t) {
            lemma_released_code(st2, k);
        }
    }
}

#[verifier::spinoff_prover]
proof fn lemma_operand_kind(st: State, desc: Desc)
    ensures
        any_register_or_constant(st, desc) matches Ok((_, operand)) ==> (operand is Constant
            ==> desc is Value),
{
    reveal(any_register_or_constant);
}

#[verifier::spinoff_prover]
proof fn lemma_read_last(st: State, table: Desc, key: Desc)
    requires
        inv(st),
        holds(st, table),
        holds(st, key),
        owned(table).disjoint(owned(key)),
    ensures
        get_table(st, table, key) matches Ok((st1, (to, _, _))) ==> match table {
            Desc::UpValue(t) => match current(st1).opcodes.last() {
                OpCode::GetUpTableC { dest, table: from, key: _ } => dest == to && from == t
                    && key is Value,
                OpCode::GetUpTableR { dest, table: from, key: _ } => dest == to && from == t,
                _ => false,
            },
            _ => match current(st1).opcodes.last() {
                OpCode::GetTableC { dest, table: _, key: _ } => dest == to && key is Value,
                OpCode::GetTableR { dest, table: _, key: _ } => dest == to,
                _ => false,
            },
        },
{
    broadcast use {group_state, group_spares};

    reveal(get_table);
    lemma_owned(current(st), table);
    lemma_owned(current(st), key);
    lemma_rest_empty(st);
    lemma_allocate(st);
    if let Ok((st1, _)) = allocate(st) {
        lemma_keep(st, st1, table);
        lemma_keep(st, st1, key);
        lemma_operand_kind(st1, key);
        lemma_any_register_or_constant(st1, key);
        lemma_any_register(st1, table);
        if let Ok((st2, t)) = any_register(st1, table) {
            lemma_aside(st1, owned(table), st2, held(table, t), key);
            lemma_operand_kind(st2, key);
            lemma_any_register_or_constant(st2, key);
        }
    }
}

/// A compiled function has the constants, the inner functions and the instructions that its body
/// was compiled to, with one instruction more that returns nothing, the upvalues that it refers
/// to, and room for as many registers as its body needed.
#[verifier::spinoff_prover]
pub proof fn law_function_parts(
    st: State,
    parameters: Seq<Box<[u8]>>,
    has_varargs: bool,
    body: Block,
)
    requires
        st.len() == 0 || inv(st),
    ensures
        compile_function(st, parameters, has_varargs, body) matches Ok((_, p)) ==> {
            &&& block(st.push(new_function(parameters, has_varargs)), body) matches Ok((st1, _))
            &&& p.constants == current(st1).constants
            &&& p.prototypes == current(st1).prototypes
            &&& p.stack_size == current(st1).registers.size
            &&& p.opcodes == current(st1).opcodes.push(
                OpCode::Return { start: RegisterIndex(0), count: VarCount::constant(0) },
            )
            &&& p.upvalues.len() == current(st1).upvalues.len()
            &&& forall|i: int|
                0 <= i < p.upvalues.len() ==> #[trigger] p.upvalues[i] == current(
                    st1,
                ).upvalues[i].1
        },
{
    broadcast use {group_state, group_spares};

    reveal(compile_function);
    reveal(finish);
    reveal(end_scope);
    if parameters.len() <= u8::MAX {
        let a = st.push(new_function(parameters, has_varargs));
        lemma_new_function(st, parameters, has_varargs);
        lemma_block(a, body);
        if let Ok((st1, ())) = block(a, body) {
            let op = OpCode::Return { start: RegisterIndex(0), count: VarCount::constant(0) };
            let st2 = emit(st1, op);
            lemma_free_locals_code(st2, current(st2).locals, 0);
            lemma_free_locals_below(st2, current(st2).locals, 0);
            lemma_free_locals_size(st2, current(st2).locals, 0);
        }
    }
}

proof fn lemma_free_locals_size(st: State, locals: Seq<(Seq<u8>, RegisterIndex)>, i: int)
    requires
        st.len() > 0,
    ensures
        free_locals(st, locals, i) matches Ok((st1, _)) ==> current(st1).registers.size == current(
            st,
        ).registers.size && st1.len() == st.len(),
    decreases locals.len() - i,
{
    reveal(free_register);
    if 0 <= i < locals.len() {
        if let Ok((st1, _)) = free_register(st, locals[i].1) {
            lemma_free_locals_size(st1, locals, i + 1);
        }
    }
}

} // verus!
