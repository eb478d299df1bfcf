//! What compiled code does when it is executed.
//!
//! Each law speaks of instructions that have been emitted before, at whose end execution that
//! began at `b` in the state `s0` arrives, and of what is emitted behind them. The operations of
//! the language themselves are left open: a [`Setting`] gives them any meaning.

use crate::compiler::delivery::{
    meant, sim_closure, sim_discharge, sim_expr_function_call, sim_expression,
};
use crate::compiler::effects::group_spares;
use crate::compiler::evaluation::lemma_expression;
use crate::compiler::execution::lemma_block;
use crate::compiler::machine::{run, Event, Flow, Machine, Setting};
use crate::compiler::meaning::{
    assign_to, calls_from, constant, desc_meanings, eval, evals, exec_block, exec_statement, handed,
    head_eval, simple_eval, tail_eval, value, Env,
};
use crate::compiler::model::{
    assign, block, compilation, compile_function, condition, current, discharge, done, emit,
    end_scope, env_name, expr_function_call, expression, expression_rest, finish,
    function_expression, head_expression, jump_placeholder, new_function, return_statement, settle,
    simple_expression, statement, Desc, ExprDestination, FunctionState, State,
};
use crate::compiler::operators::ShortCircuitBinOp;
use crate::compiler::order::{group_state, inv, lemma_settle, settled, upvalues_ok, used};
use crate::compiler::ownership::{holds, holds_list, lemma_owned, owned, owned_list, rest};
use crate::compiler::performance::{
    entered, follows, in_place, leaves, lemma_free_locals_below, set_for, sim_assign, sim_block,
    sim_compile_function, sim_condition, sim_return_statement, sim_statement, store, tests,
};
use crate::compiler::placing::{kept_at, lemma_discharge, lemma_rest_empty, number, open_to};
use crate::compiler::register_allocator::{height, REGISTERS};
use crate::compiler::scope::{clean, lemma_new_function};
use crate::compiler::simulation::{arrives, at, env, fitted, flow, lemma_fitted, means};
use crate::function::ProtoView;
use crate::opcode::{OpCode, RegisterIndex, VarCount};
use crate::parser::{
    AssignmentTarget, BinaryOperator, Block, Chunk, Expression, FunctionDefinition, HeadExpression,
    ReturnStatement, SimpleExpression, Statement,
};
use crate::value::ValueView;
use vstd::prelude::*;

verus! {

// ---------------------------------------------------------------------------------------------
// Expressions

/// The value of an expression ends up where it is wanted. No variable changes and nothing is
/// written on the way, and exactly the calls are made that the expression makes: `and` and `or`
/// evaluate their right operand only where the left one does not decide.
#[verifier::spinoff_prover]
pub proof fn law_expression_value(
    x: Setting,
    b: int,
    s0: Machine,
    st: State,
    e: Expression,
    dest: ExprDestination,
)
    requires
        inv(st),
        means(x),
        arrives(x, b, s0, st),
        dest matches ExprDestination::Register(r) ==> used(st).contains(r.0 as int),
    ensures
        expression(st, e) matches Ok((st1, d)) ==> (discharge(st1, d, dest) matches Ok((st2, to))
            ==> (fitted(x, st2) ==> {
            let m = at(x, b, s0, st);
            let m2 = at(x, b, s0, st2);
            let known = eval(x, env(st, m), e);
            &&& arrives(x, b, s0, st2)
            &&& dest != ExprDestination::Nowhere ==> to is Some
            &&& to matches Some(r) ==> m2.get(r) == value(x, known.meaning)
            &&& forall|i: int| #[trigger]
                used(st).contains(i) && i != number(to) ==> m2.registers[i] == m.registers[i]
            &&& m2.cells == m.cells
            &&& m2.events == m.events
            &&& m2.seen == (m.seen + known.calls)
        })),
{
    broadcast use {group_state, group_spares, lemma_fitted};

    lemma_rest_empty(st);
    lemma_expression(st, e);
    sim_expression(x, b, s0, st, e);
    if let Ok((st1, d)) = expression(st, e) {
        lemma_owned(current(st1), d);
        assert(rest(st1, owned(d)) =~= used(st));
        lemma_discharge(st1, d, dest);
        if let Ok((st2, to)) = discharge(st1, d, dest) {
            if fitted(x, st2) {
                sim_discharge(x, b, s0, st1, d, dest);
                let m = at(x, b, s0, st);
                let m2 = at(x, b, s0, st2);
                assert forall|i: int| #[trigger]
                    used(st).contains(i) && i != number(to) implies m2.registers[i]
                    == m.registers[i] by {
                    assert(rest(st1, owned(d)).contains(i));
                    assert(kept_at(st1, owned(d), dest).contains(i));
                }
            }
        }
    }
}

/// `and` and `or`, by the value of their left operand: where it decides, it is the result, and
/// nothing of the right one is executed; where it does not, the result is the right one.
pub proof fn law_short_circuit(
    x: Setting,
    b: int,
    s0: Machine,
    st: State,
    left: Desc,
    op: ShortCircuitBinOp,
    right: Expression,
    dest: ExprDestination,
)
    requires
        inv(st),
        means(x),
        arrives(x, b, s0, st),
        holds(st, left),
        open_to(st, owned(left), dest),
    ensures
        ({
            let desc = Desc::ShortCircuitBinOp { left: Box::new(left), op, right };
            discharge(st, desc, dest) matches Ok((st1, to)) ==> (fitted(x, st1) ==> {
                let m = at(x, b, s0, st);
                let m1 = at(x, b, s0, st1);
                let l = meant(x, b, s0, st, left);
                let r = eval(x, env(st, m), right);
                let decides = (x.truth)(value(x, l.meaning)) == (op == ShortCircuitBinOp::Or);
                &&& arrives(x, b, s0, st1)
                &&& to matches Some(to) ==> m1.get(to) == value(
                    x,
                    if decides {
                        l.meaning
                    } else {
                        r.meaning
                    },
                )
                &&& m1.seen == m.seen + l.calls + (if decides {
                    0
                } else {
                    r.calls
                })
            })
        }),
{
    let desc = Desc::ShortCircuitBinOp { left: Box::new(left), op, right };
    assert(owned(desc) == owned(left));
    sim_discharge(x, b, s0, st, desc, dest);
}

/// A call hands the function the values of all arguments, and all results of the last one where
/// that is a call. Its results begin at the register that is given: as many as are wanted, with
/// nil for those that are missing, or all of them. A call whose results are not wanted is an
/// event of its own.
pub proof fn law_call(
    x: Setting,
    b: int,
    s0: Machine,
    st: State,
    func: Desc,
    args: Seq<Desc>,
    count: VarCount,
)
    requires
        inv(st),
        means(x),
        arrives(x, b, s0, st),
        holds(st, func),
        holds_list(st, args, 0),
        owned(func).disjoint(owned_list(args, 0)),
    ensures
        expr_function_call(st, func, args, count) matches Ok((st1, first)) ==> (fitted(x, st1)
            ==> {
            let m = at(x, b, s0, st);
            let m1 = at(x, b, s0, st1);
            let f = value(x, meant(x, b, s0, st, func).meaning);
            let given = handed(x, desc_meanings(x, env(st, m), m, args, 0));
            let results = (x.call)(f, given);
            &&& arrives(x, b, s0, st1)
            &&& count == VarCount::variable() ==> m1.open_at == first.0 && m1.open == results
            &&& count != VarCount::variable() ==> forall|j: int|
                0 <= j < count.0 - 1 && first.0 + j < 256 ==> #[trigger] m1.registers[first.0 + j]
                    == x.result(results, j)
            &&& m1.seen == m.seen + meant(x, b, s0, st, func).calls + calls_from(
                desc_meanings(x, env(st, m), m, args, 0),
                0,
            ) + x.watched(f, given)
            &&& m1.events == (if count == VarCount::constant(0) {
                m.events.push(Event::Call { func: f, args: given })
            } else {
                m.events
            })
            &&& m1.cells == m.cells
        }),
{
    sim_expr_function_call(x, b, s0, st, func, args, count);
}

/// A function expression yields the function that its definition defines: the instruction refers
/// to the compiled form of this very definition.
pub proof fn law_closure(x: Setting, b: int, s0: Machine, st: State, f: FunctionDefinition)
    requires
        inv(st),
        means(x),
        arrives(x, b, s0, st),
    ensures
        function_expression(st, f) matches Ok((st1, d)) ==> (fitted(x, st1) ==> {
            &&& arrives(x, b, s0, st1)
            &&& d matches Desc::Register { register, is_temporary } && is_temporary && at(
                x,
                b,
                s0,
                st1,
            ).get(register) == (x.function)(f)
        }),
{
    reveal(function_expression);
    sim_closure(x, b, s0, st, f);
}

// ---------------------------------------------------------------------------------------------
// Statements

/// The test of an `if` skips the jump past the arm exactly where the condition holds. A
/// comparison compares the left operand with the right one, in this order.
pub proof fn law_condition(x: Setting, b: int, s0: Machine, st: State, e: Expression)
    requires
        inv(st),
        means(x),
        arrives(x, b, s0, st),
    ensures
        condition(st, e) matches Ok((st1, _)) ==> (fitted(x, jump_placeholder(st1)) ==> tests(
            x,
            b,
            s0,
            st,
            st1,
            eval(x, env(st, at(x, b, s0, st)), e),
        )),
{
    sim_condition(x, b, s0, st, e);
}

/// An assignment changes the variable that the name stands for, or the field, and nothing else.
pub proof fn law_assign(
    x: Setting,
    b: int,
    s0: Machine,
    st: State,
    target: AssignmentTarget,
    content: Desc,
)
    requires
        inv(st),
        means(x),
        arrives(x, b, s0, st),
        holds(st, content),
    ensures
        assign(st, target, content) matches Ok((st1, _)) ==> (fitted(x, st1) ==> {
            let m = at(x, b, s0, st);
            let k = meant(x, b, s0, st, content);
            &&& arrives(x, b, s0, st1)
            &&& store(st1, at(x, b, s0, st1)) == assign_to(
                x,
                store(st, m).after(k.calls),
                target,
                value(x, k.meaning),
            )
        }),
{
    sim_assign(x, b, s0, st, target, content);
}

/// A return leaves the function. Where each value lies directly behind the one before, the values
/// are those of the expressions, with all results of the last one where that is a call.
pub proof fn law_return_values(x: Setting, b: int, s0: Machine, st: State, s: ReturnStatement)
    requires
        inv(st),
        clean(st),
        means(x),
        arrives(x, b, s0, st),
    ensures
        return_statement(st, s) matches Ok((st1, _)) ==> (fitted(x, st1) ==> {
            let m = at(x, b, s0, st);
            let all = evals(x, env(st, m), s.returns@, 0);
            &&& flow(x, b, s0, st1) matches Flow::Returned(values, m1)
            &&& m1.cells == m.cells
            &&& m1.events == m.events
            &&& m1.seen == (m.seen + calls_from(all, 0))
            &&& in_place(settle(st), s.returns@, 0, height(used(st), REGISTERS as int)) ==> values
                == handed(x, all)
        }),
{
    sim_return_statement(x, b, s0, st, s);
}

/// The constant that an expression is written as, where it is one.
pub open spec fn literal(e: Expression) -> Option<ValueView> {
    if e.tail@.len() > 0 {
        None
    } else {
        match *e.head {
            HeadExpression::Simple(SimpleExpression::Float(f)) => Some(ValueView::Number(f)),
            HeadExpression::Simple(SimpleExpression::Integer(i)) => Some(ValueView::Integer(i)),
            HeadExpression::Simple(SimpleExpression::String(s)) => Some(ValueView::String(s@)),
            HeadExpression::Simple(SimpleExpression::Nil) => Some(ValueView::Nil),
            HeadExpression::Simple(SimpleExpression::True) => Some(ValueView::Boolean(true)),
            HeadExpression::Simple(SimpleExpression::False) => Some(ValueView::Boolean(false)),
            _ => None,
        }
    }
}

/// Constants that are returned are what the function returns, each in its place.
#[verifier::spinoff_prover]
pub proof fn law_constants_returned(x: Setting, b: int, s0: Machine, st: State, s: ReturnStatement)
    requires
        inv(st),
        clean(st),
        means(x),
        arrives(x, b, s0, st),
        forall|i: int| 0 <= i < s.returns@.len() ==> literal(#[trigger] s.returns@[i]) is Some,
    ensures
        return_statement(st, s) matches Ok((st1, _)) ==> (fitted(x, st1) ==> {
            &&& flow(x, b, s0, st1) matches Flow::Returned(values, _)
            &&& values == Seq::new(
                s.returns@.len(),
                |i: int| (x.constant)(literal(s.returns@[i])->0),
            )
        }),
{
    let es = s.returns@;
    let m = at(x, b, s0, st);
    let e = env(st, m);
    sim_return_statement(x, b, s0, st, s);
    lemma_settle(st);
    lemma_constants_in_place(settle(st), es, 0, height(used(st), REGISTERS as int));
    lemma_constants_meant(x, e, es, 0);
    let all = evals(x, e, es, 0);
    let wanted = Seq::new(es.len(), |i: int| (x.constant)(literal(es[i])->0));
    assert forall|i: int| 0 <= i < es.len() implies #[trigger] all[i] == constant(
        literal(es[i])->0,
    ) by {
        assert(all[i - 0] == constant(literal(es[i])->0));
    }
    if es.len() > 0 {
        assert(all[es.len() - 1] == constant(literal(es[es.len() - 1])->0));
    }
    assert(handed(x, all) =~= wanted);
}

#[verifier::spinoff_prover]
proof fn lemma_literal_simple(st: State, e: SimpleExpression)
    ensures
        match e {
            SimpleExpression::Float(f) => simple_expression(st, e) == done(
                st,
                Desc::Value(ValueView::Number(f)),
            ),
            SimpleExpression::Integer(i) => simple_expression(st, e) == done(
                st,
                Desc::Value(ValueView::Integer(i)),
            ),
            SimpleExpression::String(s) => simple_expression(st, e) == done(
                st,
                Desc::Value(ValueView::String(s@)),
            ),
            SimpleExpression::Nil => simple_expression(st, e) == done(
                st,
                Desc::Value(ValueView::Nil),
            ),
            SimpleExpression::True => simple_expression(st, e) == done(
                st,
                Desc::Value(ValueView::Boolean(true)),
            ),
            SimpleExpression::False => simple_expression(st, e) == done(
                st,
                Desc::Value(ValueView::Boolean(false)),
            ),
            _ => true,
        },
{
    reveal(simple_expression);
}

#[verifier::spinoff_prover]
proof fn lemma_literal_head(st: State, e: SimpleExpression)
    ensures
        head_expression(st, HeadExpression::Simple(e)) == simple_expression(st, e),
{
    reveal(head_expression);
}

#[verifier::spinoff_prover]
proof fn lemma_no_tail(st: State, left: Desc, tail: Seq<(BinaryOperator, Expression)>)
    requires
        tail.len() == 0,
    ensures
        expression_rest(st, left, tail, 0) == done(st, left),
{
    reveal(expression_rest);
}

/// A constant is compiled to itself, without an instruction.
#[verifier::spinoff_prover]
proof fn lemma_literal(st: State, e: Expression)
    requires
        literal(e) is Some,
    ensures
        expression(st, e) == done(st, Desc::Value(literal(e)->0)),
{
    reveal(expression);
    if let HeadExpression::Simple(s) = *e.head {
        lemma_literal_simple(st, s);
        lemma_literal_head(st, s);
        lemma_no_tail(st, Desc::Value(literal(e)->0), e.tail@);
    }
}

#[verifier::spinoff_prover]
proof fn lemma_constants_in_place(st: State, es: Seq<Expression>, i: int, start: int)
    requires
        inv(st),
        settled(st),
        current(st).registers.top == start + i,
        0 <= i <= es.len(),
        forall|j: int| 0 <= j < es.len() ==> literal(#[trigger] es[j]) is Some,
    ensures
        in_place(st, es, i, start),
    decreases es.len() - i,
{
    if i < es.len() {
        let d = Desc::Value(literal(es[i])->0);
        lemma_literal(st, es[i]);
        assert(owned(d) =~= Set::<int>::empty());
        lemma_discharge(st, d, ExprDestination::PushNew);
        if let Ok((st1, _)) = discharge(st, d, ExprDestination::PushNew) {
            lemma_constants_in_place(st1, es, i + 1, start);
        }
    }
}

#[verifier::spinoff_prover]
proof fn lemma_literal_meant(x: Setting, env: Env, e: Expression)
    requires
        literal(e) is Some,
    ensures
        eval(x, env, e) == constant(literal(e)->0),
{
    let k = head_eval(x, env, *e.head);
    assert(tail_eval(x, env, k, e.tail@, 0) == k);
    if let HeadExpression::Simple(s) = *e.head {
        assert(k == simple_eval(x, env, s));
        assert(simple_eval(x, env, s) == constant(literal(e)->0));
    }
}

proof fn lemma_constants_meant(x: Setting, e: Env, es: Seq<Expression>, i: int)
    requires
        0 <= i <= es.len(),
        forall|j: int| 0 <= j < es.len() ==> literal(#[trigger] es[j]) is Some,
    ensures
        evals(x, e, es, i).len() == es.len() - i,
        forall|j: int|
            i <= j < es.len() ==> #[trigger] evals(x, e, es, i)[j - i] == constant(
                literal(es[j])->0,
            ),
    decreases es.len() - i,
{
    if i < es.len() {
        lemma_constants_meant(x, e, es, i + 1);
        lemma_literal_meant(x, e, es[i]);
        assert forall|j: int| i <= j < es.len() implies #[trigger] evals(x, e, es, i)[j - i]
            == constant(literal(es[j])->0) by {
            if j > i {
                assert(evals(x, e, es, i)[j - i] == evals(x, e, es, i + 1)[j - (i + 1)]);
            }
        }
    }
}

/// A statement does what it means to the variables, in what it writes and in the calls it makes,
/// and goes on behind it or leaves the function as it should.
pub proof fn law_statement(x: Setting, b: int, s0: Machine, st: State, s: Statement)
    requires
        inv(st),
        clean(st),
        means(x),
        arrives(x, b, s0, st),
    ensures
        statement(st, s) matches Ok((st1, _)) ==> (fitted(x, st1) ==> follows(
            x,
            b,
            s0,
            st1,
            exec_statement(x, store(st, at(x, b, s0, st)), s),
        )),
{
    sim_statement(x, b, s0, st, s);
}

/// So does a block.
pub proof fn law_block(x: Setting, b: int, s0: Machine, st: State, blk: Block)
    requires
        inv(st),
        clean(st),
        means(x),
        arrives(x, b, s0, st),
    ensures
        block(st, blk) matches Ok((st1, _)) ==> (fitted(x, st1) ==> follows(
            x,
            b,
            s0,
            st1,
            exec_block(x, store(st, at(x, b, s0, st)), blk),
        )),
{
    sim_block(x, b, s0, st, blk);
}

// ---------------------------------------------------------------------------------------------
// Functions

/// A compiled function does what its body means, executed from its first instruction with the
/// arguments in the first registers.
pub proof fn law_function(
    x: Setting,
    st: State,
    parameters: Seq<Box<[u8]>>,
    has_varargs: bool,
    body: Block,
    m: Machine,
)
    requires
        inv(st),
        means(x),
        set_for(x, st, parameters, has_varargs, body),
        m.registers.len() == 256,
    ensures
        compile_function(st, parameters, has_varargs, body) matches Ok((_, p)) ==> leaves(
            run(x, p.opcodes, 0, p.opcodes.len() as int, m),
            exec_block(x, entered(parameters, m), body),
        ),
{
    sim_compile_function(x, st, parameters, has_varargs, body, m);
}

/// A compiled chunk does what it means: executed from its first instruction, with its constants,
/// the functions inside it and the environment, it makes the calls and writes the fields that its
/// statements make and write, in this order, and then returns.
#[verifier::spinoff_prover]
pub proof fn law_chunk(x: Setting, chunk: Chunk, m: Machine)
    requires
        means(x),
        compilation(chunk) matches Ok(p) && {
            &&& x.constants == p.constants
            &&& x.prototypes == p.prototypes
            &&& x.upvalues == Seq::new(p.upvalues.len(), |i: int| (env_name(), p.upvalues[i]))
        },
        forall|name: Seq<u8>| #[trigger] (x.outer)(name) == (name == env_name()),
        m.registers.len() == 256,
    ensures
        ({
            let code = compilation(chunk)->Ok_0.opcodes;
            leaves(
                run(x, code, 0, code.len() as int, m),
                exec_block(x, entered(Seq::empty(), m), chunk.block),
            )
        }),
{
    broadcast use {group_state, group_spares};

    let none = Seq::<FunctionState>::empty();
    let names = Seq::<Box<[u8]>>::empty();
    lemma_set_for_chunk(x, chunk);
    sim_compile_function(x, none, names, true, chunk.block, m);
}

/// A compiled chunk does what the chunk means, whatever the operations of the language mean: it
/// is executed in a setting with its own constants and inner functions, and with the environment
/// as the one variable from outside.
pub open spec fn faithful(chunk: Chunk, p: ProtoView) -> bool {
    forall|x: Setting, m: Machine|
        #![trigger run(x, p.opcodes, 0, p.opcodes.len() as int, m)]
        {
            &&& means(x)
            &&& x.constants == p.constants
            &&& x.prototypes == p.prototypes
            &&& x.upvalues == Seq::new(p.upvalues.len(), |i: int| (env_name(), p.upvalues[i]))
            &&& forall|name: Seq<u8>| #[trigger] (x.outer)(name) == (name == env_name())
            &&& m.registers.len() == 256
        } ==> leaves(
            run(x, p.opcodes, 0, p.opcodes.len() as int, m),
            exec_block(x, entered(Seq::empty(), m), chunk.block),
        )
}

/// Every chunk that is compiled is compiled faithfully.
pub proof fn law_faithful(chunk: Chunk)
    ensures
        compilation(chunk) matches Ok(p) ==> faithful(chunk, p),
{
    if let Ok(p) = compilation(chunk) {
        assert forall|x: Setting, m: Machine|
            #![trigger run(x, p.opcodes, 0, p.opcodes.len() as int, m)]
            {
                &&& means(x)
                &&& x.constants == p.constants
                &&& x.prototypes == p.prototypes
                &&& x.upvalues == Seq::new(p.upvalues.len(), |i: int| (env_name(), p.upvalues[i]))
                &&& forall|name: Seq<u8>| #[trigger] (x.outer)(name) == (name == env_name())
                &&& m.registers.len() == 256
            } implies leaves(
            run(x, p.opcodes, 0, p.opcodes.len() as int, m),
            exec_block(x, entered(Seq::empty(), m), chunk.block),
        ) by {
            law_chunk(x, chunk, m);
        }
    }
}

#[verifier::spinoff_prover]
proof fn lemma_set_for_chunk(x: Setting, chunk: Chunk)
    requires
        compilation(chunk) matches Ok(p) && {
            &&& x.constants == p.constants
            &&& x.prototypes == p.prototypes
            &&& x.upvalues == Seq::new(p.upvalues.len(), |i: int| (env_name(), p.upvalues[i]))
        },
        forall|name: Seq<u8>| #[trigger] (x.outer)(name) == (name == env_name()),
    ensures
        set_for(x, Seq::empty(), Seq::empty(), true, chunk.block),
{
    broadcast use {group_state, group_spares};

    reveal(compile_function);
    reveal(finish);
    reveal(end_scope);
    reveal(fitted);
    let none = Seq::<FunctionState>::empty();
    let names = Seq::<Box<[u8]>>::empty();
    let f = new_function(names, true);
    let a = none.push(f);
    lemma_new_function(none, names, true);
    assert(current(a) == f);
    lemma_block(a, chunk.block);
    let st1 = block(a, chunk.block)->Ok_0.0;
    let p = compilation(chunk)->Ok_0;
    let op = OpCode::Return { start: RegisterIndex(0), count: VarCount::constant(0) };
    let st2 = emit(st1, op);
    lemma_free_locals_below(st2, current(st2).locals, 0);
    assert(upvalues_ok(st1, 0)) by {
        reveal(inv);
    }
    assert(p.upvalues.len() == current(st1).upvalues.len());
    assert forall|i: int| 0 <= i < p.upvalues.len() implies #[trigger] x.upvalues[i] == current(
        st1,
    ).upvalues[i] by {
        assert(p.upvalues[i] == current(st1).upvalues[i].1);
    }
    assert(current(st1).upvalues =~= x.upvalues);
}

} // verus!
