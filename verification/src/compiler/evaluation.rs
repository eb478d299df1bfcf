//! Compiling expressions keeps the state in order: an expression holds what it needs until its
//! value is placed.

use crate::compiler::effects::{group_spares, lemma_spares_emit, only, spares, writes};
use crate::compiler::execution::lemma_new_prototype;
use crate::compiler::model::{
    allocate, binary_operator, closure, current, emit, expression, expression_rest, expressions,
    field_key, find_variable, function_expression, get_environment, head_expression, here,
    new_prototype, operand_register, operands, primary_expression, read_field, simple_expression,
    simple_operation, suffix, suffixed_expression, suffixed_rest, table_constructor, temporary,
    unary_operator, Desc, Outcome, State, Variable,
};
use crate::compiler::names::{lemma_find_variable, lemma_get_environment};
use crate::compiler::operators::{
    category, comparison_fold, simple_fold, unop_fold, unop_instruction, BinOpCategory, SimpleBinOp,
};
use crate::compiler::order::{
    group_state, inv, is_local, lemma_allocate, lemma_emit, limits, op_fits, quiet, used, Limits,
};
use crate::compiler::ownership::{
    fits, holds, holds_list, lemma_fits_push, lemma_keep, lemma_keep_list, lemma_list_push,
    lemma_owned, lemma_owned_list, owned, owned_list, rest, separate, sound, yields, yields_list,
};
use crate::compiler::placing::{
    lemma_aside, lemma_fresh, lemma_operand_register, lemma_operands, lemma_rest_empty,
};
use crate::compiler::size::{
    definition_size, expression_size, expressions_size, field_size, head_size, lemma_weights_push,
    primary_size, simple_size, suffix_size, suffixed_size, suffixes_size, tail_size, weight,
    weights,
};
use crate::compiler::support::{
    definition_supported, desc_supported, descs_supported, expression_supported,
    expressions_supported, field_supported, head_supported, primary_supported, simple_supported,
    suffix_supported, suffixed_supported, suffixes_supported, tail_supported,
};
use crate::compiler::tables::lemma_read_field;
use crate::opcode::{OpCode, PrototypeIndex, RegisterIndex};
use crate::parser::{
    BinaryOperator, CallSuffix, Expression, FieldSuffix, FunctionDefinition, HeadExpression,
    PrimaryExpression, SimpleExpression, SuffixPart, SuffixedExpression, TableConstructor,
    UnaryOperator,
};
use crate::value::ValueView;
use vstd::prelude::*;

verus! {

/// An expression has been compiled: what it holds now takes the place of `o`.
pub open spec fn evaluated(
    st: State,
    o: Set<int>,
    outcome: Outcome<Desc>,
    bound: nat,
    supported: bool,
) -> bool {
    match outcome {
        Ok((st1, d)) => {
            &&& yields(st, o, st1, d)
            &&& weight(d) <= bound
            &&& desc_supported(d) == supported
        },
        Err(h) => sound(h, supported, bound),
    }
}

/// A descriptor that owns nothing, after a step that leaves the registers as they are.
pub proof fn lemma_leaf(st: State, st1: State, d: Desc)
    requires
        quiet(st, st1),
        current(st1).opcodes == current(st).opcodes,
        holds(st1, d),
        owned(d) == Set::<int>::empty(),
    ensures
        yields(st, Set::empty(), st1, d),
{
    broadcast use group_spares;

    assert(used(st1) =~= rest(st, Set::empty()).union(owned(d)));
}

/// What one step yields, the next one takes.
pub proof fn lemma_chain(st: State, o: Set<int>, st1: State, d: Desc, st2: State, e: Desc)
    requires
        yields(st, o, st1, d),
        yields(st1, owned(d), st2, e),
    ensures
        yields(st, o, st2, e),
{
    broadcast use {group_state, group_spares};

    assert(rest(st1, owned(d)) =~= rest(st, o));
    assert(spares(st1, st2, rest(st, o)));
}

/// As `lemma_chain`, where the next step takes what was there before as well.
pub proof fn lemma_absorb(st: State, o: Set<int>, st1: State, d: Desc, st2: State, e: Desc)
    requires
        yields(st, Set::empty(), st1, d),
        yields(st1, o.union(owned(d)), st2, e),
        o.subset_of(used(st)),
    ensures
        yields(st, o, st2, e),
{
    broadcast use {group_state, group_spares};

    lemma_rest_empty(st);
    assert(rest(st1, o.union(owned(d))) =~= rest(st, o));
    assert(rest(st, o).subset_of(rest(st, Set::empty())));
    assert(spares(st1, st2, rest(st, o)));
}

/// A new register for a result.
proof fn lemma_result(st: State, op: OpCode)
    requires
        inv(st),
        allocate(st) matches Ok((st1, dest)) ==> writes(op) == only(dest) && op_fits(
            op,
            here(st1),
            Limits { target: here(st1) + 1, ..limits(current(st1)) },
        ),
    ensures
        match allocate(st) {
            Ok((st1, dest)) => yields(st, Set::empty(), emit(st1, op), temporary(dest)),
            Err(h) => sound(h, true, 1),
        },
{
    broadcast use {group_state, group_spares};

    lemma_rest_empty(st);
    lemma_allocate(st);
    if let Ok((st1, dest)) = allocate(st) {
        lemma_emit(st1, op);
        lemma_spares_emit(st1, op, used(st));
        assert(spares(st, st1, used(st)));
        lemma_fresh(st, Set::empty(), emit(st1, op), dest);
    }
}

#[verifier::spinoff_prover]
pub proof fn lemma_expression(st: State, e: Expression)
    requires
        inv(st),
    ensures
        evaluated(
            st,
            Set::empty(),
            expression(st, e),
            expression_size(e),
            expression_supported(e),
        ),
    decreases expression_size(e), 6nat,
{
    broadcast use {group_state, group_spares};

    reveal(expression);
    lemma_head_expression(st, *e.head);
    if let Ok((st1, d)) = head_expression(st, *e.head) {
        lemma_expression_rest(st1, d, e.tail@, 0);
        if let Ok((st2, d2)) = expression_rest(st1, d, e.tail@, 0) {
            lemma_chain(st, Set::empty(), st1, d, st2, d2);
        }
    }
}

#[verifier::spinoff_prover]
pub proof fn lemma_expression_rest(
    st: State,
    left: Desc,
    tail: Seq<(BinaryOperator, Expression)>,
    i: int,
)
    requires
        inv(st),
        holds(st, left),
        0 <= i <= tail.len(),
    ensures
        evaluated(
            st,
            owned(left),
            expression_rest(st, left, tail, i),
            weight(left) + tail_size(tail, i),
            desc_supported(left) && tail_supported(tail, i),
        ),
    decreases weight(left) + tail_size(tail, i), 5nat,
{
    broadcast use {group_state, group_spares};

    reveal(expression_rest);
    if i < tail.len() {
        lemma_binary_operator(st, left, tail[i].0, tail[i].1);
        if let Ok((st1, d)) = binary_operator(st, left, tail[i].0, tail[i].1) {
            lemma_expression_rest(st1, d, tail, i + 1);
            if let Ok((st2, d2)) = expression_rest(st1, d, tail, i + 1) {
                lemma_chain(st, owned(left), st1, d, st2, d2);
            }
        }
    } else {
        lemma_owned(current(st), left);
        assert(used(st) =~= rest(st, owned(left)).union(owned(left)));
        assert(spares(st, st, rest(st, owned(left))));
    }
}

#[verifier::spinoff_prover]
pub proof fn lemma_head_expression(st: State, head: HeadExpression)
    requires
        inv(st),
    ensures
        evaluated(
            st,
            Set::empty(),
            head_expression(st, head),
            head_size(head),
            head_supported(head),
        ),
    decreases head_size(head), 6nat,
{
    broadcast use {group_state, group_spares};

    reveal(head_expression);
    match head {
        HeadExpression::Simple(s) => lemma_simple_expression(st, s),
        HeadExpression::UnaryOperator(op, e) => {
            lemma_expression(st, e);
            if let Ok((st1, d)) = expression(st, e) {
                lemma_unary_operator(st1, op, d);
                if let Ok((st2, d2)) = unary_operator(st1, op, d) {
                    lemma_chain(st, Set::empty(), st1, d, st2, d2);
                }
            }
        },
    }
}

#[verifier::spinoff_prover]
pub proof fn lemma_simple_expression(st: State, simple: SimpleExpression)
    requires
        inv(st),
    ensures
        evaluated(
            st,
            Set::empty(),
            simple_expression(st, simple),
            simple_size(simple),
            simple_supported(simple),
        ),
    decreases simple_size(simple), 6nat,
{
    broadcast use {group_state, group_spares};

    reveal(simple_expression);
    match simple {
        SimpleExpression::VarArgs => {},
        SimpleExpression::TableConstructor(t) => lemma_table_constructor(st, t),
        SimpleExpression::Function(f) => lemma_function_expression(st, f),
        SimpleExpression::Suffixed(s) => lemma_suffixed_expression(st, s),
        _ => {
            if let Ok((_, d)) = simple_expression(st, simple) {
                lemma_leaf(st, st, d);
            }
        },
    }
}

#[verifier::spinoff_prover]
pub proof fn lemma_table_constructor(st: State, table: TableConstructor)
    requires
        inv(st),
    ensures
        evaluated(
            st,
            Set::empty(),
            table_constructor(st, table),
            8,
            simple_supported(SimpleExpression::TableConstructor(table)),
        ),
{
    broadcast use {group_state, group_spares};

    reveal(table_constructor);
    if table.fields@.len() == 0 {
        lemma_allocate(st);
        if let Ok((st1, dest)) = allocate(st) {
            lemma_result(st, OpCode::NewTable { dest });
        }
    }
}

/// A closure is a new temporary value.
#[verifier::spinoff_prover]
pub proof fn lemma_closure(st: State, proto: PrototypeIndex)
    requires
        inv(st),
        proto.0 < current(st).prototypes.len(),
    ensures
        match closure(st, proto) {
            Ok((st1, dest)) => yields(st, Set::empty(), st1, temporary(dest)),
            Err(h) => sound(h, true, 1),
        },
{
    broadcast use {group_state, group_spares};

    reveal(closure);
    lemma_allocate(st);
    if let Ok((st1, dest)) = allocate(st) {
        lemma_result(st, OpCode::Closure { proto, dest });
    }
}

#[verifier::spinoff_prover]
pub proof fn lemma_function_expression(st: State, f: FunctionDefinition)
    requires
        inv(st),
    ensures
        evaluated(
            st,
            Set::empty(),
            function_expression(st, f),
            definition_size(f),
            definition_supported(f),
        ),
        function_expression(st, f) matches Ok((_, d)) ==> weight(d) <= 8,
    decreases definition_size(f), 7nat,
{
    broadcast use {group_state, group_spares};

    reveal(function_expression);
    lemma_new_prototype(st, f);
    if let Ok((st1, proto)) = new_prototype(st, f) {
        lemma_rest_empty(st);
        lemma_rest_empty(st1);
        lemma_closure(st1, proto);
        assert(spares(st, st1, used(st)));
    }
}

#[verifier::spinoff_prover]
pub proof fn lemma_suffixed_expression(st: State, suffixed: SuffixedExpression)
    requires
        inv(st),
    ensures
        evaluated(
            st,
            Set::empty(),
            suffixed_expression(st, suffixed),
            suffixed_size(suffixed),
            suffixed_supported(suffixed),
        ),
    decreases suffixed_size(suffixed), 6nat,
{
    broadcast use {group_state, group_spares};

    reveal(suffixed_expression);
    lemma_primary_expression(st, suffixed.primary);
    if let Ok((st1, d)) = primary_expression(st, suffixed.primary) {
        lemma_suffixed_rest(st1, d, suffixed.suffixes@, 0);
        if let Ok((st2, d2)) = suffixed_rest(st1, d, suffixed.suffixes@, 0) {
            lemma_chain(st, Set::empty(), st1, d, st2, d2);
        }
    }
}

#[verifier::spinoff_prover]
pub proof fn lemma_suffixed_rest(st: State, desc: Desc, suffixes: Seq<SuffixPart>, i: int)
    requires
        inv(st),
        holds(st, desc),
        0 <= i <= suffixes.len(),
    ensures
        evaluated(
            st,
            owned(desc),
            suffixed_rest(st, desc, suffixes, i),
            weight(desc) + suffixes_size(suffixes, i),
            desc_supported(desc) && suffixes_supported(suffixes, i),
        ),
    decreases weight(desc) + suffixes_size(suffixes, i), 6nat,
{
    broadcast use {group_state, group_spares};

    reveal(suffixed_rest);
    if i < suffixes.len() {
        lemma_suffix(st, desc, suffixes[i]);
        if let Ok((st1, d)) = suffix(st, desc, suffixes[i]) {
            lemma_suffixed_rest(st1, d, suffixes, i + 1);
            if let Ok((st2, d2)) = suffixed_rest(st1, d, suffixes, i + 1) {
                lemma_chain(st, owned(desc), st1, d, st2, d2);
            }
        }
    } else {
        lemma_owned(current(st), desc);
        assert(used(st) =~= rest(st, owned(desc)).union(owned(desc)));
        assert(spares(st, st, rest(st, owned(desc))));
    }
}

#[verifier::spinoff_prover]
pub proof fn lemma_suffix(st: State, desc: Desc, part: SuffixPart)
    requires
        inv(st),
        holds(st, desc),
    ensures
        evaluated(
            st,
            owned(desc),
            suffix(st, desc, part),
            weight(desc) + suffix_size(part),
            desc_supported(desc) && suffix_supported(part),
        ),
    decreases weight(desc) + suffix_size(part), 5nat,
{
    broadcast use {group_state, group_spares};

    reveal(suffix);
    lemma_owned(current(st), desc);
    lemma_rest_empty(st);
    match part {
        SuffixPart::Field(field) => {
            lemma_field_key(st, field);
            if let Ok((st1, key)) = field_key(st, field) {
                lemma_aside(st, Set::empty(), st1, key, desc);
                lemma_read_field(st1, desc, key);
                if let Ok((st2, d)) = read_field(st1, desc, key) {
                    lemma_absorb(st, owned(desc), st1, key, st2, d);
                }
            }
        },
        SuffixPart::Call(CallSuffix::Function(args)) => {
            let none = Seq::<Desc>::empty();
            lemma_expressions(st, args@, 0, none);
            assert(owned_list(none, 0) =~= Set::<int>::empty());
            if let Ok((st1, ds)) = expressions(st, args@, 0, none) {
                let d = Desc::FunctionCall { func: Box::new(desc), args: ds };
                lemma_keep(st, st1, desc);
                assert(owned(d) == owned(desc).union(owned_list(ds, 0)));
                assert(used(st1) =~= rest(st, owned(desc)).union(owned(d)));
                assert(rest(st, owned(desc)).subset_of(rest(st, owned_list(none, 0))));
            }
        },
        SuffixPart::Call(CallSuffix::Method(_, _)) => {},
    }
}

#[verifier::spinoff_prover]
pub proof fn lemma_field_key(st: State, field: FieldSuffix)
    requires
        inv(st),
    ensures
        evaluated(
            st,
            Set::empty(),
            field_key(st, field),
            field_size(field),
            field_supported(field),
        ),
    decreases field_size(field), 6nat,
{
    broadcast use {group_state, group_spares};

    reveal(field_key);
    match field {
        FieldSuffix::Named(name) => lemma_leaf(st, st, Desc::Value(ValueView::String(name@))),
        FieldSuffix::Indexed(e) => lemma_expression(st, e),
    }
}

#[verifier::spinoff_prover]
pub proof fn lemma_expressions(st: State, es: Seq<Expression>, i: int, done: Seq<Desc>)
    requires
        inv(st),
        0 <= i <= es.len(),
        holds_list(st, done, 0),
    ensures
        match expressions(st, es, i, done) {
            Ok((st1, ds)) => {
                &&& yields_list(st, owned_list(done, 0), st1, ds)
                &&& weights(ds, 0) <= weights(done, 0) + expressions_size(es, i)
                &&& descs_supported(ds, 0) == (expressions_supported(es, i) && descs_supported(
                    done,
                    0,
                ))
            },
            Err(h) => sound(h, expressions_supported(es, i), expressions_size(es, i)),
        },
    decreases expressions_size(es, i), 6nat,
{
    broadcast use {group_state, group_spares};

    reveal(expressions);
    let o = owned_list(done, 0);
    lemma_owned_list(current(st), done, 0);
    if i < es.len() {
        lemma_rest_empty(st);
        lemma_expression(st, es[i]);
        if let Ok((st1, d)) = expression(st, es[i]) {
            lemma_keep_list(st, st1, done, 0);
            lemma_list_push(done, d, 0);
            lemma_fits_push(current(st1), done, d, 0);
            lemma_weights_push(done, d, 0);
            assert(o.disjoint(owned(d)));
            lemma_expressions(st1, es, i + 1, done.push(d));
            if let Ok((st2, ds)) = expressions(st1, es, i + 1, done.push(d)) {
                assert(rest(st1, owned_list(done.push(d), 0)) =~= rest(st, o));
                assert(rest(st, o).subset_of(rest(st, Set::empty())));
                assert(spares(st1, st2, rest(st, o)));
            }
        }
    } else {
        assert(used(st) =~= rest(st, o).union(o));
        assert(spares(st, st, rest(st, o)));
    }
}

#[verifier::spinoff_prover]
pub proof fn lemma_primary_expression(st: State, primary: PrimaryExpression)
    requires
        inv(st),
    ensures
        evaluated(
            st,
            Set::empty(),
            primary_expression(st, primary),
            primary_size(primary),
            primary_supported(primary),
        ),
    decreases primary_size(primary), 6nat,
{
    broadcast use {group_state, group_spares};

    reveal(primary_expression);
    match primary {
        PrimaryExpression::Name(name) => {
            lemma_find_variable(st, name@);
            match find_variable(st, name@) {
                Ok((st1, Variable::Local(register))) => {
                    let d = Desc::Register { register, is_temporary: false };
                    lemma_local(st1, register);
                    lemma_leaf(st, st1, d);
                },
                Ok((st1, Variable::UpValue(upvalue))) => {
                    lemma_leaf(st, st1, Desc::UpValue(upvalue));
                },
                Ok((st1, Variable::Global(name))) => {
                    lemma_environment(st1);
                    if let Ok((st2, env)) = get_environment(st1) {
                        let key = Desc::Value(ValueView::String(name));
                        lemma_read_field(st2, env, key);
                        assert(owned(env).union(owned(key)) =~= Set::<int>::empty());
                        lemma_rest_empty(st);
                        lemma_rest_empty(st2);
                        assert(spares(st, st2, used(st)));
                    }
                },
                Err(_) => {},
            }
        },
        PrimaryExpression::GroupedExpression(e) => lemma_expression(st, e),
    }
}

/// The register of a local variable is held by no one else.
pub proof fn lemma_local(st: State, register: RegisterIndex)
    requires
        inv(st),
        is_local(current(st), register.0 as int),
    ensures
        holds(st, Desc::Register { register, is_temporary: false }),
        used(st).contains(register.0 as int),
{
    broadcast use {group_state, group_spares};

    let f = current(st);
    let i = choose|i: int| 0 <= i < f.locals.len() && (#[trigger] f.locals[i]).1.0 == register.0;
    assert(f.registers.used.contains(f.locals[i].1.0 as int));
}

/// The environment is there and owns nothing.
pub proof fn lemma_environment(st: State)
    requires
        inv(st),
    ensures
        match get_environment(st) {
            Ok((st1, d)) => {
                &&& quiet(st, st1)
                &&& current(st1).opcodes == current(st).opcodes
                &&& holds(st1, d)
                &&& owned(d) == Set::<int>::empty()
                &&& weight(d) == 1
                &&& desc_supported(d)
            },
            Err(h) => sound(h, true, 1),
        },
{
    lemma_get_environment(st);
    if let Ok((st1, d)) = get_environment(st) {
        if let Desc::Register { register, is_temporary } = d {
            lemma_local(st1, register);
        }
    }
}

#[verifier::spinoff_prover]
pub proof fn lemma_unary_operator(st: State, op: UnaryOperator, operand: Desc)
    requires
        inv(st),
        holds(st, operand),
    ensures
        evaluated(
            st,
            owned(operand),
            unary_operator(st, op, operand),
            1 + weight(operand),
            desc_supported(operand),
        ),
    decreases weight(operand), 4nat,
{
    broadcast use {group_state, group_spares};

    reveal(unary_operator);
    let o = owned(operand);
    lemma_owned(current(st), operand);
    assert(used(st) =~= rest(st, o).union(o));
    assert(spares(st, st, rest(st, o)));
    let folded = match operand {
        Desc::Value(v) => unop_fold(op, v),
        _ => None,
    };
    if folded is None && op != UnaryOperator::Not {
        lemma_operand_register(st, operand);
        if let Ok((st1, source)) = operand_register(st, operand) {
            lemma_rest_empty(st1);
            lemma_allocate(st1);
            if let Ok((st2, dest)) = allocate(st1) {
                let instruction = unop_instruction(op, dest, source);
                lemma_emit(st2, instruction);
                lemma_spares_emit(st2, instruction, rest(st, o));
                assert(spares(st1, st2, rest(st, o)));
                lemma_fresh(st, o, emit(st2, instruction), dest);
            }
        }
    } else if folded is Some {
        assert(used(st) =~= rest(st, o).union(owned(Desc::Value(folded->0))));
    } else {
        let d = Desc::Not(Box::new(operand));
        assert(owned(d) == o);
        assert(separate(d) && fits(current(st), d));
        assert(weight(d) == 1 + weight(operand));
        assert(desc_supported(d) == desc_supported(operand));
    }
}

#[verifier::spinoff_prover]
pub proof fn lemma_simple_operation(st: State, left: Desc, op: SimpleBinOp, right: Desc)
    requires
        inv(st),
        holds(st, left),
        holds(st, right),
        owned(left).disjoint(owned(right)),
    ensures
        evaluated(
            st,
            owned(left).union(owned(right)),
            simple_operation(st, left, op, right),
            weight(left) + weight(right),
            desc_supported(left) && desc_supported(right),
        ),
        simple_operation(st, left, op, right) matches Ok((_, d)) ==> weight(d) <= 1,
    decreases weight(left) + weight(right), 4nat,
{
    broadcast use {group_state, group_spares};

    reveal(simple_operation);
    let o = owned(left).union(owned(right));
    lemma_owned(current(st), left);
    lemma_owned(current(st), right);
    lemma_operands(st, left, right);
    if let Ok((st1, (l, r))) = operands(st, left, right) {
        lemma_allocate(st1);
        if let Ok((st2, dest)) = allocate(st1) {
            let instruction = OpCode::Simple { op, dest, left: l, right: r };
            lemma_emit(st2, instruction);
            lemma_spares_emit(st2, instruction, rest(st, o));
            assert(spares(st1, st2, rest(st, o)));
            lemma_fresh(st, o, emit(st2, instruction), dest);
        }
    }
}

#[verifier::spinoff_prover]
pub proof fn lemma_binary_operator(st: State, left: Desc, op: BinaryOperator, right: Expression)
    requires
        inv(st),
        holds(st, left),
    ensures
        evaluated(
            st,
            owned(left),
            binary_operator(st, left, op, right),
            1 + weight(left) + expression_size(right),
            desc_supported(left) && op != BinaryOperator::Concat && expression_supported(right),
        ),
    decreases weight(left) + expression_size(right), 5nat,
{
    broadcast use {group_state, group_spares};

    reveal(binary_operator);
    let o = owned(left);
    lemma_owned(current(st), left);
    lemma_rest_empty(st);
    assert(weight(left) >= 1);
    match category(op) {
        BinOpCategory::Simple(op) => {
            lemma_expression(st, right);
            if let Ok((st1, r)) = expression(st, right) {
                lemma_aside(st, Set::empty(), st1, r, left);
                let folded = match (left, r) {
                    (Desc::Value(a), Desc::Value(b)) => simple_fold(op, a, b),
                    _ => None,
                };
                match folded {
                    Some(v) => {
                        let d = Desc::Value(v);
                        assert(used(st1) =~= rest(st, o).union(owned(d)));
                        assert(rest(st, o).subset_of(rest(st, Set::empty())));
                    },
                    None => {
                        lemma_simple_operation(st1, left, op, r);
                        if let Ok((st2, d)) = simple_operation(st1, left, op, r) {
                            lemma_absorb(st, o, st1, r, st2, d);
                        }
                    },
                }
            }
        },
        BinOpCategory::Comparison(op) => {
            lemma_expression(st, right);
            if let Ok((st1, r)) = expression(st, right) {
                lemma_aside(st, Set::empty(), st1, r, left);
                let folded = match (left, r) {
                    (Desc::Value(a), Desc::Value(b)) => comparison_fold(op, a, b),
                    _ => None,
                };
                let d = match folded {
                    Some(v) => Desc::Value(v),
                    None => Desc::Comparison { left: Box::new(left), op, right: Box::new(r) },
                };
                if folded is None {
                    assert(owned(d) == o.union(owned(r)));
                    assert(separate(d) && fits(current(st1), d));
                    assert(weight(d) == 1 + weight(left) + weight(r));
                    assert(desc_supported(d) == (desc_supported(left) && desc_supported(r)));
                }
                assert(used(st1) =~= rest(st, o).union(owned(d)));
                assert(rest(st, o).subset_of(rest(st, Set::empty())));
            }
        },
        BinOpCategory::ShortCircuit(op) => {
            let d = Desc::ShortCircuitBinOp { left: Box::new(left), op, right };
            assert(owned(d) == o);
            assert(separate(d) && fits(current(st), d));
            assert(weight(d) == 1 + weight(left) + expression_size(right));
            assert(desc_supported(d) == (desc_supported(left) && expression_supported(right)));
            assert(used(st) =~= rest(st, o).union(owned(d)));
            assert(spares(st, st, rest(st, o)));
        },
        BinOpCategory::Concat => {},
    }
}

} // verus!
