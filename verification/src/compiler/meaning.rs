//! What expressions and statements mean, independently of how they are compiled.

use crate::compiler::machine::{Event, Machine, Setting, Val};
use crate::compiler::model::{env_name, Desc};
use crate::compiler::operators::{
    category, comparison_fold, simple_fold, unop_fold, BinOpCategory, ComparisonBinOp,
    ShortCircuitBinOp, SimpleBinOp,
};
use crate::parser::{
    AssignmentTarget, BinaryOperator, Block, CallSuffix, Expression, FieldSuffix,
    FunctionCallStatement, HeadExpression, PrimaryExpression, SimpleExpression, Statement,
    SuffixPart, SuffixedExpression, UnaryOperator,
};
use crate::value::ValueView;
use vstd::prelude::*;

verus! {

// ---------------------------------------------------------------------------------------------
// Values

/// What an expression means.
pub enum Meaning {
    /// A constant that is known before execution.
    Constant(ValueView),
    /// A value.
    Plain(Val),
    /// All results of a call, the first of which is the value.
    Results(Seq<Val>),
    /// A comparison. As a value it is true where the comparison does not skip, and as a condition
    /// it holds where it does.
    Compared(bool),
}

/// What an expression means, and how often its evaluation makes the call that is watched for.
pub struct Known {
    pub meaning: Meaning,
    pub calls: int,
}

/// The variables that can be named: the locals of the function, newest last, and the variables of
/// the functions further out.
#[verifier::ext_equal]
pub struct Env {
    pub locals: Seq<(Seq<u8>, Val)>,
    pub cells: Map<Seq<u8>, Val>,
}

pub open spec fn plain(value: Val, calls: int) -> Known {
    Known { meaning: Meaning::Plain(value), calls }
}

/// The one value of an expression.
pub open spec fn value(x: Setting, meaning: Meaning) -> Val {
    match meaning {
        Meaning::Constant(v) => (x.constant)(v),
        Meaning::Plain(v) => v,
        Meaning::Results(results) => x.result(results, 0),
        Meaning::Compared(skips) => x.boolean(!skips),
    }
}

/// Whether a condition holds.
pub open spec fn condition_holds(x: Setting, meaning: Meaning) -> bool {
    match meaning {
        Meaning::Compared(skips) => skips,
        _ => (x.truth)(value(x, meaning)),
    }
}

/// The values of a list of expressions: one of each, but all results of a call in last place.
pub open spec fn handed(x: Setting, all: Seq<Known>) -> Seq<Val> {
    if all.len() == 0 {
        Seq::empty()
    } else {
        let first = Seq::new((all.len() - 1) as nat, |i: int| value(x, all[i].meaning));
        first + match all.last().meaning {
            Meaning::Results(results) => results,
            m => seq![value(x, m)],
        }
    }
}

/// How often the expressions from the `i`th on make the call.
pub open spec fn calls_from(all: Seq<Known>, i: int) -> int
    decreases all.len() - i,
{
    if 0 <= i < all.len() {
        all[i].calls + calls_from(all, i + 1)
    } else {
        0
    }
}

pub open spec fn called(x: Setting, func: Known, args: Seq<Known>) -> Known {
    let f = value(x, func.meaning);
    let given = handed(x, args);
    Known {
        meaning: Meaning::Results((x.call)(f, given)),
        calls: func.calls + calls_from(args, 0) + x.watched(f, given),
    }
}

pub open spec fn compared(x: Setting, op: ComparisonBinOp, left: Known, right: Known) -> Known {
    Known {
        meaning: Meaning::Compared((x.skips)(op, value(x, left.meaning), value(x, right.meaning))),
        calls: left.calls + right.calls,
    }
}

/// `and` yields its right operand where the left one is true, `or` where the left one is false.
/// Otherwise they yield the left one and leave the right one alone.
pub open spec fn short_circuit(
    x: Setting,
    op: ShortCircuitBinOp,
    left: Known,
    right: Known,
) -> Known {
    let l = value(x, left.meaning);
    let goes_on = match op {
        ShortCircuitBinOp::And => (x.truth)(l),
        ShortCircuitBinOp::Or => !(x.truth)(l),
    };
    if goes_on {
        plain(value(x, right.meaning), left.calls + right.calls)
    } else {
        plain(l, left.calls)
    }
}

pub open spec fn negated(x: Setting, operand: Known) -> Known {
    plain(x.boolean(!(x.truth)(value(x, operand.meaning))), operand.calls)
}

pub open spec fn unary(x: Setting, op: UnaryOperator, operand: Known) -> Known {
    let folded = match operand.meaning {
        Meaning::Constant(v) => unop_fold(op, v),
        _ => None,
    };
    match folded {
        Some(v) => Known { meaning: Meaning::Constant(v), calls: operand.calls },
        None => if op == UnaryOperator::Not {
            negated(x, operand)
        } else {
            plain((x.unary)(op, value(x, operand.meaning)), operand.calls)
        },
    }
}

pub open spec fn simple(x: Setting, op: SimpleBinOp, left: Known, right: Known) -> Known {
    plain(
        (x.simple)(op, value(x, left.meaning), value(x, right.meaning)),
        left.calls + right.calls,
    )
}

/// A constant that was computed before execution, where there is one.
pub open spec fn folded(
    value: Option<ValueView>,
    left: Known,
    right: Known,
    otherwise: Known,
) -> Known {
    match value {
        Some(v) => Known { meaning: Meaning::Constant(v), calls: left.calls + right.calls },
        None => otherwise,
    }
}

pub open spec fn binary(x: Setting, op: BinaryOperator, left: Known, right: Known) -> Known {
    match category(op) {
        BinOpCategory::Simple(op) => folded(
            match (left.meaning, right.meaning) {
                (Meaning::Constant(a), Meaning::Constant(b)) => simple_fold(op, a, b),
                _ => None,
            },
            left,
            right,
            simple(x, op, left, right),
        ),
        BinOpCategory::Comparison(op) => folded(
            match (left.meaning, right.meaning) {
                (Meaning::Constant(a), Meaning::Constant(b)) => comparison_fold(op, a, b),
                _ => None,
            },
            left,
            right,
            compared(x, op, left, right),
        ),
        BinOpCategory::ShortCircuit(op) => short_circuit(x, op, left, right),
        BinOpCategory::Concat => left,
    }
}

pub open spec fn field(x: Setting, table: Known, key: Known) -> Known {
    plain(
        (x.index)(value(x, table.meaning), value(x, key.meaning)),
        table.calls + key.calls,
    )
}

// ---------------------------------------------------------------------------------------------
// Names

/// The newest of the first `n` locals with this name.
pub open spec fn newest(locals: Seq<(Seq<u8>, Val)>, name: Seq<u8>, n: int) -> Option<Val>
    decreases n,
{
    if 0 < n <= locals.len() {
        if locals[n - 1].0 == name {
            Some(locals[n - 1].1)
        } else {
            newest(locals, name, n - 1)
        }
    } else {
        None
    }
}

/// The variable that a name stands for, if there is one.
pub open spec fn variable(x: Setting, env: Env, name: Seq<u8>) -> Option<Val> {
    match newest(env.locals, name, env.locals.len() as int) {
        Some(v) => Some(v),
        None => if (x.outer)(name) {
            Some(env.cells[name])
        } else {
            None
        },
    }
}

/// The environment in scope.
pub open spec fn environment(x: Setting, env: Env) -> Val {
    match variable(x, env, env_name()) {
        Some(v) => v,
        None => x.nil(),
    }
}

/// The value of a name: that of the variable, or a field of the environment.
pub open spec fn named(x: Setting, env: Env, name: Seq<u8>) -> Val {
    match variable(x, env, name) {
        Some(v) => v,
        None => (x.index)(environment(x, env), (x.constant)(ValueView::String(name))),
    }
}

// ---------------------------------------------------------------------------------------------
// Expressions

pub open spec fn eval(x: Setting, env: Env, e: Expression) -> Known
    decreases e, 0int,
{
    tail_eval(x, env, head_eval(x, env, *e.head), e.tail@, 0)
}

/// Applies the operators from the `i`th on, from left to right.
pub open spec fn tail_eval(
    x: Setting,
    env: Env,
    left: Known,
    tail: Seq<(BinaryOperator, Expression)>,
    i: int,
) -> Known
    decreases tail, tail.len() - i,
{
    if 0 <= i < tail.len() {
        tail_eval(
            x,
            env,
            binary(x, tail[i].0, left, eval(x, env, tail[i].1)),
            tail,
            i + 1,
        )
    } else {
        left
    }
}

pub open spec fn head_eval(x: Setting, env: Env, head: HeadExpression) -> Known
    decreases head, 0int,
{
    match head {
        HeadExpression::Simple(s) => simple_eval(x, env, s),
        HeadExpression::UnaryOperator(op, e) => unary(x, op, eval(x, env, e)),
    }
}

pub open spec fn simple_eval(x: Setting, env: Env, e: SimpleExpression) -> Known
    decreases e, 0int,
{
    match e {
        SimpleExpression::Float(f) => constant(ValueView::Number(f)),
        SimpleExpression::Integer(i) => constant(ValueView::Integer(i)),
        SimpleExpression::String(s) => constant(ValueView::String(s@)),
        SimpleExpression::Nil => constant(ValueView::Nil),
        SimpleExpression::True => constant(ValueView::Boolean(true)),
        SimpleExpression::False => constant(ValueView::Boolean(false)),
        SimpleExpression::VarArgs => constant(ValueView::Nil),
        SimpleExpression::TableConstructor(_) => plain(x.table, 0),
        SimpleExpression::Function(f) => plain((x.function)(f), 0),
        SimpleExpression::Suffixed(s) => suffixed_eval(x, env, s),
    }
}

pub open spec fn constant(v: ValueView) -> Known {
    Known { meaning: Meaning::Constant(v), calls: 0 }
}

pub open spec fn suffixed_eval(x: Setting, env: Env, e: SuffixedExpression) -> Known
    decreases e, 0int,
{
    suffixes_eval(x, env, primary_eval(x, env, e.primary), e.suffixes@, 0)
}

/// Applies the suffixes from the `i`th on.
pub open spec fn suffixes_eval(
    x: Setting,
    env: Env,
    base: Known,
    suffixes: Seq<SuffixPart>,
    i: int,
) -> Known
    decreases suffixes, suffixes.len() - i,
{
    if 0 <= i < suffixes.len() {
        suffixes_eval(x, env, suffix_eval(x, env, base, suffixes[i]), suffixes, i + 1)
    } else {
        base
    }
}

pub open spec fn suffix_eval(x: Setting, env: Env, base: Known, suffix: SuffixPart) -> Known
    decreases suffix, 0int,
{
    match suffix {
        SuffixPart::Field(f) => field(x, base, field_eval(x, env, f)),
        SuffixPart::Call(c) => call_eval(x, env, base, c),
    }
}

pub open spec fn call_eval(x: Setting, env: Env, func: Known, call: CallSuffix) -> Known
    decreases call, 0int,
{
    match call {
        CallSuffix::Function(args) => called(x, func, evals(x, env, args@, 0)),
        CallSuffix::Method(_, args) => called(x, func, evals(x, env, args@, 0)),
    }
}

pub open spec fn primary_eval(x: Setting, env: Env, e: PrimaryExpression) -> Known
    decreases e, 0int,
{
    match e {
        PrimaryExpression::Name(name) => plain(named(x, env, name@), 0),
        PrimaryExpression::GroupedExpression(e) => eval(x, env, e),
    }
}

pub open spec fn field_eval(x: Setting, env: Env, f: FieldSuffix) -> Known
    decreases f, 0int,
{
    match f {
        FieldSuffix::Named(name) => constant(ValueView::String(name@)),
        FieldSuffix::Indexed(e) => eval(x, env, e),
    }
}

/// The expressions from the `i`th on.
pub open spec fn evals(x: Setting, env: Env, es: Seq<Expression>, i: int) -> Seq<Known>
    decreases es, es.len() - i,
{
    if 0 <= i < es.len() {
        seq![eval(x, env, es[i])] + evals(x, env, es, i + 1)
    } else {
        Seq::empty()
    }
}

// ---------------------------------------------------------------------------------------------
// Statements

/// The variables, what has been seen from outside, and how often the call that is watched for has
/// been made.
#[verifier::ext_equal]
pub struct Store {
    pub env: Env,
    pub events: Seq<Event>,
    pub seen: int,
}

/// How the execution of a statement ends.
pub enum Course {
    /// It goes on behind the statement.
    Goes(Store),
    /// It leaves the function with these values.
    Returns(Seq<Val>, Store),
}

/// How far the execution of an `if` has got.
pub enum Progress {
    /// No arm has been taken yet.
    Open(Store),
    /// An arm has been taken.
    Taken(Course),
}

impl Store {
    /// Expressions were evaluated.
    pub open spec fn after(self, calls: int) -> Store {
        Store { seen: self.seen + calls, ..self }
    }

    /// A field was written.
    pub open spec fn write(self, table: Val, key: Val, value: Val) -> Store {
        Store { events: self.events.push(Event::Write { table, key, value }), ..self }
    }

    /// A local variable was declared.
    pub open spec fn declare(self, name: Seq<u8>, value: Val) -> Store {
        Store { env: Env { locals: self.env.locals.push((name, value)), ..self.env }, ..self }
    }

    /// Only the first `n` locals are left.
    pub open spec fn leave(self, n: int) -> Store {
        Store { env: Env { locals: self.env.locals.take(n), ..self.env }, ..self }
    }
}

/// The place of the newest of the first `n` locals with this name.
pub open spec fn newest_at(locals: Seq<(Seq<u8>, Val)>, name: Seq<u8>, n: int) -> Option<int>
    decreases n,
{
    if 0 < n <= locals.len() {
        if locals[n - 1].0 == name {
            Some(n - 1)
        } else {
            newest_at(locals, name, n - 1)
        }
    } else {
        None
    }
}

/// A name is assigned to: a local variable, a variable further out, or a field of the environment.
pub open spec fn assign_name(x: Setting, s: Store, name: Seq<u8>, v: Val) -> Store {
    match newest_at(s.env.locals, name, s.env.locals.len() as int) {
        Some(i) => Store { env: Env { locals: s.env.locals.update(i, (name, v)), ..s.env }, ..s },
        None => if (x.outer)(name) {
            Store { env: Env { cells: s.env.cells.insert(name, v), ..s.env }, ..s }
        } else {
            s.write(environment(x, s.env), (x.constant)(ValueView::String(name)), v)
        },
    }
}

pub open spec fn assign_to(x: Setting, s: Store, target: AssignmentTarget, v: Val) -> Store {
    match target {
        AssignmentTarget::Name(name) => assign_name(x, s, name@, v),
        AssignmentTarget::Field(table, key) => {
            let t = suffixed_eval(x, s.env, table);
            let k = field_eval(x, s.env, key);
            s.after(t.calls + k.calls).write(value(x, t.meaning), value(x, k.meaning), v)
        },
    }
}

/// Assigns to the targets from the `i`th on, one after another. A target without a value becomes
/// nil.
pub open spec fn assign_all(
    x: Setting,
    s: Store,
    targets: Seq<AssignmentTarget>,
    values: Seq<Expression>,
    i: int,
) -> Store
    decreases targets.len() - i,
{
    if 0 <= i < targets.len() {
        let known = if i < values.len() {
            eval(x, s.env, values[i])
        } else {
            constant(ValueView::Nil)
        };
        assign_all(
            x,
            assign_to(x, s.after(known.calls), targets[i], value(x, known.meaning)),
            targets,
            values,
            i + 1,
        )
    } else {
        s
    }
}

/// Declares the names from the `i`th on, with these values or nil.
pub open spec fn declare_all(
    x: Setting,
    s: Store,
    names: Seq<Box<[u8]>>,
    i: int,
    values: Seq<Val>,
    j: int,
) -> Store
    decreases names.len() - i,
{
    if 0 <= i < names.len() {
        declare_all(x, s.declare(names[i]@, x.result(values, j)), names, i + 1, values, j + 1)
    } else {
        s
    }
}

/// The values from the `i`th on, each of which is evaluated and given to its name before the next
/// one. A call in last place gives its results to all names that are left.
pub open spec fn declare_values(
    x: Setting,
    s: Store,
    names: Seq<Box<[u8]>>,
    values: Seq<Expression>,
    i: int,
) -> Store
    decreases values.len() - i,
{
    if 0 <= i < values.len() {
        let known = eval(x, s.env, values[i]);
        let s1 = s.after(known.calls);
        if i >= names.len() {
            declare_values(x, s1, names, values, i + 1)
        } else if i == values.len() - 1 && known.meaning is Results {
            declare_all(x, s1, names, i, known.meaning->Results_0, 0)
        } else {
            declare_values(
                x,
                s1.declare(names[i]@, value(x, known.meaning)),
                names,
                values,
                i + 1,
            )
        }
    } else {
        declare_all(x, s, names, i, Seq::empty(), 0)
    }
}

pub open spec fn exec_block(x: Setting, s: Store, b: Block) -> Course
    decreases b, 0int,
{
    match exec_statements(x, s, b.statements@, 0) {
        Course::Goes(s1) => match b.return_statement {
            Some(r) => {
                let all = evals(x, s1.env, r.returns@, 0);
                Course::Returns(handed(x, all), s1.after(calls_from(all, 0)))
            },
            None => Course::Goes(s1.leave(s.env.locals.len() as int)),
        },
        c => c,
    }
}

pub open spec fn exec_statements(x: Setting, s: Store, ss: Seq<Statement>, i: int) -> Course
    decreases ss, ss.len() - i,
{
    if 0 <= i < ss.len() {
        match exec_statement(x, s, ss[i]) {
            Course::Goes(s1) => exec_statements(x, s1, ss, i + 1),
            c => c,
        }
    } else {
        Course::Goes(s)
    }
}

/// One arm of an `if`.
pub open spec fn exec_arm(x: Setting, s: Store, e: Expression, b: Block) -> Progress
    decreases b, 1int,
{
    let known = eval(x, s.env, e);
    if condition_holds(x, known.meaning) {
        Progress::Taken(exec_block(x, s.after(known.calls), b))
    } else {
        Progress::Open(s.after(known.calls))
    }
}

/// The arms from the `i`th on: the first one whose condition holds is taken.
pub open spec fn exec_arms(x: Setting, s: Store, arms: Seq<(Expression, Block)>, i: int) -> Progress
    decreases arms, arms.len() - i,
{
    if 0 <= i < arms.len() {
        match exec_arm(x, s, arms[i].0, arms[i].1) {
            Progress::Open(s1) => exec_arms(x, s1, arms, i + 1),
            p => p,
        }
    } else {
        Progress::Open(s)
    }
}

pub open spec fn exec_statement(x: Setting, s: Store, statement: Statement) -> Course
    decreases statement, 0int,
{
    match statement {
        Statement::If(i) => {
            let first = exec_arm(x, s, i.if_part.0, i.if_part.1);
            let all = match first {
                Progress::Open(s1) => exec_arms(x, s1, i.else_if_parts@, 0),
                p => p,
            };
            match all {
                Progress::Taken(c) => c,
                Progress::Open(s1) => match i.else_part {
                    Some(b) => exec_block(x, s1, b),
                    None => Course::Goes(s1),
                },
            }
        },
        Statement::Do(b) => exec_block(x, s, b),
        Statement::Function(f) => Course::Goes(
            s.write(
                environment(x, s.env),
                (x.constant)(ValueView::String(f.name.name@)),
                (x.function)(f.definition),
            ),
        ),
        Statement::LocalFunction(f) => Course::Goes(
            s.declare(f.name.name@, (x.function)(f.definition)),
        ),
        Statement::LocalStatement(l) => Course::Goes(declare_values(x, s, l.names@, l.values@, 0)),
        Statement::FunctionCall(c) => Course::Goes(exec_call(x, s, c)),
        Statement::Assignment(a) => Course::Goes(assign_all(x, s, a.targets@, a.values@, 0)),
        _ => Course::Goes(s),
    }
}

/// A call as a statement.
pub open spec fn exec_call(x: Setting, s: Store, c: FunctionCallStatement) -> Store {
    let func = suffixed_eval(x, s.env, c.head);
    let args = match c.call {
        CallSuffix::Function(args) => evals(x, s.env, args@, 0),
        CallSuffix::Method(_, args) => evals(x, s.env, args@, 0),
    };
    let s1 = s.after(called(x, func, args).calls);
    Store {
        events: s1.events.push(
            Event::Call { func: value(x, func.meaning), args: handed(x, args) },
        ),
        ..s1
    }
}

// ---------------------------------------------------------------------------------------------
// Descriptors

/// What a descriptor stands for, with its registers and upvalues as they are in `s`.
pub open spec fn desc_meaning(x: Setting, env: Env, s: Machine, d: Desc) -> Known
    decreases d, 0int,
{
    match d {
        Desc::Register { register, is_temporary: _ } => plain(s.get(register), 0),
        Desc::UpValue(u) => plain(s.upvalue(x, u.0 as int), 0),
        Desc::Value(v) => constant(v),
        Desc::Not(d) => negated(x, desc_meaning(x, env, s, *d)),
        Desc::FunctionCall { func, args } => called(
            x,
            desc_meaning(x, env, s, *func),
            desc_meanings(x, env, s, args, 0),
        ),
        Desc::Comparison { left, op, right } => compared(
            x,
            op,
            desc_meaning(x, env, s, *left),
            desc_meaning(x, env, s, *right),
        ),
        Desc::ShortCircuitBinOp { left, op, right } => short_circuit(
            x,
            op,
            desc_meaning(x, env, s, *left),
            eval(x, env, right),
        ),
    }
}

pub open spec fn desc_meanings(
    x: Setting,
    env: Env,
    s: Machine,
    ds: Seq<Desc>,
    i: int,
) -> Seq<Known>
    decreases ds, ds.len() - i,
{
    if 0 <= i < ds.len() {
        seq![desc_meaning(x, env, s, ds[i])] + desc_meanings(x, env, s, ds, i + 1)
    } else {
        Seq::empty()
    }
}

} // verus!
