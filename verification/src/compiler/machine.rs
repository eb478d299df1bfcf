//! What the instructions do when they are executed.
//!
//! The operations on values are left open: what holds here holds whatever they yield, as long as
//! what they yield depends on their operands alone.

use crate::compiler::operators::{ComparisonBinOp, RegisterOrConstant, SimpleBinOp};
use crate::function::{ProtoView, UpValueDescriptor};
use crate::opcode::{OpCode, RegisterIndex, VarCount};
use crate::parser::{FunctionDefinition, UnaryOperator};
use crate::value::ValueView;
use vstd::prelude::*;

verus! {

/// A value at run time. Values are numbered in any way.
pub type Val = int;

/// What the operations on values yield, and the function that is executed.
pub struct Setting {
    /// The value of a constant.
    pub constant: spec_fn(ValueView) -> Val,
    /// Whether a value counts as true.
    pub truth: spec_fn(Val) -> bool,
    /// A field of a table.
    pub index: spec_fn(Val, Val) -> Val,
    pub simple: spec_fn(SimpleBinOp, Val, Val) -> Val,
    pub unary: spec_fn(UnaryOperator, Val) -> Val,
    /// Whether a comparison makes the machine skip the instruction behind it.
    pub skips: spec_fn(ComparisonBinOp, Val, Val) -> bool,
    /// All results of a call.
    pub call: spec_fn(Val, Seq<Val>) -> Seq<Val>,
    /// A closure of a compiled function.
    pub closure: spec_fn(ProtoView) -> Val,
    /// The function that a definition defines.
    pub function: spec_fn(FunctionDefinition) -> Val,
    /// A new table.
    pub table: Val,
    /// What a call leaves in the registers behind its results.
    pub junk: Val,
    /// A call of which it is to be known how often it takes place.
    pub probe: (Val, Seq<Val>),
    /// The constants, upvalues and inner functions of the function that is executed.
    pub constants: Seq<ValueView>,
    pub upvalues: Seq<(Seq<u8>, UpValueDescriptor)>,
    pub prototypes: Seq<ProtoView>,
    /// Whether a name stands for a variable of a function further out.
    pub outer: spec_fn(Seq<u8>) -> bool,
}

/// Something that can be seen from outside.
pub enum Event {
    /// A field of a table is set.
    Write { table: Val, key: Val, value: Val },
    /// A function is called, and its results are not wanted.
    Call { func: Val, args: Seq<Val> },
}

/// The state of the machine while it executes a function.
#[verifier::ext_equal]
pub struct Machine {
    pub registers: Seq<Val>,
    /// The variables of functions further out, by their names.
    pub cells: Map<Seq<u8>, Val>,
    /// The results of the last call that was to yield all of them, and where they begin.
    pub open_at: int,
    pub open: Seq<Val>,
    pub events: Seq<Event>,
    /// How often the call that is watched for has taken place.
    pub seen: int,
}

/// Where execution has got to.
pub enum Flow {
    /// To the place in question.
    At(Machine),
    /// Out of the function.
    Returned(Seq<Val>, Machine),
    /// Past the place in question, or out of the instructions.
    Lost,
}

impl Setting {
    pub open spec fn nil(self) -> Val {
        (self.constant)(ValueView::Nil)
    }

    pub open spec fn boolean(self, b: bool) -> Val {
        (self.constant)(ValueView::Boolean(b))
    }

    /// The `i`th of some results: nil where there are not so many.
    pub open spec fn result(self, results: Seq<Val>, i: int) -> Val {
        if 0 <= i < results.len() {
            results[i]
        } else {
            self.nil()
        }
    }

    /// One where a call is the one that is watched for.
    pub open spec fn watched(self, f: Val, given: Seq<Val>) -> int {
        if (f, given) == self.probe {
            1
        } else {
            0
        }
    }
}

impl Machine {
    pub open spec fn set(self, register: RegisterIndex, value: Val) -> Machine {
        Machine { registers: self.registers.update(register.0 as int, value), ..self }
    }

    pub open spec fn get(self, register: RegisterIndex) -> Val {
        self.registers[register.0 as int]
    }

    pub open spec fn operand(self, x: Setting, operand: RegisterOrConstant) -> Val {
        match operand {
            RegisterOrConstant::Register(r) => self.get(r),
            RegisterOrConstant::Constant(c) => (x.constant)(x.constants[c.0 as int]),
        }
    }

    /// The contents of an upvalue.
    pub open spec fn upvalue(self, x: Setting, u: int) -> Val {
        self.cells[x.upvalues[u].0]
    }

    /// The values from register `start` on, `count` of them or as many as there are.
    pub open spec fn values(self, start: int, count: VarCount) -> Seq<Val> {
        if count == VarCount::variable() {
            self.registers.subrange(start, self.open_at) + self.open
        } else {
            self.registers.subrange(start, start + (count.0 - 1))
        }
    }

    pub open spec fn write(self, table: Val, key: Val, value: Val) -> Machine {
        Machine { events: self.events.push(Event::Write { table, key, value }), ..self }
    }

    pub open spec fn called(
        self,
        x: Setting,
        func: RegisterIndex,
        args: VarCount,
        wanted: VarCount,
    ) -> Machine {
        let f = self.get(func);
        let given = self.values(func.0 + 1, args);
        let results = (x.call)(f, given);
        let seen = self.seen + x.watched(f, given);
        if wanted == VarCount::variable() {
            Machine {
                registers: Seq::new(
                    self.registers.len(),
                    |i: int|
                        if i < func.0 {
                            self.registers[i]
                        } else {
                            x.junk
                        },
                ),
                open_at: func.0 as int,
                open: results,
                seen,
                ..self
            }
        } else {
            Machine {
                registers: Seq::new(
                    self.registers.len(),
                    |i: int|
                        if i < func.0 {
                            self.registers[i]
                        } else if i < func.0 + (wanted.0 - 1) {
                            x.result(results, i - func.0)
                        } else {
                            x.junk
                        },
                ),
                events: if wanted == VarCount::constant(0) {
                    self.events.push(Event::Call { func: f, args: given })
                } else {
                    self.events
                },
                seen,
                ..self
            }
        }
    }
}

/// What an instruction does to the state.
pub open spec fn effect(x: Setting, op: OpCode, s: Machine) -> Machine {
    match op {
        OpCode::Move { dest, source } => s.set(dest, s.get(source)),
        OpCode::LoadConstant { dest, constant } => s.set(
            dest,
            (x.constant)(x.constants[constant.0 as int]),
        ),
        OpCode::LoadBool { dest, value, skip_next: _ } => s.set(dest, x.boolean(value)),
        OpCode::LoadNil { dest, count } => Machine {
            registers: Seq::new(
                s.registers.len(),
                |i: int|
                    if dest.0 <= i < dest.0 + count {
                        x.nil()
                    } else {
                        s.registers[i]
                    },
            ),
            ..s
        },
        OpCode::NewTable { dest } => s.set(dest, x.table),
        OpCode::GetTableR { dest, table, key } => s.set(dest, (x.index)(s.get(table), s.get(key))),
        OpCode::GetTableC { dest, table, key } => s.set(
            dest,
            (x.index)(s.get(table), (x.constant)(x.constants[key.0 as int])),
        ),
        OpCode::SetTableRR { table, key, value } => s.write(s.get(table), s.get(key), s.get(value)),
        OpCode::SetTableRC { table, key, value } => s.write(
            s.get(table),
            s.get(key),
            (x.constant)(x.constants[value.0 as int]),
        ),
        OpCode::SetTableCR { table, key, value } => s.write(
            s.get(table),
            (x.constant)(x.constants[key.0 as int]),
            s.get(value),
        ),
        OpCode::SetTableCC { table, key, value } => s.write(
            s.get(table),
            (x.constant)(x.constants[key.0 as int]),
            (x.constant)(x.constants[value.0 as int]),
        ),
        OpCode::GetUpTableR { dest, table, key } => s.set(
            dest,
            (x.index)(s.upvalue(x, table.0 as int), s.get(key)),
        ),
        OpCode::GetUpTableC { dest, table, key } => s.set(
            dest,
            (x.index)(
                s.upvalue(x, table.0 as int),
                (x.constant)(x.constants[key.0 as int]),
            ),
        ),
        OpCode::SetUpTableRR { table, key, value } => s.write(
            s.upvalue(x, table.0 as int),
            s.get(key),
            s.get(value),
        ),
        OpCode::SetUpTableRC { table, key, value } => s.write(
            s.upvalue(x, table.0 as int),
            s.get(key),
            (x.constant)(x.constants[value.0 as int]),
        ),
        OpCode::SetUpTableCR { table, key, value } => s.write(
            s.upvalue(x, table.0 as int),
            (x.constant)(x.constants[key.0 as int]),
            s.get(value),
        ),
        OpCode::SetUpTableCC { table, key, value } => s.write(
            s.upvalue(x, table.0 as int),
            (x.constant)(x.constants[key.0 as int]),
            (x.constant)(x.constants[value.0 as int]),
        ),
        OpCode::Call { func, args, returns: wanted } => s.called(x, func, args, wanted),
        OpCode::Return { .. } => s,
        OpCode::Closure { proto, dest } => s.set(dest, (x.closure)(x.prototypes[proto.0 as int])),
        OpCode::Jump { .. } => s,
        OpCode::Test { .. } => s,
        OpCode::TestSet { dest, value, is_true } => if (x.truth)(s.get(value)) == is_true {
            s
        } else {
            s.set(dest, s.get(value))
        },
        OpCode::GetUpValue { source, dest } => s.set(dest, s.upvalue(x, source.0 as int)),
        OpCode::SetUpValue { source, dest } => Machine {
            cells: s.cells.insert(x.upvalues[dest.0 as int].0, s.get(source)),
            ..s
        },
        OpCode::Not { dest, source } => s.set(dest, x.boolean(!(x.truth)(s.get(source)))),
        OpCode::Minus { dest, source } => s.set(
            dest,
            (x.unary)(UnaryOperator::Minus, s.get(source)),
        ),
        OpCode::BitNot { dest, source } => s.set(
            dest,
            (x.unary)(UnaryOperator::BitNot, s.get(source)),
        ),
        OpCode::Length { dest, source } => s.set(
            dest,
            (x.unary)(UnaryOperator::Len, s.get(source)),
        ),
        OpCode::Simple { op, dest, left, right } => s.set(
            dest,
            (x.simple)(op, s.operand(x, left), s.operand(x, right)),
        ),
        OpCode::Compare { .. } => s,
    }
}

/// How many instructions are left out behind an instruction.
pub open spec fn skipped(x: Setting, op: OpCode, s: Machine) -> int {
    match op {
        OpCode::Jump { offset } => offset as int,
        OpCode::LoadBool { dest: _, value: _, skip_next } => if skip_next {
            1
        } else {
            0
        },
        OpCode::Test { value, is_true } => if (x.truth)(s.get(value)) == is_true {
            1
        } else {
            0
        },
        OpCode::TestSet { dest: _, value, is_true } => if (x.truth)(s.get(value)) == is_true {
            1
        } else {
            0
        },
        OpCode::Compare { op, left, right } => if (x.skips)(
            op,
            s.operand(x, left),
            s.operand(x, right),
        ) {
            1
        } else {
            0
        },
        _ => 0,
    }
}

/// Executes the instructions from `pc` on, up to the place `to`.
pub open spec fn run(x: Setting, code: Seq<OpCode>, pc: int, to: int, s: Machine) -> Flow
    decreases to - pc,
{
    if pc == to {
        Flow::At(s)
    } else if !(0 <= pc < to && pc < code.len()) {
        Flow::Lost
    } else if let OpCode::Return { start, count } = code[pc] {
        Flow::Returned(s.values(start.0 as int, count), s)
    } else if !(0 <= skipped(x, code[pc], s) < to - pc) {
        Flow::Lost
    } else {
        run(x, code, pc + 1 + skipped(x, code[pc], s), to, effect(x, code[pc], s))
    }
}

// ---------------------------------------------------------------------------------------------
// Execution of parts

/// Only the instructions between matter.
pub proof fn lemma_run_same(
    x: Setting,
    a: Seq<OpCode>,
    b: Seq<OpCode>,
    pc: int,
    to: int,
    s: Machine,
)
    requires
        0 <= pc,
        to <= a.len(),
        to <= b.len(),
        forall|i: int| pc <= i < to ==> a[i] == b[i],
    ensures
        run(x, a, pc, to, s) == run(x, b, pc, to, s),
    decreases to - pc,
{
    if pc < to && !(a[pc] is Return) && 0 <= skipped(x, a[pc], s) < to - pc {
        assert(a[pc] == b[pc]);
        lemma_run_same(
            x,
            a,
            b,
            pc + 1 + skipped(x, a[pc], s),
            to,
            effect(x, a[pc], s),
        );
    }
}

/// Execution that gets to a place goes on from there, and a return ends it.
pub proof fn lemma_run_on(x: Setting, code: Seq<OpCode>, pc: int, mid: int, to: int, s: Machine)
    requires
        mid <= to,
        !(run(x, code, pc, mid, s) is Lost),
    ensures
        run(x, code, pc, mid, s) matches Flow::At(s1) ==> run(x, code, pc, to, s) == run(
            x,
            code,
            mid,
            to,
            s1,
        ),
        run(x, code, pc, mid, s) is Returned ==> run(x, code, pc, to, s) == run(
            x,
            code,
            pc,
            mid,
            s,
        ),
    decreases mid - pc,
{
    if pc != mid && !(code[pc] is Return) {
        lemma_run_on(
            x,
            code,
            pc + 1 + skipped(x, code[pc], s),
            mid,
            to,
            effect(x, code[pc], s),
        );
    }
}

/// Execution gets to a place past which no instruction before it leads.
pub proof fn lemma_run_through(x: Setting, code: Seq<OpCode>, pc: int, mid: int, s: Machine)
    requires
        0 <= pc <= mid <= code.len(),
        forall|i: int, t: Machine|
            pc <= i < mid ==> 0 <= #[trigger] skipped(x, code[i], t) <= mid - i - 1,
    ensures
        !(run(x, code, pc, mid, s) is Lost),
    decreases mid - pc,
{
    if pc < mid && !(code[pc] is Return) {
        assert(0 <= skipped(x, code[pc], s) <= mid - pc - 1);
        lemma_run_through(
            x,
            code,
            pc + 1 + skipped(x, code[pc], s),
            mid,
            effect(x, code[pc], s),
        );
    }
}

/// Execution that gets to a return does so whatever follows. The last instruction may come to do
/// more, where it does not return itself.
pub proof fn lemma_run_returned(
    x: Setting,
    a: Seq<OpCode>,
    b: Seq<OpCode>,
    pc: int,
    s: Machine,
)
    requires
        0 <= pc,
        a.len() <= b.len(),
        forall|i: int| pc <= i < a.len() - 1 ==> a[i] == b[i],
        pc < a.len() ==> a.last() is LoadNil || a.last() == b[a.len() - 1],
        run(x, a, pc, a.len() as int, s) is Returned,
    ensures
        run(x, b, pc, b.len() as int, s) == run(x, a, pc, a.len() as int, s),
    decreases a.len() - pc,
{
    if !(a[pc] is Return) {
        let next = pc + 1 + skipped(x, a[pc], s);
        assert(run(x, a, next, a.len() as int, effect(x, a[pc], s)) is Returned);
        assert(next < a.len());
        assert(a[pc] == b[pc]);
        lemma_run_returned(x, a, b, next, effect(x, a[pc], s));
    }
}

// ---------------------------------------------------------------------------------------------
// Execution with exits

/// Where execution that may leave at some places has got to.
pub enum Way {
    At(Machine),
    Exit(int, Machine),
    Returned(Seq<Val>, Machine),
    Lost,
}

/// As `run`, but execution stops where it gets to one of the exits.
pub open spec fn walk(
    x: Setting,
    code: Seq<OpCode>,
    pc: int,
    to: int,
    exits: Set<int>,
    s: Machine,
) -> Way
    decreases to - pc,
{
    if pc == to {
        Way::At(s)
    } else if exits.contains(pc) {
        Way::Exit(pc, s)
    } else if !(0 <= pc < to && pc < code.len()) {
        Way::Lost
    } else if let OpCode::Return { start, count } = code[pc] {
        Way::Returned(s.values(start.0 as int, count), s)
    } else if !(0 <= skipped(x, code[pc], s) < to - pc) {
        Way::Lost
    } else {
        walk(x, code, pc + 1 + skipped(x, code[pc], s), to, exits, effect(x, code[pc], s))
    }
}

pub open spec fn way_of(flow: Flow) -> Way {
    match flow {
        Flow::At(s) => Way::At(s),
        Flow::Returned(v, s) => Way::Returned(v, s),
        Flow::Lost => Way::Lost,
    }
}

/// Without exits on the way.
pub proof fn lemma_walk_run(
    x: Setting,
    code: Seq<OpCode>,
    pc: int,
    to: int,
    exits: Set<int>,
    s: Machine,
)
    requires
        forall|i: int| #[trigger] exits.contains(i) ==> !(pc <= i < to),
    ensures
        pc <= to ==> walk(x, code, pc, to, exits, s) == way_of(run(x, code, pc, to, s)),
    decreases to - pc,
{
    if pc < to && 0 <= pc < code.len() && !(code[pc] is Return) && 0 <= skipped(x, code[pc], s)
        < to - pc {
        lemma_walk_run(
            x,
            code,
            pc + 1 + skipped(x, code[pc], s),
            to,
            exits,
            effect(x, code[pc], s),
        );
    }
}

/// Only the instructions between matter, and not those at the exits.
pub proof fn lemma_walk_same(
    x: Setting,
    a: Seq<OpCode>,
    b: Seq<OpCode>,
    pc: int,
    to: int,
    e: Set<int>,
    f: Set<int>,
    s: Machine,
)
    requires
        0 <= pc,
        to <= a.len(),
        to <= b.len(),
        forall|i: int| pc <= i < to ==> e.contains(i) == f.contains(i),
        forall|i: int| pc <= i < to && !e.contains(i) ==> a[i] == b[i],
    ensures
        pc <= to ==> walk(x, a, pc, to, e, s) == walk(x, b, pc, to, f, s),
    decreases to - pc,
{
    if pc < to && !e.contains(pc) && !(a[pc] is Return) && 0 <= skipped(x, a[pc], s) < to - pc {
        assert(a[pc] == b[pc]);
        lemma_walk_same(
            x,
            a,
            b,
            pc + 1 + skipped(x, a[pc], s),
            to,
            e,
            f,
            effect(x, a[pc], s),
        );
    }
}

/// Execution that gets to a place goes on from there.
pub proof fn lemma_walk_on(
    x: Setting,
    code: Seq<OpCode>,
    pc: int,
    mid: int,
    to: int,
    exits: Set<int>,
    s: Machine,
)
    requires
        pc <= mid <= to,
        !(walk(x, code, pc, mid, exits, s) is Lost),
    ensures
        walk(x, code, pc, to, exits, s) == match walk(x, code, pc, mid, exits, s) {
            Way::At(s1) => walk(x, code, mid, to, exits, s1),
            w => w,
        },
    decreases mid - pc,
{
    if pc != mid && !exits.contains(pc) && !(code[pc] is Return) {
        lemma_walk_on(
            x,
            code,
            pc + 1 + skipped(x, code[pc], s),
            mid,
            to,
            exits,
            effect(x, code[pc], s),
        );
    }
}

/// An exit becomes a jump to the end.
pub proof fn lemma_walk_close(
    x: Setting,
    a: Seq<OpCode>,
    b: Seq<OpCode>,
    pc: int,
    exits: Set<int>,
    j: int,
    s: Machine,
)
    requires
        0 <= pc <= a.len(),
        0 <= j < a.len(),
        exits.contains(j),
        a.len() == b.len(),
        b[j] matches OpCode::Jump { offset } && offset == a.len() - j - 1,
        forall|i: int| 0 <= i < a.len() && i != j ==> a[i] == b[i],
    ensures
        walk(x, b, pc, b.len() as int, exits.remove(j), s) == match walk(
            x,
            a,
            pc,
            a.len() as int,
            exits,
            s,
        ) {
            Way::Exit(k, s1) => if k == j {
                Way::At(s1)
            } else {
                Way::Exit(k, s1)
            },
            w => w,
        },
    decreases a.len() - pc,
{
    let n = a.len() as int;
    if pc == j {
        assert(walk(x, b, n, n, exits.remove(j), s) == Way::At(s));
    } else if pc < n && !exits.contains(pc) && !(a[pc] is Return) && 0 <= skipped(x, a[pc], s)
        < n - pc {
        assert(a[pc] == b[pc]);
        lemma_walk_close(
            x,
            a,
            b,
            pc + 1 + skipped(x, a[pc], s),
            exits,
            j,
            effect(x, a[pc], s),
        );
    }
}

} // verus!
