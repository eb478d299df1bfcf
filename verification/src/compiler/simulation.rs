//! The instructions that are compiled do what the source means: single steps.

use crate::compiler::machine::{
    effect, lemma_run_on, lemma_run_same, lemma_run_through, run, skipped, Flow, Machine, Setting,
};
use crate::compiler::meaning::{desc_meaning, desc_meanings, Env};
use crate::compiler::model::{
    compile_function, continues_run, current, emit, env_name, here, jump_here, jump_placeholder,
    load_nil, place_comparison, Desc, FunctionState, State,
};
use crate::compiler::names::{home, lemma_same_home, Home};
use crate::compiler::order::{
    evolves, function_ok, group_state, inv, is_local, prefix, reach, runs_ok, waits,
};
use crate::compiler::ownership::{fits, fits_list, local_registers, owned, owned_list};
use crate::compiler::size::{weight, weights};
use crate::function::ProtoView;
use crate::opcode::{OpCode, RegisterIndex};
use crate::parser::FunctionDefinition;
use vstd::prelude::*;

verus! {

// ---------------------------------------------------------------------------------------------
// Places

/// Execution can begin at `b`: the instruction before it does not come to do more.
pub open spec fn entry(f: FunctionState, b: int) -> bool {
    &&& 0 <= b <= f.opcodes.len()
    &&& b == f.opcodes.len() && b > 0 ==> f.landing >= b || !(f.opcodes.last() is LoadNil)
}

/// Where execution that begins at `b` in the state `s0` gets to at the end of the instructions.
#[verifier::opaque]
pub open spec fn flow(x: Setting, b: int, s0: Machine, st: State) -> Flow {
    run(x, current(st).opcodes, b, here(st), s0)
}

/// Execution gets to the end of the instructions.
#[verifier::opaque]
pub open spec fn arrives(x: Setting, b: int, s0: Machine, st: State) -> bool {
    &&& entry(current(st), b)
    &&& flow(x, b, s0, st) is At
    &&& flow(x, b, s0, st)->At_0.registers.len() == 256
}

/// The state at the end of the instructions.
pub open spec fn at(x: Setting, b: int, s0: Machine, st: State) -> Machine {
    flow(x, b, s0, st)->At_0
}

/// Whether a name stands for a variable of a function further out.
pub open spec fn outside(st: State, name: Seq<u8>) -> bool {
    if st.len() == 1 {
        name == env_name()
    } else {
        home(st, name, st.len() - 2) != Home::Free
    }
}

/// The setting has what the function refers to.
#[verifier::opaque]
pub open spec fn fitted(x: Setting, st: State) -> bool {
    &&& prefix(current(st).constants, x.constants)
    &&& prefix(current(st).upvalues, x.upvalues)
    &&& prefix(current(st).prototypes, x.prototypes)
    &&& forall|name: Seq<u8>| #[trigger] (x.outer)(name) == outside(st, name)
}

/// A compiled form of a definition.
pub open spec fn compiled_from(p: ProtoView, f: FunctionDefinition) -> bool {
    exists|st: State| #[trigger]
        compile_function(st, f.parameters@, f.has_varargs, f.body) matches Ok((_, q)) && q == p
}

/// Booleans are what they are, and a closure of a compiled function is the function that its
/// definition defines.
pub open spec fn means(x: Setting) -> bool {
    &&& forall|v: bool| (x.truth)(#[trigger] x.boolean(v)) == v
    &&& forall|p: ProtoView, f: FunctionDefinition|
        compiled_from(p, f) ==> #[trigger] (x.closure)(p) == #[trigger] (x.function)(f)
}

/// The variables by name.
pub open spec fn env(st: State, s: Machine) -> Env {
    env_of(current(st).locals, s)
}

pub open spec fn env_of(locals: Seq<(Seq<u8>, RegisterIndex)>, s: Machine) -> Env {
    Env {
        locals: Seq::new(locals.len(), |i: int| (locals[i].0, s.get(locals[i].1))),
        cells: s.cells,
    }
}

/// The registers in `kept` are left alone, and nothing happens that can be seen from outside.
pub open spec fn frame(s: Machine, s1: Machine, kept: Set<int>) -> bool {
    &&& s1.registers.len() == s.registers.len()
    &&& agree(s, s1, kept)
    &&& s1.cells == s.cells
    &&& s1.events == s.events
}

/// The locals are left alone.
pub proof fn lemma_env_kept(a: State, b: State, s: Machine, s1: Machine, kept: Set<int>)
    requires
        current(a).locals == current(b).locals,
        frame(s, s1, kept),
        local_registers(current(a)).subset_of(kept),
    ensures
        env(b, s1) == env(a, s),
{
    let locals = current(a).locals;
    assert forall|i: int| 0 <= i < locals.len() implies s1.get(locals[i].1) == s.get(
        #[trigger] locals[i].1,
    ) by {
        assert(is_local(current(a), locals[i].1.0 as int));
        assert(local_registers(current(a)).contains(locals[i].1.0 as int));
    }
    assert(env(b, s1).locals =~= env(a, s).locals);
}

/// These registers have the same values.
pub open spec fn agree(s: Machine, s1: Machine, registers: Set<int>) -> bool {
    forall|i: int| #[trigger] registers.contains(i) ==> s1.registers[i] == s.registers[i]
}

/// A descriptor keeps its meaning as long as its registers keep their values.
pub proof fn lemma_meaning_kept(
    x: Setting,
    e: Env,
    f: FunctionState,
    s: Machine,
    s1: Machine,
    d: Desc,
)
    requires
        fits(f, d),
        s1.cells == s.cells,
        agree(s, s1, owned(d)),
        agree(s, s1, local_registers(f)),
    ensures
        desc_meaning(x, e, s1, d) == desc_meaning(x, e, s, d),
    decreases weight(d), 0int,
{
    match d {
        Desc::Register { register, is_temporary } => {
            let r = register.0 as int;
            assert(owned(d).contains(r) || local_registers(f).contains(r));
        },
        Desc::Not(d) => lemma_meaning_kept(x, e, f, s, s1, *d),
        Desc::FunctionCall { func, args } => {
            assert(owned(*func).subset_of(owned(d)));
            assert(owned_list(args, 0).subset_of(owned(d)));
            lemma_meaning_kept(x, e, f, s, s1, *func);
            lemma_meanings_kept(x, e, f, s, s1, args, 0);
        },
        Desc::Comparison { left, op: _, right } => {
            assert(owned(*left).subset_of(owned(d)));
            assert(owned(*right).subset_of(owned(d)));
            lemma_meaning_kept(x, e, f, s, s1, *left);
            lemma_meaning_kept(x, e, f, s, s1, *right);
        },
        Desc::ShortCircuitBinOp { left, .. } => lemma_meaning_kept(x, e, f, s, s1, *left),
        _ => {},
    }
}

pub proof fn lemma_meanings_kept(
    x: Setting,
    e: Env,
    f: FunctionState,
    s: Machine,
    s1: Machine,
    ds: Seq<Desc>,
    i: int,
)
    requires
        0 <= i <= ds.len(),
        fits_list(f, ds, i),
        s1.cells == s.cells,
        agree(s, s1, owned_list(ds, i)),
        agree(s, s1, local_registers(f)),
    ensures
        desc_meanings(x, e, s1, ds, i) == desc_meanings(x, e, s, ds, i),
    decreases weights(ds, i), 1 + ds.len() - i,
{
    if i < ds.len() {
        assert(weight(ds[i]) >= 1);
        assert(owned(ds[i]).subset_of(owned_list(ds, i)));
        assert(owned_list(ds, i + 1).subset_of(owned_list(ds, i)));
        lemma_meaning_kept(x, e, f, s, s1, ds[i]);
        lemma_meanings_kept(x, e, f, s, s1, ds, i + 1);
    }
}

// ---------------------------------------------------------------------------------------------
// Changes of the state

/// What was fitted before.
pub broadcast proof fn lemma_fitted(x: Setting, a: State, b: State)
    requires
        #[trigger] evolves(a, b),
        #[trigger] fitted(x, b),
    ensures
        fitted(x, a),
{
    broadcast use group_state;

    reveal(fitted);
    assert forall|name: Seq<u8>| #[trigger] (x.outer)(name) == outside(a, name) by {
        assert((x.outer)(name) == outside(b, name));
        reveal(evolves);
        lemma_home_below(a, b, name, a.len() - 2);
    }
}

proof fn lemma_home_below(a: State, b: State, name: Seq<u8>, k: int)
    requires
        evolves(a, b),
        k < a.len() - 1,
    ensures
        home(a, name, k) == home(b, name, k),
    decreases k + 1,
{
    reveal(evolves);
    if k >= 0 {
        assert(waits(a[k], b[k]));
        lemma_home_below(a, b, name, k - 1);
    }
}

/// The same instructions, executed in the same way.
pub proof fn lemma_still(x: Setting, b: int, s0: Machine, st: State, st1: State)
    requires
        arrives(x, b, s0, st),
        current(st1).opcodes == current(st).opcodes,
        current(st1).landing >= current(st).landing,
    ensures
        arrives(x, b, s0, st1),
        at(x, b, s0, st1) == at(x, b, s0, st),
{
    broadcast use group_state;

    reveal(arrives);
    reveal(flow);
}

/// An instruction that leads to the one behind it.
pub open spec fn straight(op: OpCode) -> bool {
    match op {
        OpCode::Return { .. } => false,
        OpCode::Jump { .. } => false,
        OpCode::Test { .. } => false,
        OpCode::TestSet { .. } => false,
        OpCode::Compare { .. } => false,
        OpCode::LoadBool { dest: _, value: _, skip_next } => !skip_next,
        _ => true,
    }
}

/// One more instruction.
pub proof fn lemma_go(x: Setting, b: int, s0: Machine, st: State, op: OpCode)
    requires
        inv(st),
        arrives(x, b, s0, st),
        straight(op),
    ensures
        arrives(x, b, s0, emit(st, op)),
        at(x, b, s0, emit(st, op)) == effect(x, op, at(x, b, s0, st)),
{
    broadcast use group_state;

    reveal(arrives);
    reveal(flow);
    let code = current(st).opcodes;
    let more = current(emit(st, op)).opcodes;
    let n = code.len() as int;
    let s = at(x, b, s0, st);
    lemma_run_same(x, code, more, b, n, s0);
    lemma_run_on(x, more, b, n, n + 1, s0);
    assert(run(x, more, n + 1, n + 1, effect(x, op, s)) == Flow::At(effect(x, op, s)));
}

/// No instruction before the last one leads behind a run of nils that can be lengthened.
proof fn lemma_below(x: Setting, f: FunctionState, i: int, t: Machine)
    requires
        function_ok(f),
        f.opcodes.len() > 0,
        f.opcodes.last() is LoadNil,
        f.landing < f.opcodes.len(),
        0 <= i < f.opcodes.len() - 1,
    ensures
        0 <= skipped(x, f.opcodes[i], t) <= f.opcodes.len() - 1 - i - 1,
{
    assert(runs_ok(f.opcodes, f.landing));
    assert(reach(f.opcodes[i], i) < f.opcodes.len());
}

/// Setting a register to nil.
pub proof fn lemma_go_nil(x: Setting, b: int, s0: Machine, st: State, dest: RegisterIndex)
    requires
        inv(st),
        arrives(x, b, s0, st),
    ensures
        arrives(x, b, s0, load_nil(st, dest)),
        at(x, b, s0, load_nil(st, dest)) == at(x, b, s0, st).set(dest, x.nil()),
{
    broadcast use group_state;

    reveal(load_nil);
    let f = current(st);
    let s = at(x, b, s0, st);
    if continues_run(f, dest) {
        reveal(arrives);
        reveal(flow);
        let st1 = load_nil(st, dest);
        let code = f.opcodes;
        let more = current(st1).opcodes;
        let n = code.len() as int;
        assert forall|i: int, t: Machine|
            b <= i < n - 1 implies 0 <= #[trigger] skipped(x, code[i], t) <= (n - 1) - i - 1 by {
            lemma_below(x, f, i, t);
        }
        lemma_run_through(x, code, b, n - 1, s0);
        lemma_run_on(x, code, b, n - 1, n, s0);
        lemma_run_same(x, code, more, b, n - 1, s0);
        let s1 = run(x, code, b, n - 1, s0)->At_0;
        let before = effect(x, code[n - 1], s1);
        let after = effect(x, more[n - 1], s1);
        assert(run(x, code, n, n, before) == Flow::At(before));
        assert(s == before);
        lemma_run_on(x, more, b, n - 1, n, s0);
        assert(run(x, more, n, n, after) == Flow::At(after));
        assert(after.registers =~= s.set(dest, x.nil()).registers);
        assert(after =~= s.set(dest, x.nil()));
    } else {
        let op = OpCode::LoadNil { dest, count: 1 };
        lemma_go(x, b, s0, st, op);
        reveal(arrives);
        assert(effect(x, op, s).registers =~= s.set(dest, x.nil()).registers);
        assert(effect(x, op, s) =~= s.set(dest, x.nil()));
    }
}

/// An instruction that may skip the one behind it.
pub open spec fn testing(op: OpCode) -> bool {
    op is Test || op is TestSet || op is Compare
}

/// A test and a jump that is not completed yet.
pub proof fn lemma_go_pair(x: Setting, b: int, s0: Machine, st: State, test: OpCode)
    requires
        inv(st),
        arrives(x, b, s0, st),
        testing(test),
    ensures
        arrives(x, b, s0, jump_placeholder(emit(st, test))),
        at(x, b, s0, jump_placeholder(emit(st, test))) == effect(x, test, at(x, b, s0, st)),
        arrives(
            x,
            here(st) + 2,
            effect(x, test, at(x, b, s0, st)),
            jump_placeholder(emit(st, test)),
        ),
        at(
            x,
            here(st) + 2,
            effect(x, test, at(x, b, s0, st)),
            jump_placeholder(emit(st, test)),
        ) == effect(x, test, at(x, b, s0, st)),
{
    broadcast use group_state;

    reveal(arrives);
    reveal(flow);
    let code = current(st).opcodes;
    let more = current(jump_placeholder(emit(st, test))).opcodes;
    let n = code.len() as int;
    let s = at(x, b, s0, st);
    let s1 = effect(x, test, s);
    assert(more[n] == test);
    assert(more[n + 1] == (OpCode::Jump { offset: 0 }));
    lemma_run_same(x, code, more, b, n, s0);
    lemma_run_on(x, more, b, n, n + 2, s0);
    assert(run(x, more, n + 2, n + 2, s1) == Flow::At(s1));
    assert(run(x, more, n + 1, n + 2, s1) == Flow::At(s1));
}

/// A test whose jump leads behind what follows: where it skips the jump, what follows is executed.
pub proof fn lemma_branch(x: Setting, b: int, s0: Machine, st: State, test: OpCode, st1: State)
    requires
        inv(st),
        arrives(x, b, s0, st),
        testing(test),
        evolves(jump_placeholder(emit(st, test)), st1),
        jump_here(st1, here(st) + 1) is Ok,
    ensures
        ({
            let s = at(x, b, s0, st);
            let s1 = effect(x, test, s);
            flow(x, b, s0, jump_here(st1, here(st) + 1)->Ok_0.0) == if skipped(x, test, s) == 1 {
                flow(x, here(st) + 2, s1, st1)
            } else {
                Flow::At(s1)
            }
        }),
        entry(current(jump_here(st1, here(st) + 1)->Ok_0.0), b),
        here(jump_here(st1, here(st) + 1)->Ok_0.0) == here(st1),
{
    broadcast use group_state;

    reveal(arrives);
    reveal(flow);
    reveal(jump_here);
    let st0 = jump_placeholder(emit(st, test));
    let st2 = jump_here(st1, here(st) + 1)->Ok_0.0;
    let code = current(st).opcodes;
    let after = current(st1).opcodes;
    let closed = current(st2).opcodes;
    let n = code.len() as int;
    let end = after.len() as int;
    let s = at(x, b, s0, st);
    let s1 = effect(x, test, s);
    assert forall|i: int| 0 <= i < n + 2 implies #[trigger] after[i] == current(
        st0,
    ).opcodes[i] by {
        assert(current(st0).opcodes[i] == after[i] || i == n + 1);
    }
    assert(closed[n] == test) by {
        assert(after[n] == current(st0).opcodes[n]);
    }
    assert forall|i: int| b <= i < n implies code[i] == closed[i] by {
        assert(after[i] == current(st0).opcodes[i]);
    }
    lemma_run_same(x, code, closed, b, n, s0);
    lemma_run_on(x, closed, b, n, end, s0);
    assert(run(x, closed, end, end, s1) == Flow::At(s1));
    assert(run(x, closed, n + 1, end, s1) == Flow::At(s1)) by {
        assert(closed[n + 1] == (OpCode::Jump { offset: (end - n - 2) as i16 }));
    }
    lemma_run_same(x, after, closed, n + 2, end, s1);
}

/// A comparison whose outcome is loaded into a register.
pub proof fn lemma_go_comparison(
    x: Setting,
    b: int,
    s0: Machine,
    st: State,
    compare: OpCode,
    dest: RegisterIndex,
)
    requires
        inv(st),
        arrives(x, b, s0, st),
        compare is Compare,
    ensures
        arrives(x, b, s0, place_comparison(st, compare, Some(dest))),
        at(x, b, s0, place_comparison(st, compare, Some(dest))) == at(x, b, s0, st).set(
            dest,
            x.boolean(skipped(x, compare, at(x, b, s0, st)) == 0),
        ),
{
    broadcast use group_state;

    reveal(place_comparison);
    reveal(arrives);
    reveal(flow);
    let code = current(st).opcodes;
    let more = current(place_comparison(st, compare, Some(dest))).opcodes;
    let n = code.len() as int;
    let s = at(x, b, s0, st);
    assert(more[n] == compare);
    assert(more[n + 1] == (OpCode::Jump { offset: 1 }));
    assert(more[n + 2] == (OpCode::LoadBool { dest, value: false, skip_next: true }));
    assert(more[n + 3] == (OpCode::LoadBool { dest, value: true, skip_next: false }));
    lemma_run_same(x, code, more, b, n, s0);
    lemma_run_on(x, more, b, n, n + 4, s0);
    let yes = s.set(dest, x.boolean(true));
    let no = s.set(dest, x.boolean(false));
    assert(run(x, more, n + 4, n + 4, yes) == Flow::At(yes));
    assert(run(x, more, n + 4, n + 4, no) == Flow::At(no));
    assert(run(x, more, n + 3, n + 4, s) == Flow::At(yes));
    assert(run(x, more, n + 2, n + 4, s) == Flow::At(no));
    assert(run(x, more, n + 1, n + 4, s) == Flow::At(yes));
}

/// Completing a jump changes nothing that the setting speaks of.
pub proof fn lemma_fitted_jump(x: Setting, st: State, jump: int)
    requires
        st.len() > 0,
        jump_here(st, jump) matches Ok((st1, _)) && fitted(x, st1),
    ensures
        fitted(x, st),
{
    reveal(jump_here);
    reveal(fitted);
    let st1 = jump_here(st, jump)->Ok_0.0;
    assert forall|name: Seq<u8>| #[trigger] (x.outer)(name) == outside(st, name) by {
        assert((x.outer)(name) == outside(st1, name));
        lemma_same_home(st, st1, name, st.len() - 2);
    }
}

} // verus!
