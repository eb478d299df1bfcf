//! Local variables come into scope and go out of scope with their registers, and functions begin
//! and end with none in use.

use crate::compiler::error::CompilerError;
use crate::compiler::model::{
    add_prototype, allocate, bind, bind_names, current, emit, end_scope, finish, finished,
    free_locals, free_register, load_nil, local_nils, new_function, put, set_registers,
    FunctionState, State,
};
use crate::compiler::order::{
    evolves, function_ok, group_state, inner_ok, inv, is_local, lemma_allocate, lemma_bind,
    lemma_emit, lemma_fits_mono, lemma_grown_code, lemma_grown_proto, lemma_height, lemma_height_is,
    lemma_load_nil, lemma_put, limits, locals_ok, op_fits, over, proto_limits, proto_ok, quiet,
    regs_ok, step, upvalue_fits, upvalue_from, upvalues_ok, used, waits,
};
use crate::compiler::ownership::{local_registers, sound};
use crate::compiler::register_allocator::REGISTERS;
use crate::function::ProtoView;
use crate::opcode::{OpCode, RegisterIndex, VarCount};
use vstd::prelude::*;

verus! {

/// The registers in use are those of the local variables.
pub open spec fn clean(st: State) -> bool {
    used(st) == local_registers(current(st))
}

/// What leaves the local variables and the registers in use as they are keeps a state clean.
pub proof fn lemma_clean(st: State, st1: State)
    requires
        clean(st),
        current(st1).locals == current(st).locals,
        used(st1) == used(st),
    ensures
        clean(st1),
{
    assert(local_registers(current(st1)) =~= local_registers(current(st)));
}

/// The local variables after one more.
pub proof fn lemma_more_locals(
    f: FunctionState,
    g: FunctionState,
    name: Seq<u8>,
    register: RegisterIndex,
)
    requires
        g.locals == f.locals.push((name, register)),
    ensures
        local_registers(g) == local_registers(f).insert(register.0 as int),
{
    assert forall|r: int| #[trigger]
        local_registers(g).contains(r) == local_registers(f).insert(register.0 as int).contains(
            r,
        ) by {
        if is_local(f, r) {
            let i = choose|i: int| 0 <= i < f.locals.len() && (#[trigger] f.locals[i]).1.0 == r;
            assert(g.locals[i].1.0 == r);
            assert(is_local(g, r));
        }
        if is_local(g, r) {
            let i = choose|i: int| 0 <= i < g.locals.len() && (#[trigger] g.locals[i]).1.0 == r;
            if i < f.locals.len() {
                assert(f.locals[i].1.0 == r);
                assert(is_local(f, r));
            }
        }
        if r == register.0 {
            assert(g.locals[f.locals.len() as int].1.0 == r);
            assert(is_local(g, r));
        }
    }
    assert(local_registers(g) =~= local_registers(f).insert(register.0 as int));
}

/// The one register that is in use without a local variable becomes one's register.
pub proof fn lemma_bind_clean(st: State, name: Seq<u8>, register: RegisterIndex)
    requires
        inv(st),
        used(st) == local_registers(current(st)).insert(register.0 as int),
        !is_local(current(st), register.0 as int),
    ensures
        inv(bind(st, name, register)),
        evolves(st, bind(st, name, register)),
        clean(bind(st, name, register)),
{
    lemma_bind(st, name, register);
    lemma_more_locals(current(st), current(bind(st, name, register)), name, register);
}

/// Names are bound to registers one after another.
pub proof fn lemma_bind_names(
    st: State,
    names: Seq<Box<[u8]>>,
    i: int,
    first: RegisterIndex,
    count: int,
)
    requires
        inv(st),
        0 <= count,
        first.0 + count <= 256,
        forall|r: int| first.0 <= r < first.0 + count ==> #[trigger] used(st).contains(r),
        forall|r: int| first.0 <= r < first.0 + count ==> !#[trigger] is_local(current(st), r),
    ensures
        inv(bind_names(st, names, i, first, count)),
        evolves(st, bind_names(st, names, i, first, count)),
        current(bind_names(st, names, i, first, count)).registers == current(st).registers,
        local_registers(current(bind_names(st, names, i, first, count))) == local_registers(
            current(st),
        ).union(Set::new(|r: int| first.0 <= r < first.0 + count)),
    decreases count,
{
    broadcast use group_state;

    let all = local_registers(current(bind_names(st, names, i, first, count)));
    let block = Set::new(|r: int| first.0 <= r < first.0 + count);
    if count > 0 {
        let st1 = bind_names(st, names, i, first, count - 1);
        let r = RegisterIndex((first.0 + count - 1) as u8);
        let name = names[i + count - 1]@;
        lemma_bind_names(st, names, i, first, count - 1);
        assert(used(st).contains(r.0 as int));
        assert(!is_local(current(st), r.0 as int));
        assert(!local_registers(current(st1)).contains(r.0 as int));
        lemma_bind(st1, name, r);
        lemma_more_locals(current(st1), current(bind(st1, name, r)), name, r);
    }
    assert(all =~= local_registers(current(st)).union(block));
}

/// Names without values become nil.
#[verifier::spinoff_prover]
pub proof fn lemma_local_nils(st: State, names: Seq<Box<[u8]>>, i: int)
    requires
        inv(st),
        clean(st),
        0 <= i,
    ensures
        match local_nils(st, names, i) {
            Ok((st1, ())) => inv(st1) && evolves(st, st1) && clean(st1),
            Err(h) => sound(h, true, 1),
        },
    decreases names.len() - i,
{
    broadcast use group_state;

    if i < names.len() {
        lemma_allocate(st);
        if let Ok((st1, r)) = allocate(st) {
            lemma_load_nil(st1, r);
            let st2 = load_nil(st1, r);
            assert(local_registers(current(st2)) =~= local_registers(current(st)));
            assert(!local_registers(current(st)).contains(r.0 as int));
            lemma_bind_clean(st2, names[i]@, r);
            lemma_local_nils(bind(st2, names[i]@, r), names, i + 1);
        }
    }
}

// ---------------------------------------------------------------------------------------------
// The end of a scope

/// The registers of the locals from the `i`th on.
pub open spec fn registers_from(locals: Seq<(Seq<u8>, RegisterIndex)>, i: int) -> Set<int> {
    Set::new(
        |r: int| exists|j: int| i <= j < locals.len() && (#[trigger] locals[j]).1.0 == r,
    )
}

proof fn lemma_free_locals(st: State, locals: Seq<(Seq<u8>, RegisterIndex)>, i: int)
    requires
        st.len() > 0,
        0 <= i <= locals.len(),
        regs_ok(current(st).registers),
        forall|j: int|
            i <= j < locals.len() ==> used(st).contains((#[trigger] locals[j]).1.0 as int),
        forall|j: int, k: int|
            0 <= j < k < locals.len() ==> (#[trigger] locals[j]).1 != (#[trigger] locals[k]).1,
    ensures
        match free_locals(st, locals, i) {
            Ok((st1, ())) => {
                let r = current(st1).registers;
                &&& st1 == set_registers(st, r)
                &&& r.used == used(st).difference(registers_from(locals, i))
                &&& r.size == current(st).registers.size
                &&& regs_ok(r)
            },
            Err(_) => false,
        },
    decreases locals.len() - i,
{
    if i < locals.len() {
        reveal(free_register);
        let register = locals[i].1;
        let r = current(st).registers;
        let r1 = r.free(register.0 as int);
        let st1 = set_registers(st, r1);
        assert(used(st).contains(locals[i].1.0 as int));
        lemma_height(r1.used, REGISTERS as int);
        assert forall|x: int| #[trigger] r1.used.contains(x) implies 0 <= x < r1.top by {
            assert(r.used.contains(x));
        }
        if r1.top > r.top {
            assert(r.used.contains(r1.top - 1));
        }
        assert forall|j: int| i + 1 <= j < locals.len() implies used(st1).contains(
            (#[trigger] locals[j]).1.0 as int,
        ) by {
            assert(locals[i].1 != locals[j].1);
            assert(used(st).contains(locals[j].1.0 as int));
        }
        lemma_free_locals(st1, locals, i + 1);
        let st2 = free_locals(st1, locals, i + 1)->Ok_0.0;
        assert(st2 =~= set_registers(st, current(st2).registers));
        assert forall|x: int| registers_from(locals, i).contains(x) == (x == register.0
            || #[trigger] registers_from(locals, i + 1).contains(x)) by {
            if registers_from(locals, i).contains(x) {
                let j = choose|j: int| i <= j < locals.len() && (#[trigger] locals[j]).1.0 == x;
                if j > i {
                    assert(i + 1 <= j < locals.len() && locals[j].1.0 == x);
                }
            }
            if registers_from(locals, i + 1).contains(x) {
                let j = choose|j: int|
                    i + 1 <= j < locals.len() && (#[trigger] locals[j]).1.0 == x;
                assert(i <= j < locals.len() && locals[j].1.0 == x);
            }
            if x == register.0 {
                assert(locals[i].1.0 == x);
            }
        }
        assert(current(st2).registers.used =~= used(st).difference(registers_from(locals, i)));
    } else {
        assert(st =~= set_registers(st, current(st).registers));
        assert(used(st) =~= used(st).difference(registers_from(locals, i)));
    }
}

/// The end of a scope takes back the registers of the locals that go out of scope, and brings
/// back the locals that were in scope at its beginning `a`.
#[verifier::spinoff_prover]
pub proof fn lemma_end_scope(a: State, st: State, kept: int)
    requires
        inv(st),
        clean(st),
        evolves(a, st),
        kept <= current(a).locals.len(),
        0 <= kept,
    ensures
        match end_scope(st, kept) {
            Ok((st1, ())) => {
                &&& inv(st1)
                &&& clean(st1)
                &&& current(st1) == (FunctionState {
                    registers: current(st1).registers,
                    locals: current(st).locals.take(kept),
                    ..current(st)
                })
                &&& st1.len() == st.len()
                &&& st1.drop_last() == st.drop_last()
                &&& current(st1).registers.size == current(st).registers.size
                &&& kept == current(a).locals.len() ==> step(a, st1)
            },
            Err(_) => false,
        },
{
    broadcast use group_state;

    reveal(end_scope);
    let f = current(st);
    let locals = f.locals;
    lemma_free_locals(st, locals, kept);
    let st1 = free_locals(st, locals, kept)->Ok_0.0;
    let r = current(st1).registers;
    let g = FunctionState { registers: r, locals: locals.take(kept), ..f };
    let st2 = put(st1, FunctionState { locals: current(st1).locals.take(kept), ..current(st1) });
    assert(st2 =~= put(st, g));
    assert forall|i: int| 0 <= i < g.locals.len() implies g.registers.used.contains(
        (#[trigger] g.locals[i]).1.0 as int,
    ) by {
        let x = locals[i].1.0 as int;
        assert(used(st).contains(x));
        if registers_from(locals, kept).contains(x) {
            let j = choose|j: int| kept <= j < locals.len() && (#[trigger] locals[j]).1.0 == x;
            assert(locals[i].1 != locals[j].1);
        }
    }
    assert(locals_ok(g));
    assert(limits(g) == limits(f));
    assert forall|i: int| 0 <= i < g.opcodes.len() implies op_fits(
        #[trigger] g.opcodes[i],
        i,
        limits(g),
    ) by {
        assert(op_fits(f.opcodes[i], i, limits(f)));
    }
    assert(function_ok(g));
    assert(r.used =~= local_registers(g)) by {
        assert forall|x: int| #[trigger] r.used.contains(x) == local_registers(g).contains(x) by {
            if r.used.contains(x) {
                assert(local_registers(f).contains(x));
                let j = choose|j: int| 0 <= j < locals.len() && (#[trigger] locals[j]).1.0 == x;
                if j >= kept {
                    assert(registers_from(locals, kept).contains(x));
                }
                assert(g.locals[j].1.0 == x);
                assert(is_local(g, x));
            }
            if is_local(g, x) {
                let j = choose|j: int| 0 <= j < g.locals.len() && (#[trigger] g.locals[j]).1.0 == x;
                assert(g.registers.used.contains(g.locals[j].1.0 as int));
            }
        }
    }
    reveal(inv);
    assert forall|k: int| 0 <= k < st2.len() implies function_ok(#[trigger] st2[k]) by {
        assert(function_ok(st[k]));
    }
    assert forall|k: int| 0 <= k < st2.len() implies #[trigger] upvalues_ok(st2, k) by {
        assert(upvalues_ok(st, k));
        if k > 0 {
            assert forall|i: int| 0 <= i < st2[k].upvalues.len() implies upvalue_from(
                #[trigger] st2[k].upvalues[i],
                st2[k - 1],
            ) by {
                assert(st[k].upvalues[i] == st2[k].upvalues[i]);
            }
        }
    }
    assert(st2.drop_last() =~= st.drop_last());
    if kept == current(a).locals.len() {
        reveal(evolves);
        assert(g.locals =~= current(a).locals);
        assert forall|k: int| 0 <= k < a.len() - 1 implies waits(#[trigger] a[k], st2[k]) by {
            assert(st2[k] == st[k]);
        }
    }
}

// ---------------------------------------------------------------------------------------------
// Functions

/// A function begins with its parameters as locals.
#[verifier::spinoff_prover]
pub proof fn lemma_new_function(st: State, parameters: Seq<Box<[u8]>>, has_varargs: bool)
    requires
        st.len() == 0 || inv(st),
        parameters.len() <= 255,
    ensures
        inv(st.push(new_function(parameters, has_varargs))),
        clean(st.push(new_function(parameters, has_varargs))),
{
    let f = new_function(parameters, has_varargs);
    let st1 = st.push(f);
    reveal(inv);
    assert forall|i: int| 0 <= i < f.locals.len() implies f.registers.used.contains(
        (#[trigger] f.locals[i]).1.0 as int,
    ) by {}
    assert(locals_ok(f));
    assert(function_ok(f));
    assert forall|k: int| 0 <= k < st1.len() implies function_ok(#[trigger] st1[k]) by {
        if k < st.len() {
            assert(function_ok(st[k]));
        }
    }
    assert forall|k: int| 0 <= k < st1.len() implies #[trigger] upvalues_ok(st1, k) by {
        if k < st.len() {
            assert(upvalues_ok(st, k));
            if k > 0 {
                assert forall|i: int| 0 <= i < st1[k].upvalues.len() implies upvalue_from(
                    #[trigger] st1[k].upvalues[i],
                    st1[k - 1],
                ) by {
                    assert(st[k].upvalues[i] == st1[k].upvalues[i]);
                }
            }
        }
    }
    assert(f.registers.used =~= local_registers(f)) by {
        assert forall|x: int| #[trigger]
            f.registers.used.contains(x) == local_registers(f).contains(x) by {
            if f.registers.used.contains(x) {
                assert(f.locals[x].1.0 == x);
                assert(is_local(f, x));
            }
            if is_local(f, x) {
                let j = choose|j: int| 0 <= j < f.locals.len() && (#[trigger] f.locals[j]).1.0 == x;
                assert(f.registers.used.contains(f.locals[j].1.0 as int));
            }
        }
    }
}

/// A function is well formed when it ends, and everything that it used is given back.
#[verifier::spinoff_prover]
pub proof fn lemma_finish(st: State)
    requires
        inv(st),
        clean(st),
        current(st).locals.len() == current(st).fixed_params,
    ensures
        match finish(st) {
            Ok((st1, p)) => {
                &&& st1 == st.drop_last()
                &&& proto_ok(p)
                &&& p.fixed_params == current(st).fixed_params
                &&& !p.has_varargs
                &&& p.upvalues.len() == current(st).upvalues.len()
                &&& forall|i: int|
                    0 <= i < p.upvalues.len() ==> #[trigger] p.upvalues[i] == current(
                        st,
                    ).upvalues[i].1
            },
            Err(_) => false,
        },
{
    broadcast use group_state;

    reveal(finish);
    let op = OpCode::Return { start: RegisterIndex(0), count: VarCount::constant(0) };
    let st1 = emit(st, op);
    lemma_emit(st, op);
    lemma_clean(st, st1);
    lemma_end_scope(st1, st1, 0);
    let st2 = end_scope(st1, 0)->Ok_0.0;
    let f = current(st);
    let g = current(st2);
    let p = finished(g);
    assert(used(st2) =~= Set::<int>::empty()) by {
        assert(g.locals.len() == 0);
    }
    lemma_height_is(used(st2), 0);
    assert(st2.drop_last() =~= st.drop_last()) by {
        assert(st1.drop_last() =~= st.drop_last());
    }
    assert(p.opcodes.last() == op);
    assert forall|i: int| 0 <= i < p.opcodes.len() implies op_fits(
        #[trigger] p.opcodes[i],
        i,
        proto_limits(p),
    ) by {
        if i < f.opcodes.len() {
            assert(op_fits(f.opcodes[i], i, limits(f)));
            lemma_fits_mono(f.opcodes[i], i, limits(f), proto_limits(p));
        }
    }
    assert forall|i: int| 0 <= i < p.prototypes.len() implies {
        &&& proto_ok(#[trigger] p.prototypes[i])
        &&& inner_ok(p.prototypes[i], p.stack_size, p.upvalues.len() as int)
    } by {
        assert(proto_ok(g.prototypes[i]));
    }
}

/// A compiled function is added to the one around it.
#[verifier::spinoff_prover]
pub proof fn lemma_add_prototype(st: State, p: ProtoView)
    requires
        inv(st),
        proto_ok(p),
        inner_ok(p, current(st).registers.size, current(st).upvalues.len() as int),
    ensures
        match add_prototype(st, p) {
            Ok((st1, proto)) => {
                &&& quiet(st, st1)
                &&& current(st1).opcodes == current(st).opcodes
                &&& proto.0 < current(st1).prototypes.len()
            },
            Err(h) => over(h, CompilerError::Functions, 1),
        },
{
    broadcast use group_state;

    reveal(add_prototype);
    let f = current(st);
    if f.prototypes.len() <= u8::MAX {
        let g = FunctionState { prototypes: f.prototypes.push(p), ..f };
        assert forall|i: int| 0 <= i < g.opcodes.len() implies op_fits(
            #[trigger] g.opcodes[i],
            i,
            limits(g),
        ) by {
            lemma_grown_code(f, g, i);
        }
        assert forall|i: int| 0 <= i < g.prototypes.len() implies {
            &&& proto_ok(#[trigger] g.prototypes[i])
            &&& inner_ok(g.prototypes[i], g.registers.size, g.upvalues.len() as int)
        } by {
            if i < f.prototypes.len() {
                lemma_grown_proto(f, g, i);
            }
        }
        assert(locals_ok(g));
        lemma_put(st, g);
    }
}

/// What a function did to those around it is to hand variables down.
#[verifier::spinoff_prover]
pub proof fn lemma_leave(st: State, f: FunctionState, st1: State)
    requires
        inv(st),
        inv(st1),
        evolves(st.push(f), st1),
    ensures
        quiet(st, st1.drop_last()),
        current(st1.drop_last()).opcodes == current(st).opcodes,
        forall|i: int|
            0 <= i < current(st1).upvalues.len() ==> upvalue_fits(
                (#[trigger] current(st1).upvalues[i]).1,
                current(st1.drop_last()).registers.size,
                current(st1.drop_last()).upvalues.len() as int,
            ),
{
    reveal(inv);
    reveal(evolves);
    let a = st.push(f);
    let out = st1.drop_last();
    assert forall|k: int| 0 <= k < st.len() implies waits(#[trigger] st[k], out[k]) by {
        assert(waits(a[k], st1[k]));
    }
    assert forall|k: int| 0 <= k < out.len() implies function_ok(#[trigger] out[k]) by {
        assert(function_ok(st1[k]));
    }
    assert forall|k: int| 0 <= k < out.len() implies #[trigger] upvalues_ok(out, k) by {
        assert(upvalues_ok(st1, k));
        if k > 0 {
            assert forall|i: int| 0 <= i < out[k].upvalues.len() implies upvalue_from(
                #[trigger] out[k].upvalues[i],
                out[k - 1],
            ) by {
                assert(st1[k].upvalues[i] == out[k].upvalues[i]);
            }
        }
    }
    assert(upvalues_ok(st1, st1.len() - 1));
    assert(waits(st[st.len() - 1], out[st.len() - 1]));
}

} // verus!
