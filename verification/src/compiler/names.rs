//! Looking up names keeps the state in order, follows the scopes, and always finds the
//! environment.

use crate::compiler::error::CompilerError;
use crate::compiler::model::{
    add_upvalue, current, done, env_name, find_variable, get_environment, hand_down, newest_local,
    resolve, upvalue_position, with_environment, Desc, FunctionState, State, Variable,
};
use crate::compiler::order::{
    evolves, function_ok, group_state, grows, inner_ok, inv, is_local, lemma_grown_code,
    lemma_grown_proto, limits, locals_ok, op_fits, over, proto_ok, quiet, upvalue_from, upvalues_ok,
    waits,
};
use crate::function::UpValueDescriptor;
use crate::opcode::{RegisterIndex, UpValueIndex};
use vstd::prelude::*;

verus! {

// ---------------------------------------------------------------------------------------------
// Scopes

/// Where a variable lives.
pub enum Home {
    /// In a register of one of the functions that are being compiled.
    Local { function: int, register: RegisterIndex },
    /// It is the environment of the chunk.
    Environment,
    /// Nowhere: it is a field of the environment.
    Free,
}

/// The newest local variable of this name in the `k`th function.
pub open spec fn own_local(st: State, name: Seq<u8>, k: int) -> Option<RegisterIndex> {
    newest_local(st[k].locals, name, st[k].locals.len() as int)
}

/// What a name stands for in the `k`th function: the newest local variable of that name in the
/// innermost function around that has one, and in the end the environment of the chunk.
pub open spec fn home(st: State, name: Seq<u8>, k: int) -> Home
    decreases k + 1,
{
    if 0 <= k < st.len() {
        match own_local(st, name, k) {
            Some(register) => Home::Local { function: k, register },
            None => if k == 0 && name == env_name() {
                Home::Environment
            } else {
                home(st, name, k - 1)
            },
        }
    } else {
        Home::Free
    }
}

/// Where the `u`th upvalue of the `k`th function leads, outwards through the upvalues of the
/// functions around it.
pub open spec fn leads_to(st: State, k: int, u: int) -> Home
    decreases k,
{
    match st[k].upvalues[u].1 {
        UpValueDescriptor::ParentLocal(register) => Home::Local { function: k - 1, register },
        UpValueDescriptor::Outer(i) => if 0 < k {
            leads_to(st, k - 1, i.0 as int)
        } else {
            Home::Environment
        },
        UpValueDescriptor::Environment => Home::Environment,
    }
}

/// An upvalue leads to what its name stands for.
proof fn lemma_leads_to(st: State, k: int, u: int)
    requires
        inv(st),
        0 <= k < st.len(),
        0 <= u < st[k].upvalues.len(),
    ensures
        leads_to(st, k, u) == (if k == 0 {
            Home::Environment
        } else {
            home(st, st[k].upvalues[u].0, k - 1)
        }),
        k == 0 ==> st[k].upvalues[u].0 == env_name(),
    decreases k,
{
    reveal(inv);
    assert(upvalues_ok(st, k));
    if k > 0 {
        assert(upvalue_from(st[k].upvalues[u], st[k - 1]));
        if let UpValueDescriptor::Outer(i) = st[k].upvalues[u].1 {
            lemma_leads_to(st, k - 1, i.0 as int);
        }
    }
}

/// An upvalue leads to a variable.
proof fn lemma_leads_somewhere(st: State, k: int, u: int)
    ensures
        leads_to(st, k, u) != Home::Free,
    decreases k,
{
    if let UpValueDescriptor::Outer(i) = st[k].upvalues[u].1 {
        if 0 < k {
            lemma_leads_somewhere(st, k - 1, i.0 as int);
        }
    }
}

/// What a name stands for depends on the local variables alone.
pub proof fn lemma_same_home(a: State, b: State, name: Seq<u8>, k: int)
    requires
        a.len() == b.len(),
        k < a.len(),
        forall|j: int| 0 <= j < a.len() ==> (#[trigger] a[j]).locals == b[j].locals,
    ensures
        home(a, name, k) == home(b, name, k),
    decreases k + 1,
{
    if k >= 0 {
        assert(a[k].locals == b[k].locals);
        lemma_same_home(a, b, name, k - 1);
    }
}

proof fn lemma_same_locals(a: State, b: State)
    requires
        quiet(a, b),
    ensures
        a.len() == b.len(),
        forall|j: int| 0 <= j < a.len() ==> (#[trigger] a[j]).locals == b[j].locals,
{
    reveal(evolves);
    assert forall|j: int| 0 <= j < a.len() implies (#[trigger] a[j]).locals == b[j].locals by {
        if j < a.len() - 1 {
            assert(waits(a[j], b[j]));
        }
    }
}

// ---------------------------------------------------------------------------------------------
// Upvalues

/// Whether a function can be given one more upvalue with this name and descriptor.
pub open spec fn can_add(st: State, k: int, name: Seq<u8>, descriptor: UpValueDescriptor) -> bool {
    &&& 0 <= k < st.len()
    &&& st[k].upvalues.len() <= 255
    &&& if k == 0 {
        st[0].upvalues.len() == 0 && name == env_name() && descriptor
            == UpValueDescriptor::Environment
    } else {
        upvalue_from((name, descriptor), st[k - 1]) && unnamed(st, name, k)
    }
}

/// The `k`th function has no upvalue of this name.
pub open spec fn unnamed(st: State, name: Seq<u8>, k: int) -> bool {
    forall|i: int| 0 <= i < st[k].upvalues.len() ==> (#[trigger] st[k].upvalues[i]).0 != name
}

proof fn lemma_add_upvalue(st: State, k: int, name: Seq<u8>, descriptor: UpValueDescriptor)
    requires
        inv(st),
        can_add(st, k, name, descriptor),
    ensures
        quiet(st, add_upvalue(st, k, name, descriptor)),
        current(add_upvalue(st, k, name, descriptor)).opcodes == current(st).opcodes,
{
    reveal(inv);
    reveal(evolves);
    let st1 = add_upvalue(st, k, name, descriptor);
    let f = st[k];
    let g = st1[k];
    assert(function_ok(f));
    assert(grows(f, g));
    assert forall|i: int| 0 <= i < g.opcodes.len() implies op_fits(
        #[trigger] g.opcodes[i],
        i,
        limits(g),
    ) by {
        lemma_grown_code(f, g, i);
    }
    assert forall|i: int| 0 <= i < g.prototypes.len() implies {
        &&& proto_ok(#[trigger] g.prototypes[i])
        &&& inner_ok(g.prototypes[i], g.registers.size, g.upvalues.len() as int)
    } by {
        lemma_grown_proto(f, g, i);
    }
    assert(locals_ok(g));
    assert forall|j: int| 0 <= j < st1.len() implies function_ok(#[trigger] st1[j]) by {
        assert(function_ok(st[j]));
    }
    assert forall|j: int| 0 <= j < st1.len() implies #[trigger] upvalues_ok(st1, j) by {
        assert(upvalues_ok(st, j));
        if j > 0 {
            assert forall|i: int| 0 <= i < st1[j].upvalues.len() implies upvalue_from(
                #[trigger] st1[j].upvalues[i],
                st1[j - 1],
            ) by {
                if i < st[j].upvalues.len() {
                    assert(st[j].upvalues[i] == st1[j].upvalues[i]);
                    assert(upvalue_from(st[j].upvalues[i], st[j - 1]));
                }
            }
        }
    }
    assert forall|j: int| 0 <= j < st.len() - 1 implies waits(#[trigger] st[j], st1[j]) by {
        if j == k {
            assert(g == (FunctionState { upvalues: g.upvalues, ..f }));
        }
    }
}

/// A variable found in the innermost function refers to something that exists.
pub open spec fn variable_ok(st: State, v: Variable) -> bool {
    match v {
        Variable::Local(r) => is_local(current(st), r.0 as int),
        Variable::UpValue(u) => u.0 < current(st).upvalues.len(),
        Variable::Global(_) => true,
    }
}

proof fn lemma_hand_down(st: State, k: int, name: Seq<u8>, descriptor: UpValueDescriptor)
    requires
        inv(st),
        0 < k < st.len(),
        upvalue_from((name, descriptor), st[k - 1]),
        forall|j: int| k <= j < st.len() ==> #[trigger] own_local(st, name, j) is None,
        forall|j: int| k <= j < st.len() ==> #[trigger] unnamed(st, name, j),
    ensures
        match hand_down(st, k, name, descriptor) {
            Ok((st1, v)) => {
                &&& quiet(st, st1)
                &&& v matches Variable::UpValue(u) && current(st1).upvalues[u.0 as int].0 == name
                &&& variable_ok(st1, v)
                &&& current(st1).opcodes == current(st).opcodes
            },
            Err(h) => over(h, CompilerError::UpValues, 1),
        },
    decreases st.len() - k,
{
    broadcast use group_state;

    reveal(hand_down);
    let index = st[k].upvalues.len();
    if index <= u8::MAX {
        let st1 = add_upvalue(st, k, name, descriptor);
        assert(unnamed(st, name, k));
        lemma_add_upvalue(st, k, name, descriptor);
        if k < st.len() - 1 {
            assert forall|j: int| k + 1 <= j < st1.len() implies #[trigger] unnamed(
                st1,
                name,
                j,
            ) by {
                assert(unnamed(st, name, j));
            }
            assert forall|j: int| k <= j < st1.len() implies #[trigger] own_local(
                st1,
                name,
                j,
            ) is None by {
                assert(own_local(st, name, j) is None);
            }
            assert(own_local(st1, name, k) is None);
            lemma_hand_down(st1, k + 1, name, UpValueDescriptor::Outer(UpValueIndex(index as u8)));
        }
    } else {
        assert(add_upvalue(st, k, name, descriptor)[k].upvalues.len() > 256);
    }
}

proof fn lemma_newest_local(locals: Seq<(Seq<u8>, RegisterIndex)>, name: Seq<u8>, n: int)
    requires
        0 <= n <= locals.len(),
    ensures
        newest_local(locals, name, n) matches Some(r) ==> exists|i: int|
            0 <= i < locals.len() && (#[trigger] locals[i]).1 == r,
    decreases n,
{
    if n > 0 {
        if locals[n - 1].0 == name {
            assert(locals[n - 1].1 == locals[n - 1].1);
        } else {
            lemma_newest_local(locals, name, n - 1);
        }
    }
}

pub proof fn lemma_upvalue_position(
    upvalues: Seq<(Seq<u8>, UpValueDescriptor)>,
    name: Seq<u8>,
    i: int,
)
    requires
        0 <= i <= upvalues.len(),
    ensures
        upvalue_position(upvalues, name, i) matches Some(j) ==> i <= j < upvalues.len()
            && upvalues[j].0 == name,
        upvalue_position(upvalues, name, i) is None ==> forall|j: int|
            i <= j < upvalues.len() ==> (#[trigger] upvalues[j]).0 != name,
    decreases upvalues.len() - i,
{
    if i < upvalues.len() && upvalues[i].0 != name {
        lemma_upvalue_position(upvalues, name, i + 1);
    }
}

// ---------------------------------------------------------------------------------------------
// Variables

/// What a name was found to be: it exists, and it is what the scopes say.
pub open spec fn found(st: State, name: Seq<u8>, i: int, st1: State, v: Variable) -> bool {
    match v {
        Variable::Local(r) => i == st.len() - 1 && own_local(st, name, i) == Some(r),
        Variable::UpValue(u) => {
            &&& own_local(st, name, st.len() - 1) is None
            &&& current(st1).upvalues[u.0 as int].0 == name
        },
        Variable::Global(n) => n == name && home(st, name, i) == Home::Free,
    }
}

proof fn lemma_resolve(st: State, name: Seq<u8>, i: int)
    requires
        inv(st),
        -1 <= i < st.len(),
        forall|j: int| i < j < st.len() ==> #[trigger] own_local(st, name, j) is None,
        forall|j: int| i < j < st.len() ==> #[trigger] unnamed(st, name, j),
    ensures
        match resolve(st, name, i) {
            Ok((st1, v)) => {
                &&& quiet(st, st1)
                &&& variable_ok(st1, v)
                &&& found(st, name, i, st1, v)
                &&& current(st1).opcodes == current(st).opcodes
            },
            Err(h) => over(h, CompilerError::UpValues, 1),
        },
    decreases i + 1,
{
    broadcast use group_state;

    reveal(resolve);
    reveal(inv);
    if i >= 0 {
        let locals = st[i].locals;
        lemma_newest_local(locals, name, locals.len() as int);
        if i < st.len() - 1 {
            assert(own_local(st, name, st.len() - 1) is None);
        }
        match own_local(st, name, i) {
            Some(register) => {
                let j = choose|j: int|
                    0 <= j < locals.len() && (#[trigger] locals[j]).1 == register;
                assert(function_ok(st[i]));
                assert(st[i].registers.used.contains(locals[j].1.0 as int));
                if i < st.len() - 1 {
                    lemma_hand_down(st, i + 1, name, UpValueDescriptor::ParentLocal(register));
                } else {
                    assert(is_local(current(st), register.0 as int));
                }
            },
            None => {
                let st1 = with_environment(st, i, name);
                assert(upvalues_ok(st, 0));
                assert(function_ok(st[i]));
                if st1 != st {
                    lemma_add_upvalue(st, 0, env_name(), UpValueDescriptor::Environment);
                }
                assert(function_ok(st1[i]));
                lemma_same_locals(st, st1);
                assert forall|j: int| i <= j < st1.len() implies #[trigger] own_local(
                    st1,
                    name,
                    j,
                ) is None by {
                    assert(st[j].locals == st1[j].locals);
                    assert(own_local(st, name, j) is None);
                }
                assert forall|j: int| i < j < st1.len() implies #[trigger] unnamed(
                    st1,
                    name,
                    j,
                ) by {
                    assert(unnamed(st, name, j));
                }
                lemma_upvalue_position(st1[i].upvalues, name, 0);
                match upvalue_position(st1[i].upvalues, name, 0) {
                    Some(j) => {
                        assert(own_local(st1, name, i) is None);
                        if i < st.len() - 1 {
                            lemma_hand_down(
                                st1,
                                i + 1,
                                name,
                                UpValueDescriptor::Outer(UpValueIndex(j as u8)),
                            );
                        }
                    },
                    None => {
                        assert(upvalues_ok(st1, 0));
                        if i == 0 && name == env_name() {
                            assert(st1[0].upvalues[0].0 == env_name());
                        }
                        lemma_resolve(st1, name, i - 1);
                        lemma_same_home(st, st1, name, i - 1);
                    },
                }
            },
        }
    }
}

/// Looking up a name adds upvalues and nothing else, and follows the scopes: a variable is local
/// where the name stands for a local of the innermost function, an upvalue that leads to it where
/// it lives further out, and a field of the environment where there is no such variable.
pub proof fn lemma_find_variable(st: State, name: Seq<u8>)
    requires
        inv(st),
    ensures
        match find_variable(st, name) {
            Ok((st1, v)) => {
                let home = home(st, name, st.len() - 1);
                &&& quiet(st, st1)
                &&& variable_ok(st1, v)
                &&& current(st1).opcodes == current(st).opcodes
                &&& match v {
                    Variable::Local(register) => {
                        &&& own_local(st, name, st.len() - 1) == Some(register)
                        &&& home == (Home::Local { function: st.len() - 1, register })
                    },
                    Variable::UpValue(u) => {
                        &&& home == leads_to(st1, st.len() - 1, u.0 as int)
                        &&& home != Home::Free
                        &&& own_local(st, name, st.len() - 1) is None
                        &&& current(st1).upvalues[u.0 as int].0 == name
                    },
                    Variable::Global(n) => n == name && home == Home::Free && name != env_name(),
                }
            },
            Err(h) => over(h, CompilerError::UpValues, 1),
        },
{
    broadcast use group_state;

    let last = st.len() - 1;
    lemma_resolve(st, name, last);
    if let Ok((st1, v)) = find_variable(st, name) {
        if let Variable::UpValue(u) = v {
            lemma_leads_to(st1, last, u.0 as int);
            lemma_leads_somewhere(st1, last, u.0 as int);
            lemma_same_locals(st, st1);
            lemma_same_home(st, st1, name, last - 1);
        }
        if v is Global && name == env_name() {
            lemma_environment_home(st, last);
        }
    }
}

/// The chunk has its upvalue, the environment.
pub open spec fn has_environment(st: State) -> bool {
    st[0].upvalues.len() > 0
}

/// A name that stands for no variable is looked up without a trace.
proof fn lemma_global(st: State, name: Seq<u8>, i: int)
    requires
        -1 <= i < st.len(),
    ensures
        resolve(st, name, i) matches Ok((st1, Variable::Global(_))) ==> st1 == st,
    decreases i + 1,
{
    reveal(resolve);
    if 0 <= i {
        match own_local(st, name, i) {
            Some(register) => lemma_handed_upvalue(
                st,
                i + 1,
                name,
                UpValueDescriptor::ParentLocal(register),
            ),
            None => {
                let st1 = with_environment(st, i, name);
                if st1 != st {
                    assert(st1[0].upvalues[0].0 == env_name());
                }
                match upvalue_position(st1[i].upvalues, name, 0) {
                    Some(j) => lemma_handed_upvalue(
                        st1,
                        i + 1,
                        name,
                        UpValueDescriptor::Outer(UpValueIndex(j as u8)),
                    ),
                    None => lemma_global(st1, name, i - 1),
                }
            },
        }
    }
}

proof fn lemma_handed_upvalue(st: State, k: int, name: Seq<u8>, descriptor: UpValueDescriptor)
    ensures
        hand_down(st, k, name, descriptor) matches Ok((_, v)) ==> v is UpValue,
    decreases st.len() - k,
{
    reveal(hand_down);
    let index = st[k].upvalues.len();
    if 0 <= k < st.len() - 1 && index <= u8::MAX {
        lemma_handed_upvalue(
            add_upvalue(st, k, name, descriptor),
            k + 1,
            name,
            UpValueDescriptor::Outer(UpValueIndex(index as u8)),
        );
    }
}

/// Looking up a name again gives the same variable and changes nothing.
pub proof fn lemma_lookup_again(st: State, name: Seq<u8>)
    requires
        inv(st),
    ensures
        find_variable(st, name) matches Ok((st1, v)) ==> find_variable(st1, name) == done(st1, v),
{
    broadcast use group_state;

    let last = st.len() - 1;
    lemma_resolve(st, name, last);
    if let Ok((st1, v)) = find_variable(st, name) {
        lemma_same_locals(st, st1);
        assert(own_local(st1, name, last) == own_local(st, name, last));
        match v {
            Variable::Local(_) => {
                reveal(resolve);
            },
            Variable::UpValue(u) => {
                reveal(resolve);
                reveal(inv);
                assert(upvalues_ok(st1, last));
                lemma_upvalue_position(st1[last].upvalues, name, 0);
                assert(with_environment(st1, last, name) == st1);
            },
            Variable::Global(_) => lemma_global(st, name, last),
        }
    }
}

/// The environment is what a name stands for where it is the name of the environment and no local
/// variable has that name.
pub proof fn lemma_home_environment(st: State, name: Seq<u8>, k: int)
    requires
        -1 <= k < st.len(),
        st.len() > 0,
    ensures
        home(st, name, k) == Home::Environment <==> {
            &&& 0 <= k
            &&& name == env_name()
            &&& forall|j: int| 0 <= j <= k ==> #[trigger] own_local(st, name, j) is None
        },
    decreases k + 1,
{
    if k >= 0 {
        lemma_home_environment(st, name, k - 1);
    }
}

/// The environment has a home.
proof fn lemma_environment_home(st: State, k: int)
    requires
        0 <= k < st.len(),
    ensures
        home(st, env_name(), k) != Home::Free,
    decreases k,
{
    if k > 0 {
        lemma_environment_home(st, k - 1);
    }
}

/// The environment is always in scope: as a local variable or as an upvalue.
pub proof fn lemma_get_environment(st: State)
    requires
        inv(st),
    ensures
        match get_environment(st) {
            Ok((st1, d)) => {
                let home = home(st, env_name(), st.len() - 1);
                &&& quiet(st, st1)
                &&& current(st1).opcodes == current(st).opcodes
                &&& match d {
                    Desc::Register { register, is_temporary } => {
                        &&& !is_temporary
                        &&& is_local(current(st1), register.0 as int)
                        &&& home == (Home::Local { function: st.len() - 1, register })
                    },
                    Desc::UpValue(u) => {
                        &&& u.0 < current(st1).upvalues.len()
                        &&& home == leads_to(st1, st.len() - 1, u.0 as int)
                    },
                    _ => false,
                }
            },
            Err(h) => over(h, CompilerError::UpValues, 1),
        },
{
    reveal(get_environment);
    lemma_find_variable(st, env_name());
}

} // verus!
