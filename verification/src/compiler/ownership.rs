//! Which registers an expression descriptor owns, and what holds of a descriptor that is in
//! order.

use crate::compiler::effects::{group_spares, spares};
use crate::compiler::model::{current, is_leaf, release, Desc, FunctionState, State, Stop};
use crate::compiler::order::{
    exceeded, function_ok, group_state, grows, inv, is_local, lemma_free_register, lemma_height,
    lemma_height_is, settled, step, used,
};
use crate::compiler::register_allocator::REGISTERS;
use crate::compiler::size::{weight, weights};
use crate::compiler::support::{desc_supported, descs_supported};
use vstd::prelude::*;

verus! {

/// The temporary registers of a descriptor.
pub open spec fn owned(desc: Desc) -> Set<int>
    decreases desc, 0int,
{
    match desc {
        Desc::Register { register, is_temporary } => if is_temporary {
            Set::empty().insert(register.0 as int)
        } else {
            Set::empty()
        },
        Desc::UpValue(_) => Set::empty(),
        Desc::Value(_) => Set::empty(),
        Desc::Not(d) => owned(*d),
        Desc::FunctionCall { func, args } => owned(*func).union(owned_list(args, 0)),
        Desc::Comparison { left, op: _, right } => owned(*left).union(owned(*right)),
        Desc::ShortCircuitBinOp { left, .. } => owned(*left),
    }
}

/// The temporary registers of the descriptors from the `i`th on.
pub open spec fn owned_list(descs: Seq<Desc>, i: int) -> Set<int>
    decreases descs, descs.len() - i,
{
    if 0 <= i < descs.len() {
        owned(descs[i]).union(owned_list(descs, i + 1))
    } else {
        Set::empty()
    }
}

/// No register is owned twice.
pub open spec fn separate(desc: Desc) -> bool
    decreases desc, 0int,
{
    match desc {
        Desc::Register { .. } => true,
        Desc::UpValue(_) => true,
        Desc::Value(_) => true,
        Desc::Not(d) => separate(*d),
        Desc::FunctionCall { func, args } => {
            &&& separate(*func)
            &&& separate_list(args, 0)
            &&& owned(*func).disjoint(owned_list(args, 0))
        },
        Desc::Comparison { left, op: _, right } => {
            &&& separate(*left)
            &&& separate(*right)
            &&& owned(*left).disjoint(owned(*right))
        },
        Desc::ShortCircuitBinOp { left, .. } => separate(*left),
    }
}

pub open spec fn separate_list(descs: Seq<Desc>, i: int) -> bool
    decreases descs, descs.len() - i,
{
    0 <= i < descs.len() ==> {
        &&& separate(descs[i])
        &&& separate_list(descs, i + 1)
        &&& owned(descs[i]).disjoint(owned_list(descs, i + 1))
    }
}

/// The registers of a descriptor are in use, those and only those that are not temporary belong
/// to local variables, and its upvalues exist.
pub open spec fn fits(f: FunctionState, desc: Desc) -> bool
    decreases desc, 0int,
{
    match desc {
        Desc::Register { register, is_temporary } => {
            &&& f.registers.used.contains(register.0 as int)
            &&& is_local(f, register.0 as int) == !is_temporary
        },
        Desc::UpValue(u) => u.0 < f.upvalues.len(),
        Desc::Value(_) => true,
        Desc::Not(d) => fits(f, *d),
        Desc::FunctionCall { func, args } => fits(f, *func) && fits_list(f, args, 0),
        Desc::Comparison { left, op: _, right } => fits(f, *left) && fits(f, *right),
        Desc::ShortCircuitBinOp { left, .. } => fits(f, *left),
    }
}

pub open spec fn fits_list(f: FunctionState, descs: Seq<Desc>, i: int) -> bool
    decreases descs, descs.len() - i,
{
    0 <= i < descs.len() ==> fits(f, descs[i]) && fits_list(f, descs, i + 1)
}

/// A descriptor is in order.
pub open spec fn holds(st: State, desc: Desc) -> bool {
    separate(desc) && fits(current(st), desc)
}

/// The descriptors from the `i`th on are in order.
pub open spec fn holds_list(st: State, descs: Seq<Desc>, i: int) -> bool {
    separate_list(descs, i) && fits_list(current(st), descs, i)
}

/// What stays in use when `o` is given back.
pub open spec fn rest(st: State, o: Set<int>) -> Set<int> {
    used(st).difference(o)
}

/// A step that turns what owned `o` into a descriptor. It changes nothing else that is in use.
pub open spec fn yields(st: State, o: Set<int>, st1: State, desc: Desc) -> bool {
    &&& step(st, st1)
    &&& spares(st, st1, rest(st, o))
    &&& holds(st1, desc)
    &&& used(st1) == rest(st, o).union(owned(desc))
    &&& owned(desc).disjoint(rest(st, o))
}

/// As `yields`, for a list.
pub open spec fn yields_list(st: State, o: Set<int>, st1: State, descs: Seq<Desc>) -> bool {
    &&& step(st, st1)
    &&& spares(st, st1, rest(st, o))
    &&& holds_list(st1, descs, 0)
    &&& used(st1) == rest(st, o).union(owned_list(descs, 0))
    &&& owned_list(descs, 0).disjoint(rest(st, o))
}

/// A step that gives back `o` and nothing else.
pub open spec fn consumes(st: State, o: Set<int>, st1: State) -> bool {
    step(st, st1) && used(st1) == rest(st, o)
}

/// A step that gives back `o` and nothing else, and changes nothing else that is in use.
pub open spec fn gives_back(st: State, o: Set<int>, st1: State) -> bool {
    consumes(st, o, st1) && spares(st, st1, rest(st, o))
}

/// A reason to stop that can come up: not a broken assumption, an unknown part of the language
/// only where there is one, and a limit only where it has been reached. `n` is the size of what
/// was to be compiled.
pub open spec fn sound(stop: (State, Stop), supported: bool, n: nat) -> bool {
    &&& stop.1 != Stop::Broken
    &&& supported ==> !(stop.1 is Unsupported)
    &&& stop.1 matches Stop::Error(e) ==> exceeded(stop.0, e, n)
}

/// The registers of the local variables.
pub open spec fn local_registers(f: FunctionState) -> Set<int> {
    Set::new(|r: int| is_local(f, r))
}

/// The registers in use that belong to no local variable.
pub open spec fn spare(f: FunctionState) -> Set<int> {
    f.registers.used.difference(local_registers(f))
}

/// The registers that a descriptor in order owns are in use and belong to no local variable.
pub proof fn lemma_owned(f: FunctionState, desc: Desc)
    requires
        fits(f, desc),
    ensures
        owned(desc).subset_of(spare(f)),
    decreases weight(desc), 0int,
{
    match desc {
        Desc::Not(d) => lemma_owned(f, *d),
        Desc::FunctionCall { func, args } => {
            lemma_owned(f, *func);
            lemma_owned_list(f, args, 0);
            assert(owned(desc) == owned(*func).union(owned_list(args, 0)));
        },
        Desc::Comparison { left, op: _, right } => {
            lemma_owned(f, *left);
            lemma_owned(f, *right);
            assert(owned(desc) == owned(*left).union(owned(*right)));
        },
        Desc::ShortCircuitBinOp { left, .. } => lemma_owned(f, *left),
        _ => {},
    }
}

pub proof fn lemma_owned_list(f: FunctionState, descs: Seq<Desc>, i: int)
    requires
        fits_list(f, descs, i),
        0 <= i <= descs.len(),
    ensures
        owned_list(descs, i).subset_of(spare(f)),
    decreases weights(descs, i), 1 + descs.len() - i,
{
    if i < descs.len() {
        assert(weight(descs[i]) >= 1);
        lemma_owned(f, descs[i]);
        lemma_owned_list(f, descs, i + 1);
        assert(owned_list(descs, i) == owned(descs[i]).union(owned_list(descs, i + 1)));
    }
}

/// A descriptor stays in order as long as what it owns stays in use.
pub proof fn lemma_fits(f: FunctionState, g: FunctionState, desc: Desc)
    requires
        fits(f, desc),
        grows(f, g),
        f.locals == g.locals,
        function_ok(g),
        owned(desc).subset_of(g.registers.used),
    ensures
        fits(g, desc),
    decreases weight(desc), 0int,
{
    match desc {
        Desc::Register { register, is_temporary } => {
            assert(is_local(f, register.0 as int) == is_local(g, register.0 as int));
            if is_temporary {
                assert(owned(desc).contains(register.0 as int));
            } else {
                let i = choose|i: int|
                    0 <= i < g.locals.len() && (#[trigger] g.locals[i]).1.0 == register.0;
                assert(g.registers.used.contains(g.locals[i].1.0 as int));
            }
        },
        Desc::Not(d) => lemma_fits(f, g, *d),
        Desc::FunctionCall { func, args } => {
            assert(owned(*func).subset_of(owned(desc)));
            assert(owned_list(args, 0).subset_of(owned(desc)));
            lemma_fits(f, g, *func);
            lemma_fits_list(f, g, args, 0);
        },
        Desc::Comparison { left, op: _, right } => {
            assert(owned(*left).subset_of(owned(desc)));
            assert(owned(*right).subset_of(owned(desc)));
            lemma_fits(f, g, *left);
            lemma_fits(f, g, *right);
        },
        Desc::ShortCircuitBinOp { left, .. } => lemma_fits(f, g, *left),
        _ => {},
    }
}

pub proof fn lemma_fits_list(f: FunctionState, g: FunctionState, descs: Seq<Desc>, i: int)
    requires
        fits_list(f, descs, i),
        grows(f, g),
        f.locals == g.locals,
        function_ok(g),
        owned_list(descs, i).subset_of(g.registers.used),
        0 <= i <= descs.len(),
    ensures
        fits_list(g, descs, i),
    decreases weights(descs, i), 1 + descs.len() - i,
{
    if i < descs.len() {
        assert(weight(descs[i]) >= 1);
        assert(owned(descs[i]).subset_of(owned_list(descs, i)));
        assert(owned_list(descs, i + 1).subset_of(owned_list(descs, i)));
        lemma_fits(f, g, descs[i]);
        lemma_fits_list(f, g, descs, i + 1);
    }
}

/// A descriptor stays in order in a later state where what it owns is in use.
pub proof fn lemma_keep(a: State, b: State, desc: Desc)
    requires
        holds(a, desc),
        step(a, b),
        owned(desc).subset_of(used(b)),
    ensures
        holds(b, desc),
{
    broadcast use group_state;

    lemma_fits(current(a), current(b), desc);
}

pub proof fn lemma_keep_list(a: State, b: State, descs: Seq<Desc>, i: int)
    requires
        holds_list(a, descs, i),
        step(a, b),
        owned_list(descs, i).subset_of(used(b)),
        0 <= i <= descs.len(),
    ensures
        holds_list(b, descs, i),
{
    broadcast use group_state;

    lemma_fits_list(current(a), current(b), descs, i);
}

/// Giving back a descriptor without operands.
pub proof fn lemma_release(st: State, desc: Desc)
    requires
        inv(st),
        holds(st, desc),
        is_leaf(desc),
    ensures
        match release(st, desc) {
            Ok((st1, ())) => {
                &&& gives_back(st, owned(desc), st1)
                &&& current(st1).opcodes == current(st).opcodes
                &&& settled(st1) || current(st1).registers == current(st).registers
            },
            Err(_) => false,
        },
{
    broadcast use {group_state, group_spares};

    match desc {
        Desc::Register { register, is_temporary } => {
            if is_temporary {
                lemma_free_register(st, register);
                assert(used(st).remove(register.0 as int) =~= rest(st, owned(desc)));
            } else {
                assert(used(st) =~= rest(st, owned(desc)));
            }
        },
        _ => {
            assert(used(st) =~= rest(st, owned(desc)));
        },
    }
}

/// The top of the stack is directly above a register that stays in use when `o` is given back.
pub open spec fn steady(st: State, o: Set<int>) -> bool {
    &&& settled(st)
    &&& current(st).registers.top > 0 ==> !o.contains(current(st).registers.top - 1)
}

/// Giving back registers other than the highest one leaves a settled top where it is.
pub proof fn lemma_steady(st: State, o: Set<int>, st1: State)
    requires
        inv(st),
        inv(st1),
        steady(st, o),
        used(st1) == rest(st, o),
        settled(st1) || current(st1).registers == current(st).registers,
    ensures
        current(st1).registers.top == current(st).registers.top,
        settled(st1),
{
    broadcast use group_state;

    let top = current(st).registers.top;
    lemma_height(used(st), REGISTERS as int);
    assert forall|i: int| #[trigger] used(st1).contains(i) implies 0 <= i < top by {
        assert(used(st).contains(i));
    }
    lemma_height_is(used(st1), top);
}

/// The last descriptor of a list and those before it.
pub proof fn lemma_list_push(descs: Seq<Desc>, d: Desc, i: int)
    requires
        0 <= i <= descs.len(),
    ensures
        owned_list(descs.push(d), i) == owned_list(descs, i).union(owned(d)),
        separate_list(descs, i) && separate(d) && owned_list(descs, i).disjoint(owned(d))
            ==> separate_list(descs.push(d), i),
        descs_supported(descs.push(d), i) == (descs_supported(descs, i) && desc_supported(d)),
    decreases descs.len() - i,
{
    let all = descs.push(d);
    if i < descs.len() {
        lemma_list_push(descs, d, i + 1);
        assert(all[i] == descs[i]);
        assert(owned_list(all, i) =~= owned_list(descs, i).union(owned(d)));
        if separate_list(descs, i) && separate(d) && owned_list(descs, i).disjoint(owned(d)) {
            assert(owned(descs[i]).subset_of(owned_list(descs, i)));
            assert(owned_list(descs, i + 1).subset_of(owned_list(descs, i)));
            assert(separate_list(all, i + 1));
            assert(owned(all[i]).disjoint(owned_list(all, i + 1)));
        }
        assert(descs_supported(all, i) == (desc_supported(all[i]) && descs_supported(all, i + 1)));
    } else {
        assert(separate_list(all, i + 1));
        assert(descs_supported(all, i + 1));
        assert(descs_supported(descs, i));
        assert(owned_list(all, i + 1) =~= Set::empty());
        assert(owned_list(descs, i) =~= Set::empty());
        assert(owned_list(all, i) =~= owned(d));
        assert(owned_list(descs, i).union(owned(d)) =~= owned(d));
    }
}

pub proof fn lemma_fits_push(f: FunctionState, descs: Seq<Desc>, d: Desc, i: int)
    requires
        0 <= i <= descs.len(),
        fits_list(f, descs, i),
        fits(f, d),
    ensures
        fits_list(f, descs.push(d), i),
    decreases descs.len() - i,
{
    if i < descs.len() {
        assert(descs.push(d)[i] == descs[i]);
        lemma_fits_push(f, descs, d, i + 1);
    } else {
        assert(fits_list(f, descs.push(d), i + 1));
    }
}

} // verus!
