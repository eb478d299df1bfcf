//! Which registers the instructions change.

use crate::compiler::model::{continues_run, current, emit, here, load_nil, State};
use crate::compiler::order::{evolves, group_state};
use crate::opcode::{OpCode, RegisterIndex};
use vstd::prelude::*;

verus! {

pub open spec fn only(r: RegisterIndex) -> Set<int> {
    Set::empty().insert(r.0 as int)
}

/// All registers but this one.
pub open spec fn others(r: RegisterIndex) -> Set<int> {
    Set::new(|i: int| i != r.0)
}

/// The registers that an instruction changes. A call changes everything from its function on.
pub open spec fn writes(op: OpCode) -> Set<int> {
    match op {
        OpCode::Move { dest, .. } => only(dest),
        OpCode::LoadConstant { dest, .. } => only(dest),
        OpCode::LoadBool { dest, .. } => only(dest),
        OpCode::LoadNil { dest, count } => Set::new(|i: int| dest.0 <= i < dest.0 + count),
        OpCode::NewTable { dest } => only(dest),
        OpCode::GetTableR { dest, .. } => only(dest),
        OpCode::GetTableC { dest, .. } => only(dest),
        OpCode::GetUpTableR { dest, .. } => only(dest),
        OpCode::GetUpTableC { dest, .. } => only(dest),
        OpCode::Call { func, .. } => Set::new(|i: int| func.0 <= i),
        OpCode::Closure { dest, .. } => only(dest),
        OpCode::TestSet { dest, .. } => only(dest),
        OpCode::GetUpValue { dest, .. } => only(dest),
        OpCode::Not { dest, .. } => only(dest),
        OpCode::Minus { dest, .. } => only(dest),
        OpCode::BitNot { dest, .. } => only(dest),
        OpCode::Length { dest, .. } => only(dest),
        OpCode::Simple { dest, .. } => only(dest),
        _ => Set::empty(),
    }
}

/// The registers that the last instruction of `a` has come to change in `b` and did not before.
pub open spec fn added(a: State, b: State) -> Set<int> {
    if here(a) > 0 {
        writes(current(b).opcodes[here(a) - 1]).difference(writes(current(a).opcodes.last()))
    } else {
        Set::empty()
    }
}

/// The instructions that were added from `a` to `b` change none of the registers in `kept`, and
/// neither does what was added to the last instruction of `a`.
#[verifier::opaque]
pub open spec fn spares(a: State, b: State, kept: Set<int>) -> bool {
    &&& forall|i: int|
        here(a) <= i < here(b) ==> writes(#[trigger] current(b).opcodes[i]).disjoint(kept)
    &&& added(a, b).disjoint(kept)
}

pub broadcast proof fn lemma_spares_trans(a: State, b: State, c: State, kept: Set<int>)
    requires
        #[trigger] spares(a, b, kept),
        #[trigger] spares(b, c, kept),
        evolves(a, b),
        evolves(b, c),
    ensures
        spares(a, c, kept),
{
    broadcast use group_state;

    reveal(spares);
    assert forall|i: int| here(a) <= i < here(c) implies writes(
        #[trigger] current(c).opcodes[i],
    ).disjoint(kept) by {
        if i < here(b) - 1 {
            assert(current(b).opcodes[i] == current(c).opcodes[i]);
        } else if i == here(b) - 1 {
            let before = writes(current(b).opcodes[i]);
            let after = writes(current(c).opcodes[i]);
            assert(before.disjoint(kept));
            assert(added(b, c).disjoint(kept));
            assert(after.subset_of(before.union(added(b, c))));
        }
    }
    if 0 < here(a) {
        if here(a) < here(b) {
            let i = here(a) - 1;
            assert(current(b).opcodes[i] == current(c).opcodes[i]);
        } else {
            assert(added(a, c).subset_of(added(a, b).union(added(b, c))));
        }
    }
}

pub broadcast proof fn lemma_spares_less(a: State, b: State, kept: Set<int>, fewer: Set<int>)
    requires
        #[trigger] spares(a, b, kept),
        #[trigger] fewer.subset_of(kept),
    ensures
        spares(a, b, fewer),
{
    reveal(spares);
    assert forall|i: int| here(a) <= i < here(b) implies writes(
        #[trigger] current(b).opcodes[i],
    ).disjoint(fewer) by {
        assert(writes(current(b).opcodes[i]).disjoint(kept));
    }
}

/// Where no instruction is added, nothing is changed.
pub broadcast proof fn lemma_spares_same(a: State, b: State, kept: Set<int>)
    requires
        current(a).opcodes == current(b).opcodes,
    ensures
        #[trigger] spares(a, b, kept),
{
    reveal(spares);
}

pub broadcast group group_spares {
    lemma_spares_trans,
    lemma_spares_less,
    lemma_spares_same,
}

/// One more instruction.
pub proof fn lemma_spares_emit(st: State, op: OpCode, kept: Set<int>)
    requires
        st.len() > 0,
        writes(op).disjoint(kept),
    ensures
        spares(st, emit(st, op), kept),
{
    reveal(spares);
}

/// A jump that gets its target changes no register.
pub proof fn lemma_spares_jump(a: State, st: State, st1: State, jump: int, kept: Set<int>)
    requires
        spares(a, st, kept),
        here(a) <= jump < here(st),
        here(st1) == here(st),
        current(st1).opcodes[jump] is Jump,
        forall|i: int|
            0 <= i < here(st) && i != jump ==> #[trigger] current(st1).opcodes[i]
                == current(st).opcodes[i],
    ensures
        spares(a, st1, kept),
{
    reveal(spares);
    assert forall|i: int| here(a) <= i < here(st1) implies writes(
        #[trigger] current(st1).opcodes[i],
    ).disjoint(kept) by {
        if i != jump {
            assert(current(st1).opcodes[i] == current(st).opcodes[i]);
            assert(writes(current(st).opcodes[i]).disjoint(kept));
        }
    }
    if 0 < here(a) <= here(st) {
        let i = here(a) - 1;
        assert(current(st1).opcodes[i] == current(st).opcodes[i]);
        assert(added(a, st1) == added(a, st));
    }
}

/// Setting a register to nil changes no other register.
pub proof fn lemma_spares_nil(st: State, dest: RegisterIndex)
    requires
        st.len() > 0,
    ensures
        spares(st, load_nil(st, dest), others(dest)),
{
    reveal(spares);
    reveal(load_nil);
    let st1 = load_nil(st, dest);
    if continues_run(current(st), dest) {
        let last = here(st) - 1;
        assert(current(st1).opcodes[last] is LoadNil);
        assert(added(st, st1).subset_of(only(dest)));
    } else {
        assert(writes(current(st1).opcodes[here(st)]) =~= only(dest));
        assert(added(st, st1) =~= Set::<int>::empty());
    }
}

} // verus!
