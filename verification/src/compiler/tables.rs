//! Reading and writing fields keeps the state in order.

use crate::compiler::effects::{group_spares, lemma_spares_emit, spares};
use crate::compiler::model::{
    allocate, any_register, any_register_or_constant, current, get_table, get_table_op,
    get_up_table_op, held, held_operand, is_leaf, read_field, release, release_both, set_table,
    set_table_op, set_up_table_op, temporary, write_field, Desc, State,
};
use crate::compiler::order::{group_state, inv, lemma_allocate, lemma_emit, step, used};
use crate::compiler::ownership::{
    gives_back, holds, lemma_keep, lemma_owned, lemma_release, owned, rest, sound, yields,
};
use crate::compiler::placing::{
    lemma_any_register, lemma_any_register_or_constant, lemma_aside, lemma_aside_back, lemma_fresh,
    lemma_release_both, lemma_rest_empty,
};
use crate::compiler::size::weight;
use crate::compiler::support::desc_supported;
use crate::opcode::RegisterIndex;
use vstd::prelude::*;

verus! {

/// A field has been read into `dest`, and the table and the key are held as said.
pub open spec fn field_read(
    st: State,
    o: Set<int>,
    st1: State,
    dest: RegisterIndex,
    table: Desc,
    key: Desc,
) -> bool {
    &&& step(st, st1)
    &&& spares(st, st1, rest(st, o))
    &&& holds(st1, table)
    &&& holds(st1, key)
    &&& is_leaf(table)
    &&& is_leaf(key)
    &&& owned(table).disjoint(owned(key))
    &&& owned(table).disjoint(rest(st, o).insert(dest.0 as int))
    &&& owned(key).disjoint(rest(st, o).insert(dest.0 as int))
    &&& !rest(st, o).contains(dest.0 as int)
    &&& used(st1) == rest(st, o).insert(dest.0 as int).union(owned(table)).union(owned(key))
}

#[verifier::spinoff_prover]
pub proof fn lemma_get_table(st: State, table: Desc, key: Desc)
    requires
        inv(st),
        holds(st, table),
        holds(st, key),
        owned(table).disjoint(owned(key)),
    ensures
        match get_table(st, table, key) {
            Ok((st1, (dest, t, k))) => {
                &&& field_read(st, owned(table).union(owned(key)), st1, dest, t, k)
                &&& desc_supported(table)
                &&& desc_supported(key)
            },
            Err(h) => sound(
                h,
                desc_supported(table) && desc_supported(key),
                weight(table) + weight(key),
            ),
        },
    decreases weight(table) + weight(key), 4nat,
{
    broadcast use {group_state, group_spares};

    reveal(get_table);
    let o = owned(table).union(owned(key));
    lemma_owned(current(st), table);
    lemma_owned(current(st), key);
    lemma_rest_empty(st);
    lemma_allocate(st);
    if let Ok((st1, dest)) = allocate(st) {
        let d = temporary(dest);
        let kept = rest(st, o);
        assert(spares(st, st1, kept));
        assert(spares(st, st1, rest(st, Set::empty())));
        lemma_fresh(st, Set::empty(), st1, dest);
        lemma_keep(st, st1, table);
        lemma_keep(st, st1, key);
        match table {
            Desc::UpValue(t) => {
                lemma_any_register_or_constant(st1, key);
                if let Ok((st2, k)) = any_register_or_constant(st1, key) {
                    let hk = held_operand(key, k);
                    lemma_aside(st1, owned(key), st2, hk, table);
                    lemma_aside(st1, owned(key), st2, hk, d);
                    lemma_emit(st2, get_up_table_op(dest, t, k));
                    lemma_spares_emit(st2, get_up_table_op(dest, t, k), kept);
                    assert(kept.subset_of(rest(st1, owned(key))));
                    assert(used(st2) =~= rest(st, o).insert(dest.0 as int).union(
                        owned(table),
                    ).union(owned(hk)));
                }
            },
            _ => {
                lemma_any_register(st1, table);
                if let Ok((st2, t)) = any_register(st1, table) {
                    let ht = held(table, t);
                    lemma_aside(st1, owned(table), st2, ht, key);
                    lemma_aside(st1, owned(table), st2, ht, d);
                    lemma_any_register_or_constant(st2, key);
                    if let Ok((st3, k)) = any_register_or_constant(st2, key) {
                        let hk = held_operand(key, k);
                        lemma_aside(st2, owned(key), st3, hk, ht);
                        lemma_aside(st2, owned(key), st3, hk, d);
                        lemma_emit(st3, get_table_op(dest, t, k));
                        lemma_spares_emit(st3, get_table_op(dest, t, k), kept);
                        assert(kept.subset_of(rest(st1, owned(table))));
                        assert(kept.subset_of(rest(st2, owned(key))));
                        assert(used(st3) =~= rest(st, o).insert(dest.0 as int).union(
                            owned(ht),
                        ).union(owned(hk)));
                    }
                }
            },
        }
    }
}

/// A field that is read is a temporary value in place of the table and the key.
#[verifier::spinoff_prover]
pub proof fn lemma_read_field(st: State, table: Desc, key: Desc)
    requires
        inv(st),
        holds(st, table),
        holds(st, key),
        owned(table).disjoint(owned(key)),
    ensures
        match read_field(st, table, key) {
            Ok((st1, d)) => {
                &&& yields(st, owned(table).union(owned(key)), st1, d)
                &&& d is Register
                &&& desc_supported(table)
                &&& desc_supported(key)
            },
            Err(h) => sound(
                h,
                desc_supported(table) && desc_supported(key),
                weight(table) + weight(key),
            ),
        },
    decreases weight(table) + weight(key), 5nat,
{
    broadcast use {group_state, group_spares};

    reveal(read_field);
    let o = owned(table).union(owned(key));
    lemma_owned(current(st), table);
    lemma_owned(current(st), key);
    lemma_get_table(st, table, key);
    if let Ok((st1, (dest, t, k))) = get_table(st, table, key) {
        lemma_release_both(st1, t, k);
        let st2 = release_both(st1, t, k)->Ok_0.0;
        assert(used(st2) =~= rest(st, o).insert(dest.0 as int));
        assert(rest(st, o).subset_of(rest(st1, owned(t).union(owned(k)))));
        lemma_fresh(st, o, st2, dest);
    }
}

/// A field has been written, and the table, the key and the value are held as said.
pub open spec fn field_written(
    st: State,
    o: Set<int>,
    st1: State,
    table: Desc,
    key: Desc,
    value: Desc,
) -> bool {
    &&& step(st, st1)
    &&& spares(st, st1, rest(st, o))
    &&& holds(st1, table)
    &&& holds(st1, key)
    &&& holds(st1, value)
    &&& is_leaf(table)
    &&& is_leaf(key)
    &&& is_leaf(value)
    &&& owned(table).disjoint(owned(key))
    &&& owned(table).disjoint(owned(value))
    &&& owned(key).disjoint(owned(value))
    &&& owned(table).disjoint(rest(st, o))
    &&& owned(key).disjoint(rest(st, o))
    &&& owned(value).disjoint(rest(st, o))
    &&& used(st1) == rest(st, o).union(owned(table)).union(owned(key)).union(owned(value))
}

#[verifier::spinoff_prover]
pub proof fn lemma_set_table(st: State, table: Desc, key: Desc, value: Desc)
    requires
        inv(st),
        holds(st, table),
        holds(st, key),
        holds(st, value),
        owned(table).disjoint(owned(key)),
        owned(table).disjoint(owned(value)),
        owned(key).disjoint(owned(value)),
    ensures
        match set_table(st, table, key, value) {
            Ok((st1, (t, k, v))) => {
                &&& field_written(
                    st,
                    owned(table).union(owned(key)).union(owned(value)),
                    st1,
                    t,
                    k,
                    v,
                )
                &&& desc_supported(table)
                &&& desc_supported(key)
                &&& desc_supported(value)
            },
            Err(h) => sound(
                h,
                desc_supported(table) && desc_supported(key) && desc_supported(value),
                weight(table) + weight(key) + weight(value),
            ),
        },
    decreases weight(table) + weight(key) + weight(value), 4nat,
{
    broadcast use {group_state, group_spares};

    reveal(set_table);
    let o = owned(table).union(owned(key)).union(owned(value));
    let kept = rest(st, o);
    lemma_owned(current(st), table);
    lemma_owned(current(st), key);
    lemma_owned(current(st), value);
    match table {
        Desc::UpValue(t) => {
            lemma_any_register_or_constant(st, key);
            if let Ok((st1, k)) = any_register_or_constant(st, key) {
                let hk = held_operand(key, k);
                lemma_aside(st, owned(key), st1, hk, table);
                lemma_aside(st, owned(key), st1, hk, value);
                lemma_any_register_or_constant(st1, value);
                if let Ok((st2, v)) = any_register_or_constant(st1, value) {
                    let hv = held_operand(value, v);
                    lemma_aside(st1, owned(value), st2, hv, table);
                    lemma_aside(st1, owned(value), st2, hv, hk);
                    lemma_emit(st2, set_up_table_op(t, k, v));
                    lemma_spares_emit(st2, set_up_table_op(t, k, v), kept);
                    assert(kept.subset_of(rest(st, owned(key))));
                    assert(kept.subset_of(rest(st1, owned(value))));
                    assert(used(st2) =~= rest(st, o).union(owned(table)).union(owned(hk)).union(
                        owned(hv),
                    ));
                }
            }
        },
        _ => {
            lemma_any_register(st, table);
            if let Ok((st1, t)) = any_register(st, table) {
                let ht = held(table, t);
                lemma_aside(st, owned(table), st1, ht, key);
                lemma_aside(st, owned(table), st1, ht, value);
                lemma_any_register_or_constant(st1, key);
                if let Ok((st2, k)) = any_register_or_constant(st1, key) {
                    let hk = held_operand(key, k);
                    lemma_aside(st1, owned(key), st2, hk, ht);
                    lemma_aside(st1, owned(key), st2, hk, value);
                    lemma_any_register_or_constant(st2, value);
                    if let Ok((st3, v)) = any_register_or_constant(st2, value) {
                        let hv = held_operand(value, v);
                        lemma_aside(st2, owned(value), st3, hv, ht);
                        lemma_aside(st2, owned(value), st3, hv, hk);
                        lemma_emit(st3, set_table_op(t, k, v));
                        lemma_spares_emit(st3, set_table_op(t, k, v), kept);
                        assert(kept.subset_of(rest(st, owned(table))));
                        assert(kept.subset_of(rest(st1, owned(key))));
                        assert(kept.subset_of(rest(st2, owned(value))));
                        assert(used(st3) =~= rest(st, o).union(owned(ht)).union(owned(hk)).union(
                            owned(hv),
                        ));
                    }
                }
            }
        },
    }
}

/// Writing a field gives back the table, the key and the value.
#[verifier::spinoff_prover]
pub proof fn lemma_write_field(st: State, table: Desc, key: Desc, value: Desc)
    requires
        inv(st),
        holds(st, table),
        holds(st, key),
        holds(st, value),
        owned(table).disjoint(owned(key)),
        owned(table).disjoint(owned(value)),
        owned(key).disjoint(owned(value)),
    ensures
        match write_field(st, table, key, value) {
            Ok((st1, ())) => {
                &&& gives_back(st, owned(table).union(owned(key)).union(owned(value)), st1)
                &&& desc_supported(table)
                &&& desc_supported(key)
                &&& desc_supported(value)
            },
            Err(h) => sound(
                h,
                desc_supported(table) && desc_supported(key) && desc_supported(value),
                weight(table) + weight(key) + weight(value),
            ),
        },
    decreases weight(table) + weight(key) + weight(value), 5nat,
{
    broadcast use {group_state, group_spares};

    reveal(write_field);
    let o = owned(table).union(owned(key)).union(owned(value));
    lemma_set_table(st, table, key, value);
    if let Ok((st1, (t, k, v))) = set_table(st, table, key, value) {
        lemma_release_both(st1, t, k);
        let st2 = release_both(st1, t, k)->Ok_0.0;
        lemma_aside_back(st1, owned(t).union(owned(k)), st2, v);
        lemma_release(st2, v);
        let st3 = release(st2, v)->Ok_0.0;
        assert(used(st3) =~= rest(st, o));
        assert(rest(st, o).subset_of(rest(st1, owned(t).union(owned(k)))));
        assert(rest(st, o).subset_of(rest(st2, owned(v))));
    }
}

} // verus!
