//! Constants of the language.

use vstd::prelude::*;

verus! {

/// A constant value. Strings are borrowed from the syntax tree.
#[derive(Debug, Clone, Copy, PartialEq)]
pub enum Value<'a> {
    Nil,
    Boolean(bool),
    Integer(i64),
    /// A floating point number, by its IEEE 754 double precision bits.
    Number(u64),
    String(&'a [u8]),
}

/// What a [`Value`] denotes, with strings as byte sequences.
#[verifier::ext_equal]
pub enum ValueView {
    Nil,
    Boolean(bool),
    Integer(i64),
    Number(u64),
    String(Seq<u8>),
}

impl<'a> View for Value<'a> {
    type V = ValueView;

    open spec fn view(&self) -> ValueView {
        match *self {
            Value::Nil => ValueView::Nil,
            Value::Boolean(b) => ValueView::Boolean(b),
            Value::Integer(i) => ValueView::Integer(i),
            Value::Number(n) => ValueView::Number(n),
            Value::String(s) => ValueView::String(s@),
        }
    }
}

/// Whether two byte strings are the same.
pub fn bytes_equal(a: &[u8], b: &[u8]) -> (same: bool)
    ensures
        same == (a@ == b@),
{
    if a.len() != b.len() {
        return false;
    }
    let mut i: usize = 0;
    while i < a.len()
        invariant
            i <= a@.len(),
            a@.len() == b@.len(),
            forall|j: int| 0 <= j < i ==> a@[j] == b@[j],
        decreases a@.len() - i,
    {
        if a[i] != b[i] {
            return false;
        }
        i += 1;
    }
    assert(a@ =~= b@);
    true
}

impl<'a> Value<'a> {
    /// Whether two values are one and the same constant. Numbers count as the same only when
    /// their bits agree, and an integer is never the same as a number.
    pub fn same_constant(&self, other: &Value<'a>) -> (same: bool)
        ensures
            same == (self@ == other@),
    {
        match (*self, *other) {
            (Value::Nil, Value::Nil) => true,
            (Value::Boolean(a), Value::Boolean(b)) => a == b,
            (Value::Integer(a), Value::Integer(b)) => a == b,
            (Value::Number(a), Value::Number(b)) => a == b,
            (Value::String(a), Value::String(b)) => bytes_equal(a, b),
            _ => false,
        }
    }
}

} // verus!
