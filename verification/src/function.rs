//! Compiled functions.

use crate::opcode::{OpCode, RegisterIndex, UpValueIndex};
use crate::value::{Value, ValueView};
use vstd::prelude::*;

verus! {

/// Where a closure finds one of its upvalues when it is created.
#[derive(Debug, Clone, Copy, PartialEq, Eq, Structural)]
pub enum UpValueDescriptor {
    /// The environment that the chunk is given.
    Environment,
    /// A register of the enclosing function.
    ParentLocal(RegisterIndex),
    /// An upvalue of the enclosing function.
    Outer(UpValueIndex),
}

/// A compiled function, with the functions that are written inside it.
#[derive(Debug, PartialEq)]
pub struct FunctionProto<'a> {
    pub fixed_params: u8,
    pub has_varargs: bool,
    pub stack_size: u16,
    pub constants: Vec<Value<'a>>,
    pub opcodes: Vec<OpCode>,
    pub upvalues: Vec<UpValueDescriptor>,
    pub prototypes: Vec<FunctionProto<'a>>,
}

/// What a [`FunctionProto`] holds, with sequences for vectors.
#[verifier::ext_equal]
pub struct ProtoView {
    pub fixed_params: u8,
    pub has_varargs: bool,
    pub stack_size: int,
    pub constants: Seq<ValueView>,
    pub opcodes: Seq<OpCode>,
    pub upvalues: Seq<UpValueDescriptor>,
    pub prototypes: Seq<ProtoView>,
}

/// The views of a list of values.
pub open spec fn values_view(values: Seq<Value<'_>>) -> Seq<ValueView> {
    values.map_values(|v: Value<'_>| v@)
}

/// The view of a compiled function.
pub open spec fn proto_view(proto: FunctionProto<'_>) -> ProtoView
    decreases proto,
{
    ProtoView {
        fixed_params: proto.fixed_params,
        has_varargs: proto.has_varargs,
        stack_size: proto.stack_size as int,
        constants: values_view(proto.constants@),
        opcodes: proto.opcodes@,
        upvalues: proto.upvalues@,
        prototypes: protos_view(proto.prototypes@),
    }
}

/// The views of a list of compiled functions.
pub open spec fn protos_view(protos: Seq<FunctionProto<'_>>) -> Seq<ProtoView>
    decreases protos,
{
    if protos.len() == 0 {
        Seq::empty()
    } else {
        protos_view(protos.drop_last()).push(proto_view(protos.last()))
    }
}

impl<'a> View for FunctionProto<'a> {
    type V = ProtoView;

    open spec fn view(&self) -> ProtoView {
        proto_view(*self)
    }
}

} // verus!
