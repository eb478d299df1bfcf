//! Compiles chunks to instructions for a register machine.

mod cast;
pub mod delivery;
pub mod effects;
pub mod environment;
pub mod error;
pub mod evaluation;
pub mod execution;
pub(crate) mod expression;
pub mod instructions;
pub mod laws;
pub mod machine;
pub mod meaning;
pub mod model;
pub mod names;
pub mod operators;
pub mod order;
pub mod ownership;
pub mod performance;
pub mod placing;
pub mod reference;
pub mod register_allocator;
pub mod scope;
pub mod semantics;
pub mod simulation;
pub mod size;
pub(crate) mod state;
pub(crate) mod statement;
pub mod support;
pub mod tables;

pub use crate::compiler::error::{CompilerError, Feature, Halt};

use crate::compiler::environment::chunk_uses;
use crate::compiler::laws::{
    law_chunk_interface, law_no_internal_failure, law_supported, law_well_formed,
};
use crate::compiler::model::{compilation, reason, Stop};
use crate::compiler::order::proto_ok;
use crate::compiler::semantics::{faithful, law_faithful};
use crate::compiler::state::Compiler;
use crate::compiler::support::chunk_supported;
use crate::function::{FunctionProto, UpValueDescriptor};
use crate::parser::Chunk;
use vstd::pervasive::unreached;
use vstd::prelude::*;

verus! {

/// Compiles a chunk, or says why it cannot be compiled.
pub fn try_compile_chunk(chunk: &Chunk) -> (result: Result<FunctionProto<'_>, Halt>)
    ensures
        match compilation(*chunk) {
            Ok(p) => result is Ok && result->Ok_0@ == p,
            Err(stop) => result is Err && stop == reason(result->Err_0),
        },
        result matches Ok(proto) ==> {
            &&& chunk_supported(*chunk)
            &&& proto_ok(proto@)
            &&& proto.fixed_params == 0
            &&& !proto.has_varargs
            &&& proto.upvalues@ == (if chunk_uses(*chunk) {
                seq![UpValueDescriptor::Environment]
            } else {
                Seq::empty()
            })
            &&& faithful(*chunk, proto@)
        },
        chunk_supported(*chunk) ==> !(result matches Err(Halt::Unsupported(_))),
{
    proof {
        law_well_formed(*chunk);
        law_chunk_interface(*chunk);
        law_no_internal_failure(*chunk);
        law_supported(*chunk);
        law_faithful(*chunk);
    }
    let none: &'static [Box<[u8]>; 0] = &[];
    let mut compiler = Compiler::new();
    let parameters: &'static [Box<[u8]>] = none.as_slice();
    assert(parameters@ =~= Seq::<Box<[u8]>>::empty());
    compiler.compile_function(parameters, true, &chunk.block)
}

/// Compiles a chunk that has no parts which the compiler does not know.
///
/// The result is an error where the chunk exceeds a limit of the machine.
pub fn compile_chunk(chunk: &Chunk) -> (result: Result<FunctionProto<'_>, CompilerError>)
    requires
        !(compilation(*chunk) matches Err(Stop::Unsupported(_))),
    ensures
        match compilation(*chunk) {
            Ok(p) => result is Ok && result->Ok_0@ == p,
            Err(stop) => result is Err && stop == Stop::Error(result->Err_0),
        },
        result matches Ok(proto) ==> {
            &&& chunk_supported(*chunk)
            &&& proto_ok(proto@)
            &&& proto.fixed_params == 0
            &&& !proto.has_varargs
            &&& proto.upvalues@ == (if chunk_uses(*chunk) {
                seq![UpValueDescriptor::Environment]
            } else {
                Seq::empty()
            })
            &&& faithful(*chunk, proto@)
        },
{
    match try_compile_chunk(chunk) {
        Ok(proto) => Ok(proto),
        Err(halt) => match halt {
            Halt::Error(error) => Err(error),
            Halt::Unsupported(_) => unreached(),
        },
    }
}

} // verus!
