//! A compiler from the syntax tree of a Lua chunk to the instructions of a register machine.

pub mod compiler;
pub mod function;
pub mod opcode;
pub mod parser;
pub mod value;
