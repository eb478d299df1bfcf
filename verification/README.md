# lua_compiler

A compiler from Lua syntax trees to instructions for a register machine, verified with Verus.

`compiler::compile_chunk` compiles a chunk to a function prototype, or returns the limit of the
machine that the chunk exceeds. It is meant for chunks that keep to the part of the language
which the compiler knows; `compiler::try_compile_chunk` takes any chunk and also says what is
unknown in it.

## Layout

- `src/parser.rs`, `src/opcode.rs`, `src/value.rs`, `src/function.rs`: syntax trees,
  instructions, constants and compiled functions.
- `src/compiler/state.rs`, `expression.rs`, `statement.rs`: the compiler.
- `src/compiler/register_allocator.rs`, `operators.rs`, `cast.rs`, `error.rs`: its parts.
- `src/compiler/model.rs`: compilation as a mathematical function. Every step of the compiler is
  proved to do what this function says.
- `src/compiler/support.rs`, `environment.rs`: which chunks the compiler knows, and which refer
  to their environment.
- `src/compiler/laws.rs`: what holds of every compiled chunk. The proofs are in `order.rs`,
  `names.rs`, `effects.rs`, `ownership.rs`, `placing.rs`, `tables.rs`, `evaluation.rs`,
  `scope.rs`, `execution.rs` and `reference.rs`.
- `app/`: the same compiler for programs that keep their values in a garbage collected arena.
