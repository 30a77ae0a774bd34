# ruta

The front end of a Lua 5.5 implementation, and the parts of its runtime that hold values,
written in Verus: each function states what it does in `requires` / `ensures`, and Verus proves
the code against it.

## Layout

- `src/` — the verified library.
  - `lexer/`, `token.rs`, `line_index.rs`, `near.rs`, `error.rs`: bytes to tokens, with the
    lexical grammar as a spec function, and the error messages `luac` gives.
  - `parser.rs`, `parser/`, `ast.rs`, `operator.rs`: tokens to a syntax tree whose node ids only
    point at nodes made before them.
  - `scope.rs`, `scope/`: name resolution — locals, upvalues, globals and `global` declarations,
    gotos and labels.
  - `heap/`: interned strings and Lua tables (array and hash parts, `next`, borders).
  - `stack/`, `call.rs`, `cells.rs`, `loops.rs`, `ops.rs`, `arith.rs`, `base.rs`, `origin.rs`,
    `raise.rs`, `value.rs`, `number.rs`, `text.rs`: the runtime's values, stacks and frames, frame
    entry and results, upvalue cells, counted loops, the operators that need no floating point,
    and the pieces of error messages.
  - `corpus.rs`, `reference.rs`: the logic of the repository tasks (selecting parse-test chunks,
    choosing the reference build's sources).
- `tests/` — tests run against the compiled library.
- `app/` — ordinary Rust around the library: the repository tasks' command line and file work,
  and the bytecode machine (`app/vm/`), which decodes instructions of the bytecode crate and
  computes in floating point.
