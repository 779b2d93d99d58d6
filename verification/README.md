# latte_compiler

A compiler front end and code generator for Latte, a small Java-like teaching
language, producing LLVM IR. The library is written in Verus: every function in
`src/` carries a contract that Verus proves, but for a few small wrappers around
`std` string operations and the `colored` crate, whose contracts are trusted.

Layout of `src/`:

- `text.rs`: string building (decimal numbers, repetition) with exact contracts.
- `name_map.rs`: a map from names to values that remembers insertion order.
- `codemap.rs`, `frontend_error.rs`: source positions and error reports.
- `parser/`: comment erasure, constant folding of literal operands, and the
  glue around the grammar, which is passed in as a function.
- `model/`: the syntax tree (`ast.rs`), the intermediate representation
  (`ir.rs`) and how LLVM writes it (`ir_text.rs`).
- `semantics/`: global declarations, class hierarchy, and type checking of
  bodies, specified by the functions of `typing.rs`, which also say how a
  checked body is rewritten (accesses through `this`, conversions).
- `codegen/`: class layouts, per-function code generation into basic blocks,
  and the whole-program driver. Every generated function has a control flow
  graph whose jumps and predecessor lists agree, phi functions that take one value per predecessor, and
  is in static single assignment form: each register is defined once, and each
  register read is defined somewhere or holds a parameter. What the code of
  an expression computes is stated (`computes`), as are the effects of
  `return`, `++`, `--` and assignments.

`app/main.rs` is the command line program: it reads a file, runs `compile`
with the parser generated from the grammar, writes the `.ll` file and calls the
LLVM tools and `gcc`.
