# infarter

A compiler for DryFart, a small language with typed values (`B%`, `C%`,
`N%`, `Z%`, `R%`), written in Verus. The parser takes assignments; the
later stages, on their own trees, also take loops. Each stage
states what it computes in `requires` / `ensures` contracts, and Verus
proves the code against them.

## Layout

- `src/util.rs`: Latin-1 strings, hashed symbols, ordered sets and maps,
  stacks.
- `src/tok.rs`, `src/lex.rs`: tokens and the lexer, with the lexical
  grammar as spec functions (`spec_lex`) and its error reports.
- `src/ast.rs`, `src/pars.rs`: the syntax tree and the parser (`spec_parse`).
- `src/asterix.rs`, `src/tast.rs`: the untyped and typed trees of the
  middle end.
- `src/semanal.rs`: type checking and name resolution (`typed_block`).
- `src/intrep.rs`: compilation into a graph of basic blocks (`compiled`).
- `src/optimus/`: peephole rules and the reduction and threading of
  jumps.
- `src/genesis.rs`: lowering of the graph into bytecode (`program_bytes`).
- `src/ssa_ir.rs`, `src/cgen.rs`: three-address code (`gen_prog`) and its
  C text (`program_c`).
- `src/dflib/`: the names and arities of the native library.
- `app/main.rs`: the command line: reads a source file, lexes and parses it,
  and prints the tree or the first token error.
- `tests/`: tests on concrete programs.
