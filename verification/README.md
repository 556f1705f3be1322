# babel

The front and middle of a compiler for Babel, a small, statically typed,
call-by-value language with parametric polymorphism and type inference,
written in Verus: each pass and data structure carries a contract that
Verus proves.

## Layout

- `src/parsing/` — the lexer and the term parser, as functions on the
  source text, with the tokens and the accepted grammar stated as spec
  functions.
- `src/ast.rs`, `src/idtree.rs`, `src/hir.rs`, `src/xir.rs`, `src/ir*`,
  `src/mir.rs`, `src/monoir.rs` — the program representations the passes
  hand on.
- `src/rename.rs` — name resolution: binds every name to a fresh symbol;
  its contract states which programs it accepts and how each use is
  resolved.
- `src/lambda_lift.rs` — moves every function that is not bound at the top
  level out to a declaration of its own; its contract states the output
  exactly, new symbols and their numbering included.
- `src/types/`, `src/typecheck/` — types, substitutions, the unification
  table, the typing environment, and the pass that writes the solved
  substitution into an explicitly typed expression.
- `src/text.rs` — appending to strings and writing numbers, used for names
  and for the texts of error messages.
- `src/scoped_map.rs`, `src/union_find.rs`, `src/utils/` — the scoped map,
  the disjoint-set forest, the graph and Tarjan's strongly connected
  components.
- `tests/` — tests run against the compiled library.
- `app/` — the command line: reads a file and prints the parsed term.
