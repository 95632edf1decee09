# grib

An interpreter for the Grib scripting language, whose front end and memory
manager are a library verified with Verus.

## Layout

- `src/lex`: the lexer. `lex` is proved equal to the specification `spec_lex`,
  token by token, locations included.
- `src/ast/parsing`: the parser. Operator precedence is the specification
  `resolve_spec`; a run of operators and one-token operands parses to exactly
  what `resolve_spec` gives, and with parentheses each group is one operand
  (`paren.rs`); operands joined by binary operators always parse, and a
  leading `-` is negation. A file or block parses to its statements in
  order, each the outcome of parsing that statement (`statements_of`,
  `body_of`), and calls, declarations and `for` headers are tied to their
  tokens. Statements are classified by their first token, an
  expression statement is the expression up to its semicolon, hash literals
  keep each key once, strings are interned once, and every index in a parsed
  program refers to an entry that exists.
- `src/ast/analysis`: the reference check. When it succeeds, every name that
  the main program, a procedure or a module procedure uses is declared
  before it, a parameter, an import or a procedure, and every name it assigns
  is a variable declared with `decl` (or a parameter); `break`, `continue`
  and `return` stand only where they may. `accepted.rs` states which
  programs it accepts; for programs without lambdas, getters and setters it
  succeeds exactly on those; it reports the first error met, with its kind
  and place, for every program whose error comes before any lambda, getter
  or setter body.
- `src/runtime`: values, hashes, the stack and the heap with its collector.
  A collection keeps exactly the cells reachable from the stack, frees the
  others, and a second collection changes nothing; reads of a hash give back
  what the last write stored. `exec.rs` decides the order in which a block
  runs: `block_step` takes a block's state and the outcome of the last piece
  of work and says what to do next (which statement, which branch of an `if`
  chain, another pass of a loop, which cells to pop).
- `app/`: the command-line program: it reads the files, prints the checked
  tree as JSON and runs the program, driving `block_step`. Grib numbers are
  doubles, so evaluation and the native packages live here, on top of the
  library's memory.
- `tests/`: scenarios for the lexer, parser, analysis and runtime.
