# solowork

A small scripting language with `let`/`let mut` bindings, integer, string
and bool values, arithmetic with the usual precedence, comparisons,
`print`, `if`/`elif`/`else` and `while` — and a lexer and interpreter whose
behaviour is specified and proved with Verus.

Layout:

- `src/text.rs` — decimal text of integers and the value of digit strings.
- `src/compiler.rs` — the registry of source files, and the lines of a source
  text that error reports quote.
- `src/tokenize.rs` — tokens and the lexer. `lex_token` defines one step of
  the lexer over its state `LexState`; `next_token`, `peek_token`, `next` and
  `tokenize` are proved to follow it.
- `src/semantics.rs` — what programs mean: expression evaluation, statements,
  and `machine_step`, one step of the interpreter over a `MachineState`
  (position, variables, entered blocks). `law_block_skips_alike` proves that
  skipping a block stops at the same `}` where running it ends.
- `src/interpret.rs` — the interpreter. `Interpret::step` runs one step and is
  proved to do what `machine_step` says; `Interpret::run` runs a bounded number
  of steps; `report_line` builds the line that reports a failure.
- `app/main.rs` — the command-line program: reads the script file, runs the
  interpreter step by step, prints its output and reports the first error.

Integer arithmetic wraps around on overflow, as a release build of Rust
does; dividing the least integer by -1 aborts with a panic.
