# snake

A compiler for a small expression language ("snake"), with a reference
interpreter, written in Verus and verified.

The library (`src/`):

- `syntax` — surface and sequential expressions, programs, numbering of
  nodes and renaming of `let`-bound names.
- `compile` — the static checker and its errors.
- `sequentialize` — translation to sequential (A-normal) form.
- `liveness`, `regalloc`, `graph`, `vars` — live variables, the conflict graph,
  and register allocation by graph colouring.
- `codegen`, `assembly` — x86-64 code generation and its text.
- `measure` — sizes of expressions and how the passes change them.
- `scoping` — every variable that a compiled body reads is a parameter or
  bound around the read, from the checker through the passes to the code
  generator (and a program that never prints the stack keeps so).
- `interp`, `progress` — the interpreter as an abstract machine, one step at a
  time, and the proof that no run of a checked program gets stuck in it.
- `runtime`, `text`, `lexer`, `runner` — value encoding, number printing,
  source locations and the driver's errors.
- `list`, `vecset`, `vecmap`, `view_eq` — small containers.

The code generator does not implement `printStack`; `compile_to_string`
takes only programs without it (`compile_ready`).

`app/` is the driver: it reads files, runs the interpreter loop with printing,
and assembles, links and runs compiled code. `tests/` exercise the library.
