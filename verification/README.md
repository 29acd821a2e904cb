# lab6_tac

A small compiler back end, verified with Verus:

- `ast` — the source language (types, expressions, statements, functions)
  and the model of its types;
- `symbol_table`, `checker`, `messages` — nested scopes and the type checker,
  with the exact text of every error it reports;
- `tac`, `codegen` — three-address code and its generation from the AST;
- `optimize` — constant folding, copy collapsing, removal of dead
  temporaries and of unreachable code;
- `interpreter`, `order` — an interpreter for the generated code, with a
  step limit and an optional per-step record of memory;
- `pipeline` — type checking, then generation, optimisation and running;
- `laws` — properties proved of every input;
- `evaluation` — what an expression's value is, and the proof that its
  generated code computes it;
- `equivalence` — what each optimisation pass keeps of a run;
- `text` — decimal rendering of numbers.

`app/main.rs` runs two demo programs and prints the code, statistics and
results.
