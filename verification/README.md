# zf

The core of zf, a concatenative stack-based language, written in Verus and
proved against its specifications.

- `src/token.rs` — tokens and number literals, with their mathematical views.
- `src/env.rs` — the environment (data stack, variables, dictionary, return
  stack); `findword` and `addword`, and the laws of the dictionary.
- `src/text.rs`, `src/number.rs` — characters and strings; the texts that
  `f64::from_str` accepts.
- `src/lexer.rs` — the reader from source text to tokens (`lex`, `parse`),
  specified by `lex_spec`, byte-exact in how it slices nested definitions and
  quotations.
- `src/parser.rs` — the reader from a parse tree of the zf grammar to tokens.
- `src/machine.rs` — the inner interpreter, one step at a time; primitives are
  run by the program around the library.
- `src/invariants.rs` — well-formedness of dictionaries and interpreter states,
  the laws that the readers and the interpreter keep it, what the readers do
  to words already defined, and the halting of programs whose calls never
  come back to a running word.
- `app/` — the program: reading standard input, the run loop with its
  primitives, floating-point conversions and printing. `app/tree.rs` offers
  the conversion of a pest parse tree into the library's parse tree, for a
  front end built on a pest grammar; the program itself reads source text
  with `lex`.
