# evilscheme

A small Scheme: a reader from source text to atoms, and an evaluator for atoms with
lexical scopes, closures and functions supplied by the host program. The library is
written in Verus; every function in `src/` is verified against its contract. Two contracts
are trusted: that of `String::push`, and that of a wrapper that writes a character in
Rust's debug form.

## Layout

- `src/atom.rs` — atoms and their mathematical model `Datum`.
- `src/location.rs`, `src/chars.rs`, `src/parse.rs` — the reader: character classes, the
  grammar of numerals, the specification of reading (`spec_parse`) and the reader itself,
  with line and column tracking.
- `src/scope.rs` — one scope of bindings.
- `src/semantics.rs` — the meaning of evaluation (`sem_eval`), given the answers of the
  host functions as a trace.
- `src/eval.rs` — the evaluator, proved to follow `sem_eval`.
- `src/builtins.rs` — argument checks of the built-in functions.
- `src/show.rs` — how atoms and errors are shown as text.
- `src/session.rs` — the answer of an interactive session to one line of input.
- `src/laws.rs`, `src/read_laws.rs` — properties of evaluation and reading that span
  several operations.
- `src/text.rs` — decimal numerals and string helpers.
- `app/main.rs` — the program: a read-eval-print loop or a file runner, and the host
  functions with their floating-point arithmetic, time and printing.
- `tests/` — tests of the library.

Numbers are kept as the numerals that denote them; the host computes with their values.
