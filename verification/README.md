# JordanCalculus

A compiler from JordanCalculus, an untyped call-by-value lambda calculus written
in Katakana, to a WebAssembly text module, and a small language server that
answers go-to-definition requests. The library under `src/` is verified with
Verus: every public function states its result exactly, over mathematical
models of its inputs.

```text
program    ::= line*
line       ::= expression | definition | import | comment | blank-line
comment    ::= え any-text
definition ::= 上げる variable は expression
import     ::= 貰う variable は path
expression ::= variable | J variable ッ expression
             | expression 足す expression | 「 expression 」
```

Layout:

- `src/` — the verified library (see the crate documentation in `src/lib.rs`).
- `app/` — the command-line programs: `main.rs` reads a program (or `--expr`),
  resolves its imports from disk, expands, parses and compiles it; invoked as
  `jordancalculus-lsp`, it serves the Language Server Protocol on standard
  input and output, with `app/lsp.rs` doing the JSON encoding.
- `tests/` — tests of the library on concrete inputs.
