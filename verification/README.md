# aiken_lsp

The language features of the Aiken language server as a verified library:
semantic highlighting, completion, inlay hints, signature help, workspace
symbols and renaming. Each feature reads a plain model of a type-checked module
and answers with plain values; the contracts state exactly what each answer is,
and Verus proves the code against them.

- `src/` — the library, verified with Verus. `span` holds the line table that maps
  byte offsets to editor positions; `ast` the model of a type-checked module;
  `text` the string operations the features share; one module per feature.
- `tests/` — tests on concrete values.
- `app/` — the server around the library: the stdio transport, document
  compilation with `aiken-lang`, and the conversions to and from the protocol's
  types.
