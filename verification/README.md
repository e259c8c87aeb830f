# rust_code_scaner

A code scanner that splits Python sources into snippets (functions, lambdas and
compound statements) and normalizes them for comparison: comments and docstrings
are removed and identifiers are renamed to `var<n>` / `func<n>`.

The library (`src/`) is verified:

- `indexer::syntax` — the tree-sitter Python tree as plain values (nodes in
  pre-order with kind, byte range, rows, name range and depth), reached through
  a few trusted wrappers around tree-sitter.
- `indexer::declarations` — which nodes become snippets and what each holds.
- `indexer::normalize` — removal of byte ranges and renaming of identifiers in
  place, with the laws that removal deletes exactly the ranges, renaming
  substitutes exactly the identifiers (equal texts getting equal names), renaming
  a renamed text keeps it, and renaming does not depend on the identifiers'
  texts beyond which of them are equal.
- `indexer::text` — UTF-8 aware byte utilities (comparison, splicing, stable
  sorting of ranges, decimal rendering).
- `indexer::code_parser` — the public types, the `CodeParser` trait and
  `PythonParser`.
- `cli`, `database::models` — plain option and record types.

`app/` holds the command-line program: clap parsing, the PostgreSQL pool,
environment settings, file reading and the records with timestamps and scores.
