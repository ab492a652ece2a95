# gams_lsp

A language server for GAMS models, built around a library whose behaviour
is stated in `requires`/`ensures` contracts and proved with Verus.

- `src/` is the verified library: the dollar-layer lexer and condition
  evaluator, the body text and source map handed to the parser, the symbol
  table, the editor features (references, hover, completion, diagnostics,
  position mapping), edits to an open document, and the walk over the
  `$include` graph. `src/laws.rs` states and proves properties that span
  these functions.
- `app/` is the server itself: the LSP plumbing over stdio, the GAMS
  grammar's parser and the conversion of its tree into the library's model,
  reading included files, and the store of open documents.
- `tests/` runs the library on concrete inputs.
