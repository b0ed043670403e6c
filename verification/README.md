# mdx_ext

A markdown engine with first-class block directives (`:::name ... :::`),
inline directives (`{{name key="value"}}`) and wiki / namespaced links
(`[[Page|Label]]`, `[[ns:target]]`), on top of the CommonMark/GFM parser of
`comrak`. Directives are resolved by a pluggable runtime; their outputs are
spliced back into the tree under a configurable resolution mode with bounded
reparse depth and a per-document directive budget.

The library in `src/` is written in Verus and verified:

- `parser/` — the preprocessor that replaces custom syntax by placeholder
  tokens (`preprocess`, `registry`), a reader of the tree `comrak` builds
  (`tree`), and the translation of that tree into the owned AST with the
  placeholders restored (`comrak_adapter`);
- `syntax` — the `key=value` attribute tokenizer;
- `ast`, `span`, `diagnostics`, `config` — the data model;
- `transform/` — normalization and directive resolution;
- `render/` — HTML, plain text and debug renderers;
- `runtime/` — the runtime trait, the bookkeeping of a script runtime's
  handlers, and the reading of a script handler's return value;
- `engine` — the builder and the parse / resolve / render pipeline.

Each function's contract states its result over spec functions; the laws
(placeholder round trips, idempotent normalization, escaping, read-after-write
of attribute maps and handler tables, unloading reversing only a script's own
registrations, plain text passing the preprocessor unchanged, the preprocessor
running on every source and numbering its entries in source order, lenient
resolution adding no errors of its own) are public proof functions next to the
code they are about. Resolution is stated over the runtime's answers. `DirectiveRuntime::answers`
is the runtime's own statement of what `execute` may return for an invocation
(a runtime that states nothing allows any answer); every recorded call is such
an answer to the invocation resolution handed over, and given those calls the
resolved document and its diagnostics are fixed, within the reparse depth and
the directive budget.

`app/` holds what Verus does not see: the Lua runtime (through `mlua`) and
copies of the error and value types with `Display` and serde's traits.
