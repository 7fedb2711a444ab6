# fluxpack

A verified library for the FluxPack binary format: a symbol-table protocol for
JSON-like messages in which the first message sends DEF frames (key to token) and
later messages send only DATA frames that name keys by token.

- `src/` is the library, written and proved with Verus: varints, the symbol table,
  encoder and decoders (standard, fast, zero-copy, streaming), inline and columnar
  encodings, delta encoding, tensors and ML helpers, and zstd compression behind
  trusted wrappers. Each public function carries a contract over spec models, and
  the `law_*` proof functions state the round-trip properties between writers and
  readers.
- `tests/` runs the library on concrete values.
- `app/` holds what Verus does not take: the serde bridge, error display, rayon and
  pyo3 glue, and the floating-point helpers.
