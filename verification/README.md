# seam-core

The Seam validation engine: a `.seam` schema compiled once, and payloads
validated against it with the same verdict in every host language.

The engine is written in Verus and proved against its contracts:

- `src/parser.rs` — the `.seam` lexer and parser, stated as functions over the
  source's characters and tokens; `src/schema.rs` — the compiled type model.
- `src/json.rs` — a JSON reader that never passes an integer through a float,
  with limits enforced while reading; `src/value.rs` — payloads, with absence
  and null kept apart.
- `src/validate.rs` — every issue of a payload against a type, in one pass;
  `src/datetime.rs`, `src/format.rs` — the date, instant and string-format
  checks; `src/error.rs`, `src/message.rs` — paths, codes and messages.
- `src/describe.rs`, `src/output.rs`, `src/host.rs` — what the bindings hand
  their hosts: the schema as plain data, the validated value rebuilt for the
  host, and the small decisions made at a host's edge.

`app/` holds the Python, Node and WebAssembly bindings, which only move values
between a host and the engine. `tests/` exercises the library as a caller does.
