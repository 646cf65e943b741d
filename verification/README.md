# adashi

The verified core of Adashi, a design and task memory for coding agents: the formal C4/UML
design model, its validation, save planning and the effect of each saved change, read tokens
and optimistic concurrency for edits, the project-wide grep, the design-health scan, rule
injection, and the help that the MCP tools publish.

- `src/` is the library, written in Verus. Every function states its behaviour in `requires` /
  `ensures` and is proved; laws that relate several functions are public proof functions named
  `law_*`.
- `tests/` exercises the library on concrete values.
- `app/` is the I/O around it: reading and writing the SQLite design store, probing the
  project folder for the health scan, and writing the Structurizr JSON source.

Calls into other crates go through a few small trusted items, each documented where it is
declared: `serde_json` (JSON string literals), `sha2` (SHA-256 digests) and std's Unicode
lower-casing and alphanumeric test.
