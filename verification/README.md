# js2ts_migrator

Migrates JavaScript sources (`.js`, `.jsx`, `.mjs`, `.cjs`) to TypeScript by
annotating variable declarations with types inferred from their initializers.

- `src/` is the verified library (Verus): the path model that picks inputs and
  names outputs (`paths`, `file_processor`), the decisions of a run over a file
  or a directory (`processor`), type inference and annotation choice
  (`migrator`, `type_map`), the upload endpoint's answers (`server`), the
  command line (`cli`), messages (`error`) and text helpers (`text`).
  Parsing and printing call `swc` through a few trusted wrappers in `migrator`.
- `app/` is the program around it: argument parsing with clap, file and
  directory I/O, the `swc` visitor impls that read and rewrite the syntax tree,
  and the axum web server.
- `tests/` exercises the library, including end-to-end parsing and printing.
