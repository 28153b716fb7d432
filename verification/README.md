# ice_finder

A tool for narrowing down which source files of a crate make `cargo fmt`
crash with an internal compiler error. The user picks files from a list;
the tool copies them (and every module file they declare, transitively)
into a temporary workspace, runs `cargo fmt` there, and records for each
file whether the run crashed.

Layout:

- `src/` — the library, verified with Verus:
  - `text.rs`: character helpers (`push_char` is the one trusted item).
  - `path_norm.rs`: `normalize_manifest_path` and its laws.
  - `history.rs`: `History`, a map from canonical path to outcome.
  - `rel_path.rs`: relative paths as components and their order.
  - `entries.rs`: ordering the walked files and building the choices.
  - `mod_decls.rs`: the scanner for `mod foo;` declarations.
  - `module_walk.rs`: which module files are copied and still to be read.
  - `fmt_run.rs`: rewriting the copied manifest and reading the outcome.
- `app/main.rs` — file system, process, terminal picker and JSON I/O.
- `tests/` — tests of the library, including a comparison of the
  declaration scanner with the `regex` crate.
