# unused-buddy

A command-line tool that finds, lists and safely removes unused JS/TS code: files that
no entry point reaches, exports that nothing imports, and dynamic imports it cannot
follow. Its analysis is a library written in Verus and proved against its contracts.

## Layout

- `src/` — the verified library.
  - `text.rs`, `path.rs`: strings as character sequences, and Unix paths with the
    meaning `std::path::Path` gives them (components, equality, order, `join`, `parent`,
    `extension`, `with_extension`).
  - `order.rs`: stable insertion sort under a strict weak order, proved sorted and a
    rearrangement of its input.
  - `module.rs`: what a source file imports and exports, from the module record of the
    `oxc` parser and two CommonJS patterns of the `regex` crate.
  - `json.rs`: the texts of `tsconfig.json` and `package.json`, parsed by `serde_json`, and
    what the analysis reads from them.
  - `glob.rs`: glob sets of the `globset` crate.
  - `resolve.rs`: resolving an import specifier to a source file, as Node and
    TypeScript's `paths` do (extensions appended, then swapped, then directory indexes).
  - `graph.rs`: the depth-first walk of the import graph, proved to visit exactly the
    files the roots reach, each once.
  - `analyzer.rs`: source-file selection, the module map, the roots, the findings and the
    removal plan, with the laws that tie them together.
  - `config.rs`, `color.rs`, `help_ai.rs`, `output.rs`, `run.rs`: settings, color policy,
    the help for tools, the report's text (proved to differ from the colored text only
    by escape sequences), and the decisions of a run.
- `app/` — the program around the library: command-line parsing, file system access,
  TOML parsing of the configuration file, printing, and file removal.
- `tests/` — tests of the library on concrete inputs.
