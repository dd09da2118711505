# rds

A dependency analyzer for JavaScript, TypeScript and Vue projects: it builds
the dependency tree of the given files, finds circular dependencies, prints
the tree and the cycles or writes them as JSON, and can watch the files and
analyze again after changes.

## Layout

- `src/` is the library, verified with Verus. Every function states its
  behaviour in `requires`/`ensures` over mathematical models (`Seq`, `Set`,
  `Map` and views of the data types), and the laws that relate several
  functions are public proof functions.
  - `types`, `strmap`, `setmap`: dependencies, the dependency tree and the
    maps behind it.
  - `circular`: cycle detection, with the cycles in canonical form; the
    list reported is stated exactly as a recursive specification of the
    depth-first search.
  - `reverse_index`, `incremental`: the reverse index of the tree, the set
    of modules a change affects, and the choice between reuse, a partial
    rebuild merged into the last tree, and a full build.
  - `resolver`, `resolve`, `paths`: module resolution decisions, the
    resolver's memo and caches, the fields read from package manifests and
    tsconfig files, path normalisation and the stored form of paths.
  - `builder`: file selection by patterns and extensions, the expanded
    entry list, and the bookkeeping of the breadth-first build.
  - `jsparse`, `parser`: comment removal and the JavaScript and Vue parsers
    with their registry.
  - `cache`: the per-file cache of parsed dependencies.
  - `cli`, `config`, `filesystem`, `utils`, `logger`, `console`, `runner`,
    `watch`, `text`: options, input files, events, exit codes, logging, the
    printed reports, watch-mode state and string helpers.
- Outside crates are called from `src/` through a few trusted wrappers
  (`regex`, `console`, `serde_json`, and std's path, hashing and character
  functions),
  each with a contract that names or states its result.
- `app/` is the `rds` program: argument parsing with `clap`, file system
  and terminal work, the `tokio` tasks, the `notify` watcher, progress bars
  and JSON output. It calls the library for every decision.
- `tests/` runs the library on concrete values.
