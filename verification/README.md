# rmake library, verified

The logic of a small build tool for C/C++ projects, written in Verus and
proved against its contracts:

- `src/cache.rs` — the incremental cache: paths, the per-source records, the
  text of the cache file (writing and reading it back), the choice of the
  sources that need rebuilding, and the records made from examined sources.
- `src/setup.rs` — creating and cleaning the cache directory, as a state
  machine whose file-system operations the caller performs.
- `src/scan.rs` — the breadth-first listing of the object files.
- `src/config.rs` — named sections of key/value entries; no key occurs twice in a section.
- `src/run.rs` — the `run` section and the command that runs the target.
- `src/compile.rs` — the `build` section and the compile and link command lines.
- `src/text.rs` — strings as character sequences: splitting, words, decimal
  numbers, prefixes and suffixes.
- `src/error.rs` — the error type.

`app/` holds the file-system and process side; `tests/` the tests.
