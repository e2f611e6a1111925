# Sentinel

Sentinel keeps Ruby sources and their RBS signatures in sync. Methods,
attributes and type aliases carry their types in `#:` and `# @rbs` comments;
Sentinel reads them off the syntax tree that tree-sitter builds and writes one
`.rbs` file per Ruby file, either once (`sentinel init`), on every save
(`sentinel watch`), or as a read-only comparison for CI (`sentinel check`).

## Layout

`src/` is the library, written in Verus: every function there carries a
contract that Verus proves.

- `text` — character-level helpers (trimming, prefixes, lines).
- `syntax` — the plain syntax-tree model and the conversion from tree-sitter.
- `balance`, `annotations`, `format` — bracket balance, removal of
  `@desc(...)`-style annotations, multi-line layout of wide records and
  signatures.
- `shared` — `# @rbs import`: reading shared `.rbs` files and resolving an
  import with the shared types it mentions.
- `structure`, `emit`, `transpiler` — what a file declares, and its RBS text.
- `plugin` — lints over generated signatures.
- `config`, `paths`, `check`, `watch` — configuration, where signatures go,
  the verdict of `sentinel check`, and the watcher's bookkeeping.

Laws that span several functions are public proof functions named `law_*`.

`app/` is the command-line program around the library: configuration files,
directory walks, file reads and writes, the file watcher, and printing.
