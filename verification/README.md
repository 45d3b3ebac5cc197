# disk_tree

A terminal disk-usage browser: it walks a directory, folds the entries into a tree of
sizes (hard links counted once, directories as large as their contents), sorts every
level by size, flags cache directories, and lets the user navigate the tree and move
entries to the Trash.

The library under `src/` is verified with Verus:

- `scanner` — own sizes of the walked entries, the sorted tree, the whole scan;
- `fold` — the bottom-up folding of walked paths into a tree, with its exact specification;
- `pathkey`, `paths` — lookup keys for paths, and the `std::path` calls behind them;
- `highlight` — cache and Homebrew flags;
- `trash` — Trash destinations and removing an entry from the tree;
- `ui` — navigation, key handling, header, list rows and status bar;
- `text` — small string helpers and size formatting.

The fold looks walked paths up in vstd's `StringHashMap`, keyed by a text encoding of each
path's components (`pathkey`): vstd specifies no map keyed by `PathBuf`, and `PathBuf`
itself has no view that a contract could speak of. Two paths get the same key exactly when
their components are equal (`lemma_encode_injective`), which is when `Path`'s `==` finds them
equal (`lemma_key_matches_path_equality`), so the lookups find what a map keyed by `PathBuf`
would find.

`app/` holds the program around it: command line, the directory walk, `brew --cache`,
the Trash rename, and drawing with ratatui.
