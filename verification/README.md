# GhostFS

GhostFS keeps JavaScript packages once, in a global content-addressed store
(`~/.ghostfs/store/`), and resolves them from there instead of from a
per-project `node_modules/`. The `ghost` command initializes projects, adds
and removes dependencies, resolves and installs them into the store, links
them into `node_modules/` on request, and runs scripts with `NODE_PATH`
pointing at the store.

## Layout

- `src/` is the library, written in Verus and verified: the manifest and
  lockfile models, npm range normalization and version choice, the
  dependency walk as a state machine, the store layout, tree hashing, the
  bookkeeping of installs and links, the project templates, and the
  decisions behind the commands. Calls into `semver`, `sha2` and `hex` sit
  behind small trusted wrappers whose contracts say what those crates do.
- `app/` is the `ghost` executable: argument parsing, file and network I/O,
  SQLite, archives, processes and terminal output, each step handing plain
  values to the library and acting on what it returns.
- `tests/` exercises the library on concrete values.
