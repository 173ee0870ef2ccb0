# update_sync

One-way sync from a source directory to a target directory, by file presence and modification
time. The rules are a library verified with Verus; a thin command-line program does the I/O.

- `src/` is the library. `rules` and `snapshot` turn ignore files and a walk into what a tree
  holds, `plan` compares two trees, and `session` carries a plan out, one file-system request at a
  time. `message` and `resolve` hold the texts and the path decisions.
- `src/laws.rs` states and proves what holds of every session and plan, `src/walk_laws.rs` what a
  snapshot tells of the tree that was walked, `src/convergence.rs` what tasks do to a file system,
  `src/mirror.rs` what a sync makes of the target, and `src/ignore_laws.rs` that what is ignored
  stays as it is, all over the file-system model in `src/model.rs`.
- `tests/` runs the library, with a file system in memory.
- `app/` is the program: arguments, walking, reading and writing.

The `ignore` crate decides which paths gitignore rules match. What is believed of it is stated at
the wrappers in `src/rules.rs`.
