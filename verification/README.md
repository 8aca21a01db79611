# lib

A verified core of a make tool, written in Verus. The library holds the
logic; `app/` holds what talks to the system.

- `parser`, `stopchar`: classifying makefile lines and bytes, unquoting, `%`
  patterns.
- `read`: conditionals, variable-assignment modifiers, special targets,
  reading lines into a buffer (`read::lines`), file sequences and
  prerequisite lists (`read::file_seq`), `define` bodies (`read::define`), the
  include search path and `~` expansion (`read::include_path`), recording a
  rule's targets in the file table (`read::record`).
- `rule`: the pattern-rule database, suffix-rule conversion, printing.
- `file`, `dep`, `recipe`, `execctx`: the file table, prerequisite edges,
  recipes and the run's context.
- `remake`, `remake::consider`: deciding what to remake and in which order,
  finishing targets, goal chains.
- `plugin`: plugin settings, capabilities and node sets.
- `posixos`, `remote_stub`: jobserver bookkeeping and the remote-job stub.

Work only the system can do (file times, running recipes, the jobserver
pipe, reading files) reaches the library through traits such as
`remake::UpdaterWork` and `read::file_seq::FileSeqEnv`; the program around
the library is to implement them, and `app/` does not do so yet.

Not in the library yet: the evaluator of makefile lines (`eval`, with
`eval_makefile`'s choice of the names to try), and the decisions of
`f_mtime` (archive members, directory and library search, renaming,
clock skew), which the updater reaches only through `UpdaterWork`.
