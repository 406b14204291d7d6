# dagflow

Workflow orchestration whose logic is verified with Verus: graphs of tasks and
their topological orders, DAGs built from what is written down, runs that stop at
the first failure, lineage records and their drawing, scheduled jobs and
backfills.

- `src/` is the library. Every executable function states in its contract what it
  returns; laws that relate several functions are public proof functions.
- `app/` is the `dag` command: argument handling, files, the SQLite store, the
  `forjar` program and the ticking scheduler around the library.
- `tests/` runs the library, with the real crates behind it.

The library calls `petgraph`, `indexmap`, `serde_json`, `chrono`, `cron` and `uuid`
through small functions whose contracts are trusted; each says in its doc comment
which outside function it stands for and what is claimed of it.
