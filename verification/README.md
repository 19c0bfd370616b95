# disky

A disk-usage analyzer: `disky scan` walks a directory tree into a DuckDB
snapshot, and the query commands (`top`, `dirs`, `ext`, `find`, `stats`,
`diff`, `growth`, `cleanup`, `forget`, ...) read snapshots back as text
tables, JSON envelopes or NDJSON. An interactive browser (`disky tui`)
shows the tree with sizes.

## Layout

- `src/` — the library, verified with Verus: the retention-policy planner,
  the filter language and its `LIKE` matcher, cleanup-target selection and
  ranking, snapshot ids and spec resolution, duration parsing, error
  classification, record shaping, text fitting, and the browser's state
  machine. Contracts are stated over `Seq`/`Map` models; laws relating
  several operations are public `law_*` proof functions.
- `app/` — the program around the library: command-line parsing, the
  configuration file, the filesystem walk, DuckDB queries, terminal output
  and the ratatui front end.
- `tests/` — tests of the library through its public interface.
