# legixy

A directed-graph traceability engine: it keeps the links between the artifacts of a
project (specifications, use cases, designs, tests, source) as a graph, checks the
graph, and watches the meaning of linked documents drift through their embeddings.

The library under `src/` is verified with Verus; `app/` is the command-line program
around it.

- `src/graph.rs`, `src/subnode.rs`, `src/cycle.rs`: the graph, heading subnodes and
  cycle detection.
- `src/check.rs`, `src/cli.rs`: the formal checks, the report and its text form.
- `src/settings.rs`, `src/common.rs`: settings read from `.legixy.toml`.
- `src/ctx/`: context compilation (targets, upstream walk, rendering, audit log).
- `src/feedback/`: observations, proposals and their review.
- `src/store.rs`, `src/snapshot.rs`, `src/refresh.rs`: the embedding store, snapshots
  and subnode renames.
- `src/embed/`: content normalization and hashing, the embedding run's decisions,
  drift detection and baselines, pair selection for similarity scores.
- `app/`: argument parsing, files, the SQLite engine database, and the floating-point
  parts (similarity scores, report, calibration, drift values).
