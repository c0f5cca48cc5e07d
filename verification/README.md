# levi

A git-aware, distributed issue tracker, with its core logic verified in
Verus. A task's status is a function of git history: a task closed at
commit X is closed only where X is an ancestor of HEAD. Events travel with
the repository (`refs/levi/events`) and replay the same way on every node.

## Layout

- `src/` — the verified library. Each module states its behaviour in
  `requires` / `ensures` over spec functions, and the laws that span several
  functions stand as public proof functions named `law_*`.
  - `materialize` — replay of the event log into state, last writer wins by
    (created_at, event id); replay is independent of arrival order.
  - `resolve`, `ancestors`, `facts` — per-checkout status resolution against an
    ancestor set (a git repository, or the commit facts alone); `AncestorSet`
    logs every query, so the query pattern and caching are stated too.
  - `rank`, `commands`, `edit`, `dep`, `ids`, `lookup` — what the CLI computes:
    eligible work and its order, claims, short ids, edits, dependency cycles.
  - `merkle`, `sync`, `store`, `hub`, `hub_client` — sync: bucket hashes,
    what to push and pull, the git leg's retry decisions, the hub's guard.
  - `graph`, `graph_view`, `sections`, `browse`, `dash`, `foreign`,
    `crossproject` — the dashboard's graph, sections and lists, and
    cross-project blockers.
  - `strmap`, `sort`, `seqs`, `text` — verified building blocks.
- `tests/` — tests run against the compiled library.
- `app/` — the command-line program and the I/O around the library (git,
  files, the hub connection, serialisation), not verified.

Calls into outside crates (chrono, sha2, base64, gix) stand behind small
trusted wrappers whose doc comments say what their contracts assume.
