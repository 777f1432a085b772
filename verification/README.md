# ranger

A personal task tracker: backlogs of tasks in four states (icebox, ready,
in progress, done), ordered by lexicographic position strings, tagged and
commented, driven from the command line or a web board.

The crate has two parts.

- `src/` is the library, verified with Verus. It holds the logic of the
  tracker with its contracts and laws:
  - `position` — position strings: `between`, `spread`, `midpoint`, and the
    laws that a new position sorts strictly between its bounds and that
    spread positions are strictly increasing.
  - `key` — random task keys, shortest unique prefixes (and the table of
    them, `PrefixLengths`), and prefix resolution (every prefix of a key from
    its shortest unique one up to the whole key resolves back to it).
  - `ops::task` — where a task goes when it is created, moved next to
    another task, or changes state, computed from the positions of its
    backlog; rebalancing; the list query.
  - `ops::edge` and `ops::dag` — dependency edges: the Kahn order of tasks
    under `before` edges (smallest task ID first among those ready), the
    graph petgraph builds from the edges and its cycle check, and the
    topological sort of all edges with the same tie-break.
  - `editor` — the text a task is edited as in `$EDITOR`, and how the
    saved text is read back into a title and a description.
  - `models`, `error`, `output`, `board`, `cli`, `db`, `timestamp`, `text` —
    the data model, error texts, display decisions, and the small decisions
    of the command line, the web board and the database housekeeping.
- `app/` is the `ranger` program around the library: argument parsing with
  lexopt, the SQLite store through sqlx, the axum/maud web board, and the
  serde and sqlx versions of the library's records.

`tests/` runs the library on concrete values.
