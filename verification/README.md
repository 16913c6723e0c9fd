# codesage_graph

Reasoning over a project's code graph and its Git history: what depends on a
change, which tests reach it, how risky it is, what an editor should know before
touching a file, and whether the index still matches the head commit.

The library decides and states what it decides. It does no I/O: rows of an
index, the output of Git and the text of files come in as plain values. Where
reading and deciding take turns, the library is a machine that says what to read
next and takes the answer.

## Layout

- `src/`: the verified library.
  - Text and order: `text`, `order`, `paths`, `calendar`, `globs`, `model`.
  - Resolution: `imports`, `resolution`, `symbols`, `import_graph`.
  - Walks: `impact`, `walk_run`, `walk_course`, `walk_cache`, `resolver`,
    `impact_report`, `call_path`.
  - Context: `bundle`, `surroundings`, `context`, `brief`.
  - Indexing and drift: `index`, `drift`, `drift_scan`, `drift_compare`,
    `drift_log`, `hook_health`.
  - Edits and branches: `syntax`, `edit_check`, `edit_callers`, `edit_report`,
    `branch_overlap`.
  - `history/`: commits, co-change, risk, authorship, test recommendation and
    test commands.
- `tests/`: scenarios, run against the compiled library.
- `app/`: ordinary Rust around the library: Git, files, the index store, the
  parsers, and whatever is computed in floating point.

Functions named `law_…` state what holds of the library as a whole.

Weights, scores and shares are floating-point numbers. They are computed in
`app/`, which hands the library integers that order alike and the texts that it
shows.
