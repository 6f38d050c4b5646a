# pebble

A task tracker whose tasks are Markdown files with YAML frontmatter. Tasks
name their prerequisites, so together they form a dependency graph; the
tracker answers which tasks are ready, which one to work on next, what a
task blocks, and whether the graph is healthy.

## Layout

- `src/` is the library, verified with Verus. It holds the model of tasks
  and statuses, the graph and its rankings (`graph`, `ordering`), listing and
  search, the reading and writing of task files (`parser`, `task_files`,
  `roundtrip`), loading (`loading`), updates (`update`, `adding`,
  `archive`), the health check and its repairs (`diagnostics`), the
  configuration, the command-line dispatch, the issue store (`store`,
  `issue_update`) and the sync worktree (`worktree`, a state machine whose
  actions the program carries out).
- `tests/` exercises the library on concrete inputs.
- `app/` is the `pebble` program: argument parsing, file and process I/O,
  and the serialized forms (YAML, TOML, JSON) of the library's values.
