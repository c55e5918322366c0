# rclean

Reclaims the space that build artifacts take up in all projects beside the
current one: Cargo targets, `node_modules`, Python environments and scratch
directories.

- `src/` is the verified library. It decides: what to ask the file system next
  and what to make of the answer, which directories may be deleted, what is
  shown. Every function has a contract, and `law_*` proof functions state what
  holds of the library as a whole.
  - `path`, `path_set`, `text`, `binary`, `format`: paths by components, texts,
    floating point in whole numbers, and how things are shown.
  - `discover`, `remove`, `execute`, `path_lock`, `proc`: the walk, the removal,
    the execution of an action, exclusive paths, child processes. Walk, removal
    and execution are state machines: `request` says what is wanted, and the
    answer is handed back.
  - `action`, `summary`, `ui`, `screen`, `dashboard`: actions and their
    progress, and the two displays.
  - `disk`, `walk_on_disk`, `removal_on_disk`, `removal_laws`,
    `execution_laws`: what walks, removals and executions come to.
- `app/` is the program around it: the file system, processes, threads and the
  terminal.
- `tests/` runs the library against file systems in memory.
