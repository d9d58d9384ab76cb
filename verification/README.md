# engage

A process composer: it spawns the processes of an Engage file in the order
that their dependencies give, as soon as those dependencies are ready, and
stops them in the reverse order.

The library under `src/` holds the logic, with its contracts proved by Verus:

- `name`: process names (`^[a-z0-9-]+$`, not starting with `-`).
- `semver`, `config`: version compatibility, processes and their
  configuration, and its validation.
- `graph`: building the graph of processes, finding dependency cycles,
  selecting a process and its dependencies, and the order in which
  processes are started (stopping at the first failure) and stopped.
- `engage`, `group_graph`, `listing`: Engage files made of groups of tasks,
  the graph of groups and tasks, their parallel schedule and their listing.
- `run`, `output`, `message`, `report`, `text`, `error`, `util`: the
  decisions taken while processes run, and the text that is printed.

`app/` is the command line program around the library: argument parsing,
reading the file, spawning processes and printing. `app/tasks.rs` does the
same I/O for Engage files of groups and tasks.
