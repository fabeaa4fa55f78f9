# nuked

Finds stale dependency folders (`node_modules`, Python virtual environments)
and package-manager caches, reports how much space they take, and lets the user
move the chosen ones to the OS trash.

The library under `src/` is written in Verus: every function states what it
returns in its contract, and Verus proves the code meets it.

- `text`, `path`, `sort`, `time`: character-level text helpers, paths compared
  component by component, stable sorting, points and lengths of time.
- `age`: age thresholds such as `7d` or `3m`, their labels and how they are read.
- `ignore`: `.nukedignore` rules, compiled with `globset`.
- `scanner`: what counts as a dependency folder and whose project owns it, what a
  walk of a root does with each entry, and the totals of a scan.
- `fuzzy`: fuzzy matching of folders against a query, and the order of matches.
- `display`: sizes (through `humansize`), ages, bars, percentages and the figures
  of the dry-run report.
- `cache`: where npm and pip keep their caches, and caches presented as a scan.
- `profiles`: saved profiles and the settings they supply.
- `report`: the machine-readable reports.
- `tui`: the interactive session as a state machine: each key and its effect.

`app/` is the program around the library: command-line arguments, walking the
file system, reading the profiles file, writing JSON, drawing the terminal
screen and moving folders to the trash.
