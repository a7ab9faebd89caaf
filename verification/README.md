# proccie

A process manager in the style of foreman/overmind: it runs the processes of a
`Procfile.toml` (or a plain `Procfile`) with dependencies, readiness checks,
retries, per-process environments and log files, and shows their output either
as one prefixed stream or in a tabbed, searchable terminal UI.

The library in `src/` holds the logic, each function with a contract proved by
Verus:

- `config/` — the config model, TOML/plain Procfile reading rules, validation,
  the dependency graph (cycles, start order, reachability, dependents),
  environment layering, filtering by `--only`/`--except`, and error messages.
- `logger/` — log levels, prefixes and padding, the line buffer, smart-case
  search, ANSI stripping, and the capped per-tag store with its merge.
- `runner/` — exit classification, retries, dependency results, the
  supervisor's bookkeeping (groups, stops, restart batches, leftovers), and
  readiness decisions including the streaming output watch.
- `tui/` — keys, the search box, tabs and scrolling, what each key decides,
  and the text of the screen (highlighting, footer, tab icons, viewport).
- `service.rs`, `theme.rs`, `strmap.rs`, `text.rs` — statuses and colors, the
  palette and color parser, a sorted string map, and text helpers.

`app/` is the program around it: command-line flags, reading files, the Tokio
runtime that spawns and signals processes, and drawing with ratatui.
